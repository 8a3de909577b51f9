use vstd::prelude::*;

verus! {

/// All (position, text) pairs of a list of sources, source after source, each
/// source in its own order.
pub open spec fn flatten(sources: Seq<Vec<(usize, String)>>) -> Seq<(usize, String)>
    decreases sources.len(),
{
    if sources.len() == 0 {
        Seq::empty()
    } else {
        flatten(sources.drop_last()) + sources.last()@
    }
}

/// Sum of the positions at which `t` occurs among the entries.
pub open spec fn score(es: Seq<(usize, String)>, t: Seq<char>) -> int
    decreases es.len(),
{
    if es.len() == 0 {
        0
    } else {
        score(es.drop_last(), t) + (if es.last().1@ == t {
            es.last().0 as int
        } else {
            0
        })
    }
}

/// Sum of all positions among the entries.
pub open spec fn total(es: Seq<(usize, String)>) -> int
    decreases es.len(),
{
    if es.len() == 0 {
        0
    } else {
        total(es.drop_last()) + es.last().0 as int
    }
}

/// The distinct texts of the entries, in the order in which each is first seen.
pub open spec fn distinct(es: Seq<(usize, String)>) -> Seq<Seq<char>>
    decreases es.len(),
{
    if es.len() == 0 {
        Seq::empty()
    } else {
        let d = distinct(es.drop_last());
        if d.contains(es.last().1@) {
            d
        } else {
            d.push(es.last().1@)
        }
    }
}

/// Some entry carries the text `t`.
pub open spec fn occurs(es: Seq<(usize, String)>, t: Seq<char>) -> bool {
    exists|i: int| 0 <= i < es.len() && #[trigger] es[i].1@ == t
}

pub proof fn lemma_distinct(es: Seq<(usize, String)>)
    ensures
        distinct(es).no_duplicates(),
        forall|t: Seq<char>| distinct(es).contains(t) <==> occurs(es, t),
        forall|t: Seq<char>| !distinct(es).contains(t) ==> score(es, t) == 0,
    decreases es.len(),
{
    if es.len() > 0 {
        let p = es.drop_last();
        let d = distinct(p);
        let x = es.last().1@;
        lemma_distinct(p);
        assert(distinct(es).contains(x)) by {
            if d.contains(x) {
            } else {
                assert(d.push(x)[d.len() as int] == x);
            }
        }
        assert forall|t: Seq<char>| d.contains(t) implies distinct(es).contains(t) by {
            let j = choose|j: int| 0 <= j < d.len() && d[j] == t;
            if !d.contains(x) {
                assert(d.push(x)[j] == t);
            }
        }
        assert forall|t: Seq<char>| !distinct(es).contains(t) implies score(es, t) == 0 by {
            assert(!d.contains(t));
            assert(t != x);
            assert(score(p, t) == 0);
            assert(score(es, t) == score(p, t));
        }
        assert forall|t: Seq<char>| distinct(es).contains(t) <==> occurs(es, t) by {
            if occurs(p, t) {
                let i = choose|i: int| 0 <= i < p.len() && #[trigger] p[i].1@ == t;
                assert(es[i] == p[i]);
            }
            if occurs(es, t) && x != t {
                let i = choose|i: int| 0 <= i < es.len() && #[trigger] es[i].1@ == t;
                assert(p[i] == es[i]);
            }
            if x == t {
                assert(es[es.len() - 1].1@ == t);
            }
            if distinct(es).contains(t) && t != x {
                let j = choose|j: int| 0 <= j < distinct(es).len() && distinct(es)[j] == t;
                if !d.contains(x) {
                    assert(j < d.len());
                }
                assert(d[j] == t);
            }
        }
    }
}

proof fn lemma_score_bounded(es: Seq<(usize, String)>, t: Seq<char>)
    ensures
        0 <= score(es, t) <= total(es),
    decreases es.len(),
{
    if es.len() > 0 {
        lemma_score_bounded(es.drop_last(), t);
    }
}

/// `a` ranks before `b` among the distinct texts `d`: a lower score, or an equal
/// score and a text seen first earlier.
pub open spec fn ranks_before(d: Seq<Seq<char>>, a: (String, usize), b: (String, usize)) -> bool {
    a.1 < b.1 || (a.1 == b.1 && d.index_of(a.0@) < d.index_of(b.0@))
}

/// `r` is the ranked list of the entries: each distinct text once, with its
/// summed positions as score, ascending by score, ties in first-seen order.
pub open spec fn is_ranking(es: Seq<(usize, String)>, r: Seq<(String, usize)>) -> bool {
    let d = distinct(es);
    &&& r.len() == d.len()
    &&& forall|i: int| 0 <= i < r.len() ==> #[trigger] d.contains(r[i].0@)
    &&& forall|i: int| 0 <= i < r.len() ==> #[trigger] r[i].1 == score(es, r[i].0@)
    &&& forall|t: Seq<char>| #[trigger] d.contains(t) ==> exists|i: int| 0 <= i < r.len() && r[i].0@ == t
    &&& forall|i: int, j: int| 0 <= i < j < r.len() ==> ranks_before(d, #[trigger] r[i], #[trigger] r[j])
}

pub proof fn lemma_index_of_unique(d: Seq<Seq<char>>, k: int)
    requires
        d.no_duplicates(),
        0 <= k < d.len(),
    ensures
        d.index_of(d[k]) == k,
{
    assert(d.contains(d[k]));
}

/// Accumulates the entries: the distinct texts in first-seen order, each with
/// the sum of its positions.
fn accumulate(es: &Vec<(usize, String)>) -> (r: (Vec<String>, Vec<usize>))
    requires
        total(es@) <= usize::MAX,
    ensures
        r.0@.len() == distinct(es@).len(),
        r.1@.len() == distinct(es@).len(),
        forall|k: int| 0 <= k < r.0@.len() ==> #[trigger] r.0@[k]@ == distinct(es@)[k],
        forall|k: int| 0 <= k < r.1@.len() ==> #[trigger] r.1@[k] == score(es@, distinct(es@)[k]),
{
    let mut texts: Vec<String> = Vec::new();
    let mut scores: Vec<usize> = Vec::new();
    let mut i: usize = 0;
    while i < es.len()
        invariant
            i <= es@.len(),
            total(es@) <= usize::MAX,
            texts@.len() == distinct(es@.take(i as int)).len(),
            scores@.len() == texts@.len(),
            forall|k: int| 0 <= k < texts@.len() ==> #[trigger] texts@[k]@ == distinct(es@.take(i as int))[k],
            forall|k: int|
                0 <= k < scores@.len() ==> #[trigger] scores@[k] == score(
                    es@.take(i as int),
                    distinct(es@.take(i as int))[k],
                ),
        decreases es@.len() - i,
    {
        let ghost done = es@.take(i as int);
        let ghost next = es@.take(i + 1);
        let ghost d = distinct(done);
        assert(next.drop_last() =~= done);
        proof {
            lemma_distinct(done);
            lemma_score_bounded(next, es@[i as int].1@);
            lemma_total_prefix(es@, i + 1);
        }
        let p = es[i].0;
        let t = &es[i].1;
        let mut k: usize = 0;
        let mut found = false;
        while !found && k < texts.len()
            invariant
                k <= texts@.len(),
                texts@.len() == d.len(),
                forall|m: int| 0 <= m < texts@.len() ==> #[trigger] texts@[m]@ == d[m],
                forall|m: int| 0 <= m < k ==> d[m] != t@,
                found ==> k < texts@.len() && d[k as int] == t@,
            decreases texts@.len() - k + (if found { 0int } else { 1int }),
        {
            if texts[k] == *t {
                found = true;
            } else {
                k = k + 1;
            }
        }
        let ghost before = scores@;
        assert(next.last() == es@[i as int]);
        if found {
            assert(distinct(next) == d) by {
                assert(d.contains(t@)) by { assert(d[k as int] == t@); }
            }
            let s = scores[k] + p;
            scores.set(k, s);
        } else {
            assert(!d.contains(t@));
            assert(distinct(next) == d.push(t@));
            texts.push(t.clone());
            scores.push(p);
        }
        i = i + 1;
        proof {
            let dn = distinct(next);
            assert forall|m: int| 0 <= m < scores@.len() implies #[trigger] scores@[m] == score(next, dn[m]) by {
                assert(score(next, dn[m]) == score(done, dn[m]) + (if t@ == dn[m] {
                    p as int
                } else {
                    0
                }));
                if m < d.len() {
                    assert(before[m] == score(done, d[m]));
                    if d[m] == t@ {
                        assert(m == k);
                    }
                } else {
                    assert(dn[m] == t@);
                }
            }
        }
    }
    assert(es@.take(es@.len() as int) =~= es@);
    (texts, scores)
}

spec fn hits(perm: Seq<int>, m: int) -> bool {
    exists|i: int| 0 <= i < perm.len() && #[trigger] perm[i] == m
}

/// Orders the accumulated texts by score, ties in the order given.
fn rank(texts: &Vec<String>, scores: &Vec<usize>, Ghost(d): Ghost<Seq<Seq<char>>>) -> (r: Vec<(String, usize)>)
    requires
        d.no_duplicates(),
        texts@.len() == d.len(),
        scores@.len() == d.len(),
        forall|k: int| 0 <= k < d.len() ==> #[trigger] texts@[k]@ == d[k],
    ensures
        r@.len() == d.len(),
        forall|i: int| 0 <= i < r@.len() ==> #[trigger] d.contains(r@[i].0@),
        forall|i: int| 0 <= i < r@.len() ==> #[trigger] r@[i].1 == scores@[d.index_of(r@[i].0@)],
        forall|t: Seq<char>| #[trigger] d.contains(t) ==> exists|i: int| 0 <= i < r@.len() && r@[i].0@ == t,
        forall|i: int, j: int| 0 <= i < j < r@.len() ==> ranks_before(d, #[trigger] r@[i], #[trigger] r@[j]),
{
    let mut out: Vec<(String, usize)> = Vec::new();
    let ghost mut perm: Seq<int> = Seq::empty();
    let mut k: usize = 0;
    while k < texts.len()
        invariant
            k <= d.len(),
            d.no_duplicates(),
            texts@.len() == d.len(),
            scores@.len() == d.len(),
            forall|m: int| 0 <= m < d.len() ==> #[trigger] texts@[m]@ == d[m],
            out@.len() == k,
            perm.len() == k,
            forall|i: int| 0 <= i < k ==> 0 <= #[trigger] perm[i] < k,
            forall|i: int| 0 <= i < k ==> #[trigger] out@[i].0@ == d[perm[i]],
            forall|i: int| 0 <= i < k ==> #[trigger] out@[i].1 == scores@[perm[i]],
            forall|i: int, j: int|
                0 <= i < j < k ==> scores@[#[trigger] perm[i]] < scores@[#[trigger] perm[j]] || (
                scores@[perm[i]] == scores@[perm[j]] && perm[i] < perm[j]),
            forall|m: int| 0 <= m < k ==> #[trigger] hits(perm, m),
        decreases d.len() - k,
    {
        let s = scores[k];
        let mut pos: usize = 0;
        while pos < out.len() && out[pos].1 <= s
            invariant
                pos <= out@.len(),
                forall|i: int| 0 <= i < pos ==> #[trigger] out@[i].1 <= s,
            decreases out@.len() - pos,
        {
            pos = pos + 1;
        }
        proof {
            assert forall|i: int| pos <= i < k implies s < #[trigger] out@[i].1 by {
                if pos < k {
                    assert(s < out@[pos as int].1);
                    if i > pos {
                        assert(scores@[perm[pos as int]] <= scores@[perm[i]]);
                    }
                }
            }
        }
        let ghost old_perm = perm;
        let ghost old_out = out@;
        out.insert(pos, (texts[k].clone(), s));
        proof {
            perm = perm.insert(pos as int, k as int);
            assert forall|m: int| 0 <= m < k + 1 implies #[trigger] hits(perm, m) by {
                if m == k {
                    assert(perm[pos as int] == m);
                } else {
                    assert(hits(old_perm, m));
                    let i = choose|i: int| 0 <= i < old_perm.len() && #[trigger] old_perm[i] == m;
                    if i < pos {
                        assert(perm[i] == m);
                    } else {
                        assert(perm[i + 1] == m);
                    }
                }
            }
            assert forall|i: int, j: int|
                0 <= i < j < k + 1 implies scores@[#[trigger] perm[i]] < scores@[#[trigger] perm[j]] || (
                scores@[perm[i]] == scores@[perm[j]] && perm[i] < perm[j]) by {
                let p = pos as int;
                if j < p {
                    assert(perm[i] == old_perm[i] && perm[j] == old_perm[j]);
                } else if j == p {
                    assert(perm[i] == old_perm[i]);
                    assert(old_out[i].1 <= s);
                } else if i < p {
                    assert(perm[i] == old_perm[i] && perm[j] == old_perm[j - 1]);
                } else if i == p {
                    assert(perm[j] == old_perm[j - 1]);
                    assert(s < old_out[j - 1].1);
                } else {
                    assert(perm[i] == old_perm[i - 1] && perm[j] == old_perm[j - 1]);
                }
            }
            assert forall|i: int| 0 <= i < k + 1 implies #[trigger] out@[i].1 == scores@[perm[i]] by {
                if i < pos {
                    assert(out@[i] == old_out[i]);
                } else if i > pos {
                    assert(out@[i] == old_out[i - 1]);
                }
            }
        }
        k = k + 1;
    }
    proof {
        assert forall|i: int| 0 <= i < out@.len() implies #[trigger] d.index_of(out@[i].0@) == perm[i] by {
            lemma_index_of_unique(d, perm[i]);
        }
        assert forall|i: int| 0 <= i < out@.len() implies #[trigger] d.contains(out@[i].0@) by {
            assert(d[perm[i]] == out@[i].0@);
        }
        assert forall|t: Seq<char>| #[trigger] d.contains(t) implies exists|i: int| 0 <= i < out@.len() && out@[i].0@ == t by {
            let m = choose|m: int| 0 <= m < d.len() && d[m] == t;
            assert(hits(perm, m));
            let i = choose|i: int| 0 <= i < perm.len() && #[trigger] perm[i] == m;
            assert(out@[i].0@ == t);
        }
        assert forall|i: int, j: int| 0 <= i < j < out@.len() implies ranks_before(d, #[trigger] out@[i], #[trigger] out@[j]) by {
            assert(d.index_of(out@[i].0@) == perm[i]);
            assert(d.index_of(out@[j].0@) == perm[j]);
        }
    }
    out
}

/// All entries of the sources, source after source.
fn concat_sources(sources: &Vec<Vec<(usize, String)>>) -> (r: Vec<(usize, String)>)
    ensures
        r@ == flatten(sources@),
{
    let mut out: Vec<(usize, String)> = Vec::new();
    let mut i: usize = 0;
    while i < sources.len()
        invariant
            i <= sources@.len(),
            out@ == flatten(sources@.take(i as int)),
        decreases sources@.len() - i,
    {
        let src = &sources[i];
        let ghost start = out@;
        let mut j: usize = 0;
        while j < src.len()
            invariant
                j <= src@.len(),
                out@ == start + src@.take(j as int),
            decreases src@.len() - j,
        {
            out.push((src[j].0, src[j].1.clone()));
            assert(src@.take(j + 1) =~= src@.take(j as int).push(src@[j as int]));
            assert((start + src@.take(j as int)).push(src@[j as int]) =~= start + src@.take(j + 1));
            j = j + 1;
        }
        assert(src@.take(j as int) =~= src@);
        assert(sources@.take(i + 1).drop_last() =~= sources@.take(i as int));
        i = i + 1;
    }
    assert(sources@.take(i as int) =~= sources@);
    out
}

/// Merges the ranked lists of several sources into one: every distinct text
/// once, scored by the sum of its positions across (and within) the sources,
/// ascending by score, equal scores in the order in which the texts were first
/// seen.
pub fn aggregate(sources: &Vec<Vec<(usize, String)>>) -> (r: Vec<(String, usize)>)
    requires
        total(flatten(sources@)) <= usize::MAX,
    ensures
        is_ranking(flatten(sources@), r@),
{
    let es = concat_sources(sources);
    let (texts, scores) = accumulate(&es);
    let ghost d = distinct(es@);
    proof {
        lemma_distinct(es@);
    }
    let r = rank(&texts, &scores, Ghost(d));
    proof {
        assert forall|i: int| 0 <= i < r@.len() implies #[trigger] r@[i].1 == score(es@, r@[i].0@) by {
            let k = d.index_of(r@[i].0@);
            assert(d.contains(r@[i].0@));
            assert(d[k] == r@[i].0@);
        }
    }
    r
}

/// Whether the positions of all sources sum to a `usize`, as `aggregate` needs.
pub fn positions_fit(sources: &Vec<Vec<(usize, String)>>) -> (r: bool)
    ensures
        r == (total(flatten(sources@)) <= usize::MAX),
{
    let es = concat_sources(sources);
    let mut sum: usize = 0;
    let mut i: usize = 0;
    while i < es.len()
        invariant
            i <= es@.len(),
            sum == total(es@.take(i as int)),
            es@ == flatten(sources@),
        decreases es@.len() - i,
    {
        assert(es@.take(i + 1).drop_last() =~= es@.take(i as int));
        assert(es@.take(i + 1).last() == es@[i as int]);
        assert(total(es@.take(i + 1)) == sum + es@[i as int].0);
        if es[i].0 > usize::MAX - sum {
            proof {
                lemma_total_prefix(es@, i + 1);
            }
            return false;
        }
        sum = sum + es[i].0;
        i = i + 1;
    }
    assert(es@.take(i as int) =~= es@);
    true
}

proof fn lemma_total_prefix(es: Seq<(usize, String)>, n: int)
    requires
        0 <= n <= es.len(),
    ensures
        total(es.take(n)) <= total(es),
    decreases es.len() - n,
{
    if n < es.len() {
        lemma_total_prefix(es, n + 1);
        assert(es.take(n + 1).drop_last() =~= es.take(n));
    } else {
        assert(es.take(n) =~= es);
    }
}

} // verus!
