use vstd::prelude::*;

use crate::aggregate::{
    distinct,
    flatten,
    is_ranking,
    lemma_distinct,
    lemma_index_of_unique,
    occurs,
    ranks_before,
    score,
};

verus! {

/// Sum, over the sources, of the positions at which `t` occurs in each.
pub open spec fn score_by_source(sources: Seq<Vec<(usize, String)>>, t: Seq<char>) -> int
    decreases sources.len(),
{
    if sources.len() == 0 {
        0
    } else {
        score_by_source(sources.drop_last(), t) + score(sources.last()@, t)
    }
}

/// `t` occurs in `es` at index `j` and nowhere else.
pub open spec fn only_at(es: Seq<(usize, String)>, t: Seq<char>, j: int) -> bool {
    &&& 0 <= j < es.len()
    &&& es[j].1@ == t
    &&& forall|k: int| 0 <= k < es.len() && k != j ==> #[trigger] es[k].1@ != t
}

/// Some source carries the text `t`.
pub open spec fn in_some_source(sources: Seq<Vec<(usize, String)>>, t: Seq<char>) -> bool {
    exists|s: int, j: int|
        0 <= s < sources.len() && 0 <= j < sources[s]@.len() && #[trigger] sources[s]@[j].1@ == t
}

proof fn lemma_score_append(a: Seq<(usize, String)>, b: Seq<(usize, String)>, t: Seq<char>)
    ensures
        score(a + b, t) == score(a, t) + score(b, t),
    decreases b.len(),
{
    if b.len() > 0 {
        lemma_score_append(a, b.drop_last(), t);
        assert((a + b).drop_last() =~= a + b.drop_last());
    } else {
        assert(a + b =~= a);
    }
}

proof fn lemma_score_flatten(sources: Seq<Vec<(usize, String)>>, t: Seq<char>)
    ensures
        score(flatten(sources), t) == score_by_source(sources, t),
    decreases sources.len(),
{
    if sources.len() > 0 {
        lemma_score_flatten(sources.drop_last(), t);
        lemma_score_append(flatten(sources.drop_last()), sources.last()@, t);
    }
}

proof fn lemma_occurs_flatten(sources: Seq<Vec<(usize, String)>>, t: Seq<char>)
    ensures
        occurs(flatten(sources), t) <==> in_some_source(sources, t),
    decreases sources.len(),
{
    if sources.len() > 0 {
        let p = sources.drop_last();
        let a = flatten(p);
        let b = sources.last()@;
        lemma_occurs_flatten(p, t);
        if occurs(a + b, t) {
            let i = choose|i: int| 0 <= i < (a + b).len() && #[trigger] (a + b)[i].1@ == t;
            if i < a.len() {
                assert(a[i] == (a + b)[i]);
                let (s, j) = choose|s: int, j: int|
                    0 <= s < p.len() && 0 <= j < p[s]@.len() && #[trigger] p[s]@[j].1@ == t;
                assert(sources[s] == p[s]);
            } else {
                assert(b[i - a.len()] == (a + b)[i]);
                assert(sources[sources.len() - 1]@[i - a.len()].1@ == t);
            }
        }
        if in_some_source(sources, t) {
            let (s, j) = choose|s: int, j: int|
                0 <= s < sources.len() && 0 <= j < sources[s]@.len() && #[trigger] sources[s]@[j].1@ == t;
            if s < p.len() {
                assert(p[s] == sources[s]);
                assert(in_some_source(p, t));
                let i = choose|i: int| 0 <= i < a.len() && #[trigger] a[i].1@ == t;
                assert((a + b)[i] == a[i]);
            } else {
                assert((a + b)[a.len() + j] == b[j]);
            }
        }
    }
}

proof fn lemma_score_absent(es: Seq<(usize, String)>, t: Seq<char>)
    requires
        !occurs(es, t),
    ensures
        score(es, t) == 0,
{
    lemma_distinct(es);
}

proof fn lemma_score_only_at(es: Seq<(usize, String)>, t: Seq<char>, j: int)
    requires
        only_at(es, t, j),
    ensures
        score(es, t) == es[j].0,
    decreases es.len(),
{
    let p = es.drop_last();
    if j == es.len() - 1 {
        assert forall|i: int| 0 <= i < p.len() implies #[trigger] p[i].1@ != t by {
            assert(es[i] == p[i]);
        }
        lemma_score_absent(p, t);
    } else {
        assert forall|k: int| 0 <= k < p.len() && k != j implies #[trigger] p[k].1@ != t by {
            assert(es[k] == p[k]);
        }
        assert(p[j] == es[j]);
        lemma_score_only_at(p, t, j);
        assert(es[es.len() - 1].1@ != t);
    }
}

/// The sources other than those in `keep` do not carry `t`: the score by source
/// is the sum over the kept ones.
proof fn lemma_score_by_source_kept(sources: Seq<Vec<(usize, String)>>, t: Seq<char>, s0: int, s1: int)
    requires
        forall|s: int| 0 <= s < sources.len() && s != s0 && s != s1 ==> !occurs(#[trigger] sources[s]@, t),
    ensures
        score_by_source(sources, t) == (if 0 <= s0 < sources.len() {
            score(sources[s0]@, t)
        } else {
            0
        }) + (if 0 <= s1 < sources.len() && s1 != s0 {
            score(sources[s1]@, t)
        } else {
            0
        }),
    decreases sources.len(),
{
    if sources.len() > 0 {
        let p = sources.drop_last();
        let last = sources.len() - 1;
        assert forall|s: int| 0 <= s < p.len() && s != s0 && s != s1 implies !occurs(#[trigger] p[s]@, t) by {
            assert(p[s] == sources[s]);
        }
        lemma_score_by_source_kept(p, t, s0, s1);
        if last != s0 && last != s1 {
            lemma_score_absent(sources[last]@, t);
        }
        if 0 <= s0 < p.len() {
            assert(p[s0] == sources[s0]);
        }
        if 0 <= s1 < p.len() {
            assert(p[s1] == sources[s1]);
        }
    }
}

/// The ranked list holds exactly the texts that occur in some source, each once.
pub proof fn law_ranking_keeps_every_text(sources: Seq<Vec<(usize, String)>>, r: Seq<(String, usize)>)
    requires
        is_ranking(flatten(sources), r),
    ensures
        forall|t: Seq<char>|
            (exists|i: int| 0 <= i < r.len() && #[trigger] r[i].0@ == t) <==> in_some_source(sources, t),
        forall|i: int, j: int| 0 <= i < j < r.len() ==> #[trigger] r[i].0@ != #[trigger] r[j].0@,
{
    let es = flatten(sources);
    let d = distinct(es);
    lemma_distinct(es);
    assert forall|t: Seq<char>|
        (exists|i: int| 0 <= i < r.len() && #[trigger] r[i].0@ == t) <==> in_some_source(sources, t) by {
        lemma_occurs_flatten(sources, t);
        if exists|i: int| 0 <= i < r.len() && #[trigger] r[i].0@ == t {
            let i = choose|i: int| 0 <= i < r.len() && #[trigger] r[i].0@ == t;
            assert(d.contains(r[i].0@));
        }
        if in_some_source(sources, t) {
            assert(d.contains(t));
        }
    }
    assert forall|i: int, j: int| 0 <= i < j < r.len() implies #[trigger] r[i].0@ != #[trigger] r[j].0@ by {
        assert(d.contains(r[i].0@));
        assert(d.contains(r[j].0@));
    }
}

/// A text that occurs once, at position `p` of a single source, is scored `p`.
pub proof fn law_score_of_single_occurrence(
    sources: Seq<Vec<(usize, String)>>,
    r: Seq<(String, usize)>,
    s: int,
    j: int,
)
    requires
        is_ranking(flatten(sources), r),
        0 <= s < sources.len(),
        only_at(sources[s]@, sources[s]@[j].1@, j),
        forall|s2: int| 0 <= s2 < sources.len() && s2 != s ==> !occurs(#[trigger] sources[s2]@, sources[s]@[j].1@),
    ensures
        exists|i: int| 0 <= i < r.len() && #[trigger] r[i].0@ == sources[s]@[j].1@,
        forall|i: int| 0 <= i < r.len() && #[trigger] r[i].0@ == sources[s]@[j].1@ ==> r[i].1 == sources[s]@[j].0,
{
    let t = sources[s]@[j].1@;
    law_ranking_keeps_every_text(sources, r);
    assert(in_some_source(sources, t));
    lemma_score_flatten(sources, t);
    lemma_score_by_source_kept(sources, t, s, s);
    lemma_score_only_at(sources[s]@, t, j);
}

/// A text that occurs once in each of two sources, at positions `p` and `q`,
/// and in no other source, is scored `p + q`.
pub proof fn law_score_of_two_occurrences(
    sources: Seq<Vec<(usize, String)>>,
    r: Seq<(String, usize)>,
    s0: int,
    j0: int,
    s1: int,
    j1: int,
)
    requires
        is_ranking(flatten(sources), r),
        0 <= s0 < sources.len(),
        0 <= s1 < sources.len(),
        s0 != s1,
        only_at(sources[s0]@, sources[s0]@[j0].1@, j0),
        only_at(sources[s1]@, sources[s0]@[j0].1@, j1),
        forall|s: int|
            0 <= s < sources.len() && s != s0 && s != s1 ==> !occurs(#[trigger] sources[s]@, sources[s0]@[j0].1@),
    ensures
        exists|i: int| 0 <= i < r.len() && #[trigger] r[i].0@ == sources[s0]@[j0].1@,
        forall|i: int|
            0 <= i < r.len() && #[trigger] r[i].0@ == sources[s0]@[j0].1@ ==> r[i].1 == sources[s0]@[j0].0
                + sources[s1]@[j1].0,
{
    let t = sources[s0]@[j0].1@;
    law_ranking_keeps_every_text(sources, r);
    assert(in_some_source(sources, t));
    lemma_score_flatten(sources, t);
    lemma_score_by_source_kept(sources, t, s0, s1);
    lemma_score_only_at(sources[s0]@, t, j0);
    lemma_score_only_at(sources[s1]@, t, j1);
}

/// The ranked list is sorted by score: no entry scores more than the next.
pub proof fn law_ranking_is_sorted(es: Seq<(usize, String)>, r: Seq<(String, usize)>)
    requires
        is_ranking(es, r),
    ensures
        forall|i: int| 0 <= i < r.len() - 1 ==> #[trigger] r[i].1 <= r[i + 1].1,
{
    assert forall|i: int| 0 <= i < r.len() - 1 implies #[trigger] r[i].1 <= r[i + 1].1 by {
        assert(crate::aggregate::ranks_before(distinct(es), r[i], r[i + 1]));
    }
}

proof fn lemma_distinct_of_unique(g: Seq<(usize, String)>)
    requires
        forall|a: int, b: int| 0 <= a < b < g.len() ==> #[trigger] g[a].1@ != #[trigger] g[b].1@,
    ensures
        distinct(g) == g.map_values(|e: (usize, String)| e.1@),
    decreases g.len(),
{
    if g.len() > 0 {
        let p = g.drop_last();
        assert forall|a: int, b: int| 0 <= a < b < p.len() implies #[trigger] p[a].1@ != #[trigger] p[b].1@ by {
            assert(p[a] == g[a] && p[b] == g[b]);
        }
        lemma_distinct_of_unique(p);
        lemma_distinct(p);
        if distinct(p).contains(g.last().1@) {
            let a = choose|a: int| 0 <= a < distinct(p).len() && distinct(p)[a] == g.last().1@;
            assert(p[a] == g[a]);
            assert(g[a].1@ == g[g.len() - 1].1@);
        }
        assert(distinct(g) =~= g.map_values(|e: (usize, String)| e.1@));
    }
}

proof fn lemma_increasing_is_identity(p: Seq<int>, i: int)
    requires
        forall|a: int| 0 <= a < p.len() ==> 0 <= #[trigger] p[a] < p.len(),
        forall|a: int, b: int| 0 <= a < b < p.len() ==> #[trigger] p[a] < #[trigger] p[b],
        0 <= i < p.len(),
    ensures
        p[i] == i,
{
    lemma_increasing_above(p, i);
    lemma_increasing_below(p, i);
}

proof fn lemma_increasing_above(p: Seq<int>, i: int)
    requires
        forall|a: int| 0 <= a < p.len() ==> 0 <= #[trigger] p[a] < p.len(),
        forall|a: int, b: int| 0 <= a < b < p.len() ==> #[trigger] p[a] < #[trigger] p[b],
        0 <= i < p.len(),
    ensures
        p[i] >= i,
    decreases i,
{
    if i > 0 {
        lemma_increasing_above(p, i - 1);
        assert(p[i - 1] < p[i]);
    }
}

proof fn lemma_increasing_below(p: Seq<int>, i: int)
    requires
        forall|a: int| 0 <= a < p.len() ==> 0 <= #[trigger] p[a] < p.len(),
        forall|a: int, b: int| 0 <= a < b < p.len() ==> #[trigger] p[a] < #[trigger] p[b],
        0 <= i < p.len(),
    ensures
        p[i] <= i,
    decreases p.len() - i,
{
    if i < p.len() - 1 {
        lemma_increasing_below(p, i + 1);
        assert(p[i] < p[i + 1]);
    }
}

/// Entries with pairwise different texts and non-decreasing positions rank in
/// their own order, each text scored by its position.
proof fn lemma_sorted_distinct_ranks_in_order(g: Seq<(usize, String)>, r2: Seq<(String, usize)>)
    requires
        is_ranking(g, r2),
        forall|a: int, b: int| 0 <= a < b < g.len() ==> #[trigger] g[a].1@ != #[trigger] g[b].1@,
        forall|a: int, b: int| 0 <= a < b < g.len() ==> #[trigger] g[a].0 <= #[trigger] g[b].0,
    ensures
        r2.len() == g.len(),
        forall|i: int| 0 <= i < g.len() ==> #[trigger] r2[i].0@ == g[i].1@ && r2[i].1 == g[i].0,
{
    lemma_distinct_of_unique(g);
    lemma_distinct(g);
    let d2 = distinct(g);
    let p = Seq::new(r2.len(), |i: int| d2.index_of(r2[i].0@));
    assert forall|i: int| 0 <= i < r2.len() implies 0 <= #[trigger] p[i] < r2.len() && d2[p[i]] == r2[i].0@
        && r2[i].1 == g[p[i]].0 by {
        assert(d2.contains(r2[i].0@));
        let m = p[i];
        assert(d2[m] == g[m].1@);
        assert(only_at(g, g[m].1@, m)) by {
            assert forall|k: int| 0 <= k < g.len() && k != m implies #[trigger] g[k].1@ != g[m].1@ by {
                if k < m {
                    assert(g[k].1@ != g[m].1@);
                } else {
                    assert(g[m].1@ != g[k].1@);
                }
            }
        }
        lemma_score_only_at(g, g[m].1@, m);
    }
    assert forall|a: int, b: int| 0 <= a < b < p.len() implies #[trigger] p[a] < #[trigger] p[b] by {
        assert(ranks_before(d2, r2[a], r2[b]));
        lemma_index_of_unique(d2, p[a]);
        lemma_index_of_unique(d2, p[b]);
        if p[b] < p[a] {
            assert(g[p[b]].0 <= g[p[a]].0);
        }
    }
    assert forall|i: int| 0 <= i < g.len() implies #[trigger] r2[i].0@ == g[i].1@ && r2[i].1 == g[i].0 by {
        lemma_increasing_is_identity(p, i);
        assert(d2[i] == g[i].1@);
    }
}

/// Sources whose entries, taken source after source, have pairwise different
/// texts and non-decreasing positions rank in that order, each text scored by
/// its position.
pub proof fn law_sorted_distinct_ranks_in_order(sources: Seq<Vec<(usize, String)>>, r: Seq<(String, usize)>)
    requires
        is_ranking(flatten(sources), r),
        forall|a: int, b: int|
            0 <= a < b < flatten(sources).len() ==> #[trigger] flatten(sources)[a].1@
                != #[trigger] flatten(sources)[b].1@,
        forall|a: int, b: int|
            0 <= a < b < flatten(sources).len() ==> #[trigger] flatten(sources)[a].0
                <= #[trigger] flatten(sources)[b].0,
    ensures
        r.len() == flatten(sources).len(),
        forall|i: int|
            0 <= i < r.len() ==> #[trigger] r[i].0@ == flatten(sources)[i].1@ && r[i].1 == flatten(
                sources,
            )[i].0,
{
    lemma_sorted_distinct_ranks_in_order(flatten(sources), r);
}

/// Ranking again a ranked list, each text given once with its score as its
/// position (spread over any number of sources), gives back the same list in
/// the same order.
pub proof fn law_reranking_keeps_order(
    es: Seq<(usize, String)>,
    r: Seq<(String, usize)>,
    again: Seq<Vec<(usize, String)>>,
    r2: Seq<(String, usize)>,
)
    requires
        is_ranking(es, r),
        flatten(again).len() == r.len(),
        forall|i: int|
            0 <= i < r.len() ==> #[trigger] flatten(again)[i].0 == r[i].1 && flatten(again)[i].1@
                == r[i].0@,
        is_ranking(flatten(again), r2),
    ensures
        r2.len() == r.len(),
        forall|i: int| 0 <= i < r.len() ==> #[trigger] r2[i].0@ == r[i].0@ && r2[i].1 == r[i].1,
{
    let g = flatten(again);
    let d = distinct(es);
    lemma_distinct(es);
    assert forall|a: int, b: int| 0 <= a < b < g.len() implies #[trigger] g[a].1@ != #[trigger] g[b].1@ by {
        assert(g[a].0 == r[a].1 && g[b].0 == r[b].1);
        assert(d.contains(r[a].0@) && d.contains(r[b].0@));
        assert(ranks_before(d, r[a], r[b]));
        assert(r[a].1 == score(es, r[a].0@) && r[b].1 == score(es, r[b].0@));
    }
    assert forall|a: int, b: int| 0 <= a < b < g.len() implies #[trigger] g[a].0 <= #[trigger] g[b].0 by {
        assert(g[a].0 == r[a].1 && g[b].0 == r[b].1);
        assert(ranks_before(d, r[a], r[b]));
    }
    lemma_sorted_distinct_ranks_in_order(g, r2);
    assert forall|i: int| 0 <= i < r.len() implies #[trigger] r2[i].0@ == r[i].0@ && r2[i].1 == r[i].1 by {
        assert(g[i].0 == r[i].1);
    }
}

} // verus!
