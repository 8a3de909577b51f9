use vstd::prelude::*;

use crate::text::{normalize, normalized, split_words, words_of};

verus! {

/// One node of a parsed document, as the selection rules read it. Nodes are
/// held in document order; a node's parent, if any, comes before it.
pub struct HtmlNode {
    pub parent: Option<usize>,
    /// Element name; `None` for text and comment nodes.
    pub name: Option<String>,
    /// Value of the `id` attribute.
    pub id: Option<String>,
    /// Value of the `class` attribute.
    pub class_attr: Option<String>,
    /// The text of the node and of all its descendants.
    pub text: String,
}

/// What a node must be to match one step of a selection path.
pub enum NodeTest {
    /// An element whose class list holds this class.
    Class(String),
    /// An element whose `id` attribute has this value.
    Id(String),
    /// An element of this name.
    Name(String),
}

/// How a step relates to the node matched by the step before it.
#[derive(Clone, Copy, PartialEq, Eq, Structural)]
pub enum Link {
    /// Some ancestor matched the step before.
    Descendant,
    /// The parent matched the step before.
    Child,
}

/// One step of a selection path. The link of the first step is not read.
pub struct Step {
    pub link: Link,
    pub test: NodeTest,
}

pub open spec fn test_holds(n: HtmlNode, t: NodeTest) -> bool {
    match t {
        NodeTest::Class(c) => n.class_attr matches Some(a) && words_of(a@).contains(c@),
        NodeTest::Id(v) => n.id matches Some(x) && x@ == v@,
        NodeTest::Name(m) => n.name matches Some(x) && x@ == m@,
    }
}

// The selection paths are data: each source's path is a value that a markup
// change edits in one place. select builds its predicates as types fixed at
// compile time and has no evaluator for a path held as data, so the meaning of
// a path is stated and proved here. Each test and link means what the select
// predicate of that name means: `Class` a word of the class attribute, `Id` the
// `id` attribute, `Name` the element name, `Child` the parent, `Descendant`
// some ancestor; nodes are taken in document order, as `Document::find` does.

/// Node `i` matches the steps `0..=k` of the path: it passes step `k`, and the
/// node that step `k` links it to matches the steps before.
pub open spec fn path_matches(nodes: Seq<HtmlNode>, steps: Seq<Step>, k: nat, i: nat) -> bool
    decreases i, k, 1nat,
{
    if i < nodes.len() && k < steps.len() {
        &&& test_holds(nodes[i as int], steps[k as int].test)
        &&& (k == 0 || match steps[k as int].link {
            Link::Child => match nodes[i as int].parent {
                Some(p) => p < i && path_matches(nodes, steps, (k - 1) as nat, p as nat),
                None => false,
            },
            Link::Descendant => ancestor_matches(nodes, steps, (k - 1) as nat, i),
        })
    } else {
        false
    }
}

/// Some proper ancestor of node `i` matches the steps `0..=k`.
pub open spec fn ancestor_matches(nodes: Seq<HtmlNode>, steps: Seq<Step>, k: nat, i: nat) -> bool
    decreases i, k, 0nat,
{
    if i < nodes.len() {
        match nodes[i as int].parent {
            Some(p) => p < i && (path_matches(nodes, steps, k, p as nat) || ancestor_matches(
                nodes,
                steps,
                k,
                p as nat,
            )),
            None => false,
        }
    } else {
        false
    }
}

/// Node `i` matches the whole path; an empty path matches nothing.
pub open spec fn selects(nodes: Seq<HtmlNode>, steps: Seq<Step>, i: nat) -> bool {
    steps.len() > 0 && path_matches(nodes, steps, (steps.len() - 1) as nat, i)
}

/// The normalized texts of the nodes among the first `n` that the path
/// selects, in document order.
pub open spec fn selected(nodes: Seq<HtmlNode>, steps: Seq<Step>, n: nat) -> Seq<Seq<char>>
    decreases n,
{
    if n == 0 {
        Seq::empty()
    } else {
        let before = selected(nodes, steps, (n - 1) as nat);
        if selects(nodes, steps, (n - 1) as nat) {
            before.push(normalized(nodes[n - 1].text@))
        } else {
            before
        }
    }
}

/// `r` numbers the texts `texts` from zero, in order.
pub open spec fn numbered(texts: Seq<Seq<char>>, r: Seq<(usize, String)>) -> bool {
    &&& r.len() == texts.len()
    &&& forall|j: int| 0 <= j < r.len() ==> #[trigger] r[j].0 == j && r[j].1@ == texts[j]
}

fn has_class(class_attr: &Option<String>, c: &String) -> (r: bool)
    ensures
        r == (class_attr matches Some(a) && words_of(a@).contains(c@)),
{
    match class_attr {
        Some(a) => {
            let words = split_words(a.as_str());
            let mut k: usize = 0;
            let mut found = false;
            while !found && k < words.len()
                invariant
                    k <= words@.len(),
                    words@.len() == words_of(a@).len(),
                    forall|m: int| 0 <= m < words@.len() ==> #[trigger] words@[m]@ == words_of(a@)[m],
                    forall|m: int| 0 <= m < k ==> #[trigger] words_of(a@)[m] != c@,
                    found ==> k < words@.len() && words_of(a@)[k as int] == c@,
                decreases words@.len() - k + (if found { 0int } else { 1int }),
            {
                if words[k] == *c {
                    found = true;
                } else {
                    k = k + 1;
                }
            }
            found
        },
        None => false,
    }
}

fn test_holds_at(n: &HtmlNode, t: &NodeTest) -> (r: bool)
    ensures
        r == test_holds(*n, *t),
{
    match t {
        NodeTest::Class(c) => has_class(&n.class_attr, c),
        NodeTest::Id(v) => match &n.id {
            Some(x) => *x == *v,
            None => false,
        },
        NodeTest::Name(m) => match &n.name {
            Some(x) => *x == *m,
            None => false,
        },
    }
}

fn path_matches_at(nodes: &Vec<HtmlNode>, steps: &Vec<Step>, k: usize, i: usize) -> (r: bool)
    ensures
        r == path_matches(nodes@, steps@, k as nat, i as nat),
    decreases i, k, 1nat,
{
    if i < nodes.len() && k < steps.len() {
        if !test_holds_at(&nodes[i], &steps[k].test) {
            return false;
        }
        if k == 0 {
            return true;
        }
        match steps[k].link {
            Link::Child => match nodes[i].parent {
                Some(p) => p < i && path_matches_at(nodes, steps, k - 1, p),
                None => false,
            },
            Link::Descendant => ancestor_matches_at(nodes, steps, k - 1, i),
        }
    } else {
        false
    }
}

fn ancestor_matches_at(nodes: &Vec<HtmlNode>, steps: &Vec<Step>, k: usize, i: usize) -> (r: bool)
    ensures
        r == ancestor_matches(nodes@, steps@, k as nat, i as nat),
    decreases i, k, 0nat,
{
    if i < nodes.len() {
        match nodes[i].parent {
            Some(p) => p < i && (path_matches_at(nodes, steps, k, p) || ancestor_matches_at(
                nodes,
                steps,
                k,
                p,
            )),
            None => false,
        }
    } else {
        false
    }
}

/// The texts of the nodes that the path selects, in document order, each
/// trimmed and lowercased and numbered by its place among them.
pub fn extract(nodes: &Vec<HtmlNode>, steps: &Vec<Step>) -> (r: Vec<(usize, String)>)
    ensures
        numbered(selected(nodes@, steps@, nodes@.len()), r@),
{
    let mut out: Vec<(usize, String)> = Vec::new();
    let mut i: usize = 0;
    while i < nodes.len()
        invariant
            i <= nodes@.len(),
            numbered(selected(nodes@, steps@, i as nat), out@),
        decreases nodes@.len() - i,
    {
        let ghost next = selected(nodes@, steps@, (i + 1) as nat);
        assert(next == if selects(nodes@, steps@, i as nat) {
            selected(nodes@, steps@, i as nat).push(normalized(nodes@[i as int].text@))
        } else {
            selected(nodes@, steps@, i as nat)
        });
        let hit = steps.len() > 0 && path_matches_at(nodes, steps, steps.len() - 1, i);
        assert(hit == selects(nodes@, steps@, i as nat));
        if hit {
            let t = normalize(nodes[i].text.as_str());
            let ghost before = out@;
            let j = out.len();
            out.push((j, t));
            assert forall|m: int| 0 <= m < out@.len() implies #[trigger] out@[m].0 == m
                && out@[m].1@ == selected(nodes@, steps@, (i + 1) as nat)[m] by {
                if m < before.len() {
                    assert(out@[m] == before[m]);
                }
            }
            assert(numbered(next, out@));
        } else {
            assert(numbered(next, out@));
        }
        i = i + 1;
    }
    out
}

} // verus!
