use vstd::prelude::*;

use crate::extract::HtmlNode;
use select::document::Document;
use select::predicate::Any;

verus! {

/// What a node holds, as plain values: parent index, element name, `id`
/// attribute, `class` attribute, text.
pub open spec fn node_view(n: HtmlNode) -> (
    Option<usize>,
    Option<Seq<char>>,
    Option<Seq<char>>,
    Option<Seq<char>>,
    Seq<char>,
) {
    (
        n.parent,
        match n.name {
            Some(s) => Some(s@),
            None => None,
        },
        match n.id {
            Some(s) => Some(s@),
            None => None,
        },
        match n.class_attr {
            Some(s) => Some(s@),
            None => None,
        },
        n.text@,
    )
}

/// The nodes that select parses from the markup, in document order, each as
/// `node_view` gives it.
pub uninterp spec fn parsed_nodes(markup: Seq<char>) -> Seq<
    (Option<usize>, Option<Seq<char>>, Option<Seq<char>>, Option<Seq<char>>, Seq<char>),
>;

/// Relies on select's `Document::from(&str)`, walked in document order by
/// `Document::find(Any)`, and on `Node::parent`, `Node::name`, `Node::attr` and
/// `Node::text` for each node: the parse depends on the markup alone.
#[verifier::external_body]
pub fn read_nodes(markup: &str) -> (r: Vec<HtmlNode>)
    ensures
        r@.len() == parsed_nodes(markup@).len(),
        forall|i: int| 0 <= i < r@.len() ==> #[trigger] node_view(r@[i]) == parsed_nodes(markup@)[i],
{
    let doc = Document::from(markup);
    doc.find(Any).map(|n| HtmlNode {
        parent: n.parent().map(|p| p.index()),
        name: n.name().map(String::from),
        id: n.attr("id").map(String::from),
        class_attr: n.attr("class").map(String::from),
        text: n.text(),
    }).collect()
}

} // verus!
