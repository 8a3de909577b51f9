use vstd::prelude::*;

use crate::extract::{extract, numbered, selected, HtmlNode, Link, NodeTest, Step};
use crate::html::{node_view, parsed_nodes, read_nodes};

verus! {

/// The thesaurus sites that are asked for synonyms.
#[derive(Clone, Copy, Debug, PartialEq, Eq, Structural)]
pub enum Source {
    Thesaurus,
    MerriamWebster,
    YourDictionary,
}

/// A node test as the selection rules read it.
pub ghost enum TestView {
    Class(Seq<char>),
    Id(Seq<char>),
    Name(Seq<char>),
}

pub open spec fn test_view(t: NodeTest) -> TestView {
    match t {
        NodeTest::Class(c) => TestView::Class(c@),
        NodeTest::Id(v) => TestView::Id(v@),
        NodeTest::Name(m) => TestView::Name(m@),
    }
}

pub open spec fn steps_view(steps: Seq<Step>) -> Seq<(Link, TestView)> {
    steps.map_values(|s: Step| (s.link, test_view(s.test)))
}

pub const THESAURUS_URL: &'static str = "https://www.thesaurus.com/browse";

pub const MERRIAM_WEBSTER_URL: &'static str = "https://www.merriam-webster.com/thesaurus";

pub const YOUR_DICTIONARY_URL: &'static str = "https://thesaurus.yourdictionary.com";

impl Source {
    /// Every source, in the order in which they are asked.
    pub fn all() -> (r: Vec<Source>)
        ensures
            r@ == seq![Source::Thesaurus, Source::MerriamWebster, Source::YourDictionary],
    {
        vec![Source::Thesaurus, Source::MerriamWebster, Source::YourDictionary]
    }

    pub open spec fn base_spec(self) -> Seq<char> {
        match self {
            Source::Thesaurus => THESAURUS_URL@,
            Source::MerriamWebster => MERRIAM_WEBSTER_URL@,
            Source::YourDictionary => YOUR_DICTIONARY_URL@,
        }
    }

    /// The page of the source about `word`: its base address, a slash, the word.
    pub fn url(&self, word: &str) -> (r: String)
        ensures
            r@ == self.base_spec() + seq!['/'] + word@,
    {
        let base: &str = match self {
            Source::Thesaurus => THESAURUS_URL,
            Source::MerriamWebster => MERRIAM_WEBSTER_URL,
            Source::YourDictionary => YOUR_DICTIONARY_URL,
        };
        let mut r = base.to_owned();
        proof {
            reveal_strlit("/");
        }
        r.append("/");
        r.append(word);
        r
    }

    /// Where the synonyms stand in the source's markup.
    pub open spec fn path_spec(self) -> Seq<(Link, TestView)> {
        match self {
            Source::Thesaurus => seq![
                (Link::Descendant, TestView::Id("meanings"@)),
                (Link::Descendant, TestView::Name("li"@)),
            ],
            Source::MerriamWebster => seq![
                (Link::Descendant, TestView::Class("syn-list"@)),
                (Link::Descendant, TestView::Class("mw-list"@)),
                (Link::Child, TestView::Name("li"@)),
                (Link::Child, TestView::Name("a"@)),
            ],
            Source::YourDictionary => seq![(Link::Descendant, TestView::Class("synonym-link"@))],
        }
    }

    /// The selection path of the source.
    pub fn path(&self) -> (r: Vec<Step>)
        ensures
            steps_view(r@) == self.path_spec(),
    {
        let r = match self {
            Source::Thesaurus => vec![
                Step { link: Link::Descendant, test: NodeTest::Id("meanings".to_owned()) },
                Step { link: Link::Descendant, test: NodeTest::Name("li".to_owned()) },
            ],
            Source::MerriamWebster => vec![
                Step { link: Link::Descendant, test: NodeTest::Class("syn-list".to_owned()) },
                Step { link: Link::Descendant, test: NodeTest::Class("mw-list".to_owned()) },
                Step { link: Link::Child, test: NodeTest::Name("li".to_owned()) },
                Step { link: Link::Child, test: NodeTest::Name("a".to_owned()) },
            ],
            Source::YourDictionary => vec![
                Step { link: Link::Descendant, test: NodeTest::Class("synonym-link".to_owned()) },
            ],
        };
        assert(steps_view(r@) =~= self.path_spec());
        r
    }

    /// The synonyms that the source's page lists, numbered in document order:
    /// the page's nodes selected by the source's path, their text trimmed and
    /// lowercased. The nodes are those that select parses from the markup.
    pub fn synonyms(&self, markup: &str) -> (r: Vec<(usize, String)>)
        ensures
            exists|nodes: Seq<HtmlNode>, steps: Seq<Step>|
                {
                    &&& nodes.len() == parsed_nodes(markup@).len()
                    &&& forall|i: int|
                        0 <= i < nodes.len() ==> #[trigger] node_view(nodes[i]) == parsed_nodes(markup@)[i]
                    &&& steps_view(steps) == self.path_spec()
                    &&& numbered(#[trigger] selected(nodes, steps, nodes.len()), r@)
                },
    {
        let nodes = read_nodes(markup);
        let steps = self.path();
        let r = extract(&nodes, &steps);
        assert(numbered(selected(nodes@, steps@, nodes@.len()), r@));
        r
    }
}

} // verus!
