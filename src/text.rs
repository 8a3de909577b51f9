use vstd::prelude::*;

verus! {

/// What `str::trim` leaves of a text.
pub uninterp spec fn trimmed(s: Seq<char>) -> Seq<char>;

/// What `str::to_lowercase` makes of a text.
pub uninterp spec fn lowercased(s: Seq<char>) -> Seq<char>;

/// The words that `str::split_whitespace` finds in a text, in order.
pub uninterp spec fn words_of(s: Seq<char>) -> Seq<Seq<char>>;

/// Relies on `str::split_whitespace`: the non-empty runs between whitespace,
/// in order, as a function of the text alone.
#[verifier::external_body]
pub(crate) fn split_words(s: &str) -> (r: Vec<String>)
    ensures
        r@.len() == words_of(s@).len(),
        forall|k: int| 0 <= k < r@.len() ==> #[trigger] r@[k]@ == words_of(s@)[k],
{
    s.split_whitespace().map(String::from).collect()
}

/// A text as the library compares it: trimmed, then lowercased.
pub open spec fn normalized(s: Seq<char>) -> Seq<char> {
    lowercased(trimmed(s))
}

/// Relies on `str::trim`: leading and trailing whitespace removed, as a
/// function of the text alone.
#[verifier::external_body]
fn trim(s: &str) -> (r: String)
    ensures
        r@ == trimmed(s@),
{
    s.trim().to_string()
}

/// Relies on `str::to_lowercase`: the lowercase mapping of each character, as a
/// function of the text alone.
#[verifier::external_body]
fn lowercase(s: &str) -> (r: String)
    ensures
        r@ == lowercased(s@),
{
    s.to_lowercase()
}

/// The text trimmed of surrounding whitespace, then lowercased.
pub fn normalize(s: &str) -> (r: String)
    ensures
        r@ == normalized(s@),
{
    let t = trim(s);
    lowercase(t.as_str())
}

} // verus!
