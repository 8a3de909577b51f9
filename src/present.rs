use vstd::prelude::*;

verus! {

/// How many synonyms the report lists at most.
pub const SHOWN: usize = 10;

pub open spec fn shown_count(n: nat) -> nat {
    if n < SHOWN as nat {
        n
    } else {
        SHOWN as nat
    }
}

/// The lines of the report on `word`: a header naming the word, then one line
/// `- <synonym>` for each of the first ten entries of the ranked list (all of
/// them when there are fewer).
pub fn report(word: &str, ranked: &Vec<(String, usize)>) -> (r: Vec<String>)
    ensures
        r@.len() == 1 + shown_count(ranked@.len()),
        r@[0]@ == "Synonyms for "@ + word@,
        forall|j: int| 0 <= j < shown_count(ranked@.len()) ==> #[trigger] r@[j + 1]@ == "- "@ + ranked@[j].0@,
{
    let mut header = "Synonyms for ".to_owned();
    header.append(word);
    let mut lines: Vec<String> = Vec::new();
    lines.push(header);
    let n: usize = if ranked.len() < SHOWN {
        ranked.len()
    } else {
        SHOWN
    };
    let mut j: usize = 0;
    while j < n
        invariant
            n == shown_count(ranked@.len()),
            n <= ranked@.len(),
            j <= n,
            lines@.len() == j + 1,
            lines@[0]@ == "Synonyms for "@ + word@,
            forall|m: int| 0 <= m < j ==> #[trigger] lines@[m + 1]@ == "- "@ + ranked@[m].0@,
        decreases n - j,
    {
        let mut line = "- ".to_owned();
        line.append(ranked[j].0.as_str());
        lines.push(line);
        j = j + 1;
    }
    lines
}

} // verus!
