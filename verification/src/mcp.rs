//! The MCP tools' arguments, their defaults, and the text a search returns
//! to the calling model.

use vstd::prelude::*;
use crate::store::Hit;
use crate::text::{decimal, decimal_string, join, push_char, push_str, string_views};

verus! {

/// Default number of notes `search_memory` returns.
pub fn default_k() -> (k: usize)
    ensures
        k == 4,
{
    4
}

/// Default source recorded by `save_memory`.
pub fn default_source() -> (s: String)
    ensures
        s@ == "chat"@,
{
    "chat".to_owned()
}

/// Arguments for `search_memory`.
#[derive(Debug)]
pub struct SearchArgs {
    /// What to recall, described in natural language.
    pub query: String,
    /// Maximum number of notes to return.
    pub k: usize,
}

/// Arguments for `save_memory`.
#[derive(Debug)]
pub struct SaveArgs {
    /// The self-contained note to remember.
    pub text: String,
    /// Where the note came from.
    pub source: String,
}

/// The line for the `i`-th hit (counting from 0): `"{i+1}. [{source} |
/// score {score}] {text}"`.
pub open spec fn hit_line(i: nat, source: Seq<char>, score: Seq<char>, text: Seq<char>) -> Seq<char> {
    decimal(i + 1) + seq!['.', ' ', '['] + source + " | score "@ + score + seq![']', ' '] + text
}

/// The lines of all hits, numbered from 1.
pub open spec fn hit_lines(hits: Seq<Hit>, scores: Seq<Seq<char>>) -> Seq<Seq<char>> {
    Seq::new(hits.len(), |i: int| hit_line(i as nat, hits[i].source@, scores[i], hits[i].text@))
}

/// What `format_hits` returns: a fixed note for no hits, otherwise one
/// numbered line per hit, joined by line feeds.
pub open spec fn format_hits_spec(hits: Seq<Hit>, scores: Seq<Seq<char>>) -> Seq<char> {
    if hits.len() == 0 {
        "No matching memories."@
    } else {
        join(hit_lines(hits, scores), seq!['\n'])
    }
}

/// Format hits as a numbered list so the host model can judge and cite
/// them. `scores[i]` is the text of hit `i`'s score (three decimals).
pub fn format_hits(hits: &[Hit], scores: &[String]) -> (s: String)
    requires
        scores@.len() == hits@.len(),
    ensures
        s@ == format_hits_spec(hits@, string_views(scores@)),
{
    if hits.len() == 0 {
        return "No matching memories.".to_owned();
    }
    let ghost sv = string_views(scores@);
    let ghost lines = hit_lines(hits@, sv);
    let mut s = String::new();
    let mut i: usize = 0;
    assert(lines.take(0) =~= Seq::<Seq<char>>::empty());
    while i < hits.len()
        invariant
            i <= hits.len(),
            scores@.len() == hits@.len(),
            sv == string_views(scores@),
            lines == hit_lines(hits@, sv),
            s@ == join(lines.take(i as int), seq!['\n']),
        decreases hits.len() - i,
    {
        assert(lines.take(i + 1).drop_last() == lines.take(i as int));
        assert(lines.take(i + 1).last() == lines[i as int]);
        if i > 0 {
            push_char(&mut s, '\n');
        }
        let ghost before = s@;
        let num = decimal_string(i + 1);
        push_str(&mut s, num.as_str());
        push_str(&mut s, ". [");
        push_str(&mut s, hits[i].source.as_str());
        push_str(&mut s, " | score ");
        push_str(&mut s, scores[i].as_str());
        push_str(&mut s, "] ");
        push_str(&mut s, hits[i].text.as_str());
        proof {
            reveal_strlit(". [");
            reveal_strlit("] ");
            assert(". ["@ =~= seq!['.', ' ', '[']);
            assert("] "@ =~= seq![']', ' ']);
            assert(s@ =~= before + hit_line(i as nat, hits@[i as int].source@, sv[i as int], hits@[i as int].text@));
        }
        assert(s@ =~= join(lines.take(i + 1), seq!['\n']));
        i += 1;
    }
    assert(lines.take(hits.len() as int) == lines);
    s
}

} // verus!
