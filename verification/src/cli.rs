//! The command line's data: the parsed arguments, the extension allowlist
//! parser, and the tally of a directory ingestion run.

use vstd::prelude::*;
use crate::text::{
    all_ws, is_ws, lemma_trim_all_ws, lemma_trim_end_prefix, lemma_trim_surrounded, trim_end,
    trim_start, chars_of, split_at_char, split_on, string_of, string_views, strip_leading, strip_leading_chars,
    to_lower, trim, trim_chars, unicode_lower, views,
};

verus! {

/// ragamuffin: local-first semantic memory.
#[derive(Debug)]
pub struct Cli {
    /// Store directory.
    pub store: String,
    pub command: Command,
}

/// The subcommands.
#[derive(Debug)]
pub enum Command {
    /// Store one already-compacted memory.
    Add { text: String, source: String },
    /// Ingest a text file, or every text-like file under a directory.
    Ingest {
        path: String,
        chunk_words: usize,
        overlap_words: usize,
        ext: Option<String>,
        max_bytes: u64,
    },
    /// Print the top-k semantic matches as JSON.
    Search { query: String, k: usize },
    /// List stored entries (id, source, metadata) as JSON.
    List,
    /// Run as an MCP server over stdio.
    Mcp,
}

/// One entry of an extension list: trimmed, leading dots removed,
/// lowercased.
pub open spec fn normalize_ext(piece: Seq<char>) -> Seq<char> {
    unicode_lower(strip_leading(trim(piece), '.'))
}

/// The normalized non-empty entries of comma-separated pieces, in order.
pub open spec fn ext_entries(pieces: Seq<Seq<char>>) -> Seq<Seq<char>>
    decreases pieces.len(),
{
    if pieces.len() == 0 {
        seq![]
    } else {
        let r = ext_entries(pieces.drop_last());
        let e = normalize_ext(pieces.last());
        if e.len() > 0 {
            r.push(e)
        } else {
            r
        }
    }
}

/// Every entry of a parsed extension list is non-empty, and there is at
/// most one entry per comma-separated piece.
pub proof fn law_ext_entries_nonempty(pieces: Seq<Seq<char>>)
    ensures
        ext_entries(pieces).len() <= pieces.len(),
        forall|i: int| 0 <= i < ext_entries(pieces).len() ==> (#[trigger] ext_entries(pieces)[i]).len() > 0,
    decreases pieces.len(),
{
    if pieces.len() > 0 {
        law_ext_entries_nonempty(pieces.drop_last());
        let r = ext_entries(pieces.drop_last());
        let e = normalize_ext(pieces.last());
        if e.len() > 0 {
            assert forall|i: int| 0 <= i < r.push(e).len() implies (#[trigger] r.push(e)[i]).len() > 0 by {
                if i < r.len() {
                    assert(r.push(e)[i] == r[i]);
                }
            }
        }
    }
}

/// Whitespace around an extension-list entry is ignored: the entry says
/// the same with or without it.
pub proof fn law_ext_whitespace_ignored(w1: Seq<char>, piece: Seq<char>, w2: Seq<char>)
    requires
        all_ws(w1),
        all_ws(w2),
    ensures
        normalize_ext(w1 + piece + w2) == normalize_ext(piece),
{
    lemma_trim_surrounded(w1, piece, w2);
}

/// Leading dots of an extension-list entry are dropped: writing `.md` or
/// `md` gives the same entry.
pub proof fn law_ext_leading_dot_ignored(piece: Seq<char>)
    requires
        piece.len() == 0 || !is_ws(piece[0]),
    ensures
        normalize_ext(seq!['.'] + piece) == normalize_ext(piece),
{
    let d = seq!['.'] + piece;
    assert(!is_ws('.'));
    assert(d[0] == '.');
    assert(trim_start(d) == d);
    assert(trim_start(piece) == piece);
    if all_ws(piece) {
        lemma_trim_all_ws(piece);
        assert(all_ws(d.drop_first())) by {
            assert(d.drop_first() =~= piece);
        }
        lemma_trim_dot_blank(piece);
        assert(trim(d) == seq!['.']);
        assert(seq!['.'].drop_first() =~= Seq::<char>::empty());
        assert(strip_leading(Seq::<char>::empty(), '.') == Seq::<char>::empty());
        assert(strip_leading(seq!['.'], '.') =~= Seq::<char>::empty());
        assert(trim(piece).len() == 0);
        assert(trim(piece) =~= Seq::<char>::empty());
        assert(strip_leading(trim(piece), '.') =~= Seq::<char>::empty());
    } else {
        lemma_trim_end_prefix('.', piece);
        let t = trim_end(piece);
        assert(trim(d) == seq!['.'] + t);
        assert(trim(piece) == t);
        assert((seq!['.'] + t)[0] == '.');
        assert((seq!['.'] + t).drop_first() =~= t);
        assert(strip_leading(seq!['.'] + t, '.') == strip_leading(t, '.'));
    }
}

proof fn lemma_trim_dot_blank(piece: Seq<char>)
    requires
        all_ws(piece),
    ensures
        trim_end(seq!['.'] + piece) == seq!['.'],
    decreases piece.len(),
{
    if piece.len() > 0 {
        let t = piece.drop_last();
        assert(all_ws(t)) by {
            assert forall|k: int| 0 <= k < t.len() implies is_ws(#[trigger] t[k]) by {
                assert(t[k] == piece[k]);
            }
        }
        lemma_trim_dot_blank(t);
        assert((seq!['.'] + piece).drop_last() =~= seq!['.'] + t);
        assert(is_ws(piece[piece.len() - 1]));
        assert((seq!['.'] + piece).last() == piece.last());
    } else {
        assert(seq!['.'] + piece =~= seq!['.']);
        assert(!is_ws('.'));
    }
}

/// Parse a comma-separated extension list into lowercased, dot-stripped
/// entries, dropping empty ones. `None` (the flag omitted) means "no
/// extension filter".
pub fn parse_exts(ext: Option<String>) -> (r: Option<Vec<String>>)
    ensures
        match ext {
            None => r is None,
            Some(s) => (r matches Some(v) && string_views(v@) == ext_entries(split_on(s@, ','))),
        },
{
    match ext {
        None => None,
        Some(s) => {
            let cs = chars_of(s.as_str());
            let pieces = split_at_char(&cs, ',');
            let ghost pv = views(pieces@);
            let mut out: Vec<String> = Vec::new();
            let mut i: usize = 0;
            assert(pv.take(0) =~= Seq::<Seq<char>>::empty());
            while i < pieces.len()
                invariant
                    i <= pieces.len(),
                    pv == views(pieces@),
                    string_views(out@) == ext_entries(pv.take(i as int)),
                decreases pieces.len() - i,
            {
                assert(pv.take(i + 1).drop_last() == pv.take(i as int));
                assert(pv.take(i + 1).last() == pieces@[i as int]@);
                let t = trim_chars(&pieces[i]);
                let u = strip_leading_chars(&t, '.');
                let us = string_of(&u);
                let e = to_lower(us.as_str());
                if e.as_str().is_empty() {
                } else {
                    let ghost before = string_views(out@);
                    out.push(e);
                    assert(string_views(out@) =~= before.push(e@));
                }
                i += 1;
            }
            assert(pv.take(pieces.len() as int) == pv);
            Some(out)
        },
    }
}

/// Tally of a directory ingestion run.
#[derive(Debug)]
pub struct IngestSummary {
    pub files: usize,
    pub chunks: usize,
    pub skipped: usize,
}

impl IngestSummary {
    /// A run that has seen no file yet.
    pub fn new() -> (s: IngestSummary)
        ensures
            s.files == 0 && s.chunks == 0 && s.skipped == 0,
    {
        IngestSummary { files: 0, chunks: 0, skipped: 0 }
    }

    /// A file was ingested into `chunks` entries.
    pub fn record_ingested(&mut self, chunks: usize)
        requires
            old(self).files < usize::MAX,
            old(self).chunks + chunks <= usize::MAX,
        ensures
            final(self).files == old(self).files + 1,
            final(self).chunks == old(self).chunks + chunks,
            final(self).skipped == old(self).skipped,
    {
        self.files = self.files + 1;
        self.chunks = self.chunks + chunks;
    }

    /// A file could not be read, chunked or embedded and was skipped.
    pub fn record_skipped(&mut self)
        requires
            old(self).skipped < usize::MAX,
        ensures
            final(self).files == old(self).files,
            final(self).chunks == old(self).chunks,
            final(self).skipped == old(self).skipped + 1,
    {
        self.skipped = self.skipped + 1;
    }
}

} // verus!
