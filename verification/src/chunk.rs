//! Text chunking: splitting documents into the units that get embedded and
//! stored. Every chunker is pure; `chunk_for_path` routes by file extension
//! and attaches per-chunk metadata.

use vstd::prelude::*;
use crate::json::{
    lemma_lookup_insert, lookup, find_key, json_view, lemma_find_key_first, lemma_find_key_bounds, key_less, keys_sorted, law_assoc_insert_sorted,
    law_assoc_insert_all_sorted,
    assoc_insert, assoc_insert_all, json_compact, compact_json, copy_fields, fields_view, flatten_spec,
    flatten_value, json_parse, json_records, meta_insert, parse_json, records_of, Field, Json,
    JsonValue, lemma_fields_view, lemma_items_view, items_view,
};
use crate::text::{
    all_ws, lemma_blank_iff_all_ws, lemma_lines_all_ws, lemma_words_all_ws, lemma_trim_start_blank,
    lemma_join_nonempty, lemma_words_props, lemma_words_concat_ws, lemma_words_lines,
    lemma_words_trim, words_of_all, is_ws, lemma_words_join, lemma_trim_end_last,
    ascii_lower, extension_of, path_extension, to_ascii_lower,
    decimal, decimal_string, push_char, push_chars,
    chars_of, join, join_words, lines, split_lines, split_words, string_of, trim,
    string_views, trim_chars, trim_start, trim_start_chars, views, words,
};

verus! {

/// The window width actually used: at least one word.
pub open spec fn clamp_width(chunk_words: nat) -> nat {
    if chunk_words == 0 {
        1
    } else {
        chunk_words
    }
}

/// Distance between the starts of consecutive windows:
/// `max(1, width - overlap)`, the subtraction saturating at zero.
pub open spec fn window_step(width: nat, overlap_words: nat) -> nat {
    if width > overlap_words {
        (width - overlap_words) as nat
    } else {
        1
    }
}

/// Number of windows needed to cover `n > width` words: the first window
/// starts at word 0 and the last one is the first that reaches word `n - 1`.
pub open spec fn window_count(n: nat, width: nat, step: nat) -> nat
    recommends
        step > 0,
        n > width,
{
    ((n - width + step - 1) as nat / step + 1) as nat
}

/// The `j`-th window over `ws`: words `j * step .. min(j * step + width, n)`
/// joined by single spaces.
pub open spec fn window(ws: Seq<Seq<char>>, j: int, width: nat, step: nat) -> Seq<char> {
    let start = j * step;
    let end = if start + width < ws.len() {
        start + width
    } else {
        ws.len() as int
    };
    join(ws.subrange(start, end), seq![' '])
}

/// What `chunk_text` returns: no chunk for text without words; one chunk of
/// all words (joined by single spaces) when they fit in one window; otherwise
/// the overlapping fixed-width windows.
pub open spec fn chunk_text_spec(text: Seq<char>, chunk_words: nat, overlap_words: nat) -> Seq<
    Seq<char>,
> {
    let ws = words(text);
    let width = clamp_width(chunk_words);
    let step = window_step(width, overlap_words);
    if ws.len() == 0 {
        seq![]
    } else if ws.len() <= width {
        seq![join(ws, seq![' '])]
    } else {
        Seq::new(window_count(ws.len(), width, step), |j: int| window(ws, j, width, step))
    }
}

proof fn lemma_window_count(n: int, width: int, step: int, j: int)
    requires
        step > 0,
        width >= 0,
        n > width,
        j >= 1,
        j * step + width >= n,
        (j - 1) * step + width < n,
    ensures
        window_count(n as nat, width as nat, step as nat) == j + 1,
{
    let m = n - width;
    assert((j - 1) * step == j * step - step) by (nonlinear_arith);
    assert((j + 1) * step == j * step + step) by (nonlinear_arith);
    assert(j * step <= m + step - 1);
    assert(m + step - 1 < (j + 1) * step);
    assert((m + step - 1) / step == j) by (nonlinear_arith)
        requires
            j * step <= m + step - 1,
            m + step - 1 < (j + 1) * step,
            step > 0,
            m + step - 1 >= 0,
    ;
}

/// The word positions `j * step .. min(j * step + width, n)` that window `j`
/// covers.
pub open spec fn window_end(n: nat, j: int, width: nat, step: nat) -> int {
    if j * step + width < n {
        j * step + width
    } else {
        n as int
    }
}

/// The windows of `chunk_text` cover the words without gaps and overlap as
/// asked: with `n` words and more words than fit in one window, window `j`
/// holds the words from `j * step` up to `window_end`; the first window
/// starts at the first word, the last ends at the last word, every window
/// holds between one and `width` words, and each window but the last is full
/// and shares its final `width - step` words (the overlap, when it is less
/// than the width) with the next one.
pub proof fn law_chunk_text_windows(text: Seq<char>, chunk_words: nat, overlap_words: nat, j: int)
    requires
        words(text).len() > clamp_width(chunk_words),
        0 <= j < chunk_text_spec(text, chunk_words, overlap_words).len(),
    ensures
        ({
            let n = words(text).len();
            let width = clamp_width(chunk_words);
            let step = window_step(width, overlap_words);
            let count = chunk_text_spec(text, chunk_words, overlap_words).len();
            let start = j * step;
            let end = window_end(n, j, width, step);
            &&& chunk_text_spec(text, chunk_words, overlap_words)[j] == join(
                words(text).subrange(start, end),
                seq![' '],
            )
            &&& 0 <= start < end <= n
            &&& end - start <= width
            &&& j == 0 ==> start == 0
            &&& j == count - 1 ==> end == n
            &&& j + 1 < count ==> end == start + width && (j + 1) * step <= end && end - (j + 1)
                * step == width - step
            &&& overlap_words < width ==> step == width - overlap_words
        }),
{
    let n = words(text).len() as int;
    let width = clamp_width(chunk_words) as int;
    let step = window_step(clamp_width(chunk_words), overlap_words) as int;
    let x = n - width + step - 1;
    let q = x / step;
    assert(step >= 1);
    assert(step <= width);
    assert(x >= 0);
    assert(q * step <= x && x < q * step + step) by (nonlinear_arith)
        requires
            step >= 1,
            x >= 0,
            q == x / step,
    ;
    assert(chunk_text_spec(text, chunk_words, overlap_words).len() == q + 1);
    assert(j <= q);
    assert(j * step <= q * step) by (nonlinear_arith)
        requires
            0 <= j <= q,
            step >= 1,
    ;
    assert(0 <= j * step) by (nonlinear_arith)
        requires
            0 <= j,
            step >= 1,
    ;
    assert((j + 1) * step == j * step + step) by (nonlinear_arith);
    if j + 1 <= q {
        assert((j + 1) * step <= q * step) by (nonlinear_arith)
            requires
                0 <= j + 1 <= q,
                step >= 1,
        ;
    }
}

/// `chunk_text` never yields an empty chunk, whatever the width (a width
/// of zero counts as one).
pub proof fn law_chunk_text_nonempty(text: Seq<char>, chunk_words: nat, overlap_words: nat)
    ensures
        forall|j: int|
            0 <= j < chunk_text_spec(text, chunk_words, overlap_words).len() ==> (
            #[trigger] chunk_text_spec(text, chunk_words, overlap_words)[j]).len() > 0,
{
    let ws = words(text);
    lemma_words_props(text);
    let c = chunk_text_spec(text, chunk_words, overlap_words);
    assert forall|j: int| 0 <= j < c.len() implies (#[trigger] c[j]).len() > 0 by {
        if ws.len() <= clamp_width(chunk_words) {
            lemma_join_nonempty(ws, seq![' ']);
        } else {
            law_chunk_text_windows(text, chunk_words, overlap_words, j);
            let width = clamp_width(chunk_words);
            let step = window_step(width, overlap_words);
            let start = j * step;
            let end = window_end(ws.len(), j, width, step);
            let sub = ws.subrange(start, end);
            assert(sub.last() == ws[end - 1]);
            lemma_join_nonempty(sub, seq![' ']);
        }
    }
}

/// Split `text` into overlapping fixed-width word windows so an idea
/// straddling a boundary stays retrievable from either side. A width of zero
/// is treated as one.
pub fn chunk_text(text: &str, chunk_words: usize, overlap_words: usize) -> (chunks: Vec<String>)
    ensures
        string_views(chunks@) == chunk_text_spec(text@, chunk_words as nat, overlap_words as nat),
{
    let width = if chunk_words == 0 {
        1
    } else {
        chunk_words
    };
    let chars = chars_of(text);
    let ws = split_words(&chars);
    let n = ws.len();
    let ghost wv = views(ws@);
    assert(wv == words(text@));
    if n == 0 {
        let empty: Vec<String> = Vec::new();
        assert(string_views(empty@) =~= seq![]);
        return empty;
    }
    if n <= width {
        let whole = join_words(&ws, 0, n);
        assert(wv.subrange(0, n as int) == wv);
        let mut one: Vec<String> = Vec::new();
        one.push(whole);
        assert(string_views(one@) =~= seq![join(wv, seq![' '])]);
        return one;
    }
    let step = if width > overlap_words {
        width - overlap_words
    } else {
        1
    };
    let ghost sp = step as nat;
    let ghost wd = width as nat;
    let mut chunks: Vec<String> = Vec::new();
    let mut start: usize = 0;
    let ghost mut j: int = 0;
    loop
        invariant_except_break
            0 <= j,
            start == j * step,
            start < n,
            j >= 1 ==> (j - 1) * step + width < n,
            string_views(chunks@) == Seq::new(j as nat, |k: int| window(wv, k, wd, sp)),
        invariant
            n == ws.len(),
            wv == views(ws@),
            n > width,
            width >= 1,
            1 <= step <= width,
            sp == step,
            wd == width,
        ensures
            string_views(chunks@) == Seq::new(window_count(n as nat, wd, sp), |k: int| window(wv, k, wd, sp)),
        decreases n - start,
    {
        let end = if n - start > width {
            start + width
        } else {
            n
        };
        let piece = join_words(&ws, start, end);
        assert(piece@ == window(wv, j, wd, sp));
        let ghost before = string_views(chunks@);
        chunks.push(piece);
        assert(string_views(chunks@) =~= before.push(piece@));
        assert(Seq::new((j + 1) as nat, |k: int| window(wv, k, wd, sp)) =~= Seq::new(
            j as nat,
            |k: int| window(wv, k, wd, sp),
        ).push(window(wv, j, wd, sp)));
        if end >= n {
            proof {
                if j == 0 {
                    assert(j * step == 0);
                    assert(start == 0);
                    assert(false);
                }
                lemma_window_count(n as int, width as int, step as int, j);
            }
            break;
        }
        assert((j + 1) * step == j * step + step) by (nonlinear_arith);
        start = start + step;
        proof {
            j = j + 1;
        }
    }
    chunks
}


/// An ATX markdown heading: after optional leading whitespace the line
/// starts with `'#'`.
pub open spec fn is_heading_line(line: Seq<char>) -> bool {
    trim_start(line).len() > 0 && trim_start(line)[0] == '#'
}

/// The position of `'#'` after nothing but whitespace at the start of
/// `line`.
pub open spec fn hash_after_blanks(line: Seq<char>, i: int) -> bool {
    &&& 0 <= i < line.len()
    &&& line[i] == '#'
    &&& forall|j: int| 0 <= j < i ==> is_ws(#[trigger] line[j])
}

/// A line is a heading exactly when its first non-whitespace character is
/// `'#'`, whatever follows: headings of every level, with or without text.
pub proof fn law_heading_line(line: Seq<char>)
    ensures
        is_heading_line(line) <==> exists|i: int| hash_after_blanks(line, i),
    decreases line.len(),
{
    assert(!is_ws('#'));
    if line.len() > 0 && is_ws(line[0]) {
        let t = line.drop_first();
        law_heading_line(t);
        assert(trim_start(line) == trim_start(t));
        if exists|i: int| hash_after_blanks(t, i) {
            let i = choose|i: int| hash_after_blanks(t, i);
            assert forall|j: int| 0 <= j < i + 1 implies is_ws(#[trigger] line[j]) by {
                if j > 0 {
                    assert(line[j] == t[j - 1]);
                }
            }
            assert(line[i + 1] == t[i]);
            assert(hash_after_blanks(line, i + 1));
        }
        if exists|i: int| hash_after_blanks(line, i) {
            let i = choose|i: int| hash_after_blanks(line, i);
            assert(i > 0);
            assert forall|j: int| 0 <= j < i - 1 implies is_ws(#[trigger] t[j]) by {
                assert(t[j] == line[j + 1]);
            }
            assert(t[i - 1] == line[i]);
            assert(hash_after_blanks(t, i - 1));
        }
    } else {
        assert(trim_start(line) == line);
        if line.len() > 0 && line[0] == '#' {
            assert(hash_after_blanks(line, 0));
        }
        if exists|i: int| hash_after_blanks(line, i) {
            let i = choose|i: int| hash_after_blanks(line, i);
            if i > 0 {
                assert(is_ws(line[0]));
            }
        }
    }
}

/// True if `line` is an ATX markdown heading.
pub fn is_heading(line: &Vec<char>) -> (b: bool)
    ensures
        b == is_heading_line(line@),
{
    let t = trim_start_chars(line);
    t.len() > 0 && t[0] == '#'
}

/// True if `s` holds only whitespace.
pub open spec fn is_blank(s: Seq<char>) -> bool {
    trim(s).len() == 0
}

/// The markdown section state after reading `ls`: the sections closed so far
/// and the section still being accumulated. Every line is appended to the
/// open section followed by `'\n'`; a heading line first closes the open
/// section, unless that section is still blank.
pub open spec fn md_state(ls: Seq<Seq<char>>) -> (Seq<Seq<char>>, Seq<char>)
    decreases ls.len(),
{
    if ls.len() == 0 {
        (seq![], seq![])
    } else {
        let (secs, cur) = md_state(ls.drop_last());
        let l = ls.last();
        if is_heading_line(l) && !is_blank(cur) {
            (secs.push(cur), l.push('\n'))
        } else {
            (secs, cur + l.push('\n'))
        }
    }
}

/// The sections of a markdown document: heading-rooted groups of lines,
/// with any preamble before the first heading as its own section; a blank
/// final section is dropped.
pub open spec fn md_sections(text: Seq<char>) -> Seq<Seq<char>> {
    let (secs, cur) = md_state(lines(text));
    if is_blank(cur) {
        secs
    } else {
        secs.push(cur)
    }
}

/// The chunks of one trimmed section: none if it is empty, the section
/// itself if its words fit in `chunk_words`, else its word windows.
pub open spec fn section_chunks(t: Seq<char>, chunk_words: nat, overlap_words: nat) -> Seq<
    Seq<char>,
> {
    if t.len() == 0 {
        seq![]
    } else if words(t).len() > chunk_words {
        chunk_text_spec(t, chunk_words, overlap_words)
    } else {
        seq![t]
    }
}

/// What `chunk_markdown` returns: the chunks of every trimmed section, in
/// document order.
pub open spec fn chunk_markdown_spec(text: Seq<char>, chunk_words: nat, overlap_words: nat) -> Seq<
    Seq<char>,
> {
    md_sections(text).map_values(
        |sec: Seq<char>| section_chunks(trim(sec), chunk_words, overlap_words),
    ).flatten()
}

/// Split markdown into self-contained, heading-rooted chunks. A chunk is a
/// heading line plus its body up to the next heading of any level; content
/// before the first heading becomes its own chunk. A section longer than
/// `chunk_words` words is sub-split with `chunk_text`. Empty or
/// whitespace-only input yields no chunks.
pub fn chunk_markdown(text: &str, chunk_words: usize, overlap_words: usize) -> (chunks: Vec<
    String,
>)
    ensures
        string_views(chunks@) == chunk_markdown_spec(
            text@,
            chunk_words as nat,
            overlap_words as nat,
        ),
{
    let chars = chars_of(text);
    let ls = split_lines(&chars);
    let ghost lv = views(ls@);
    let mut sections: Vec<Vec<char>> = Vec::new();
    let mut current: Vec<char> = Vec::new();
    let mut i: usize = 0;
    assert(lv.take(0) =~= Seq::<Seq<char>>::empty());
    while i < ls.len()
        invariant
            i <= ls.len(),
            lv == views(ls@),
            (views(sections@), current@) == md_state(lv.take(i as int)),
        decreases ls.len() - i,
    {
        let ghost pre = lv.take(i as int);
        let ghost post = lv.take(i + 1);
        assert(post.drop_last() == pre);
        assert(post.last() == ls@[i as int]@);
        let line = &ls[i];
        let blank = trim_chars(&current).len() == 0;
        if is_heading(line) && !blank {
            let ghost old_secs = views(sections@);
            sections.push(current);
            current = Vec::new();
            assert(views(sections@) =~= old_secs.push(md_state(pre).1));
        }
        let ghost cur_before = current@;
        let mut j: usize = 0;
        while j < line.len()
            invariant
                j <= line.len(),
                current@ == cur_before + line@.take(j as int),
            decreases line.len() - j,
        {
            current.push(line[j]);
            assert(line@.take(j + 1) =~= line@.take(j as int).push(line@[j as int]));
            j += 1;
        }
        current.push('\n');
        assert(line@.take(line.len() as int) == line@);
        assert(current@ =~= cur_before + line@.push('\n'));
        i += 1;
    }
    assert(lv.take(ls.len() as int) == lv);
    if trim_chars(&current).len() != 0 {
        let ghost old_secs = views(sections@);
        sections.push(current);
        assert(views(sections@) =~= old_secs.push(md_state(lv).1));
    }
    let ghost secs = views(sections@);
    assert(secs == md_sections(text@));
    let mut chunks: Vec<String> = Vec::new();
    let mut k: usize = 0;
    assert(secs.take(0).map_values(
        |sec: Seq<char>| section_chunks(trim(sec), chunk_words as nat, overlap_words as nat),
    ) =~= Seq::<Seq<Seq<char>>>::empty());
    while k < sections.len()
        invariant
            k <= sections.len(),
            secs == views(sections@),
            string_views(chunks@) == secs.take(k as int).map_values(
                |sec: Seq<char>| section_chunks(trim(sec), chunk_words as nat, overlap_words as nat),
            ).flatten(),
        decreases sections.len() - k,
    {
        let ghost f = |sec: Seq<char>|
            section_chunks(trim(sec), chunk_words as nat, overlap_words as nat);
        let ghost before = string_views(chunks@);
        assert(secs.take(k + 1).map_values(f) =~= secs.take(k as int).map_values(f).push(
            f(secs[k as int]),
        ));
        proof {
            secs.take(k as int).map_values(f).lemma_flatten_push(f(secs[k as int]));
        }
        let t = trim_chars(&sections[k]);
        if t.len() == 0 {
            assert(f(secs[k as int]) =~= Seq::<Seq<char>>::empty());
        } else {
            let tw = split_words(&t);
            let ts = string_of(&t);
            if tw.len() > chunk_words {
                let mut sub = chunk_text(ts.as_str(), chunk_words, overlap_words);
                let ghost subv = string_views(sub@);
                chunks.append(&mut sub);
                assert(string_views(chunks@) =~= before + subv);
            } else {
                chunks.push(ts);
                assert(string_views(chunks@) =~= before.push(t@));
            }
        }
        k += 1;
    }
    assert(secs.take(sections.len() as int) == secs);
    chunks
}


/// A unit of text to embed plus the metadata to store alongside it.
#[derive(Debug, PartialEq)]
pub struct Chunk {
    /// The text that gets embedded and stored as the document body.
    pub text: String,
    /// JSON metadata stored row-aligned with the chunk.
    pub metadata: Json,
}

/// The models of a sequence of chunks: text and metadata.
pub open spec fn chunk_views(v: Seq<Chunk>) -> Seq<(Seq<char>, JsonValue)> {
    v.map_values(|c: Chunk| (c.text@, c.metadata@))
}

/// A chunk made from a JSON record: its metadata is an object holding the
/// record under `raw` (chunks of plain text carry only their position).
pub open spec fn is_record_meta(m: JsonValue) -> bool {
    m is Object && lookup(m->Object_0, "raw"@) is Some
}

/// Whether `c` was made from a JSON record (see `is_record_meta`); a JSON
/// file whose chunks are not is one that fell back to plain word windows.
pub fn is_record_chunk(c: &Chunk) -> (b: bool)
    ensures
        b == is_record_meta(c.metadata@),
{
    match &c.metadata {
        Json::Object(fields) => {
            proof {
                lemma_fields_view(fields@);
            }
            let ghost fv = fields_view(fields@);
            let raw = "raw".to_owned();
            let mut i: usize = 0;
            while i < fields.len()
                invariant
                    i <= fields.len(),
                    fv == fields_view(fields@),
                    fv.len() == fields@.len(),
                    forall|k: int| 0 <= k < fields@.len() ==> #[trigger] fv[k] == (fields@[k].key@, json_view(fields@[k].value)),
                    forall|j: int| 0 <= j < i ==> #[trigger] fv[j].0 != "raw"@,
                    raw@ == "raw"@,
                    c.metadata == Json::Object(*fields),
                decreases fields.len() - i,
            {
                if fields[i].key == raw {
                    proof {
                        assert(fields@[i as int].key@ == raw@);
                        assert(fv[i as int].0 == "raw"@);
                        lemma_find_key_first(fv, "raw"@, i as int);
                        assert(c.metadata@ == JsonValue::Object(fv));
                    }
                    return true;
                }
                i += 1;
            }
            proof {
                lemma_find_key_bounds(fv, "raw"@);
                if find_key(fv, "raw"@) is Some {
                    let j = find_key(fv, "raw"@)->0;
                    assert(fv[j].0 == "raw"@);
                }
            }
            false
        },
        _ => false,
    }
}

/// Positional metadata `{"chunk": i}`.
pub open spec fn index_meta(i: nat) -> JsonValue {
    JsonValue::Object(seq![("chunk"@, JsonValue::Number(decimal(i)))])
}

/// Plain text chunks, each with its positional metadata.
pub open spec fn indexed(texts: Seq<Seq<char>>) -> Seq<(Seq<char>, JsonValue)> {
    Seq::new(texts.len(), |i: int| (texts[i], index_meta(i as nat)))
}

/// A one-member object `{key: value}`.
fn single_field(key: &str, value: Json) -> (j: Json)
    ensures
        j@ == JsonValue::Object(seq![(key@, value@)]),
{
    let mut fs: Vec<Field> = Vec::new();
    let ghost vv = value@;
    fs.push(Field { key: key.to_owned(), value });
    proof {
        assert(fs@.drop_last() =~= Seq::<Field>::empty());
        assert(fields_view(fs@.drop_last()) =~= Seq::<(Seq<char>, JsonValue)>::empty());
        assert(fields_view(fs@) =~= seq![(key@, vv)]);
    }
    Json::Object(fs)
}

/// Wrap plain text chunks with positional `{"chunk": i}` metadata.
pub fn indexed_chunks(texts: Vec<String>) -> (chunks: Vec<Chunk>)
    ensures
        chunk_views(chunks@) == indexed(string_views(texts@)),
{
    let mut out: Vec<Chunk> = Vec::new();
    let mut i: usize = 0;
    let n = texts.len();
    let ghost tv = string_views(texts@);
    let mut rest = texts;
    let mut taken: Vec<String> = Vec::new();
    while i < n
        invariant
            i <= n,
            n == tv.len(),
            chunk_views(out@) == indexed(tv.take(i as int)),
            string_views(rest@) == tv,
        decreases n - i,
    {
        let text = rest[i].clone();
        let metadata = single_field("chunk", Json::Number(decimal_string(i)));
        let ghost before = chunk_views(out@);
        out.push(Chunk { text, metadata });
        assert(chunk_views(out@) =~= before.push((tv[i as int], index_meta(i as nat))));
        assert(indexed(tv.take(i + 1)) =~= indexed(tv.take(i as int)).push(
            (tv[i as int], index_meta(i as nat)),
        ));
        i += 1;
    }
    assert(tv.take(n as int) == tv);
    out
}

/// `lines` joined with line feeds.
fn join_lines(lines: &Vec<String>) -> (s: String)
    ensures
        s@ == join(string_views(lines@), seq!['\n']),
{
    let mut s = String::new();
    let mut i: usize = 0;
    let ghost lv = string_views(lines@);
    assert(lv.take(0) =~= Seq::<Seq<char>>::empty());
    while i < lines.len()
        invariant
            i <= lines.len(),
            lv == string_views(lines@),
            s@ == join(lv.take(i as int), seq!['\n']),
        decreases lines.len() - i,
    {
        assert(lv.take(i + 1).drop_last() == lv.take(i as int));
        assert(lv.take(i + 1).last() == lines@[i as int]@);
        if i > 0 {
            push_char(&mut s, '\n');
        }
        let cs = chars_of(lines[i].as_str());
        push_chars(&mut s, &cs);
        assert(s@ =~= join(lv.take(i + 1), seq!['\n']));
        i += 1;
    }
    assert(lv.take(lines.len() as int) == lv);
    s
}

/// Metadata every chunk of record `idx` starts from.
pub open spec fn record_base(idx: nat) -> Seq<(Seq<char>, JsonValue)> {
    seq![("record"@, JsonValue::Number(decimal(idx))), ("source_kind"@, JsonValue::Str("json"@))]
}

/// The text embedded for a record: its text lines joined by line feeds, or
/// its compact JSON when it has no string content.
pub open spec fn record_text(rec: JsonValue) -> Seq<char> {
    let f = flatten_spec(seq![], rec, 0);
    if f.0.len() == 0 {
        json_compact(rec)
    } else {
        join(f.0, seq!['\n'])
    }
}

/// Metadata of record `idx`: `record`, `source_kind: "json"`, the
/// flattened scalar fields under their dotted keys, and the record itself
/// under `raw`, inserted in that order into a key-sorted map.
pub open spec fn record_meta(idx: nat, rec: JsonValue) -> Seq<(Seq<char>, JsonValue)> {
    assoc_insert(assoc_insert_all(record_base(idx), flatten_spec(seq![], rec, 0).1), "raw"@, rec)
}

/// The chunks of record `idx`: one chunk, or when its text has more words
/// than `chunk_words`, one chunk per word window, each tagged with `part`.
pub open spec fn record_chunks(idx: nat, rec: JsonValue, chunk_words: nat, overlap_words: nat) -> Seq<
    (Seq<char>, JsonValue),
> {
    let body = record_text(rec);
    let m = record_meta(idx, rec);
    if words(body).len() > chunk_words {
        let parts = chunk_text_spec(body, chunk_words, overlap_words);
        Seq::new(
            parts.len(),
            |p: int|
                (parts[p], JsonValue::Object(assoc_insert(m, "part"@, JsonValue::Number(decimal(p as nat))))),
        )
    } else {
        seq![(body, JsonValue::Object(m))]
    }
}

/// What `chunk_json` returns: the chunks of every record in order; text
/// that is not JSON at all (no whole-text value and no parsable line) falls
/// back to plain word windows with positional metadata.
pub open spec fn chunk_json_spec(text: Seq<char>, chunk_words: nat, overlap_words: nat) -> Seq<
    (Seq<char>, JsonValue),
> {
    let recs = json_records(text);
    if json_parse(text) is None && recs.len() == 0 {
        indexed(chunk_text_spec(text, chunk_words, overlap_words))
    } else {
        record_chunk_groups(recs, chunk_words, overlap_words).flatten()
    }
}

/// The chunks of each record, record by record.
pub open spec fn record_chunk_groups(recs: Seq<JsonValue>, chunk_words: nat, overlap_words: nat) -> Seq<
    Seq<(Seq<char>, JsonValue)>,
> {
    Seq::new(recs.len(), |i: int| record_chunks(i as nat, recs[i], chunk_words, overlap_words))
}

/// The chunks of one record.
fn chunks_of_record(idx: usize, rec: &Json, chunk_words: usize, overlap_words: usize) -> (out: Vec<
    Chunk,
>)
    ensures
        chunk_views(out@) == record_chunks(idx as nat, rec@, chunk_words as nat, overlap_words as nat),
{
    let mut lines: Vec<String> = Vec::new();
    let mut meta: Vec<Field> = Vec::new();
    meta.push(Field { key: "record".to_owned(), value: Json::Number(decimal_string(idx)) });
    meta.push(Field { key: "source_kind".to_owned(), value: Json::Str("json".to_owned()) });
    proof {
        lemma_fields_view(meta@);
    }
    assert(fields_view(meta@) =~= record_base(idx as nat));
    proof {
        reveal_strlit("");
        assert(""@ =~= Seq::<char>::empty());
    }
    flatten_value("", rec, 0, &mut lines, &mut meta);
    assert(string_views(lines@) =~= flatten_spec(seq![], rec@, 0).0);
    let body = if lines.len() == 0 {
        compact_json(rec)
    } else {
        join_lines(&lines)
    };
    assert(body@ == record_text(rec@));
    meta_insert(&mut meta, "raw".to_owned(), rec.copy());
    let ghost m = record_meta(idx as nat, rec@);
    assert(fields_view(meta@) == m);
    let body_chars = chars_of(body.as_str());
    let body_words = split_words(&body_chars);
    let mut out: Vec<Chunk> = Vec::new();
    if body_words.len() > chunk_words {
        let parts = chunk_text(body.as_str(), chunk_words, overlap_words);
        let ghost pv = string_views(parts@);
        let mut p: usize = 0;
        while p < parts.len()
            invariant
                p <= parts.len(),
                pv == string_views(parts@),
                fields_view(meta@) == m,
                chunk_views(out@) == Seq::new(
                    p as nat,
                    |q: int|
                        (pv[q], JsonValue::Object(assoc_insert(m, "part"@, JsonValue::Number(decimal(q as nat))))),
                ),
            decreases parts.len() - p,
        {
            let mut pm = copy_fields(&meta);
            meta_insert(&mut pm, "part".to_owned(), Json::Number(decimal_string(p)));
            let ghost before = chunk_views(out@);
            let ghost e = (pv[p as int], JsonValue::Object(assoc_insert(m, "part"@, JsonValue::Number(decimal(p as nat)))));
            out.push(Chunk { text: parts[p].clone(), metadata: Json::Object(pm) });
            assert(chunk_views(out@) =~= before.push(e));
            assert(Seq::new(
                (p + 1) as nat,
                |q: int|
                    (pv[q], JsonValue::Object(assoc_insert(m, "part"@, JsonValue::Number(decimal(q as nat))))),
            ) =~= Seq::new(
                p as nat,
                |q: int|
                    (pv[q], JsonValue::Object(assoc_insert(m, "part"@, JsonValue::Number(decimal(q as nat))))),
            ).push(e));
            p += 1;
        }
    } else {
        let ghost bv = body@;
        out.push(Chunk { text: body, metadata: Json::Object(meta) });
        assert(chunk_views(out@) =~= seq![(bv, JsonValue::Object(m))]);
    }
    out
}

/// Field-aware chunking of JSON, JSONL and NDJSON: one chunk per record
/// (see `chunk_json_spec`). String fields become the embedded text, scalar
/// fields become metadata, and the record is kept verbatim under `raw`.
pub fn chunk_json(text: &str, chunk_words: usize, overlap_words: usize) -> (chunks: Vec<Chunk>)
    ensures
        chunk_views(chunks@) == chunk_json_spec(text@, chunk_words as nat, overlap_words as nat),
{
    let whole = parse_json(text);
    let parsed = whole.is_some();
    let records = records_of(text, whole);
    let ghost rv = items_view(records@);
    proof {
        lemma_items_view(records@);
    }
    if !parsed && records.len() == 0 {
        return indexed_chunks(chunk_text(text, chunk_words, overlap_words));
    }
    let ghost g = record_chunk_groups(rv, chunk_words as nat, overlap_words as nat);
    let mut out: Vec<Chunk> = Vec::new();
    let mut i: usize = 0;
    assert(g.take(0) =~= Seq::<Seq<(Seq<char>, JsonValue)>>::empty());
    while i < records.len()
        invariant
            i <= records.len(),
            rv == items_view(records@),
            rv.len() == records@.len(),
            g == record_chunk_groups(rv, chunk_words as nat, overlap_words as nat),
            forall|k: int| 0 <= k < records@.len() ==> #[trigger] rv[k] == records@[k]@,
            chunk_views(out@) == g.take(i as int).flatten(),
        decreases records.len() - i,
    {
        let mut part = chunks_of_record(i, &records[i], chunk_words, overlap_words);
        let ghost before = chunk_views(out@);
        let ghost pv = chunk_views(part@);
        out.append(&mut part);
        assert(chunk_views(out@) =~= before + pv);
        assert(rv[i as int] == records@[i as int]@);
        assert(pv == g[i as int]);
        assert(g.take(i + 1) =~= g.take(i as int).push(g[i as int]));
        proof {
            g.take(i as int).lemma_flatten_push(g[i as int]);
        }
        i += 1;
    }
    assert(g.take(records.len() as int) == g);
    out
}


/// How a file's chunks are made, chosen by its extension.
#[derive(Debug)]
pub enum Chunker {
    Markdown,
    Json,
    Text,
}

/// The chunker for a file at `path`: markdown for `md` / `markdown`, the
/// JSON chunker for `json` / `jsonl` / `ndjson` (extensions compared
/// ASCII-case-insensitively), plain word windows otherwise.
pub open spec fn chunker_for(path: Seq<char>) -> Chunker {
    match path_extension(path) {
        Some(e) => {
            let l = ascii_lower(e);
            if l == "md"@ || l == "markdown"@ {
                Chunker::Markdown
            } else if l == "json"@ || l == "jsonl"@ || l == "ndjson"@ {
                Chunker::Json
            } else {
                Chunker::Text
            }
        },
        None => Chunker::Text,
    }
}

/// The chunker for a file at `path` (see `chunker_for`).
pub fn chunker_of(path: &str) -> (c: Chunker)
    ensures
        c == chunker_for(path@),
{
    match extension_of(path) {
        Some(e) => {
            let l = to_ascii_lower(e.as_str());
            if l == "md".to_owned() || l == "markdown".to_owned() {
                Chunker::Markdown
            } else if l == "json".to_owned() || l == "jsonl".to_owned() || l == "ndjson".to_owned() {
                Chunker::Json
            } else {
                Chunker::Text
            }
        },
        None => Chunker::Text,
    }
}

/// What `chunk_for_path` returns.
pub open spec fn chunk_for_path_spec(
    path: Seq<char>,
    text: Seq<char>,
    chunk_words: nat,
    overlap_words: nat,
) -> Seq<(Seq<char>, JsonValue)> {
    match chunker_for(path) {
        Chunker::Markdown => indexed(chunk_markdown_spec(text, chunk_words, overlap_words)),
        Chunker::Json => chunk_json_spec(text, chunk_words, overlap_words),
        Chunker::Text => indexed(chunk_text_spec(text, chunk_words, overlap_words)),
    }
}

/// Choose a chunker by file extension (see `chunker_for`) and chunk `text`
/// with it; markdown and plain-text chunks carry `{"chunk": i}` metadata.
pub fn chunk_for_path(path: &str, text: &str, chunk_words: usize, overlap_words: usize) -> (chunks:
    Vec<Chunk>)
    ensures
        chunk_views(chunks@) == chunk_for_path_spec(
            path@,
            text@,
            chunk_words as nat,
            overlap_words as nat,
        ),
{
    let kind = chunker_of(path);
    match kind {
        Chunker::Markdown => indexed_chunks(chunk_markdown(text, chunk_words, overlap_words)),
        Chunker::Json => chunk_json(text, chunk_words, overlap_words),
        Chunker::Text => indexed_chunks(chunk_text(text, chunk_words, overlap_words)),
    }
}


proof fn lemma_md_state_blank(ls: Seq<Seq<char>>)
    requires
        forall|i: int| 0 <= i < ls.len() ==> all_ws(#[trigger] ls[i]),
    ensures
        md_state(ls).0.len() == 0,
        all_ws(md_state(ls).1),
    decreases ls.len(),
{
    if ls.len() > 0 {
        let pre = ls.drop_last();
        assert forall|i: int| 0 <= i < pre.len() implies all_ws(#[trigger] pre[i]) by {
            assert(pre[i] == ls[i]);
        }
        lemma_md_state_blank(pre);
        let l = ls.last();
        assert(all_ws(l));
        lemma_trim_start_blank(l);
        assert(!is_heading_line(l));
        let cur = md_state(pre).1;
        let next = cur + l.push('\n');
        assert forall|k: int| 0 <= k < next.len() implies crate::text::is_ws(#[trigger] next[k]) by {
            if k < cur.len() {
                assert(next[k] == cur[k]);
            } else if k < cur.len() + l.len() {
                assert(next[k] == l[k - cur.len()]);
            } else {
                assert(next[k] == '\n');
            }
        }
    }
}

/// Empty or whitespace-only input yields no chunks, from the markdown
/// chunker and from the word-window chunker alike.
pub proof fn law_blank_input_no_chunks(text: Seq<char>, chunk_words: nat, overlap_words: nat)
    requires
        all_ws(text),
    ensures
        chunk_markdown_spec(text, chunk_words, overlap_words).len() == 0,
        chunk_text_spec(text, chunk_words, overlap_words).len() == 0,
{
    lemma_words_all_ws(text);
    lemma_lines_all_ws(text);
    lemma_md_state_blank(lines(text));
    lemma_blank_iff_all_ws(md_state(lines(text)).1);
    assert(md_sections(text).len() == 0);
    let m = md_sections(text).map_values(
        |sec: Seq<char>| section_chunks(trim(sec), chunk_words, overlap_words),
    );
    assert(m.len() == 0);
    assert(m.flatten() =~= Seq::<Seq<char>>::empty());
}


/// Without heading lines, no section closes: the open section collects
/// every line, each followed by a line feed, and so has the words of all
/// the lines.
proof fn lemma_md_state_no_heading(ls: Seq<Seq<char>>)
    requires
        forall|i: int| 0 <= i < ls.len() ==> !is_heading_line(#[trigger] ls[i]),
    ensures
        md_state(ls).0.len() == 0,
        md_state(ls).1.len() == 0 || md_state(ls).1.last() == '\n',
        words(md_state(ls).1) == words_of_all(ls),
    decreases ls.len(),
{
    if ls.len() > 0 {
        let pre = ls.drop_last();
        assert forall|i: int| 0 <= i < pre.len() implies !is_heading_line(#[trigger] pre[i]) by {
            assert(pre[i] == ls[i]);
        }
        lemma_md_state_no_heading(pre);
        let l = ls.last();
        assert(!is_heading_line(l));
        let cur = md_state(pre).1;
        let ln = l.push('\n');
        assert(is_ws('\n'));
        lemma_words_concat_ws(cur, ln);
        assert(ln.drop_last() =~= l);
        assert(ln.last() == '\n');
        assert(words(ln) == words(l));
        assert((cur + ln).last() == '\n');
    }
}

/// A markdown document without heading lines is chunked like `chunk_text`:
/// the same number of chunks, each with the same words. With more words than
/// `chunk_words` the chunks are exactly those of `chunk_text`; within one
/// window the single chunk keeps the text's own spacing.
pub proof fn law_markdown_without_headings(text: Seq<char>, chunk_words: nat, overlap_words: nat)
    requires
        forall|i: int| 0 <= i < lines(text).len() ==> !is_heading_line(#[trigger] lines(text)[i]),
    ensures
        chunk_markdown_spec(text, chunk_words, overlap_words).len() == chunk_text_spec(
            text,
            chunk_words,
            overlap_words,
        ).len(),
        forall|i: int|
            0 <= i < chunk_text_spec(text, chunk_words, overlap_words).len() ==> words(
                #[trigger] chunk_markdown_spec(text, chunk_words, overlap_words)[i],
            ) == words(chunk_text_spec(text, chunk_words, overlap_words)[i]),
        words(text).len() > chunk_words ==> chunk_markdown_spec(text, chunk_words, overlap_words)
            == chunk_text_spec(text, chunk_words, overlap_words),
{
    let ls = lines(text);
    lemma_md_state_no_heading(ls);
    lemma_words_lines(text);
    let cur = md_state(ls).1;
    lemma_words_trim(cur);
    let t = trim(cur);
    let ws = words(text);
    assert(words(t) == ws);
    let md = chunk_markdown_spec(text, chunk_words, overlap_words);
    let ct = chunk_text_spec(text, chunk_words, overlap_words);
    if ws.len() == 0 {
        lemma_trim_end_last(trim_start(cur));
        lemma_words_props(t);
        assert(t.len() == 0);
        assert(is_blank(cur));
        assert(md_sections(text) =~= Seq::<Seq<char>>::empty());
        let m = md_sections(text).map_values(
            |sec: Seq<char>| section_chunks(trim(sec), chunk_words, overlap_words),
        );
        assert(m.len() == 0);
        assert(m.flatten() =~= Seq::<Seq<char>>::empty());
        assert(md.len() == 0);
        assert(ct.len() == 0);
    } else {
        if t.len() == 0 {
            assert(words(t) =~= Seq::<Seq<char>>::empty());
        }
        assert(!is_blank(cur));
        assert(md_sections(text) =~= seq![cur]);
        let m = md_sections(text).map_values(
            |sec: Seq<char>| section_chunks(trim(sec), chunk_words, overlap_words),
        );
        assert(m =~= seq![section_chunks(t, chunk_words, overlap_words)]);
        m.lemma_flatten_one_element();
        if ws.len() > chunk_words {
            assert(section_chunks(t, chunk_words, overlap_words) == chunk_text_spec(
                t,
                chunk_words,
                overlap_words,
            ));
        } else {
            assert(md =~= seq![t]);
            assert(ws.len() <= clamp_width(chunk_words));
            assert(ct =~= seq![join(ws, seq![' '])]);
            lemma_words_props(text);
            lemma_words_join(ws);
            assert(words(md[0]) == words(ct[0]));
        }
    }
}

/// `chunk_text` depends only on the words of its input: re-spacing the text
/// with single spaces changes no chunk.
pub proof fn law_chunk_text_same_words(text: Seq<char>, chunk_words: nat, overlap_words: nat)
    ensures
        chunk_text_spec(join(words(text), seq![' ']), chunk_words, overlap_words) == chunk_text_spec(
            text,
            chunk_words,
            overlap_words,
        ),
{
    lemma_words_props(text);
    lemma_words_join(words(text));
}

proof fn lemma_flatten_singletons<A>(gs: Seq<Seq<A>>)
    requires
        forall|i: int| 0 <= i < gs.len() ==> (#[trigger] gs[i]).len() == 1,
    ensures
        gs.flatten() == Seq::new(gs.len(), |i: int| gs[i][0]),
    decreases gs.len(),
{
    if gs.len() > 0 {
        let rest = gs.drop_first();
        assert forall|i: int| 0 <= i < rest.len() implies (#[trigger] rest[i]).len() == 1 by {
            assert(rest[i] == gs[i + 1]);
        }
        lemma_flatten_singletons(rest);
        assert(gs[0].len() == 1);
        assert(gs.flatten() =~= Seq::new(gs.len(), |i: int| gs[i][0]));
    }
}

/// JSON input whose records each fit in one chunk gives exactly one chunk
/// per record, in record order: the record's text, with the record's
/// metadata.
pub proof fn law_json_one_chunk_per_record(text: Seq<char>, chunk_words: nat, overlap_words: nat)
    requires
        json_parse(text) is Some || json_records(text).len() > 0,
        forall|i: int|
            0 <= i < json_records(text).len() ==> words(
                record_text(#[trigger] json_records(text)[i]),
            ).len() <= chunk_words,
    ensures
        chunk_json_spec(text, chunk_words, overlap_words) == Seq::new(
            json_records(text).len(),
            |i: int|
                (
                    record_text(json_records(text)[i]),
                    JsonValue::Object(record_meta(i as nat, json_records(text)[i])),
                ),
        ),
{
    let recs = json_records(text);
    let g = record_chunk_groups(recs, chunk_words, overlap_words);
    assert forall|i: int| 0 <= i < g.len() implies (#[trigger] g[i]).len() == 1 by {
        assert(words(record_text(recs[i])).len() <= chunk_words);
    }
    lemma_flatten_singletons(g);
    assert(chunk_json_spec(text, chunk_words, overlap_words) =~= Seq::new(
        recs.len(),
        |i: int| (record_text(recs[i]), JsonValue::Object(record_meta(i as nat, recs[i]))),
    )) by {
        assert forall|i: int| 0 <= i < recs.len() implies g[i][0] == (
            record_text(recs[i]),
            JsonValue::Object(record_meta(i as nat, recs[i])),
        ) by {
            assert(words(record_text(recs[i])).len() <= chunk_words);
        }
    }
}

/// Every chunk made from a JSON record is self-contained: its metadata
/// holds the record verbatim under `raw`, and when the record was split,
/// the part number under `part`.
pub proof fn law_record_chunks_carry_raw(idx: nat, rec: JsonValue, chunk_words: nat, overlap_words: nat)
    ensures
        forall|p: int|
            0 <= p < record_chunks(idx, rec, chunk_words, overlap_words).len() ==> {
                let c = #[trigger] record_chunks(idx, rec, chunk_words, overlap_words)[p];
                &&& c.1 is Object
                &&& lookup(c.1->Object_0, "raw"@) == Some(rec)
                &&& words(record_text(rec)).len() > chunk_words ==> lookup(c.1->Object_0, "part"@) == Some(
                    JsonValue::Number(decimal(p as nat)),
                )
            },
{
    reveal_strlit("raw");
    reveal_strlit("part");
    assert("raw"@ != "part"@) by {
        assert("raw"@[0] != "part"@[0]);
    }
    let base = assoc_insert_all(record_base(idx), flatten_spec(seq![], rec, 0).1);
    let m = record_meta(idx, rec);
    lemma_lookup_insert(base, "raw"@, rec, "raw"@);
    let cs = record_chunks(idx, rec, chunk_words, overlap_words);
    assert forall|p: int| 0 <= p < cs.len() implies ({
        let c = #[trigger] cs[p];
        &&& c.1 is Object
        &&& lookup(c.1->Object_0, "raw"@) == Some(rec)
        &&& words(record_text(rec)).len() > chunk_words ==> lookup(c.1->Object_0, "part"@) == Some(
            JsonValue::Number(decimal(p as nat)),
        )
    }) by {
        if words(record_text(rec)).len() > chunk_words {
            let pv = JsonValue::Number(decimal(p as nat));
            lemma_lookup_insert(m, "part"@, pv, "raw"@);
        }
    }
}


/// The metadata of every chunk made from a JSON record is sorted by key and
/// holds no key twice, as the JSON library's objects are.
pub proof fn law_record_meta_sorted(idx: nat, rec: JsonValue, chunk_words: nat, overlap_words: nat)
    ensures
        forall|p: int|
            0 <= p < record_chunks(idx, rec, chunk_words, overlap_words).len() ==> {
                let c = #[trigger] record_chunks(idx, rec, chunk_words, overlap_words)[p];
                c.1 is Object && keys_sorted(c.1->Object_0)
            },
{
    reveal_strlit("record");
    reveal_strlit("source_kind");
    let b = record_base(idx);
    assert(key_less("record"@, "source_kind"@)) by {
        assert("record"@[0] == 'r');
        assert("source_kind"@[0] == 's');
    }
    assert(keys_sorted(b));
    let flat = flatten_spec(seq![], rec, 0).1;
    law_assoc_insert_all_sorted(b, flat);
    let base = assoc_insert_all(b, flat);
    law_assoc_insert_sorted(base, "raw"@, rec);
    let m = record_meta(idx, rec);
    let cs = record_chunks(idx, rec, chunk_words, overlap_words);
    assert forall|p: int| 0 <= p < cs.len() implies ({
        let c = #[trigger] cs[p];
        c.1 is Object && keys_sorted(c.1->Object_0)
    }) by {
        if words(record_text(rec)).len() > chunk_words {
            law_assoc_insert_sorted(m, "part"@, JsonValue::Number(decimal(p as nat)));
        }
    }
}

} // verus!
