//! The rules of directory ingestion's file selection: which walk entries
//! are hidden, which files the extension filter and the size limit keep,
//! and whether a file's leading bytes look like text. The walk itself and
//! the reads happen in the caller.

use vstd::prelude::*;
use vstd::utf8::{
    is_leading_byte_width_2, is_leading_byte_width_3, length_of_first_scalar, pop_first_scalar,
    valid_first_scalar, valid_utf8,
};
use crate::text::{extension_of, path_extension, to_lower, unicode_lower};

verus! {

/// How many leading bytes to inspect when sniffing whether a file is text.
pub const SNIFF_BYTES: usize = 8192;

/// Options controlling which files a directory walk yields.
#[derive(Debug, Clone)]
pub struct ScanOpts {
    /// Lowercased extensions without leading dots; `None` = no extension filter.
    pub exts: Option<Vec<String>>,
    /// Skip files larger than this many bytes.
    pub max_bytes: u64,
}

#[verifier::external_type_specification]
#[verifier::external_body]
pub struct ExUtf8Error(core::str::Utf8Error);

/// `std::str::from_utf8`. Claimed, as its documentation says: it succeeds
/// exactly when `bytes` is valid UTF-8, and then yields the decoded text.
#[verifier::external_body]
fn utf8_str<'a>(bytes: &'a [u8]) -> (r: Result<&'a str, core::str::Utf8Error>)
    ensures
        r is Ok <==> valid_utf8(bytes@),
{
    std::str::from_utf8(bytes)
}

/// A continuation byte of a UTF-8 sequence.
pub open spec fn is_continuation(b: u8) -> bool {
    0x80 <= b <= 0xbf
}

/// The allowed range of the second byte of a multibyte sequence that starts
/// with `b0` (Unicode Table 3-7: no overlong forms, no surrogates, nothing
/// above U+10FFFF).
pub open spec fn second_byte_ok(b0: u8, b1: u8) -> bool {
    if b0 == 0xe0 {
        0xa0 <= b1 <= 0xbf
    } else if b0 == 0xed {
        0x80 <= b1 <= 0x9f
    } else if b0 == 0xf0 {
        0x90 <= b1 <= 0xbf
    } else if b0 == 0xf4 {
        0x80 <= b1 <= 0x8f
    } else {
        is_continuation(b1)
    }
}

/// `t` is a character cut off before its end: a proper, non-empty prefix of
/// the UTF-8 encoding of one character, that is, the lead byte of a
/// multibyte sequence followed by fewer bytes than the sequence needs, each
/// in its allowed range.
pub open spec fn truncated_char(t: Seq<u8>) -> bool {
    &&& 1 <= t.len()
    &&& if 0xc2 <= t[0] <= 0xdf {
        t.len() == 1
    } else if 0xe0 <= t[0] <= 0xef {
        t.len() <= 2 && (t.len() == 2 ==> second_byte_ok(t[0], t[1]))
    } else if 0xf0 <= t[0] <= 0xf4 {
        &&& t.len() <= 3
        &&& t.len() >= 2 ==> second_byte_ok(t[0], t[1])
        &&& t.len() == 3 ==> is_continuation(t[2])
    } else {
        false
    }
}

/// `bytes` is valid UTF-8 up to some point, and what follows is one
/// character cut off at the very end.
pub open spec fn truncated_tail(bytes: Seq<u8>) -> bool {
    exists|j: int|
        0 <= j <= bytes.len() && valid_utf8(#[trigger] bytes.take(j)) && truncated_char(bytes.skip(j))
}

/// Whether a byte prefix looks like text: no NUL byte, and valid UTF-8 or
/// valid UTF-8 followed by a character cut off at the very end.
pub open spec fn looks_like_text_spec(prefix: Seq<u8>) -> bool {
    &&& !prefix.contains(0u8)
    &&& (valid_utf8(prefix) || truncated_tail(prefix))
}

/// Whether `t` is a character cut off before its end.
fn is_truncated_char(t: &[u8]) -> (b: bool)
    ensures
        b == truncated_char(t@),
{
    let n = t.len();
    if n == 0 {
        return false;
    }
    let b0 = t[0];
    let second_ok = n < 2 || {
        let b1 = t[1];
        if b0 == 0xe0 {
            0xa0 <= b1 && b1 <= 0xbf
        } else if b0 == 0xed {
            0x80 <= b1 && b1 <= 0x9f
        } else if b0 == 0xf0 {
            0x90 <= b1 && b1 <= 0xbf
        } else if b0 == 0xf4 {
            0x80 <= b1 && b1 <= 0x8f
        } else {
            0x80 <= b1 && b1 <= 0xbf
        }
    };
    if 0xc2 <= b0 && b0 <= 0xdf {
        n == 1
    } else if 0xe0 <= b0 && b0 <= 0xef {
        n <= 2 && second_ok
    } else if 0xf0 <= b0 && b0 <= 0xf4 {
        n <= 3 && second_ok && (n < 3 || (0x80 <= t[2] && t[2] <= 0xbf))
    } else {
        false
    }
}

/// Heuristic: does this byte prefix look like UTF-8 text? True when it
/// contains no NUL byte and is valid UTF-8, where a multibyte character
/// truncated at the very end still counts (the sniff may slice through a
/// character). An empty prefix counts as text.
pub fn looks_like_text(prefix: &[u8]) -> (b: bool)
    ensures
        b == looks_like_text_spec(prefix@),
{
    let mut i: usize = 0;
    while i < prefix.len()
        invariant
            i <= prefix.len(),
            forall|k: int| 0 <= k < i ==> prefix@[k] != 0u8,
        decreases prefix.len() - i,
    {
        if prefix[i] == 0 {
            assert(prefix@.contains(0u8)) by {
                assert(prefix@[i as int] == 0u8);
            }
            return false;
        }
        i += 1;
    }
    assert(!prefix@.contains(0u8));
    if utf8_str(prefix).is_ok() {
        return true;
    }
    let n = prefix.len();
    let lo = if n >= 3 {
        n - 3
    } else {
        0
    };
    assert forall|j: int| 0 <= j < lo implies !truncated_char(#[trigger] prefix@.skip(j)) by {
        assert(prefix@.skip(j).len() > 3);
    }
    let mut j: usize = lo;
    while j < n
        invariant
            lo <= j <= n,
            n == prefix@.len(),
            !prefix@.contains(0u8),
            forall|q: int| 0 <= q < lo ==> !truncated_char(#[trigger] prefix@.skip(q)),
            forall|q: int|
                lo <= q < j ==> !(valid_utf8(#[trigger] prefix@.take(q)) && truncated_char(
                    prefix@.skip(q),
                )),
        decreases n - j,
    {
        let (head, tail) = prefix.split_at(j);
        assert(head@ == prefix@.take(j as int));
        assert(tail@ == prefix@.skip(j as int));
        if is_truncated_char(tail) && utf8_str(head).is_ok() {
            assert(valid_utf8(prefix@.take(j as int)));
            assert(truncated_tail(prefix@));
            return true;
        }
        j += 1;
    }
    assert(!truncated_tail(prefix@)) by {
        assert forall|q: int| 0 <= q <= n implies !(valid_utf8(#[trigger] prefix@.take(q))
            && truncated_char(prefix@.skip(q))) by {
            if q < lo {
                assert(!truncated_char(prefix@.skip(q)));
            } else if q == n {
                assert(prefix@.skip(q).len() == 0);
            }
        }
    }
    false
}

/// The lowercased extension of `path`, when it has one.
pub open spec fn ext_lower_spec(path: Seq<char>) -> Option<Seq<char>> {
    match path_extension(path) {
        Some(e) => Some(unicode_lower(e)),
        None => None,
    }
}

/// The file extension, lowercased, without a leading dot.
pub fn ext_lower(path: &str) -> (r: Option<String>)
    ensures
        match r {
            Some(e) => ext_lower_spec(path@) == Some(e@),
            None => ext_lower_spec(path@) is None,
        },
{
    match extension_of(path) {
        Some(e) => Some(to_lower(e.as_str())),
        None => None,
    }
}

/// True if a walk entry below the root has a name starting with `'.'`. The
/// root itself (depth 0) is never hidden, and neither is an entry whose name
/// is not valid Unicode (`name` is `None`).
pub open spec fn is_hidden_spec(depth: nat, name: Option<Seq<char>>) -> bool {
    depth > 0 && match name {
        Some(n) => n.len() > 0 && n[0] == '.',
        None => false,
    }
}

/// Every walk entry below the root whose name starts with `'.'` is hidden,
/// however deep it lies; the root itself never is, and neither is an entry
/// whose name does not start with `'.'`.
pub proof fn law_hidden_entries(depth: nat, name: Option<Seq<char>>)
    ensures
        depth > 0 && (name matches Some(n) && n.len() > 0 && n[0] == '.') ==> is_hidden_spec(depth, name),
        depth == 0 ==> !is_hidden_spec(depth, name),
        !(name matches Some(n) && n.len() > 0 && n[0] == '.') ==> !is_hidden_spec(depth, name),
{
}

/// True if a walk entry at `depth` named `name` is hidden.
pub fn is_hidden(depth: usize, name: &Option<String>) -> (b: bool)
    ensures
        b == is_hidden_spec(depth as nat, match name {
            Some(n) => Some(n@),
            None => None,
        }),
{
    if depth == 0 {
        return false;
    }
    match name {
        Some(n) => {
            let cs = crate::text::chars_of(n.as_str());
            cs.len() > 0 && cs[0] == '.'
        },
        None => false,
    }
}

/// True if the extension filter of `opts` keeps the file at `path`: there is
/// no filter, or the lowercased extension is one of the listed ones.
pub open spec fn ext_allowed(exts: Option<Seq<Seq<char>>>, path: Seq<char>) -> bool {
    match exts {
        None => true,
        Some(list) => match ext_lower_spec(path) {
            Some(e) => list.contains(e),
            None => false,
        },
    }
}

/// The extension filter of `opts` as a model.
pub open spec fn exts_view(opts: ScanOpts) -> Option<Seq<Seq<char>>> {
    match opts.exts {
        Some(v) => Some(crate::text::string_views(v@)),
        None => None,
    }
}

/// Whether a regular file found by the walk is still a candidate before
/// sniffing its contents: it passes the extension filter and is no larger
/// than `max_bytes`.
pub open spec fn keep_candidate_spec(opts: ScanOpts, path: Seq<char>, size: u64) -> bool {
    ext_allowed(exts_view(opts), path) && size <= opts.max_bytes
}

/// True if a file at `path` of `size` bytes passes the extension filter and
/// the size limit.
pub fn keep_candidate(opts: &ScanOpts, path: &str, size: u64) -> (b: bool)
    ensures
        b == keep_candidate_spec(*opts, path@, size),
{
    let allowed = match &opts.exts {
        None => true,
        Some(list) => match ext_lower(path) {
            Some(e) => {
                let ghost lv = crate::text::string_views(list@);
                let mut found = false;
                let mut i: usize = 0;
                while i < list.len()
                    invariant
                        i <= list.len(),
                        lv == crate::text::string_views(list@),
                        found <==> exists|k: int| 0 <= k < i && lv[k] == e@,
                    decreases list.len() - i,
                {
                    let hit = list[i] == e;
                    assert(lv[i as int] == list@[i as int]@);
                    if hit {
                        found = true;
                    }
                    assert(found <==> exists|k: int| 0 <= k < i + 1 && lv[k] == e@) by {
                        if hit {
                            assert(lv[i as int] == e@);
                        } else {
                            assert(lv[i as int] != e@);
                        }
                    }
                    i += 1;
                }
                proof {
                    if found {
                        let k = choose|k: int| 0 <= k < list.len() && lv[k] == e@;
                        assert(lv.contains(e@));
                    } else {
                        assert forall|k: int| 0 <= k < lv.len() implies lv[k] != e@ by {}
                    }
                }
                found
            },
            None => false,
        },
    };
    allowed && size <= opts.max_bytes
}


/// Valid UTF-8, or valid UTF-8 followed by a character cut off at the end.
pub open spec fn utf8_up_to_cut(bytes: Seq<u8>) -> bool {
    valid_utf8(bytes) || truncated_tail(bytes)
}

proof fn lemma_width2_lead(b0: u8, b1: u8)
    by (bit_vector)
    requires
        0xc0 <= b0 <= 0xdf,
        0x80 <= b1 <= 0xbf,
        0x80 <= ((((b0 & 0x1F) as u32) << 6) | ((b1 & 0x3f) as u32)),
    ensures
        0xc2 <= b0,
{
}

proof fn lemma_width3_second(b0: u8, b1: u8, b2: u8)
    by (bit_vector)
    requires
        0xe0 <= b0 <= 0xef,
        0x80 <= b1 <= 0xbf,
        0x80 <= b2 <= 0xbf,
        0x800 <= ((((b0 & 0x0F) as u32) << 12) | (((b1 & 0x3f) as u32) << 6) | ((b2 & 0x3f) as u32)),
        !(0xD800 <= ((((b0 & 0x0F) as u32) << 12) | (((b1 & 0x3f) as u32) << 6) | ((b2 & 0x3f) as u32))
            <= 0xDFFF),
    ensures
        b0 == 0xe0 ==> 0xa0 <= b1,
        b0 == 0xed ==> b1 <= 0x9f,
{
}

proof fn lemma_width4_lead(b0: u8, b1: u8, b2: u8, b3: u8)
    by (bit_vector)
    requires
        0xf0 <= b0 <= 0xf7,
        0x80 <= b1 <= 0xbf,
        0x80 <= b2 <= 0xbf,
        0x80 <= b3 <= 0xbf,
        0x10000 <= ((((b0 & 0x07) as u32) << 18) | (((b1 & 0x3f) as u32) << 12) | (((b2 & 0x3f) as u32)
            << 6) | ((b3 & 0x3f) as u32)),
        ((((b0 & 0x07) as u32) << 18) | (((b1 & 0x3f) as u32) << 12) | (((b2 & 0x3f) as u32) << 6) | ((b3
            & 0x3f) as u32)) <= 0x10ffff,
    ensures
        b0 <= 0xf4,
        b0 == 0xf0 ==> 0x90 <= b1,
        b0 == 0xf4 ==> b1 <= 0x8f,
{
}

/// A proper, non-empty prefix of a well-formed first character is a
/// character cut off before its end.
proof fn lemma_first_scalar_cut(p: Seq<u8>, k: int)
    requires
        valid_first_scalar(p),
        1 <= k < length_of_first_scalar(p),
    ensures
        truncated_char(p.take(k)),
{
    let t = p.take(k);
    assert(t[0] == p[0]);
    if k >= 2 {
        assert(t[1] == p[1]);
    }
    if k >= 3 {
        assert(t[2] == p[2]);
    }
    if is_leading_byte_width_2(p[0]) {
        lemma_width2_lead(p[0], p[1]);
    } else if is_leading_byte_width_3(p[0]) {
        lemma_width3_second(p[0], p[1], p[2]);
    } else {
        lemma_width4_lead(p[0], p[1], p[2], p[3]);
    }
}

/// Cutting the input after its first character keeps that character.
proof fn lemma_take_first_scalar(p: Seq<u8>, i: int)
    requires
        valid_first_scalar(p),
        length_of_first_scalar(p) <= i <= p.len(),
    ensures
        valid_first_scalar(p.take(i)),
        length_of_first_scalar(p.take(i)) == length_of_first_scalar(p),
        pop_first_scalar(p.take(i)) == p.subrange(length_of_first_scalar(p), i),
{
    let q = p.take(i);
    assert(q[0] == p[0]);
    if i >= 2 {
        assert(q[1] == p[1]);
    }
    if i >= 3 {
        assert(q[2] == p[2]);
    }
    if i >= 4 {
        assert(q[3] == p[3]);
    }
    assert(pop_first_scalar(q) =~= p.subrange(length_of_first_scalar(p), i));
}

/// Every prefix of valid UTF-8 is valid UTF-8 up to a cut-off character.
proof fn lemma_valid_prefix(p: Seq<u8>, i: int)
    requires
        valid_utf8(p),
        0 <= i <= p.len(),
    ensures
        utf8_up_to_cut(p.take(i)),
    decreases p.len(),
{
    if i == 0 {
        assert(p.take(0) =~= Seq::<u8>::empty());
    } else {
        let l = length_of_first_scalar(p);
        let rest = pop_first_scalar(p);
        let q = p.take(i);
        if i < l {
            lemma_first_scalar_cut(p, i);
            assert(q.take(0) =~= Seq::<u8>::empty());
            assert(q.skip(0) =~= q);
            assert(valid_utf8(q.take(0)));
        } else {
            lemma_take_first_scalar(p, i);
            lemma_valid_prefix(rest, i - l);
            let r = rest.take(i - l);
            assert(r =~= p.subrange(l, i));
            if valid_utf8(r) {
                assert(valid_utf8(q));
            } else {
                let j2 = choose|j2: int|
                    0 <= j2 <= r.len() && valid_utf8(#[trigger] r.take(j2)) && truncated_char(r.skip(j2));
                let j = l + j2;
                lemma_take_first_scalar(p, j);
                assert(rest.take(j2) =~= r.take(j2));
                assert(p.subrange(l, j) =~= r.take(j2));
                assert(q.take(j) =~= p.take(j));
                assert(valid_utf8(q.take(j)));
                assert(q.skip(j) =~= r.skip(j2));
                assert(truncated_tail(q));
            }
        }
    }
}

/// A prefix of a character cut off before its end is one too.
proof fn lemma_truncated_char_prefix(t: Seq<u8>, k: int)
    requires
        truncated_char(t),
        1 <= k <= t.len(),
    ensures
        truncated_char(t.take(k)),
{
    let u = t.take(k);
    assert(u[0] == t[0]);
    if k >= 2 {
        assert(u[1] == t[1]);
    }
    if k >= 3 {
        assert(u[2] == t[2]);
    }
}

/// Cutting bytes that look like text anywhere, such as at the sniff limit,
/// leaves bytes that look like text.
pub proof fn law_text_prefix_stays_text(p: Seq<u8>, i: int)
    requires
        looks_like_text_spec(p),
        0 <= i <= p.len(),
    ensures
        looks_like_text_spec(p.take(i)),
{
    let q = p.take(i);
    assert(!q.contains(0u8)) by {
        if q.contains(0u8) {
            let k = choose|k: int| 0 <= k < q.len() && q[k] == 0u8;
            assert(p[k] == 0u8);
        }
    }
    if valid_utf8(p) {
        lemma_valid_prefix(p, i);
    } else {
        let j = choose|j: int|
            0 <= j <= p.len() && valid_utf8(#[trigger] p.take(j)) && truncated_char(p.skip(j));
        if i <= j {
            lemma_valid_prefix(p.take(j), i);
            assert(p.take(j).take(i) =~= q);
        } else {
            lemma_truncated_char_prefix(p.skip(j), i - j);
            assert(q.take(j) =~= p.take(j));
            assert(q.skip(j) =~= p.skip(j).take(i - j));
            assert(truncated_tail(q));
        }
    }
}

} // verus!
