//! Character-level text primitives: Unicode whitespace, word splitting,
//! line splitting, trimming and joining, each with a specification over
//! `Seq<char>`.

use vstd::prelude::*;

verus! {

/// The Unicode `White_Space` property (PropList.txt), which is what
/// `char::is_whitespace` tests.
pub open spec fn is_ws(c: char) -> bool {
    let u = c as u32;
    ||| 0x09 <= u <= 0x0d
    ||| u == 0x20
    ||| u == 0x85
    ||| u == 0xa0
    ||| u == 0x1680
    ||| 0x2000 <= u <= 0x200a
    ||| u == 0x2028
    ||| u == 0x2029
    ||| u == 0x202f
    ||| u == 0x205f
    ||| u == 0x3000
}

/// True if `c` has the Unicode `White_Space` property.
pub fn is_whitespace(c: char) -> (b: bool)
    ensures
        b == is_ws(c),
{
    let u = c as u32;
    (0x09 <= u && u <= 0x0d) || u == 0x20 || u == 0x85 || u == 0xa0 || u == 0x1680 || (0x2000
        <= u && u <= 0x200a) || u == 0x2028 || u == 0x2029 || u == 0x202f || u == 0x205f || u
        == 0x3000
}

/// The views of a sequence of character vectors.
pub open spec fn views(v: Seq<Vec<char>>) -> Seq<Seq<char>> {
    v.map_values(|w: Vec<char>| w@)
}

/// The whitespace-separated words of `s`, in order: the maximal runs of
/// non-whitespace characters. Defined by reading `s` left to right: a
/// non-whitespace character extends the current word when the character
/// before it is also non-whitespace, and starts a new word otherwise.
pub open spec fn words(s: Seq<char>) -> Seq<Seq<char>>
    decreases s.len(),
{
    if s.len() == 0 {
        seq![]
    } else {
        let w = words(s.drop_last());
        let c = s.last();
        if is_ws(c) {
            w
        } else if s.len() >= 2 && !is_ws(s[s.len() - 2]) {
            w.drop_last().push(w.last().push(c))
        } else {
            w.push(seq![c])
        }
    }
}

/// Every word is non-empty and free of whitespace, and text ending in a
/// non-whitespace character has at least one word.
pub proof fn lemma_words_props(s: Seq<char>)
    ensures
        s.len() > 0 && !is_ws(s.last()) ==> words(s).len() >= 1,
        forall|i: int| 0 <= i < words(s).len() ==> (#[trigger] words(s)[i]).len() > 0,
        forall|i: int, k: int|
            0 <= i < words(s).len() && 0 <= k < words(s)[i].len() ==> !is_ws(#[trigger] words(s)[i][k]),
    decreases s.len(),
{
    if s.len() > 0 {
        let pre = s.drop_last();
        lemma_words_props(pre);
        let w = words(pre);
        let c = s.last();
        if is_ws(c) {
        } else if s.len() >= 2 && !is_ws(s[s.len() - 2]) {
            assert(pre.last() == s[s.len() - 2]);
            assert(w.len() >= 1);
            let r = w.drop_last().push(w.last().push(c));
            assert forall|i: int| 0 <= i < r.len() implies (#[trigger] r[i]).len() > 0 by {
                if i < r.len() - 1 {
                    assert(r[i] == w[i]);
                }
            }
            assert forall|i: int, k: int| 0 <= i < r.len() && 0 <= k < r[i].len() implies !is_ws(#[trigger] r[i][k]) by {
                if i < r.len() - 1 {
                    assert(r[i] == w[i]);
                } else {
                    assert(r[i] == w[w.len() - 1].push(c));
                    if k < w[w.len() - 1].len() {
                        assert(r[i][k] == w[w.len() - 1][k]);
                    }
                }
            }
        } else {
            let r = w.push(seq![c]);
            assert forall|i: int| 0 <= i < r.len() implies (#[trigger] r[i]).len() > 0 by {
                if i < r.len() - 1 {
                    assert(r[i] == w[i]);
                }
            }
            assert forall|i: int, k: int| 0 <= i < r.len() && 0 <= k < r[i].len() implies !is_ws(#[trigger] r[i][k]) by {
                if i < r.len() - 1 {
                    assert(r[i] == w[i]);
                }
            }
        }
    }
}

/// Joining at least one word, the last of which is non-empty, gives
/// non-empty text.
pub proof fn lemma_join_nonempty(ws: Seq<Seq<char>>, sep: Seq<char>)
    requires
        ws.len() >= 1,
        ws.last().len() > 0,
    ensures
        join(ws, sep).len() > 0,
{
}

/// `ws` joined with `sep` between consecutive elements.
pub open spec fn join(ws: Seq<Seq<char>>, sep: Seq<char>) -> Seq<char>
    decreases ws.len(),
{
    if ws.len() == 0 {
        seq![]
    } else if ws.len() == 1 {
        ws[0]
    } else {
        join(ws.drop_last(), sep) + sep + ws.last()
    }
}

/// The characters of `s`.
pub fn chars_of(s: &str) -> (v: Vec<char>)
    ensures
        v@ == s@,
{
    let mut v: Vec<char> = Vec::new();
    for c in it: s.chars()
        invariant
            v@ == it.seq().take(it.index() as int),
            it.seq() == s@,
    {
        v.push(c);
    }
    v
}

/// Appends `c` to `s` (`String::push`).
#[verifier::external_body]
pub(crate) fn push_char(s: &mut String, c: char)
    ensures
        final(s)@ == old(s)@.push(c),
{
    s.push(c);
}

/// Appends every character of `cs` to `s`.
pub fn push_chars(s: &mut String, cs: &Vec<char>)
    ensures
        final(s)@ == old(s)@ + cs@,
{
    let mut i: usize = 0;
    while i < cs.len()
        invariant
            i <= cs.len(),
            s@ == old(s)@ + cs@.take(i as int),
        decreases cs.len() - i,
    {
        push_char(s, cs[i]);
        assert(cs@.take(i + 1) == cs@.take(i as int).push(cs@[i as int]));
        i += 1;
    }
    assert(cs@.take(cs.len() as int) == cs@);
}

/// A string holding exactly the characters of `cs`.
pub fn string_of(cs: &Vec<char>) -> (s: String)
    ensures
        s@ == cs@,
{
    let mut s = String::new();
    push_chars(&mut s, cs);
    s
}

/// Splits `s` into its whitespace-separated words (`str::split_whitespace`).
pub fn split_words(s: &Vec<char>) -> (ws: Vec<Vec<char>>)
    ensures
        views(ws@) == words(s@),
{
    let mut out: Vec<Vec<char>> = Vec::new();
    let mut cur: Vec<char> = Vec::new();
    let mut i: usize = 0;
    while i < s.len()
        invariant
            i <= s.len(),
            cur@.len() == 0 ==> views(out@) == words(s@.take(i as int)),
            cur@.len() > 0 ==> views(out@).push(cur@) == words(s@.take(i as int)),
            cur@.len() > 0 <==> (i > 0 && !is_ws(s@[i - 1])),
        decreases s.len() - i,
    {
        let c = s[i];
        let ghost pre = s@.take(i as int);
        let ghost post = s@.take(i + 1);
        assert(post.drop_last() == pre);
        assert(post.last() == c);
        if is_whitespace(c) {
            if cur.len() > 0 {
                let ghost old_out = out@;
                let w = cur;
                out.push(w);
                cur = Vec::new();
                assert(views(out@) == views(old_out).push(w@));
            }
        } else {
            if cur.len() > 0 {
                assert(post.len() >= 2 && post[post.len() - 2] == s@[i - 1]);
                cur.push(c);
                assert(views(out@).push(cur@) =~= words(pre).drop_last().push(
                    words(pre).last().push(c),
                ));
            } else {
                cur.push(c);
                assert(cur@ == seq![c]);
            }
        }
        i += 1;
    }
    assert(s@.take(s.len() as int) == s@);
    if cur.len() > 0 {
        let ghost old_out = out@;
        let w = cur;
        out.push(w);
        assert(views(out@) == views(old_out).push(w@));
    }
    out
}

/// The words `ws[a..b]` joined by single spaces.
pub fn join_words(ws: &Vec<Vec<char>>, a: usize, b: usize) -> (s: String)
    requires
        a <= b <= ws.len(),
    ensures
        s@ == join(views(ws@).subrange(a as int, b as int), seq![' ']),
{
    let mut s = String::new();
    let mut i: usize = a;
    while i < b
        invariant
            a <= i <= b <= ws.len(),
            s@ == join(views(ws@).subrange(a as int, i as int), seq![' ']),
        decreases b - i,
    {
        let ghost prev = views(ws@).subrange(a as int, i as int);
        let ghost next = views(ws@).subrange(a as int, i + 1);
        assert(next.drop_last() == prev);
        assert(next.last() == ws@[i as int]@);
        if i > a {
            push_char(&mut s, ' ');
        }
        push_chars(&mut s, &ws[i]);
        i += 1;
    }
    s
}


/// `s` cut at every `'\n'`: the pieces between line feeds, in order (always
/// at least one piece; the last one is what follows the last line feed).
pub open spec fn split_nl(s: Seq<char>) -> Seq<Seq<char>>
    decreases s.len(),
{
    if s.len() == 0 {
        seq![seq![]]
    } else {
        let p = split_nl(s.drop_last());
        if s.last() == '\n' {
            p.push(seq![])
        } else {
            p.drop_last().push(p.last().push(s.last()))
        }
    }
}

/// A line that ended in `"\r\n"` loses its `'\r'`.
pub open spec fn strip_cr(l: Seq<char>) -> Seq<char> {
    if l.len() > 0 && l.last() == '\r' {
        l.drop_last()
    } else {
        l
    }
}

/// The lines of `s` (`str::lines`): the pieces between line feeds, each
/// piece that is followed by a line feed losing a trailing carriage return,
/// and an empty final piece (after a final line feed, or of an empty
/// string) dropped.
pub open spec fn lines(s: Seq<char>) -> Seq<Seq<char>> {
    let p = split_nl(s);
    let body = p.drop_last().map_values(|l: Seq<char>| strip_cr(l));
    if p.last().len() == 0 {
        body
    } else {
        body.push(p.last())
    }
}

/// `s` without its leading whitespace.
pub open spec fn trim_start(s: Seq<char>) -> Seq<char>
    decreases s.len(),
{
    if s.len() > 0 && is_ws(s[0]) {
        trim_start(s.drop_first())
    } else {
        s
    }
}

/// `s` without its trailing whitespace.
pub open spec fn trim_end(s: Seq<char>) -> Seq<char>
    decreases s.len(),
{
    if s.len() > 0 && is_ws(s.last()) {
        trim_end(s.drop_last())
    } else {
        s
    }
}

/// `s` without leading and trailing whitespace (`str::trim`).
pub open spec fn trim(s: Seq<char>) -> Seq<char> {
    trim_end(trim_start(s))
}

proof fn lemma_split_nl_nonempty(s: Seq<char>)
    ensures
        split_nl(s).len() >= 1,
    decreases s.len(),
{
    if s.len() > 0 {
        lemma_split_nl_nonempty(s.drop_last());
    }
}

/// Splits `s` into its lines (`str::lines`).
pub fn split_lines(s: &Vec<char>) -> (ls: Vec<Vec<char>>)
    ensures
        views(ls@) == lines(s@),
{
    let mut out: Vec<Vec<char>> = Vec::new();
    let mut cur: Vec<char> = Vec::new();
    let mut i: usize = 0;
    proof {
        assert(s@.take(0) =~= Seq::<char>::empty());
        assert(split_nl(s@.take(0)).drop_last() =~= Seq::<Seq<char>>::empty());
    }
    while i < s.len()
        invariant
            i <= s.len(),
            views(out@) == split_nl(s@.take(i as int)).drop_last().map_values(
                |l: Seq<char>| strip_cr(l),
            ),
            cur@ == split_nl(s@.take(i as int)).last(),
            split_nl(s@.take(i as int)).len() >= 1,
        decreases s.len() - i,
    {
        let c = s[i];
        let ghost pre = s@.take(i as int);
        let ghost post = s@.take(i + 1);
        let ghost p = split_nl(pre);
        assert(post.drop_last() == pre);
        assert(post.last() == c);
        if c == '\n' {
            let ghost old_out = out@;
            let mut line = cur;
            let n = line.len();
            if n > 0 && line[n - 1] == '\r' {
                line.pop();
                assert(line@ == strip_cr(p.last()));
            }
            out.push(line);
            cur = Vec::new();
            assert(split_nl(post) == p.push(seq![]));
            assert(split_nl(post).drop_last() == p);
            assert(p == p.drop_last().push(p.last()));
            assert(views(out@) =~= views(old_out).push(line@));
            assert(p.map_values(|l: Seq<char>| strip_cr(l)) =~= p.drop_last().map_values(
                |l: Seq<char>| strip_cr(l),
            ).push(strip_cr(p.last())));
        } else {
            cur.push(c);
            assert(split_nl(post).drop_last() =~= p.drop_last());
        }
        i += 1;
    }
    assert(s@.take(s.len() as int) == s@);
    if cur.len() > 0 {
        let ghost old_out = out@;
        out.push(cur);
        assert(views(out@) =~= views(old_out).push(split_nl(s@).last()));
    }
    out
}

proof fn lemma_trim_start_skip(s: Seq<char>, a: int)
    requires
        0 <= a <= s.len(),
        forall|k: int| 0 <= k < a ==> is_ws(#[trigger] s[k]),
    ensures
        trim_start(s) == trim_start(s.skip(a)),
    decreases a,
{
    if a > 0 {
        lemma_trim_start_skip(s, a - 1);
        assert(s.skip(a - 1).drop_first() =~= s.skip(a));
    } else {
        assert(s.skip(0) =~= s);
    }
}

proof fn lemma_trim_end_take(s: Seq<char>, b: int)
    requires
        0 <= b <= s.len(),
        forall|k: int| b <= k < s.len() ==> is_ws(#[trigger] s[k]),
    ensures
        trim_end(s) == trim_end(s.take(b)),
    decreases s.len() - b,
{
    if b < s.len() {
        lemma_trim_end_take(s, b + 1);
        assert(s.take(b + 1).drop_last() =~= s.take(b));
    } else {
        assert(s.take(b) =~= s);
    }
}

/// `s` without leading whitespace (`str::trim_start`).
pub fn trim_start_chars(s: &Vec<char>) -> (t: Vec<char>)
    ensures
        t@ == trim_start(s@),
{
    let mut a: usize = 0;
    while a < s.len() && is_whitespace(s[a])
        invariant
            a <= s.len(),
            forall|k: int| 0 <= k < a ==> is_ws(#[trigger] s@[k]),
        decreases s.len() - a,
    {
        a += 1;
    }
    proof {
        lemma_trim_start_skip(s@, a as int);
    }
    let mut t: Vec<char> = Vec::new();
    let mut i: usize = a;
    while i < s.len()
        invariant
            a <= i <= s.len(),
            t@ == s@.subrange(a as int, i as int),
        decreases s.len() - i,
    {
        t.push(s[i]);
        assert(s@.subrange(a as int, i + 1) =~= s@.subrange(a as int, i as int).push(s@[i as int]));
        i += 1;
    }
    assert(s@.skip(a as int) =~= s@.subrange(a as int, s.len() as int));
    t
}

/// `s` without leading and trailing whitespace (`str::trim`).
pub fn trim_chars(s: &Vec<char>) -> (t: Vec<char>)
    ensures
        t@ == trim(s@),
{
    let u = trim_start_chars(s);
    let mut b: usize = u.len();
    while b > 0 && is_whitespace(u[b - 1])
        invariant
            b <= u.len(),
            forall|k: int| b <= k < u.len() ==> is_ws(#[trigger] u@[k]),
        decreases b,
    {
        b -= 1;
    }
    proof {
        lemma_trim_end_take(u@, b as int);
    }
    let mut t: Vec<char> = Vec::new();
    let mut i: usize = 0;
    while i < b
        invariant
            i <= b <= u.len(),
            t@ == u@.take(i as int),
        decreases b - i,
    {
        t.push(u[i]);
        assert(u@.take(i + 1) =~= u@.take(i as int).push(u@[i as int]));
        i += 1;
    }
    t
}


/// The decimal digit character for `d < 10`.
pub open spec fn digit_char(d: nat) -> char {
    ((d + 48) as u32) as char
}

/// The decimal representation of `n`, without leading zeros
/// (`usize::to_string`).
pub open spec fn decimal(n: nat) -> Seq<char>
    decreases n,
{
    if n < 10 {
        seq![digit_char(n)]
    } else {
        decimal(n / 10).push(digit_char(n % 10))
    }
}

/// The character of the decimal digit `d`.
pub fn digit(d: usize) -> (c: char)
    requires
        d < 10,
    ensures
        c == digit_char(d as nat),
{
    if d == 0 {
        '0'
    } else if d == 1 {
        '1'
    } else if d == 2 {
        '2'
    } else if d == 3 {
        '3'
    } else if d == 4 {
        '4'
    } else if d == 5 {
        '5'
    } else if d == 6 {
        '6'
    } else if d == 7 {
        '7'
    } else if d == 8 {
        '8'
    } else {
        '9'
    }
}

/// The decimal representation of `n`.
pub fn decimal_string(n: usize) -> (s: String)
    ensures
        s@ == decimal(n as nat),
    decreases n,
{
    let c = digit(n % 10);
    if n < 10 {
        let mut s = String::new();
        push_char(&mut s, c);
        s
    } else {
        let mut s = decimal_string(n / 10);
        push_char(&mut s, c);
        s
    }
}


/// The views of a sequence of strings.
pub open spec fn string_views(v: Seq<String>) -> Seq<Seq<char>> {
    v.map_values(|s: String| s@)
}

/// Appends the characters of `t` to `s`.
pub fn push_str(s: &mut String, t: &str)
    ensures
        final(s)@ == old(s)@ + t@,
{
    let cs = chars_of(t);
    push_chars(s, &cs);
}


/// ASCII lowercase of one character (`char::to_ascii_lowercase`).
pub open spec fn ascii_lower_char(c: char) -> char {
    if 'A' <= c && c <= 'Z' {
        ((c as u32) + 32) as char
    } else {
        c
    }
}

/// ASCII lowercase of `s` (`str::to_ascii_lowercase`).
pub open spec fn ascii_lower(s: Seq<char>) -> Seq<char> {
    s.map_values(|c: char| ascii_lower_char(c))
}

/// ASCII lowercase of `s`.
pub fn to_ascii_lower(s: &str) -> (r: String)
    ensures
        r@ == ascii_lower(s@),
{
    let cs = chars_of(s);
    let mut r = String::new();
    let mut i: usize = 0;
    while i < cs.len()
        invariant
            i <= cs.len(),
            cs@ == s@,
            r@ == ascii_lower(cs@.take(i as int)),
        decreases cs.len() - i,
    {
        let c = cs[i];
        let l = if 'A' <= c && c <= 'Z' {
            let u = (c as u32) + 32;
            let l = u as u8 as char;
            assert(u < 128);
            l
        } else {
            c
        };
        push_char(&mut r, l);
        assert(ascii_lower(cs@.take(i + 1)) =~= ascii_lower(cs@.take(i as int)).push(ascii_lower_char(c)));
        i += 1;
    }
    assert(cs@.take(cs.len() as int) == cs@);
    r
}

/// The extension that `std::path::Path::extension` finds in `path` (the part
/// of the final file name after its last `'.'`, when there is one and the
/// name is not only a leading dot), as text.
pub uninterp spec fn path_extension(path: Seq<char>) -> Option<Seq<char>>;

/// `Path::new(path).extension()`, as a string. Claimed: the outcome depends
/// on the path text alone (it is `path_extension(path)`); the rules of
/// `Path` for file names and extensions are not restated here.
#[verifier::external_body]
pub(crate) fn extension_of(path: &str) -> (r: Option<String>)
    ensures
        match r {
            Some(e) => path_extension(path@) == Some(e@),
            None => path_extension(path@) is None,
        },
{
    std::path::Path::new(path).extension().and_then(|e| e.to_str()).map(|e| e.to_string())
}

/// What `str::to_lowercase` returns for `s` (Unicode `Lowercase` mapping).
pub uninterp spec fn unicode_lower(s: Seq<char>) -> Seq<char>;

/// `str::to_lowercase`. Claimed: the outcome depends on `s` alone (it is
/// `unicode_lower(s)`); the Unicode case mapping is not restated here.
#[verifier::external_body]
pub(crate) fn to_lower(s: &str) -> (r: String)
    ensures
        r@ == unicode_lower(s@),
{
    s.to_lowercase()
}


/// `s` cut at every occurrence of `sep` (`str::split`): the pieces between
/// separators, in order; always at least one piece.
pub open spec fn split_on(s: Seq<char>, sep: char) -> Seq<Seq<char>>
    decreases s.len(),
{
    if s.len() == 0 {
        seq![seq![]]
    } else {
        let p = split_on(s.drop_last(), sep);
        if s.last() == sep {
            p.push(seq![])
        } else {
            p.drop_last().push(p.last().push(s.last()))
        }
    }
}

proof fn lemma_split_on_nonempty(s: Seq<char>, sep: char)
    ensures
        split_on(s, sep).len() >= 1,
    decreases s.len(),
{
    if s.len() > 0 {
        lemma_split_on_nonempty(s.drop_last(), sep);
    }
}

/// Splits `s` at every `sep` (`str::split` with a character pattern).
pub fn split_at_char(s: &Vec<char>, sep: char) -> (parts: Vec<Vec<char>>)
    ensures
        views(parts@) == split_on(s@, sep),
{
    let mut out: Vec<Vec<char>> = Vec::new();
    let mut cur: Vec<char> = Vec::new();
    let mut i: usize = 0;
    proof {
        assert(s@.take(0) =~= Seq::<char>::empty());
        assert(split_on(s@.take(0), sep).drop_last() =~= Seq::<Seq<char>>::empty());
    }
    while i < s.len()
        invariant
            i <= s.len(),
            views(out@) == split_on(s@.take(i as int), sep).drop_last(),
            cur@ == split_on(s@.take(i as int), sep).last(),
            split_on(s@.take(i as int), sep).len() >= 1,
        decreases s.len() - i,
    {
        let c = s[i];
        let ghost pre = s@.take(i as int);
        let ghost post = s@.take(i + 1);
        let ghost p = split_on(pre, sep);
        assert(post.drop_last() == pre);
        assert(post.last() == c);
        if c == sep {
            let ghost old_out = out@;
            let piece = cur;
            out.push(piece);
            cur = Vec::new();
            assert(views(out@) =~= views(old_out).push(piece@));
            assert(p == p.drop_last().push(p.last()));
        } else {
            cur.push(c);
            assert(split_on(post, sep).drop_last() =~= p.drop_last());
        }
        i += 1;
    }
    assert(s@.take(s.len() as int) == s@);
    let ghost old_out = out@;
    let ghost p = split_on(s@, sep);
    out.push(cur);
    assert(views(out@) =~= views(old_out).push(p.last()));
    assert(p == p.drop_last().push(p.last()));
    out
}

/// `s` without all its leading `c` characters (`str::trim_start_matches`).
pub open spec fn strip_leading(s: Seq<char>, c: char) -> Seq<char>
    decreases s.len(),
{
    if s.len() > 0 && s[0] == c {
        strip_leading(s.drop_first(), c)
    } else {
        s
    }
}

/// `s` without all its leading `c` characters.
pub fn strip_leading_chars(s: &Vec<char>, c: char) -> (t: Vec<char>)
    ensures
        t@ == strip_leading(s@, c),
{
    let mut a: usize = 0;
    assert(s@.skip(0) =~= s@);
    while a < s.len() && s[a] == c
        invariant
            a <= s.len(),
            strip_leading(s@, c) == strip_leading(s@.skip(a as int), c),
        decreases s.len() - a,
    {
        assert(s@.skip(a as int).drop_first() =~= s@.skip(a + 1));
        a += 1;
    }
    let mut t: Vec<char> = Vec::new();
    let mut i: usize = a;
    while i < s.len()
        invariant
            a <= i <= s.len(),
            t@ == s@.subrange(a as int, i as int),
        decreases s.len() - i,
    {
        t.push(s[i]);
        assert(s@.subrange(a as int, i + 1) =~= s@.subrange(a as int, i as int).push(s@[i as int]));
        i += 1;
    }
    assert(s@.skip(a as int) =~= s@.subrange(a as int, s.len() as int));
    t
}


/// Every character of `s` is whitespace.
pub open spec fn all_ws(s: Seq<char>) -> bool {
    forall|k: int| 0 <= k < s.len() ==> is_ws(#[trigger] s[k])
}

pub proof fn lemma_words_all_ws(s: Seq<char>)
    requires
        all_ws(s),
    ensures
        words(s).len() == 0,
    decreases s.len(),
{
    if s.len() > 0 {
        assert(s.drop_last()[0] == s[0] || s.drop_last().len() == 0);
        assert(all_ws(s.drop_last())) by {
            assert forall|k: int| 0 <= k < s.drop_last().len() implies is_ws(#[trigger] s.drop_last()[k]) by {
                assert(s.drop_last()[k] == s[k]);
            }
        }
        lemma_words_all_ws(s.drop_last());
        assert(is_ws(s[s.len() - 1]));
    }
}

pub proof fn lemma_trim_start_blank(s: Seq<char>)
    ensures
        all_ws(s) ==> trim_start(s).len() == 0,
        !all_ws(s) ==> trim_start(s).len() > 0 && !is_ws(trim_start(s)[0]),
    decreases s.len(),
{
    if s.len() > 0 && is_ws(s[0]) {
        let t = s.drop_first();
        lemma_trim_start_blank(t);
        assert(all_ws(s) <==> all_ws(t)) by {
            if all_ws(t) {
                assert forall|k: int| 0 <= k < s.len() implies is_ws(#[trigger] s[k]) by {
                    if k > 0 {
                        assert(s[k] == t[k - 1]);
                    }
                }
            }
            if all_ws(s) {
                assert forall|k: int| 0 <= k < t.len() implies is_ws(#[trigger] t[k]) by {
                    assert(t[k] == s[k + 1]);
                }
            }
        }
    } else if s.len() > 0 {
        assert(!is_ws(s[0]));
    }
}

pub proof fn lemma_trim_end_keeps_first(t: Seq<char>)
    requires
        t.len() > 0,
        !is_ws(t[0]),
    ensures
        trim_end(t).len() > 0,
    decreases t.len(),
{
    if is_ws(t.last()) {
        assert(t.len() > 1);
        assert(t.drop_last()[0] == t[0]);
        lemma_trim_end_keeps_first(t.drop_last());
    }
}

/// Trimming leaves nothing exactly when every character is whitespace.
pub proof fn lemma_blank_iff_all_ws(s: Seq<char>)
    ensures
        trim(s).len() == 0 <==> all_ws(s),
{
    lemma_trim_start_blank(s);
    if !all_ws(s) {
        lemma_trim_end_keeps_first(trim_start(s));
    }
}

/// The pieces between line feeds of whitespace-only text are whitespace.
pub proof fn lemma_split_nl_all_ws(s: Seq<char>)
    requires
        all_ws(s),
    ensures
        forall|i: int| 0 <= i < split_nl(s).len() ==> all_ws(#[trigger] split_nl(s)[i]),
        split_nl(s).len() >= 1,
    decreases s.len(),
{
    if s.len() > 0 {
        let pre = s.drop_last();
        assert forall|k: int| 0 <= k < pre.len() implies is_ws(#[trigger] pre[k]) by {
            assert(pre[k] == s[k]);
        }
        lemma_split_nl_all_ws(pre);
        let p = split_nl(pre);
        let c = s.last();
        assert(is_ws(c));
        if c == '\n' {
            let r = p.push(seq![]);
            assert forall|i: int| 0 <= i < r.len() implies all_ws(#[trigger] r[i]) by {
                if i < p.len() {
                    assert(r[i] == p[i]);
                }
            }
        } else {
            let r = p.drop_last().push(p.last().push(c));
            assert forall|i: int| 0 <= i < r.len() implies all_ws(#[trigger] r[i]) by {
                if i < r.len() - 1 {
                    assert(r[i] == p[i]);
                } else {
                    let l = p[p.len() - 1];
                    assert(all_ws(l));
                    assert forall|k: int| 0 <= k < r[i].len() implies is_ws(#[trigger] r[i][k]) by {
                        if k < l.len() {
                            assert(r[i][k] == l[k]);
                        }
                    }
                }
            }
        }
    }
}

/// The lines of whitespace-only text are whitespace.
pub proof fn lemma_lines_all_ws(s: Seq<char>)
    requires
        all_ws(s),
    ensures
        forall|i: int| 0 <= i < lines(s).len() ==> all_ws(#[trigger] lines(s)[i]),
{
    lemma_split_nl_all_ws(s);
    let p = split_nl(s);
    let ls = lines(s);
    assert forall|i: int| 0 <= i < ls.len() implies all_ws(#[trigger] ls[i]) by {
        if i < p.len() - 1 {
            assert(ls[i] == strip_cr(p[i]));
            assert(all_ws(p[i]));
            let l = p[i];
            assert forall|k: int| 0 <= k < strip_cr(l).len() implies is_ws(#[trigger] strip_cr(l)[k]) by {
                assert(strip_cr(l)[k] == l[k]);
            }
        } else {
            assert(ls[i] == p[p.len() - 1]);
        }
    }
}


/// The words of each piece, in order.
pub open spec fn words_of_all(ps: Seq<Seq<char>>) -> Seq<Seq<char>>
    decreases ps.len(),
{
    if ps.len() == 0 {
        seq![]
    } else {
        words_of_all(ps.drop_last()) + words(ps.last())
    }
}

/// Text split after whitespace has the words of its two parts.
pub proof fn lemma_words_concat_ws(a: Seq<char>, b: Seq<char>)
    requires
        a.len() == 0 || is_ws(a.last()),
    ensures
        words(a + b) == words(a) + words(b),
    decreases b.len(),
{
    if b.len() == 0 {
        assert(a + b =~= a);
    } else {
        let b0 = b.drop_last();
        let c = b.last();
        lemma_words_concat_ws(a, b0);
        let ab = a + b;
        assert(ab.drop_last() =~= a + b0);
        assert(ab.last() == c);
        lemma_words_props(b0);
        if is_ws(c) {
        } else if b0.len() > 0 && !is_ws(b0.last()) {
            assert(ab[ab.len() - 2] == b0.last());
            assert(b[b.len() - 2] == b0.last());
            assert(words(ab) =~= words(a) + words(b));
        } else {
            if ab.len() >= 2 {
                if b0.len() > 0 {
                    assert(ab[ab.len() - 2] == b0.last());
                } else {
                    assert(ab[ab.len() - 2] == a.last());
                }
            }
            if b.len() >= 2 {
                assert(b[b.len() - 2] == b0.last());
            }
            assert(words(ab) =~= words(a) + words(b));
        }
    }
}

/// Trimming keeps the words.
pub proof fn lemma_words_trim(s: Seq<char>)
    ensures
        words(trim(s)) == words(s),
{
    lemma_words_trim_start(s);
    lemma_words_trim_end(trim_start(s));
}

proof fn lemma_words_trim_start(s: Seq<char>)
    ensures
        words(trim_start(s)) == words(s),
    decreases s.len(),
{
    if s.len() > 0 && is_ws(s[0]) {
        let t = s.drop_first();
        lemma_words_trim_start(t);
        lemma_words_concat_ws(seq![s[0]], t);
        assert(seq![s[0]] + t =~= s);
        let one = seq![s[0]];
        assert(one.drop_last() =~= Seq::<char>::empty());
        assert(words(Seq::<char>::empty()) == Seq::<Seq<char>>::empty());
        assert(one.last() == s[0]);
        assert(words(one) == words(one.drop_last()));
        assert(words(s) =~= words(t));
    }
}

proof fn lemma_words_trim_end(s: Seq<char>)
    ensures
        words(trim_end(s)) == words(s),
    decreases s.len(),
{
    if s.len() > 0 && is_ws(s.last()) {
        lemma_words_trim_end(s.drop_last());
    }
}

/// A line that lost its carriage return keeps its words.
proof fn lemma_words_strip_cr(l: Seq<char>)
    ensures
        words(strip_cr(l)) == words(l),
{
    if l.len() > 0 && l.last() == '\r' {
        assert(is_ws('\r'));
    }
}

/// The last piece of `split_nl(s)` is what follows the last line feed.
proof fn lemma_split_nl_last(s: Seq<char>)
    ensures
        split_nl(s).len() >= 1,
        split_nl(s).last().len() > 0 ==> s.len() > 0 && split_nl(s).last().last() == s.last(),
        split_nl(s).last().len() == 0 && s.len() > 0 ==> s.last() == '\n',
    decreases s.len(),
{
    lemma_split_nl_nonempty(s);
    if s.len() > 0 {
        lemma_split_nl_last(s.drop_last());
    }
}

/// The words of text are the words of its line-feed-separated pieces.
proof fn lemma_words_split_nl(s: Seq<char>)
    ensures
        words(s) == words_of_all(split_nl(s)),
    decreases s.len(),
{
    lemma_split_nl_nonempty(s);
    if s.len() == 0 {
        assert(split_nl(s) =~= seq![Seq::<char>::empty()]);
        assert(split_nl(s).drop_last() =~= Seq::<Seq<char>>::empty());
        assert(words_of_all(Seq::<Seq<char>>::empty()) == Seq::<Seq<char>>::empty());
        assert(words(Seq::<char>::empty()) == Seq::<Seq<char>>::empty());
        assert(split_nl(s).last() =~= Seq::<char>::empty());
        assert(words_of_all(split_nl(s)) =~= Seq::<Seq<char>>::empty());
    } else {
        let s0 = s.drop_last();
        let c = s.last();
        lemma_words_split_nl(s0);
        lemma_split_nl_last(s0);
        lemma_split_nl_nonempty(s0);
        let p = split_nl(s0);
        let l = p.last();
        let w0 = words_of_all(p.drop_last());
        assert(p.drop_last().push(l) =~= p);
        assert(words(s0) == w0 + words(l));
        if c == '\n' {
            assert(is_ws(c));
            let q = split_nl(s);
            assert(q == p.push(seq![]));
            assert(q.drop_last() =~= p);
            assert(words_of_all(q) =~= words_of_all(p) + words(Seq::<char>::empty()));
        } else {
            let q = split_nl(s);
            let l2 = l.push(c);
            assert(q == p.drop_last().push(l2));
            assert(q.drop_last() =~= p.drop_last());
            assert(l2.drop_last() =~= l);
            assert(l2.last() == c);
            lemma_words_props(l);
            if is_ws(c) {
                assert(words(l2) == words(l));
                assert(words(s) == words(s0));
            } else if l.len() > 0 && !is_ws(l.last()) {
                assert(s[s.len() - 2] == s0.last());
                assert(l2[l2.len() - 2] == l.last());
                assert(words(s) =~= w0 + words(l2));
            } else {
                if s.len() >= 2 {
                    assert(s[s.len() - 2] == s0.last());
                }
                if l2.len() >= 2 {
                    assert(l2[l2.len() - 2] == l.last());
                }
                assert(words(s) =~= w0 + words(l2));
            }
            assert(words_of_all(q) == w0 + words(l2));
        }
    }
}

proof fn lemma_words_of_all_push_empty(ps: Seq<Seq<char>>)
    ensures
        words_of_all(ps.push(seq![])) == words_of_all(ps),
{
    assert(ps.push(seq![]).drop_last() =~= ps);
    assert(words(Seq::<char>::empty()) =~= Seq::<Seq<char>>::empty());
    assert(words_of_all(ps) + Seq::<Seq<char>>::empty() =~= words_of_all(ps));
}

proof fn lemma_words_of_all_strip_cr(ps: Seq<Seq<char>>)
    ensures
        words_of_all(ps.map_values(|l: Seq<char>| strip_cr(l))) == words_of_all(ps),
    decreases ps.len(),
{
    if ps.len() > 0 {
        let m = ps.map_values(|l: Seq<char>| strip_cr(l));
        lemma_words_of_all_strip_cr(ps.drop_last());
        assert(m.drop_last() =~= ps.drop_last().map_values(|l: Seq<char>| strip_cr(l)));
        lemma_words_strip_cr(ps.last());
    }
}

/// The words of text are the words of its lines.
pub proof fn lemma_words_lines(s: Seq<char>)
    ensures
        words(s) == words_of_all(lines(s)),
{
    lemma_words_split_nl(s);
    lemma_split_nl_nonempty(s);
    let p = split_nl(s);
    let body = p.drop_last().map_values(|l: Seq<char>| strip_cr(l));
    lemma_words_of_all_strip_cr(p.drop_last());
    assert(p.drop_last().push(p.last()) =~= p);
    if p.last().len() == 0 {
        assert(p.last() =~= Seq::<char>::empty());
        lemma_words_of_all_push_empty(p.drop_last());
    } else {
        assert(body.push(p.last()).drop_last() =~= body);
    }
}


/// A non-empty run of non-whitespace characters is one word.
proof fn lemma_words_single(w: Seq<char>)
    requires
        w.len() > 0,
        forall|k: int| 0 <= k < w.len() ==> !is_ws(#[trigger] w[k]),
    ensures
        words(w) == seq![w],
    decreases w.len(),
{
    let w0 = w.drop_last();
    assert(!is_ws(w.last()));
    if w0.len() == 0 {
        assert(words(w0) =~= Seq::<Seq<char>>::empty());
        assert(seq![w.last()] =~= w);
        assert(words(w) == words(w0).push(seq![w.last()]));
        assert(words(w) =~= seq![w]);
    } else {
        assert forall|k: int| 0 <= k < w0.len() implies !is_ws(#[trigger] w0[k]) by {
            assert(w0[k] == w[k]);
        }
        lemma_words_single(w0);
        assert(w[w.len() - 2] == w0.last());
        assert(w0.push(w.last()) =~= w);
        assert(words(w) =~= seq![w]);
    }
}

/// Words joined by single spaces split back into the same words.
pub proof fn lemma_words_join(ws: Seq<Seq<char>>)
    requires
        forall|i: int| 0 <= i < ws.len() ==> (#[trigger] ws[i]).len() > 0,
        forall|i: int, k: int| 0 <= i < ws.len() && 0 <= k < ws[i].len() ==> !is_ws(#[trigger] ws[i][k]),
    ensures
        words(join(ws, seq![' '])) == ws,
    decreases ws.len(),
{
    if ws.len() == 0 {
        assert(words(join(ws, seq![' '])) =~= ws);
    } else if ws.len() == 1 {
        let w = ws[0];
        assert forall|k: int| 0 <= k < w.len() implies !is_ws(#[trigger] w[k]) by {
            assert(!is_ws(ws[0][k]));
        }
        lemma_words_single(w);
        assert(seq![w] =~= ws);
    } else {
        let pre = ws.drop_last();
        let w = ws.last();
        assert forall|i: int| 0 <= i < pre.len() implies (#[trigger] pre[i]).len() > 0 by {
            assert(pre[i] == ws[i]);
        }
        assert forall|i: int, k: int| 0 <= i < pre.len() && 0 <= k < pre[i].len() implies !is_ws(
            #[trigger] pre[i][k],
        ) by {
            assert(pre[i] == ws[i]);
        }
        lemma_words_join(pre);
        assert forall|k: int| 0 <= k < w.len() implies !is_ws(#[trigger] w[k]) by {
            assert(w == ws[ws.len() - 1]);
            assert(!is_ws(ws[ws.len() - 1][k]));
        }
        assert(w.len() > 0) by {
            assert(ws[ws.len() - 1].len() > 0);
        }
        lemma_words_single(w);
        let a = join(pre, seq![' ']) + seq![' '];
        assert(is_ws(' '));
        assert(a.drop_last() =~= join(pre, seq![' ']));
        assert(words(a) == words(join(pre, seq![' '])));
        lemma_words_concat_ws(a, w);
        assert(join(ws, seq![' ']) =~= a + w);
        assert(pre.push(w) =~= ws);
    }
}

/// Trimmed text that is not empty ends in a non-whitespace character.
pub proof fn lemma_trim_end_last(s: Seq<char>)
    ensures
        trim_end(s).len() > 0 ==> !is_ws(trim_end(s).last()),
    decreases s.len(),
{
    if s.len() > 0 && is_ws(s.last()) {
        lemma_trim_end_last(s.drop_last());
    }
}


/// A decimal digit character.
pub open spec fn is_digit(c: char) -> bool {
    '0' <= c && c <= '9'
}

/// The number that a string of decimal digits denotes, read most
/// significant digit first.
pub open spec fn digits_value(s: Seq<char>) -> int
    decreases s.len(),
{
    if s.len() == 0 {
        0
    } else {
        digits_value(s.drop_last()) * 10 + ((s.last() as int) - 48)
    }
}

/// `decimal(n)` is the base-10 numeral of `n`: it consists of digits, it
/// has no leading zero (other than the numeral of zero itself), and read
/// most significant digit first it denotes `n`.
pub proof fn law_decimal_numeral(n: nat)
    ensures
        decimal(n).len() >= 1,
        forall|i: int| 0 <= i < decimal(n).len() ==> is_digit(#[trigger] decimal(n)[i]),
        decimal(n).len() > 1 ==> decimal(n)[0] != '0',
        n > 0 ==> decimal(n)[0] != '0',
        digits_value(decimal(n)) == n,
    decreases n,
{
    let c = digit_char(n % 10);
    assert((c as int) == (n % 10) + 48);
    if n < 10 {
        let d = decimal(n);
        assert(d.drop_last() =~= Seq::<char>::empty());
        assert(digits_value(d) == digits_value(d.drop_last()) * 10 + ((d.last() as int) - 48));
        assert(d[0] == c);
    } else {
        let q = n / 10;
        law_decimal_numeral(q);
        let d = decimal(n);
        let dq = decimal(q);
        assert(d == dq.push(c));
        assert(d.drop_last() =~= dq);
        assert(d.last() == c);
        assert(digits_value(d) == digits_value(dq) * 10 + ((c as int) - 48));
        assert(q * 10 + n % 10 == n) by (nonlinear_arith)
            requires
                q == n / 10,
        ;
        assert forall|i: int| 0 <= i < d.len() implies is_digit(#[trigger] d[i]) by {
            if i < dq.len() {
                assert(d[i] == dq[i]);
            }
        }
        assert(d[0] == dq[0]);
        assert(q > 0);
    }
}


/// Leading whitespace before text that is not all whitespace is what
/// `trim_start` removes; whatever follows stays.
pub proof fn lemma_trim_start_concat(p: Seq<char>, w: Seq<char>)
    requires
        !all_ws(p),
    ensures
        trim_start(p + w) == trim_start(p) + w,
    decreases p.len(),
{
    assert(p.len() > 0);
    if is_ws(p[0]) {
        let t = p.drop_first();
        assert(!all_ws(t)) by {
            let k = choose|k: int| 0 <= k < p.len() && !is_ws(#[trigger] p[k]);
            assert(k > 0);
            assert(t[k - 1] == p[k]);
        }
        lemma_trim_start_concat(t, w);
        assert((p + w).drop_first() =~= t + w);
        assert((p + w)[0] == p[0]);
    } else {
        assert((p + w)[0] == p[0]);
    }
}

/// Trailing whitespace after text that is not all whitespace is what
/// `trim_end` removes; whatever precedes stays.
pub proof fn lemma_trim_end_prefix(c: char, p: Seq<char>)
    requires
        !all_ws(p),
    ensures
        trim_end(seq![c] + p) == seq![c] + trim_end(p),
    decreases p.len(),
{
    assert(p.len() > 0);
    if is_ws(p.last()) {
        let t = p.drop_last();
        assert(!all_ws(t)) by {
            let k = choose|k: int| 0 <= k < p.len() && !is_ws(#[trigger] p[k]);
            assert(k < p.len() - 1);
            assert(t[k] == p[k]);
        }
        lemma_trim_end_prefix(c, t);
        assert((seq![c] + p).drop_last() =~= seq![c] + t);
        assert((seq![c] + p).last() == p.last());
    } else {
        assert((seq![c] + p).last() == p.last());
    }
}

/// Whitespace-only text trims to nothing from either end.
pub proof fn lemma_trim_all_ws(s: Seq<char>)
    requires
        all_ws(s),
    ensures
        trim_start(s).len() == 0,
        trim_end(s).len() == 0,
    decreases s.len(),
{
    lemma_trim_start_blank(s);
    if s.len() > 0 {
        let t = s.drop_last();
        assert(all_ws(t)) by {
            assert forall|k: int| 0 <= k < t.len() implies is_ws(#[trigger] t[k]) by {
                assert(t[k] == s[k]);
            }
        }
        lemma_trim_all_ws(t);
        assert(is_ws(s[s.len() - 1]));
    }
}

/// Surrounding whitespace does not change what text trims to.
pub proof fn lemma_trim_surrounded(w1: Seq<char>, p: Seq<char>, w2: Seq<char>)
    requires
        all_ws(w1),
        all_ws(w2),
    ensures
        trim(w1 + p + w2) == trim(p),
{
    let s = w1 + p + w2;
    assert forall|k: int| 0 <= k < w1.len() implies is_ws(#[trigger] s[k]) by {
        assert(s[k] == w1[k]);
    }
    lemma_trim_start_skip(s, w1.len() as int);
    assert(s.skip(w1.len() as int) =~= p + w2);
    if all_ws(p) {
        assert(all_ws(p + w2)) by {
            assert forall|k: int| 0 <= k < (p + w2).len() implies is_ws(#[trigger] (p + w2)[k]) by {
                if k < p.len() {
                    assert((p + w2)[k] == p[k]);
                } else {
                    assert((p + w2)[k] == w2[k - p.len()]);
                }
            }
        }
        lemma_trim_all_ws(p + w2);
        lemma_trim_all_ws(p);
        assert(trim_start(p + w2) =~= Seq::<char>::empty());
        assert(trim_start(p) =~= Seq::<char>::empty());
    } else {
        lemma_trim_start_concat(p, w2);
        let x = trim_start(p);
        assert forall|k: int| x.len() <= k < (x + w2).len() implies is_ws(#[trigger] (x + w2)[k]) by {
            assert((x + w2)[k] == w2[k - x.len()]);
        }
        lemma_trim_end_take(x + w2, x.len() as int);
        assert((x + w2).take(x.len() as int) =~= x);
    }
}

} // verus!
