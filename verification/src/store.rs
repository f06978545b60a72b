//! The store's logic: content-derived entry ids, the idempotent upsert that
//! keeps vectors, metadata and ids row-aligned, the little-endian vectors
//! file encoding, and top-k ranking. Vectors are held as the bit patterns
//! of their `f32` components; the caller does the float arithmetic and the
//! file I/O.

use vstd::prelude::*;
use sha2::Digest;
use std::collections::HashMap;
use crate::error::StoreError;
use crate::json::{hex_lower, Json, JsonValue};

verus! {

/// SHA-256 of `data` (FIPS 180-4), as computed by the `sha2` crate.
pub uninterp spec fn sha256(data: Seq<u8>) -> Seq<u8>;

/// `sha2::Sha256::digest`. Claimed: the digest is a function of the input
/// (`sha256`) and is 32 bytes long, as SHA-256 specifies; the hash function
/// itself is not restated here.
#[verifier::external_body]
fn sha256_digest(data: &[u8]) -> (d: Vec<u8>)
    ensures
        d@ == sha256(data@),
        d@.len() == 32,
{
    sha2::Sha256::digest(data).to_vec()
}

/// Two lowercase hex digits of a byte.
pub open spec fn hex_byte(b: u8) -> Seq<char> {
    seq![hex_lower((b / 16) as nat), hex_lower((b % 16) as nat)]
}

/// Lowercase hex of `bs`, two digits per byte.
pub open spec fn hex_bytes(bs: Seq<u8>) -> Seq<char>
    decreases bs.len(),
{
    if bs.len() == 0 {
        seq![]
    } else {
        hex_bytes(bs.drop_last()) + hex_byte(bs.last())
    }
}

/// The id of an entry with text `text`: the SHA-256 of its UTF-8 bytes,
/// truncated to 8 bytes, as 16 lowercase hex digits.
pub open spec fn content_id_spec(text: Seq<char>) -> Seq<char> {
    hex_bytes(sha256(vstd::utf8::encode_utf8(text)).take(8))
}

/// A lowercase hexadecimal digit.
pub open spec fn is_hex_lower(c: char) -> bool {
    ('0' <= c && c <= '9') || ('a' <= c && c <= 'f')
}

proof fn lemma_hex_bytes_shape(bs: Seq<u8>)
    ensures
        hex_bytes(bs).len() == 2 * bs.len(),
        forall|i: int| 0 <= i < hex_bytes(bs).len() ==> is_hex_lower(#[trigger] hex_bytes(bs)[i]),
    decreases bs.len(),
{
    if bs.len() > 0 {
        lemma_hex_bytes_shape(bs.drop_last());
        let b = bs.last();
        let hi = (b / 16) as nat;
        let lo = (b % 16) as nat;
        assert(is_hex_lower(hex_lower(hi)));
        assert(is_hex_lower(hex_lower(lo)));
        let pre = hex_bytes(bs.drop_last());
        assert forall|i: int| 0 <= i < hex_bytes(bs).len() implies is_hex_lower(#[trigger] hex_bytes(bs)[i]) by {
            if i < pre.len() {
                assert(hex_bytes(bs)[i] == pre[i]);
            }
        }
    }
}

/// SHA-256 of the text, truncated to 16 hex chars (64 bits).
pub fn content_id(text: &str) -> (id: String)
    ensures
        id@ == content_id_spec(text@),
        id@.len() == 16,
        forall|i: int| 0 <= i < 16 ==> is_hex_lower(#[trigger] id@[i]),
{
    let digest = sha256_digest(text.as_bytes());
    let mut id = String::new();
    let mut i: usize = 0;
    while i < 8
        invariant
            i <= 8,
            digest@.len() == 32,
            id@ == hex_bytes(digest@.take(i as int)),
        decreases 8 - i,
    {
        let b = digest[i];
        assert(digest@.take(i + 1).drop_last() == digest@.take(i as int));
        assert(digest@.take(i + 1).last() == b);
        crate::text::push_char(&mut id, crate::json::hex_digit((b / 16) as u32));
        crate::text::push_char(&mut id, crate::json::hex_digit((b % 16) as u32));
        assert(id@ =~= hex_bytes(digest@.take(i + 1)));
        i += 1;
    }
    proof {
        lemma_hex_bytes_shape(digest@.take(8));
    }
    id
}

/// The four little-endian bytes of `w`.
pub open spec fn le_bytes(w: u32) -> Seq<u8> {
    seq![(w & 0xff) as u8, ((w >> 8) & 0xff) as u8, ((w >> 16) & 0xff) as u8, ((w >> 24) & 0xff) as u8]
}

/// The word whose little-endian bytes are `b0, b1, b2, b3`.
pub open spec fn le_word(b0: u8, b1: u8, b2: u8, b3: u8) -> u32 {
    (b0 as u32) | ((b1 as u32) << 8) | ((b2 as u32) << 16) | ((b3 as u32) << 24)
}

/// The vectors file: every component's bit pattern in little-endian order.
pub open spec fn encode_words(ws: Seq<u32>) -> Seq<u8>
    decreases ws.len(),
{
    if ws.len() == 0 {
        seq![]
    } else {
        encode_words(ws.drop_last()) + le_bytes(ws.last())
    }
}

/// The words of a vectors file: one per complete group of four bytes,
/// trailing bytes ignored.
pub open spec fn decode_words(bytes: Seq<u8>) -> Seq<u32> {
    Seq::new(
        bytes.len() / 4,
        |i: int| le_word(bytes[4 * i], bytes[4 * i + 1], bytes[4 * i + 2], bytes[4 * i + 3]),
    )
}

/// Encodes vector components (as bit patterns) for the vectors file.
pub fn encode_vectors(ws: &[u32]) -> (bytes: Vec<u8>)
    ensures
        bytes@ == encode_words(ws@),
{
    let mut out: Vec<u8> = Vec::new();
    let mut i: usize = 0;
    while i < ws.len()
        invariant
            i <= ws.len(),
            out@ == encode_words(ws@.take(i as int)),
        decreases ws.len() - i,
    {
        let w = ws[i];
        assert(ws@.take(i + 1).drop_last() == ws@.take(i as int));
        assert(ws@.take(i + 1).last() == w);
        out.push((w & 0xff) as u8);
        out.push(((w >> 8) & 0xff) as u8);
        out.push(((w >> 16) & 0xff) as u8);
        out.push(((w >> 24) & 0xff) as u8);
        assert(out@ =~= encode_words(ws@.take(i + 1)));
        i += 1;
    }
    assert(ws@.take(ws.len() as int) == ws@);
    out
}

/// Decodes a vectors file into component bit patterns (four little-endian
/// bytes each; an incomplete trailing group is ignored).
pub fn decode_vectors(bytes: &[u8]) -> (ws: Vec<u32>)
    ensures
        ws@ == decode_words(bytes@),
{
    let n = bytes.len() / 4;
    let mut out: Vec<u32> = Vec::new();
    let mut i: usize = 0;
    while i < n
        invariant
            i <= n,
            n == bytes@.len() / 4,
            out@ == decode_words(bytes@).take(i as int),
        decreases n - i,
    {
        let len = bytes.len();
        assert(4 * i + 3 < len) by (nonlinear_arith)
            requires
                i < n,
                n == len / 4,
        ;
        let base = 4 * i;
        let b0 = bytes[base];
        let b1 = bytes[base + 1];
        let b2 = bytes[base + 2];
        let b3 = bytes[base + 3];
        let w = (b0 as u32) | ((b1 as u32) << 8) | ((b2 as u32) << 16) | ((b3 as u32) << 24);
        out.push(w);
        assert(out@ =~= decode_words(bytes@).take(i + 1));
        i += 1;
    }
    assert(decode_words(bytes@).take(n as int) =~= decode_words(bytes@));
    out
}

proof fn lemma_word_roundtrip(w: u32)
    ensures
        le_word(le_bytes(w)[0], le_bytes(w)[1], le_bytes(w)[2], le_bytes(w)[3]) == w,
{
    let b0 = (w & 0xff) as u8;
    let b1 = ((w >> 8) & 0xff) as u8;
    let b2 = ((w >> 16) & 0xff) as u8;
    let b3 = ((w >> 24) & 0xff) as u8;
    assert((b0 as u32) | ((b1 as u32) << 8) | ((b2 as u32) << 16) | ((b3 as u32) << 24) == w)
        by (bit_vector)
        requires
            b0 == (w & 0xff) as u8,
            b1 == ((w >> 8) & 0xff) as u8,
            b2 == ((w >> 16) & 0xff) as u8,
            b3 == ((w >> 24) & 0xff) as u8,
    ;
}

proof fn lemma_encode_len(ws: Seq<u32>)
    ensures
        encode_words(ws).len() == 4 * ws.len(),
    decreases ws.len(),
{
    if ws.len() > 0 {
        lemma_encode_len(ws.drop_last());
    }
}

proof fn lemma_encode_index(ws: Seq<u32>, i: int, j: int)
    requires
        0 <= i < ws.len(),
        0 <= j < 4,
    ensures
        encode_words(ws)[4 * i + j] == le_bytes(ws[i])[j],
    decreases ws.len(),
{
    lemma_encode_len(ws.drop_last());
    if i < ws.len() - 1 {
        lemma_encode_index(ws.drop_last(), i, j);
    }
}

/// Reading back the vectors file gives back exactly the components that
/// were written.
pub proof fn law_vectors_roundtrip(ws: Seq<u32>)
    ensures
        decode_words(encode_words(ws)) == ws,
{
    lemma_encode_len(ws);
    let bytes = encode_words(ws);
    assert(bytes.len() / 4 == ws.len());
    assert forall|i: int| 0 <= i < ws.len() implies #[trigger] decode_words(bytes)[i] == ws[i] by {
        lemma_encode_index(ws, i, 0);
        lemma_encode_index(ws, i, 1);
        lemma_encode_index(ws, i, 2);
        lemma_encode_index(ws, i, 3);
        lemma_word_roundtrip(ws[i]);
    }
    assert(decode_words(bytes) =~= ws);
}


broadcast use vstd::std_specs::hash::group_hash_axioms;

#[verifier::external_type_specification]
#[verifier::external_body]
pub struct ExSystemTime(std::time::SystemTime);

#[verifier::external_type_specification]
#[verifier::external_body]
pub struct ExSystemTimeError(std::time::SystemTimeError);

/// `SystemTime::now`: the system clock's current reading. Nothing is claimed
/// of it: it is the time.
#[verifier::external_body]
fn system_now() -> std::time::SystemTime {
    std::time::SystemTime::now()
}

/// `SystemTime::duration_since(UNIX_EPOCH)`: the time from the Unix epoch to
/// `t`, or an error when `t` is earlier. Nothing is claimed of the outcome.
#[verifier::external_body]
fn since_unix_epoch(t: &std::time::SystemTime) -> std::result::Result<
    std::time::Duration,
    std::time::SystemTimeError,
> {
    t.duration_since(std::time::UNIX_EPOCH)
}

/// `Duration::as_secs`: the whole seconds of `d`. The duration is opaque
/// here, so nothing is claimed of the value.
#[verifier::external_body]
fn whole_secs(d: &std::time::Duration) -> u64 {
    d.as_secs()
}

/// A clock reading in seconds since the epoch, with a clock set before the
/// epoch read as 0.
pub fn epoch_secs(since_epoch: Option<u64>) -> (t: u64)
    ensures
        t == match since_epoch {
            Some(s) => s,
            None => 0,
        },
{
    match since_epoch {
        Some(s) => s,
        None => 0,
    }
}

/// Seconds since the Unix epoch (0 if the clock is before the epoch).
pub fn now_secs() -> (t: u64) {
    let now = system_now();
    let since = match since_unix_epoch(&now) {
        Ok(d) => Some(whole_secs(&d)),
        Err(_) => None,
    };
    epoch_secs(since)
}

/// One row of metadata, row-aligned with the vectors and a docs file.
#[derive(Debug)]
pub struct MetaRecord {
    /// 16-hex-char content hash of the entry's text.
    pub id: String,
    /// Where the entry came from: "manual", "chat", or a file path.
    pub source: String,
    /// Arbitrary JSON metadata.
    pub metadata: Json,
    /// Seconds since the Unix epoch when the entry was (last) written.
    pub added_at: u64,
}

/// The model of a metadata row.
pub struct MetaModel {
    pub id: Seq<char>,
    pub source: Seq<char>,
    pub metadata: JsonValue,
    pub added_at: u64,
}

impl MetaRecord {
    /// The model of this row.
    pub open spec fn model(self) -> MetaModel {
        MetaModel {
            id: self.id@,
            source: self.source@,
            metadata: self.metadata@,
            added_at: self.added_at,
        }
    }
}

/// The models of a sequence of rows.
pub open spec fn metas(v: Seq<MetaRecord>) -> Seq<MetaModel> {
    v.map_values(|m: MetaRecord| m.model())
}

/// A single search result. The score is the bit pattern of the `f32`
/// cosine similarity.
#[derive(Debug)]
pub struct Hit {
    pub score_bits: u32,
    pub id: String,
    pub text: String,
    pub source: String,
    pub metadata: Json,
}

/// The model of a store: its dimension, the row-major components of all
/// vectors (as `f32` bit patterns), and the metadata rows. Row `i` owns
/// components `i * dim .. (i + 1) * dim`.
pub struct StoreModel {
    pub dim: nat,
    pub vectors: Seq<u32>,
    pub rows: Seq<MetaModel>,
}

/// Rows and vectors line up: one vector of `dim` components per row.
pub open spec fn aligned(s: StoreModel) -> bool {
    s.vectors.len() == s.rows.len() * s.dim
}

/// The last row whose id is `id`.
pub open spec fn last_row_with_id(rows: Seq<MetaModel>, id: Seq<char>) -> Option<int>
    decreases rows.len(),
{
    if rows.len() == 0 {
        None
    } else if rows.last().id == id {
        Some(rows.len() - 1)
    } else {
        last_row_with_id(rows.drop_last(), id)
    }
}

/// The upsert of an entry with id `id`, vector `v` and metadata row `rec`:
/// the last row with that id has its vector and metadata replaced in place;
/// with no such row, the vector and row are appended.
pub open spec fn upsert(s: StoreModel, id: Seq<char>, v: Seq<u32>, rec: MetaModel) -> StoreModel {
    match last_row_with_id(s.rows, id) {
        Some(r) => StoreModel {
            dim: s.dim,
            vectors: s.vectors.subrange(0, r * s.dim) + v + s.vectors.subrange(
                (r + 1) * s.dim,
                s.vectors.len() as int,
            ),
            rows: s.rows.update(r, rec),
        },
        None => StoreModel { dim: s.dim, vectors: s.vectors + v, rows: s.rows.push(rec) },
    }
}

/// Value of a lowercase hex digit (other characters count as 0).
pub open spec fn hex_val(c: char) -> u64 {
    if '0' <= c && c <= '9' {
        ((c as u32) - 48) as u64
    } else if 'a' <= c && c <= 'f' {
        ((c as u32) - 87) as u64
    } else {
        0
    }
}

/// The index key of an id: the id read as hexadecimal, modulo 2^64; for a
/// 16-digit content id this is the 64 truncated digest bits.
pub open spec fn id_key(s: Seq<char>) -> u64
    decreases s.len(),
{
    if s.len() == 0 {
        0
    } else {
        (((id_key(s.drop_last()) % 0x1000_0000_0000_0000) * 16) + hex_val(s.last())) as u64
    }
}

/// The last row whose id has index key `k`.
pub open spec fn last_row_with_key(rows: Seq<MetaModel>, k: u64) -> Option<int>
    decreases rows.len(),
{
    if rows.len() == 0 {
        None
    } else if id_key(rows.last().id) == k {
        Some(rows.len() - 1)
    } else {
        last_row_with_key(rows.drop_last(), k)
    }
}

proof fn lemma_last_row_with_id(rows: Seq<MetaModel>, id: Seq<char>)
    ensures
        last_row_with_id(rows, id) matches Some(r) ==> 0 <= r < rows.len() && rows[r].id == id
            && forall|q: int| r < q < rows.len() ==> #[trigger] rows[q].id != id,
        last_row_with_id(rows, id) is None ==> forall|q: int|
            0 <= q < rows.len() ==> #[trigger] rows[q].id != id,
    decreases rows.len(),
{
    if rows.len() > 0 {
        let pre = rows.drop_last();
        lemma_last_row_with_id(pre, id);
        if rows.last().id != id {
            if last_row_with_id(pre, id) is Some {
                let r = last_row_with_id(pre, id)->0;
                assert(pre[r] == rows[r]);
                assert forall|q: int| r < q < rows.len() implies #[trigger] rows[q].id != id by {
                    if q < rows.len() - 1 {
                        assert(pre[q] == rows[q]);
                        assert(pre[q].id != id);
                    } else {
                        assert(rows[q] == rows.last());
                    }
                }
            } else {
                assert forall|q: int| 0 <= q < rows.len() implies #[trigger] rows[q].id != id by {
                    if q < rows.len() - 1 {
                        assert(pre[q] == rows[q]);
                        assert(pre[q].id != id);
                    } else {
                        assert(rows[q] == rows.last());
                    }
                }
            }
        }
    }
}

proof fn lemma_last_row_with_key(rows: Seq<MetaModel>, k: u64)
    ensures
        last_row_with_key(rows, k) matches Some(r) ==> 0 <= r < rows.len() && id_key(rows[r].id) == k
            && forall|q: int| r < q < rows.len() ==> #[trigger] id_key(rows[q].id) != k,
        last_row_with_key(rows, k) is None ==> forall|q: int|
            0 <= q < rows.len() ==> #[trigger] id_key(rows[q].id) != k,
    decreases rows.len(),
{
    if rows.len() > 0 {
        let pre = rows.drop_last();
        lemma_last_row_with_key(pre, k);
        if id_key(rows.last().id) != k {
            if last_row_with_key(pre, k) is Some {
                let r = last_row_with_key(pre, k)->0;
                assert(pre[r] == rows[r]);
                assert forall|q: int| r < q < rows.len() implies #[trigger] id_key(rows[q].id) != k by {
                    if q < rows.len() - 1 {
                        assert(pre[q] == rows[q]);
                        assert(id_key(pre[q].id) != k);
                    } else {
                        assert(rows[q] == rows.last());
                    }
                }
            } else {
                assert forall|q: int| 0 <= q < rows.len() implies #[trigger] id_key(rows[q].id) != k by {
                    if q < rows.len() - 1 {
                        assert(pre[q] == rows[q]);
                        assert(id_key(pre[q].id) != k);
                    } else {
                        assert(rows[q] == rows.last());
                    }
                }
            }
        }
    }
}

proof fn lemma_last_row_with_id_char(rows: Seq<MetaModel>, id: Seq<char>, r: int)
    requires
        0 <= r < rows.len(),
        rows[r].id == id,
        forall|q: int| r < q < rows.len() ==> #[trigger] rows[q].id != id,
    ensures
        last_row_with_id(rows, id) == Some(r),
    decreases rows.len(),
{
    if r < rows.len() - 1 {
        assert(rows.last().id != id);
        assert forall|q: int| r < q < rows.len() - 1 implies #[trigger] rows.drop_last()[q].id != id by {
            assert(rows.drop_last()[q] == rows[q]);
        }
        assert(rows.drop_last()[r] == rows[r]);
        lemma_last_row_with_id_char(rows.drop_last(), id, r);
    }
}

proof fn lemma_key_update(rows: Seq<MetaModel>, r: int, rec: MetaModel, k: u64)
    requires
        0 <= r < rows.len(),
        id_key(rec.id) == id_key(rows[r].id),
    ensures
        last_row_with_key(rows.update(r, rec), k) == last_row_with_key(rows, k),
    decreases rows.len(),
{
    if r < rows.len() - 1 {
        assert(rows.update(r, rec).drop_last() =~= rows.drop_last().update(r, rec));
        lemma_key_update(rows.drop_last(), r, rec, k);
    } else {
        assert(rows.update(r, rec).drop_last() =~= rows.drop_last());
    }
}

/// The in-memory store: three parallel structures sharing one ordering,
/// plus an index from id key to the last row with that key.
pub struct Store {
    dim: usize,
    vectors: Vec<u32>,
    meta: Vec<MetaRecord>,
    index: HashMap<u64, usize>,
}

impl View for Store {
    type V = StoreModel;

    closed spec fn view(&self) -> StoreModel {
        StoreModel { dim: self.dim as nat, vectors: self.vectors@, rows: metas(self.meta@) }
    }
}

/// The index key of `id`.
fn id_key_of(id: &String) -> (k: u64)
    ensures
        k == id_key(id@),
{
    let cs = crate::text::chars_of(id.as_str());
    let mut v: u64 = 0;
    let mut i: usize = 0;
    while i < cs.len()
        invariant
            i <= cs.len(),
            cs@ == id@,
            v == id_key(cs@.take(i as int)),
        decreases cs.len() - i,
    {
        let c = cs[i];
        let d: u64 = if '0' <= c && c <= '9' {
            ((c as u32) - 48) as u64
        } else if 'a' <= c && c <= 'f' {
            ((c as u32) - 87) as u64
        } else {
            0
        };
        assert(cs@.take(i + 1).drop_last() == cs@.take(i as int));
        assert(cs@.take(i + 1).last() == c);
        v = (v % 0x1000_0000_0000_0000) * 16 + d;
        i += 1;
    }
    assert(cs@.take(cs.len() as int) == cs@);
    v
}

impl Store {
    /// Internal consistency: rows and vectors line up, and the index maps
    /// each id key present to the last row with that key.
    #[verifier::type_invariant]
    spec fn wf(&self) -> bool {
        &&& self.vectors@.len() == self.meta@.len() * self.dim
        &&& forall|k: u64|
            #![trigger self.index@.contains_key(k)]
            #![trigger last_row_with_key(metas(self.meta@), k)]
            (self.index@.contains_key(k) <==> last_row_with_key(metas(self.meta@), k) is Some)
        &&& forall|k: u64|
            #![trigger self.index@[k]]
            self.index@.contains_key(k) ==> last_row_with_key(metas(self.meta@), k) == Some(
                self.index@[k] as int,
            )
    }

    /// A store over the given vectors and rows. Fails with `Corrupt` when
    /// the number of components is not `rows * dim`.
    pub fn load(dim: usize, vectors: Vec<u32>, meta: Vec<MetaRecord>) -> (r: Result<Store, StoreError>)
        ensures
            match r {
                Ok(s) => aligned(s@) && s@ == StoreModel { dim: dim as nat, vectors: vectors@, rows: metas(meta@) },
                Err(e) => e == StoreError::Corrupt { floats: vectors@.len() as usize, rows: meta@.len() as usize, dim },
            },
            r is Ok <==> vectors@.len() == meta@.len() * dim,
    {
        let rows = meta.len();
        let floats = vectors.len();
        let fits = match rows.checked_mul(dim) {
            Some(p) => p == floats,
            None => false,
        };
        if !fits {
            return Err(StoreError::Corrupt { floats, rows, dim });
        }
        let ghost mv = metas(meta@);
        let mut index: HashMap<u64, usize> = HashMap::new();
        let mut i: usize = 0;
        while i < rows
            invariant
                i <= rows,
                rows == meta@.len(),
                mv == metas(meta@),
                forall|k: u64|
                    #![trigger index@.contains_key(k)]
                    #![trigger last_row_with_key(mv.take(i as int), k)]
                    (index@.contains_key(k) <==> last_row_with_key(mv.take(i as int), k) is Some),
                forall|k: u64|
                    #![trigger index@[k]]
                    index@.contains_key(k) ==> last_row_with_key(mv.take(i as int), k) == Some(
                        index@[k] as int,
                    ),
            decreases rows - i,
        {
            let k = id_key_of(&meta[i].id);
            index.insert(k, i);
            proof {
                let pre = mv.take(i as int);
                let post = mv.take(i + 1);
                assert(post.drop_last() == pre);
                assert(post.last() == mv[i as int]);
                assert(id_key(post.last().id) == k);
                assert forall|q: u64| #[trigger] index@.contains_key(q) <==> last_row_with_key(post, q) is Some by {
                    if q != k {
                        assert(last_row_with_key(post, q) == last_row_with_key(pre, q));
                    }
                }
                assert forall|q: u64| #[trigger] index@.contains_key(q) implies last_row_with_key(post, q) == Some(index@[q] as int) by {
                    if q != k {
                        assert(last_row_with_key(post, q) == last_row_with_key(pre, q));
                    }
                }
            }
            i += 1;
        }
        assert(mv.take(rows as int) == mv);
        Ok(Store { dim, vectors, meta, index })
    }

    /// Number of stored entries.
    pub fn count(&self) -> (n: usize)
        ensures
            n == self@.rows.len(),
    {
        self.meta.len()
    }

    /// The dimension of every stored vector.
    pub fn dim(&self) -> (d: usize)
        ensures
            d == self@.dim,
    {
        self.dim
    }

    /// All metadata records, in row order.
    pub fn all(&self) -> (rows: &[MetaRecord])
        ensures
            metas(rows@) == self@.rows,
    {
        self.meta.as_slice()
    }

    /// All vector components (as `f32` bit patterns), row-major.
    pub fn vectors(&self) -> (v: &[u32])
        ensures
            v@ == self@.vectors,
            aligned(self@),
    {
        proof {
            use_type_invariant(self);
        }
        self.vectors.as_slice()
    }

    /// `Ok` when `vector` has the store's dimension, else the mismatch.
    pub fn check_vector(&self, vector: &[u32]) -> (r: Result<(), StoreError>)
        ensures
            r is Ok <==> vector@.len() == self@.dim,
            r is Err ==> r == Err::<(), StoreError>(
                StoreError::DimMismatch { expected: self@.dim as usize, got: vector@.len() as usize },
            ),
    {
        if vector.len() != self.dim {
            Err(StoreError::DimMismatch { expected: self.dim, got: vector.len() })
        } else {
            Ok(())
        }
    }

    /// The last row whose id is `id`, found through the index.
    fn find_row(&self, id: &String) -> (r: Option<usize>)
        ensures
            match r {
                Some(row) => last_row_with_id(self@.rows, id@) == Some(row as int),
                None => last_row_with_id(self@.rows, id@) is None,
            },
    {
        proof {
            use_type_invariant(self);
        }
        let ghost rows = metas(self.meta@);
        let k = id_key_of(id);
        proof {
            lemma_last_row_with_key(rows, k);
            lemma_last_row_with_id(rows, id@);
        }
        match self.index.get(&k) {
            Some(rref) => {
                let row = *rref;
                assert(self.index@.contains_key(k));
                assert(last_row_with_key(rows, k) == Some(row as int));
                if self.meta[row].id == *id {
                    proof {
                        assert(rows[row as int].id == id@);
                        assert forall|q: int| row < q < rows.len() implies #[trigger] rows[q].id != id@ by {
                            if rows[q].id == id@ {
                                assert(id_key(rows[q].id) == k);
                            }
                        }
                        lemma_last_row_with_id_char(rows, id@, row as int);
                    }
                    Some(row)
                } else {
                    // Another id shares the key: look for `id` itself.
                    let mut q: usize = self.meta.len();
                    while q > 0
                        invariant
                            q <= self.meta@.len(),
                            rows == metas(self.meta@),
                            forall|p: int| q <= p < rows.len() ==> #[trigger] rows[p].id != id@,
                        decreases q,
                    {
                        if self.meta[q - 1].id == *id {
                            proof {
                                lemma_last_row_with_id_char(rows, id@, q - 1);
                            }
                            return Some(q - 1);
                        }
                        q -= 1;
                    }
                    proof {
                        if last_row_with_id(rows, id@) is Some {
                            let r = last_row_with_id(rows, id@)->0;
                            assert(rows[r].id == id@);
                        }
                    }
                    None
                }
            },
            None => {
                assert(!self.index@.contains_key(k));
                proof {
                    if last_row_with_id(rows, id@) is Some {
                        let r = last_row_with_id(rows, id@)->0;
                        assert(id_key(rows[r].id) == k);
                    }
                }
                None
            },
        }
    }

    /// Upsert keyed by the content hash of `text` (see `upsert`), stamped
    /// with the current time. Returns the entry id; a vector of the wrong
    /// length is rejected and leaves the store unchanged.
    pub fn add(&mut self, vector: &[u32], text: &str, source: &str, metadata: Json) -> (r: Result<
        String,
        StoreError,
    >)
        ensures
            aligned(final(self)@),
            r is Ok <==> vector@.len() == old(self)@.dim,
            match r {
                Ok(id) => {
                    &&& id@ == content_id_spec(text@)
                    &&& exists|t: u64|
                        final(self)@ == #[trigger] upsert(
                            old(self)@,
                            id@,
                            vector@,
                            MetaModel { id: id@, source: source@, metadata: metadata@, added_at: t },
                        )
                },
                Err(e) => {
                    &&& e == StoreError::DimMismatch {
                        expected: old(self)@.dim as usize,
                        got: vector@.len() as usize,
                    }
                    &&& final(self)@ == old(self)@
                },
            },
    {
        let added_at = now_secs();
        self.add_at(vector, text, source, metadata, added_at)
    }

    /// Upsert keyed by the content hash of `text` (see `upsert`), stamped
    /// with `added_at`. Returns the entry id; a vector of the wrong length is
    /// rejected and leaves the store unchanged.
    pub fn add_at(
        &mut self,
        vector: &[u32],
        text: &str,
        source: &str,
        metadata: Json,
        added_at: u64,
    ) -> (r: Result<String, StoreError>)
        ensures
            aligned(final(self)@),
            r is Ok <==> vector@.len() == old(self)@.dim,
            match r {
                Ok(id) => {
                    &&& id@ == content_id_spec(text@)
                    &&& final(self)@ == upsert(
                        old(self)@,
                        id@,
                        vector@,
                        MetaModel { id: id@, source: source@, metadata: metadata@, added_at },
                    )
                },
                Err(e) => {
                    &&& e == StoreError::DimMismatch {
                        expected: old(self)@.dim as usize,
                        got: vector@.len() as usize,
                    }
                    &&& final(self)@ == old(self)@
                },
            },
    {
        proof {
            use_type_invariant(&*self);
        }
        if vector.len() != self.dim {
            return Err(StoreError::DimMismatch { expected: self.dim, got: vector.len() });
        }
        let id = content_id(text);
        let ghost rec = MetaModel { id: id@, source: source@, metadata: metadata@, added_at };
        let record = MetaRecord { id: id.clone(), source: source.to_owned(), metadata, added_at };
        assert(record.model() == rec);
        let found = self.find_row(&id);
        let dim = self.dim;
        // Take the parts out, leaving an empty store in their place while
        // they are updated.
        proof {
            assert(metas(Seq::<MetaRecord>::empty()) =~= Seq::<MetaModel>::empty());
        }
        let mut taken = Store { dim, vectors: Vec::new(), meta: Vec::new(), index: HashMap::new() };
        std::mem::swap(&mut taken, self);
        proof {
            use_type_invariant(&taken);
        }
        let Store { dim: _, mut vectors, mut meta, mut index } = taken;
        let ghost old_rows = metas(meta@);
        let ghost old_meta = meta@;
        let ghost old_index = index@;
        let ghost old_vecs = vectors@;
        assert(old_rows == old(self)@.rows);
        assert(old_vecs == old(self)@.vectors);
        match found {
            Some(row) => {
                proof {
                    lemma_last_row_with_id(old_rows, id@);
                }
                let n = meta.len();
                let vlen = vectors.len();
                assert(vlen == n * dim);
                assert(row * dim + dim <= n * dim) by (nonlinear_arith)
                    requires
                        row < n,
                ;
                let base = row * dim;
                let mut j: usize = 0;
                while j < dim
                    invariant
                        j <= dim,
                        base + dim <= vlen,
                        vlen == old_vecs.len(),
                        vectors@.len() == old_vecs.len(),
                        vectors@ == old_vecs.subrange(0, base as int) + vector@.take(j as int)
                            + old_vecs.subrange(base + j, old_vecs.len() as int),
                        vector@.len() == dim,
                    decreases dim - j,
                {
                    vectors.set(base + j, vector[j]);
                    assert(vectors@ =~= old_vecs.subrange(0, base as int) + vector@.take(j + 1)
                        + old_vecs.subrange(base + j + 1, old_vecs.len() as int));
                    j += 1;
                }
                assert(vector@.take(dim as int) == vector@);
                assert((row + 1) * dim == base + dim) by (nonlinear_arith)
                    requires
                        base == row * dim,
                ;
                meta.set(row, record);
                proof {
                    let new_rows = metas(meta@);
                    assert(new_rows =~= old_rows.update(row as int, rec));
                    assert forall|k: u64| #[trigger] last_row_with_key(new_rows, k) == last_row_with_key(old_rows, k) by {
                        lemma_key_update(old_rows, row as int, rec, k);
                    }
                }
            },
            None => {
                let row = meta.len();
                let mut j: usize = 0;
                while j < dim
                    invariant
                        j <= dim,
                        vector@.len() == dim,
                        vectors@ == old_vecs + vector@.take(j as int),
                    decreases dim - j,
                {
                    vectors.push(vector[j]);
                    assert(vectors@ =~= old_vecs + vector@.take(j + 1));
                    j += 1;
                }
                assert(vector@.take(dim as int) == vector@);
                let k = id_key_of(&id);
                meta.push(record);
                index.insert(k, row);
                proof {
                    let new_rows = metas(meta@);
                    assert(new_rows =~= old_rows.push(rec));
                    assert(new_rows.drop_last() =~= old_rows);
                    assert((row + 1) * dim == row * dim + dim) by (nonlinear_arith);
                    assert forall|q: u64| #[trigger] index@.contains_key(q) <==> last_row_with_key(new_rows, q) is Some by {
                        if q != k {
                            assert(last_row_with_key(new_rows, q) == last_row_with_key(old_rows, q));
                        }
                    }
                    assert forall|q: u64| #[trigger] index@.contains_key(q) implies last_row_with_key(new_rows, q) == Some(index@[q] as int) by {
                        if q != k {
                            assert(last_row_with_key(new_rows, q) == last_row_with_key(old_rows, q));
                        }
                    }
                }
            },
        }
        *self = Store { dim, vectors, meta, index };
        Ok(id)
    }

    /// The search result for row `row`, with its score and its document
    /// text: the row's id, source and metadata.
    pub fn hit(&self, row: usize, score_bits: u32, text: String) -> (h: Hit)
        requires
            row < self@.rows.len(),
        ensures
            h.score_bits == score_bits,
            h.text == text,
            h.id@ == self@.rows[row as int].id,
            h.source@ == self@.rows[row as int].source,
            h.metadata@ == self@.rows[row as int].metadata,
    {
        let m = &self.meta[row];
        Hit {
            score_bits,
            id: m.id.clone(),
            text,
            source: m.source.clone(),
            metadata: m.metadata.copy(),
        }
    }

    /// Opening a store of dimension `dim` over a directory whose manifest
    /// records `recorded` requires the two to agree.
    pub fn check_manifest(dim: usize, recorded: usize) -> (r: Result<(), StoreError>)
        ensures
            r is Ok <==> dim == recorded,
            r is Err ==> r == Err::<(), StoreError>(
                StoreError::DimMismatch { expected: dim, got: recorded },
            ),
    {
        if recorded != dim {
            Err(StoreError::DimMismatch { expected: dim, got: recorded })
        } else {
            Ok(())
        }
    }

    /// The components of the vectors file for this store.
    pub fn encoded_vectors(&self) -> (bytes: Vec<u8>)
        ensures
            bytes@ == encode_words(self@.vectors),
    {
        encode_vectors(self.vectors.as_slice())
    }
}


proof fn lemma_upsert_shape(s: StoreModel, id: Seq<char>, v: Seq<u32>, rec: MetaModel)
    requires
        aligned(s),
        v.len() == s.dim,
        rec.id == id,
    ensures
        aligned(upsert(s, id, v, rec)),
        upsert(s, id, v, rec).dim == s.dim,
        last_row_with_id(upsert(s, id, v, rec).rows, id) == Some(
            match last_row_with_id(s.rows, id) {
                Some(r) => r,
                None => s.rows.len() as int,
            },
        ),
{
    lemma_last_row_with_id(s.rows, id);
    let u = upsert(s, id, v, rec);
    match last_row_with_id(s.rows, id) {
        Some(r) => {
            assert(r * s.dim + s.dim <= s.rows.len() * s.dim) by (nonlinear_arith)
                requires
                    0 <= r < s.rows.len(),
            ;
            assert((r + 1) * s.dim == r * s.dim + s.dim) by (nonlinear_arith);
            assert(0 <= r * s.dim) by (nonlinear_arith)
                requires
                    0 <= r,
            ;
            assert(u.vectors.len() == s.vectors.len());
            assert forall|q: int| r < q < u.rows.len() implies #[trigger] u.rows[q].id != id by {
                assert(u.rows[q] == s.rows[q]);
            }
            lemma_last_row_with_id_char(u.rows, id, r);
        },
        None => {
            assert((s.rows.len() + 1) * s.dim == s.rows.len() * s.dim + s.dim) by (nonlinear_arith);
            lemma_last_row_with_id_char(u.rows, id, s.rows.len() as int);
        },
    }
}

/// An upsert keeps rows and vectors aligned, and changes the number of
/// entries only for an id not yet stored (by one).
pub proof fn law_upsert_count(s: StoreModel, id: Seq<char>, v: Seq<u32>, rec: MetaModel)
    requires
        aligned(s),
        v.len() == s.dim,
        rec.id == id,
    ensures
        aligned(upsert(s, id, v, rec)),
        upsert(s, id, v, rec).rows.len() == s.rows.len() + if last_row_with_id(s.rows, id) is Some {
            0int
        } else {
            1int
        },
{
    lemma_upsert_shape(s, id, v, rec);
    lemma_last_row_with_id(s.rows, id);
    match last_row_with_id(s.rows, id) {
        Some(r) => {
            assert(upsert(s, id, v, rec).rows.len() == s.rows.len());
        },
        None => {
            assert(upsert(s, id, v, rec).rows.len() == s.rows.len() + 1);
        },
    }
}

/// Storing the same text twice yields one entry: the second write replaces
/// the first entirely (last write wins), as if only the second had been
/// made.
pub proof fn law_upsert_idempotent(
    s: StoreModel,
    id: Seq<char>,
    v1: Seq<u32>,
    r1: MetaModel,
    v2: Seq<u32>,
    r2: MetaModel,
)
    requires
        aligned(s),
        v1.len() == s.dim,
        v2.len() == s.dim,
        r1.id == id,
        r2.id == id,
    ensures
        upsert(upsert(s, id, v1, r1), id, v2, r2) == upsert(s, id, v2, r2),
{
    lemma_upsert_shape(s, id, v1, r1);
    lemma_last_row_with_id(s.rows, id);
    let s1 = upsert(s, id, v1, r1);
    let a = upsert(s1, id, v2, r2);
    let b = upsert(s, id, v2, r2);
    let d = s.dim as int;
    match last_row_with_id(s.rows, id) {
        Some(r) => {
            assert(r * d + d <= s.rows.len() * d) by (nonlinear_arith)
                requires
                    0 <= r < s.rows.len(),
                    d >= 0,
            ;
            assert((r + 1) * d == r * d + d) by (nonlinear_arith);
            assert(0 <= r * d) by (nonlinear_arith)
                requires
                    0 <= r,
                    d >= 0,
            ;
            assert(a.rows =~= b.rows);
            assert(a.vectors =~= b.vectors);
        },
        None => {
            let n = s.rows.len() as int;
            assert((n + 1) * d == n * d + d) by (nonlinear_arith);
            assert(a.rows =~= b.rows);
            assert(a.vectors =~= b.vectors);
        },
    }
}

/// The vector of row `q` in a store of dimension `d`.
pub open spec fn row_vector(vectors: Seq<u32>, d: nat, q: int) -> Seq<u32> {
    vectors.subrange(q * d, (q + 1) * d)
}

/// What a write gives back: after an upsert, the entry found under `id` is
/// the row `rec` with vector `v`, and every other row keeps its metadata
/// and its vector.
pub proof fn law_upsert_reads_back(s: StoreModel, id: Seq<char>, v: Seq<u32>, rec: MetaModel)
    requires
        aligned(s),
        v.len() == s.dim,
        rec.id == id,
    ensures
        last_row_with_id(upsert(s, id, v, rec).rows, id) is Some,
        ({
            let u = upsert(s, id, v, rec);
            let r = last_row_with_id(u.rows, id)->0;
            &&& 0 <= r < u.rows.len()
            &&& u.rows[r] == rec
            &&& row_vector(u.vectors, u.dim, r) == v
            &&& forall|q: int|
                0 <= q < s.rows.len() && q != r ==> #[trigger] u.rows[q] == s.rows[q]
                    && row_vector(u.vectors, u.dim, q) == row_vector(s.vectors, s.dim, q)
        }),
{
    lemma_upsert_shape(s, id, v, rec);
    lemma_last_row_with_id(s.rows, id);
    let u = upsert(s, id, v, rec);
    let d = s.dim as int;
    let n = s.rows.len() as int;
    let r = last_row_with_id(u.rows, id)->0;
    assert((r + 1) * d == r * d + d) by (nonlinear_arith);
    assert(0 <= r * d) by (nonlinear_arith)
        requires
            0 <= r,
            d >= 0,
    ;
    match last_row_with_id(s.rows, id) {
        Some(r0) => {
            assert(r0 == r);
            assert(r * d + d <= n * d) by (nonlinear_arith)
                requires
                    0 <= r < n,
                    d >= 0,
            ;
            assert(row_vector(u.vectors, u.dim, r) =~= v);
            assert forall|q: int| 0 <= q < n && q != r implies #[trigger] u.rows[q] == s.rows[q]
                && row_vector(u.vectors, u.dim, q) == row_vector(s.vectors, s.dim, q) by {
                assert((q + 1) * d == q * d + d) by (nonlinear_arith);
                if q < r {
                    assert(q * d + d <= r * d) by (nonlinear_arith)
                        requires
                            q < r,
                            d >= 0,
                    ;
                    assert(0 <= q * d) by (nonlinear_arith)
                        requires
                            0 <= q,
                            d >= 0,
                    ;
                } else {
                    assert(r * d + d <= q * d) by (nonlinear_arith)
                        requires
                            r < q,
                            d >= 0,
                    ;
                    assert(q * d + d <= n * d) by (nonlinear_arith)
                        requires
                            q < n,
                            d >= 0,
                    ;
                }
                assert(row_vector(u.vectors, u.dim, q) =~= row_vector(s.vectors, s.dim, q));
            }
        },
        None => {
            assert(r == n);
            assert(row_vector(u.vectors, u.dim, r) =~= v);
            assert forall|q: int| 0 <= q < n && q != r implies #[trigger] u.rows[q] == s.rows[q]
                && row_vector(u.vectors, u.dim, q) == row_vector(s.vectors, s.dim, q) by {
                assert((q + 1) * d == q * d + d) by (nonlinear_arith);
                assert(q * d + d <= n * d) by (nonlinear_arith)
                    requires
                        q < n,
                        d >= 0,
                ;
                assert(0 <= q * d) by (nonlinear_arith)
                    requires
                        0 <= q,
                        d >= 0,
                ;
                assert(row_vector(u.vectors, u.dim, q) =~= row_vector(s.vectors, s.dim, q));
            }
        },
    }
}

/// Reloading a store from its vectors file gives back the same components,
/// and their count is again rows times dimension, so the reload is accepted;
/// with the same rows, the reloaded store is the store that was written.
pub proof fn law_reload(s: StoreModel)
    requires
        aligned(s),
    ensures
        decode_words(encode_words(s.vectors)) == s.vectors,
        decode_words(encode_words(s.vectors)).len() == s.rows.len() * s.dim,
        (StoreModel { dim: s.dim, vectors: decode_words(encode_words(s.vectors)), rows: s.rows }) == s,
{
    law_vectors_roundtrip(s.vectors);
}


/// A sort key for the `f32` with bit pattern `bits`, ordered like
/// `f32::total_cmp`: flipping the sign bit of non-negative values and all
/// bits of negative ones makes unsigned comparison follow the float order.
pub open spec fn order_key(bits: u32) -> u32 {
    if bits >= 0x8000_0000 {
        (0xffff_ffff - bits) as u32
    } else {
        (bits + 0x8000_0000) as u32
    }
}

/// The bit pattern `b` encodes a NaN: all exponent bits set and a non-zero
/// fraction.
pub open spec fn is_nan_bits(b: u32) -> bool {
    (b & 0x7f80_0000u32) == 0x7f80_0000u32 && (b & 0x007f_ffffu32) != 0
}

/// The `f32` with bit pattern `a` is less than the one with bit pattern `b`
/// (IEEE 754 for values that are not NaN): negative values below positive
/// ones, positive values ordered by magnitude, negative values by reversed
/// magnitude, and the two zeros equal.
pub open spec fn f32_lt(a: u32, b: u32) -> bool {
    let ma = a & 0x7fff_ffffu32;
    let mb = b & 0x7fff_ffffu32;
    if a >= 0x8000_0000u32 && b >= 0x8000_0000u32 {
        ma > mb
    } else if a >= 0x8000_0000u32 {
        !(ma == 0 && mb == 0)
    } else if b >= 0x8000_0000u32 {
        false
    } else {
        ma < mb
    }
}

/// The ranking key is strictly increasing in the score: of two scores that
/// are not NaN, the smaller one has the smaller key.
pub proof fn law_order_key_monotone(a: u32, b: u32)
    requires
        !is_nan_bits(a),
        !is_nan_bits(b),
        f32_lt(a, b),
    ensures
        order_key(a) < order_key(b),
{
    assert(f32_lt(a, b) ==> order_key(a) < order_key(b)) by (bit_vector);
}

/// Top-k ranks by similarity: no returned row has a strictly lower score
/// than a row returned after it, nor than any row left out (scores that are
/// not NaN).
pub proof fn law_top_k_by_similarity(sims: Seq<u32>, k: nat, res: Seq<usize>)
    requires
        is_top_k(sims, k, res),
        forall|r: int| 0 <= r < sims.len() ==> !is_nan_bits(#[trigger] sims[r]),
    ensures
        forall|i: int, j: int|
            0 <= i < j < res.len() ==> !f32_lt(sims[#[trigger] res[i] as int], sims[#[trigger] res[j] as int]),
        forall|i: int, x: int|
            0 <= i < res.len() && 0 <= x < sims.len() && !res.contains(x as usize) ==> !f32_lt(
                sims[#[trigger] res[i] as int],
                #[trigger] sims[x],
            ),
{
    assert forall|i: int, j: int| 0 <= i < j < res.len() implies !f32_lt(
        sims[#[trigger] res[i] as int],
        sims[#[trigger] res[j] as int],
    ) by {
        assert(ranks_before(sims, res[i] as int, res[j] as int));
        if f32_lt(sims[res[i] as int], sims[res[j] as int]) {
            law_order_key_monotone(sims[res[i] as int], sims[res[j] as int]);
        }
    }
    assert forall|i: int, x: int|
        0 <= i < res.len() && 0 <= x < sims.len() && !res.contains(x as usize) implies !f32_lt(
        sims[#[trigger] res[i] as int],
        #[trigger] sims[x],
    ) by {
        assert(ranks_before(sims, res[i] as int, x));
        if f32_lt(sims[res[i] as int], sims[x]) {
            law_order_key_monotone(sims[res[i] as int], sims[x]);
        }
    }
}

/// Row `a` ranks before row `b`: a higher score, or an equal score and an
/// earlier row.
pub open spec fn ranks_before(sims: Seq<u32>, a: int, b: int) -> bool {
    ||| order_key(sims[a]) > order_key(sims[b])
    ||| (order_key(sims[a]) == order_key(sims[b]) && a < b)
}

/// `res` is the first `min(k, n)` rows in ranking order: distinct valid
/// rows, ranked among themselves, each ranking before every row left out.
pub open spec fn is_top_k(sims: Seq<u32>, k: nat, res: Seq<usize>) -> bool {
    &&& res.len() == if k < sims.len() {
        k
    } else {
        sims.len()
    }
    &&& forall|i: int| 0 <= i < res.len() ==> #[trigger] res[i] < sims.len()
    &&& forall|i: int, j: int|
        0 <= i < j < res.len() ==> ranks_before(sims, #[trigger] res[i] as int, #[trigger] res[j] as int)
    &&& forall|i: int, x: int|
        0 <= i < res.len() && 0 <= x < sims.len() && !res.contains(x as usize) ==> #[trigger] ranks_before(
            sims,
            res[i] as int,
            x,
        )
}

fn order_key_of(bits: u32) -> (k: u32)
    ensures
        k == order_key(bits),
{
    if bits >= 0x8000_0000 {
        0xffff_ffff - bits
    } else {
        bits + 0x8000_0000
    }
}

/// The rows of the `k` best scores (bit patterns of `f32` similarities),
/// best first; ties keep row order; `k` beyond the number of rows returns
/// them all, and no rows give no result.
pub fn top_k(sims: &[u32], k: usize) -> (res: Vec<usize>)
    ensures
        is_top_k(sims@, k as nat, res@),
{
    let n = sims.len();
    let m = if k < n {
        k
    } else {
        n
    };
    let mut order: Vec<usize> = Vec::new();
    let mut i: usize = 0;
    while i < n
        invariant
            i <= n,
            n == sims@.len(),
            order@.len() == i,
            forall|p: int| 0 <= p < i ==> #[trigger] order@[p] == p,
        decreases n - i,
    {
        order.push(i);
        i += 1;
    }
    let ghost s = sims@;
    assert forall|x: int| 0 <= x < n implies #[trigger] order@.contains(x as usize) by {
        assert(order@[x] == x);
    }
    let mut i: usize = 0;
    while i < m
        invariant
            m <= n,
            i <= m,
            n == s.len(),
            s == sims@,
            order@.len() == n,
            forall|p: int| 0 <= p < n ==> #[trigger] order@[p] < n,
            forall|p: int, q: int| 0 <= p < q < n ==> #[trigger] order@[p] != #[trigger] order@[q],
            forall|x: int| 0 <= x < n ==> #[trigger] order@.contains(x as usize),
            forall|p: int, q: int|
                0 <= p < q < i ==> ranks_before(s, #[trigger] order@[p] as int, #[trigger] order@[q] as int),
            forall|p: int, q: int|
                0 <= p < i && i <= q < n ==> ranks_before(s, #[trigger] order@[p] as int, #[trigger] order@[q] as int),
        decreases m - i,
    {
        let mut best: usize = i;
        let mut bk = order_key_of(sims[order[i]]);
        let mut j: usize = i + 1;
        while j < n
            invariant
                i < n,
                i <= best < j <= n,
                n == s.len(),
                s == sims@,
                order@.len() == n,
                forall|p: int| 0 <= p < n ==> #[trigger] order@[p] < n,
                bk == order_key(s[order@[best as int] as int]),
                forall|q: int| i <= q < j && q != best ==> ranks_before(s, order@[best as int] as int, #[trigger] order@[q] as int),
                forall|p: int, q: int| 0 <= p < q < n ==> #[trigger] order@[p] != #[trigger] order@[q],
            decreases n - j,
        {
            let kj = order_key_of(sims[order[j]]);
            if kj > bk || (kj == bk && order[j] < order[best]) {
                proof {
                    assert forall|q: int| i <= q < j + 1 && q != j implies ranks_before(s, order@[j as int] as int, #[trigger] order@[q] as int) by {
                        if q != best {
                            assert(ranks_before(s, order@[best as int] as int, order@[q] as int));
                        }
                    }
                }
                best = j;
                bk = kj;
            } else {
                assert(order@[j as int] != order@[best as int]);
            }
            j += 1;
        }
        let ghost before = order@;
        let a = order[i];
        let b = order[best];
        order.set(i, b);
        order.set(best, a);
        proof {
            assert forall|x: int| 0 <= x < n implies #[trigger] order@.contains(x as usize) by {
                assert(before.contains(x as usize));
                let p = choose|p: int| 0 <= p < before.len() && before[p] == x as usize;
                if p == i {
                    assert(order@[best as int] == x as usize);
                } else if p == best {
                    assert(order@[i as int] == x as usize);
                } else {
                    assert(order@[p] == x as usize);
                }
            }
            assert forall|p: int, q: int| 0 <= p < q < i + 1 implies ranks_before(s, #[trigger] order@[p] as int, #[trigger] order@[q] as int) by {
                if q < i {
                    assert(order@[p] == before[p] && order@[q] == before[q]);
                } else {
                    assert(order@[p] == before[p]);
                    assert(order@[q] == before[best as int]);
                }
            }
            assert forall|p: int, q: int| 0 <= p < i + 1 && i + 1 <= q < n implies ranks_before(s, #[trigger] order@[p] as int, #[trigger] order@[q] as int) by {
                if p < i {
                    assert(order@[p] == before[p]);
                    if q == best {
                        assert(order@[q] == before[i as int]);
                    } else {
                        assert(order@[q] == before[q]);
                    }
                } else {
                    assert(order@[p] == before[best as int]);
                    if q == best {
                        assert(order@[q] == before[i as int]);
                    } else {
                        assert(order@[q] == before[q]);
                    }
                }
            }
        }
        i += 1;
    }
    let mut res: Vec<usize> = Vec::new();
    let mut p: usize = 0;
    while p < m
        invariant
            p <= m <= n,
            order@.len() == n,
            res@ == order@.take(p as int),
        decreases m - p,
    {
        res.push(order[p]);
        assert(res@ =~= order@.take(p + 1));
        p += 1;
    }
    proof {
        assert forall|i2: int, x: int|
            0 <= i2 < res@.len() && 0 <= x < n && !res@.contains(x as usize) implies #[trigger] ranks_before(
                s,
                res@[i2] as int,
                x,
            ) by {
            assert(order@.contains(x as usize));
            let q = choose|q: int| 0 <= q < n && order@[q] == x as usize;
            if q < m {
                assert(res@[q] == x as usize);
                assert(res@.contains(x as usize));
            }
            assert(res@[i2] == order@[i2]);
        }
        assert forall|a: int, b: int| 0 <= a < b < res@.len() implies ranks_before(s, #[trigger] res@[a] as int, #[trigger] res@[b] as int) by {
            assert(res@[a] == order@[a] && res@[b] == order@[b]);
        }
    }
    res
}

} // verus!
