//! The store of deleted-file hashes (one hex-encoded hash per line in its
//! file), and the staleness rule for cached video entries.

use vstd::prelude::*;
use std::collections::HashMap;

use crate::hexcode::{
    hex_decode16, hex_decode_to_16, hex_encode16, hex_lower, lemma_hex_roundtrip, HexError,
};
use crate::text::{
    chars_of, is_whitespace, lemma_split_on_append, lemma_trim_noop, push_all, split_chars,
    split_lines, string_from_chars, trim, trim_chars, trim_start,
};

verus! {

broadcast use vstd::std_specs::hash::group_hash_axioms;

/// The number a 16-byte hash denotes, read big-endian: the key under which
/// the store keeps it. Distinct hashes get distinct keys
/// (`lemma_hash_key_injective`).
pub open spec fn key_of_bytes(b: Seq<u8>) -> u128 {
    (b[0] as u128) << 120u128 | (b[1] as u128) << 112u128 | (b[2] as u128) << 104u128 | (
    b[3] as u128) << 96u128 | (b[4] as u128) << 88u128 | (b[5] as u128) << 80u128 | (
    b[6] as u128) << 72u128 | (b[7] as u128) << 64u128 | (b[8] as u128) << 56u128 | (
    b[9] as u128) << 48u128 | (b[10] as u128) << 40u128 | (b[11] as u128) << 32u128 | (
    b[12] as u128) << 24u128 | (b[13] as u128) << 16u128 | (b[14] as u128) << 8u128 | (
    b[15] as u128)
}

/// The key of a hash.
pub open spec fn hash_key(h: [u8; 16]) -> u128 {
    key_of_bytes(h@)
}

/// The 16 bytes of a key, most significant first.
pub open spec fn key_bytes(k: u128) -> Seq<u8> {
    seq![
        (k >> 120u128) as u8,
        (k >> 112u128) as u8,
        (k >> 104u128) as u8,
        (k >> 96u128) as u8,
        (k >> 88u128) as u8,
        (k >> 80u128) as u8,
        (k >> 72u128) as u8,
        (k >> 64u128) as u8,
        (k >> 56u128) as u8,
        (k >> 48u128) as u8,
        (k >> 40u128) as u8,
        (k >> 32u128) as u8,
        (k >> 24u128) as u8,
        (k >> 16u128) as u8,
        (k >> 8u128) as u8,
        k as u8,
    ]
}

proof fn lemma_bytes_of_key(k: u128)
    ensures
        key_of_bytes(key_bytes(k)) == k,
{
    let b = key_bytes(k);
    let b0 = b[0];
    let b1 = b[1];
    let b2 = b[2];
    let b3 = b[3];
    let b4 = b[4];
    let b5 = b[5];
    let b6 = b[6];
    let b7 = b[7];
    let b8 = b[8];
    let b9 = b[9];
    let b10 = b[10];
    let b11 = b[11];
    let b12 = b[12];
    let b13 = b[13];
    let b14 = b[14];
    let b15 = b[15];
    assert(((b0 as u128) << 120u128 | (b1 as u128) << 112u128 | (b2 as u128) << 104u128 | (
    b3 as u128) << 96u128 | (b4 as u128) << 88u128 | (b5 as u128) << 80u128 | (b6 as u128)
        << 72u128 | (b7 as u128) << 64u128 | (b8 as u128) << 56u128 | (b9 as u128) << 48u128 | (
    b10 as u128) << 40u128 | (b11 as u128) << 32u128 | (b12 as u128) << 24u128 | (b13 as u128)
        << 16u128 | (b14 as u128) << 8u128 | (b15 as u128)) == k) by (bit_vector)
        requires
            b0 == (k >> 120u128) as u8,
            b1 == (k >> 112u128) as u8,
            b2 == (k >> 104u128) as u8,
            b3 == (k >> 96u128) as u8,
            b4 == (k >> 88u128) as u8,
            b5 == (k >> 80u128) as u8,
            b6 == (k >> 72u128) as u8,
            b7 == (k >> 64u128) as u8,
            b8 == (k >> 56u128) as u8,
            b9 == (k >> 48u128) as u8,
            b10 == (k >> 40u128) as u8,
            b11 == (k >> 32u128) as u8,
            b12 == (k >> 24u128) as u8,
            b13 == (k >> 16u128) as u8,
            b14 == (k >> 8u128) as u8,
            b15 == k as u8,
    ;
}

proof fn lemma_key_of_bytes(b: Seq<u8>)
    requires
        b.len() == 16,
    ensures
        key_bytes(key_of_bytes(b)) == b,
{
    let k = key_of_bytes(b);
    let b0 = b[0];
    let b1 = b[1];
    let b2 = b[2];
    let b3 = b[3];
    let b4 = b[4];
    let b5 = b[5];
    let b6 = b[6];
    let b7 = b[7];
    let b8 = b[8];
    let b9 = b[9];
    let b10 = b[10];
    let b11 = b[11];
    let b12 = b[12];
    let b13 = b[13];
    let b14 = b[14];
    let b15 = b[15];
    assert({
        &&& b0 == (k >> 120u128) as u8
        &&& b1 == (k >> 112u128) as u8
        &&& b2 == (k >> 104u128) as u8
        &&& b3 == (k >> 96u128) as u8
        &&& b4 == (k >> 88u128) as u8
        &&& b5 == (k >> 80u128) as u8
        &&& b6 == (k >> 72u128) as u8
        &&& b7 == (k >> 64u128) as u8
        &&& b8 == (k >> 56u128) as u8
        &&& b9 == (k >> 48u128) as u8
        &&& b10 == (k >> 40u128) as u8
        &&& b11 == (k >> 32u128) as u8
        &&& b12 == (k >> 24u128) as u8
        &&& b13 == (k >> 16u128) as u8
        &&& b14 == (k >> 8u128) as u8
        &&& b15 == k as u8
    }) by (bit_vector)
        requires
            k == (b0 as u128) << 120u128 | (b1 as u128) << 112u128 | (b2 as u128) << 104u128 | (
            b3 as u128) << 96u128 | (b4 as u128) << 88u128 | (b5 as u128) << 80u128 | (
            b6 as u128) << 72u128 | (b7 as u128) << 64u128 | (b8 as u128) << 56u128 | (
            b9 as u128) << 48u128 | (b10 as u128) << 40u128 | (b11 as u128) << 32u128 | (
            b12 as u128) << 24u128 | (b13 as u128) << 16u128 | (b14 as u128) << 8u128 | (
            b15 as u128),
    ;
    assert(key_bytes(k) =~= b);
}

/// Law: two hashes share a key only when they are the same hash, so the
/// store tells every pair of distinct hashes apart.
pub proof fn lemma_hash_key_injective(a: [u8; 16], b: [u8; 16])
    requires
        hash_key(a) == hash_key(b),
    ensures
        a == b,
{
    lemma_key_of_bytes(a@);
    lemma_key_of_bytes(b@);
    assert(a@ =~= b@);
    vstd::array::axiom_array_ext_equal(a, b);
}

/// The key of a hash.
pub fn key_of(h: &[u8; 16]) -> (k: u128)
    ensures
        k == hash_key(*h),
{
    (h[0] as u128) << 120u128 | (h[1] as u128) << 112u128 | (h[2] as u128) << 104u128 | (
    h[3] as u128) << 96u128 | (h[4] as u128) << 88u128 | (h[5] as u128) << 80u128 | (
    h[6] as u128) << 72u128 | (h[7] as u128) << 64u128 | (h[8] as u128) << 56u128 | (
    h[9] as u128) << 48u128 | (h[10] as u128) << 40u128 | (h[11] as u128) << 32u128 | (
    h[12] as u128) << 24u128 | (h[13] as u128) << 16u128 | (h[14] as u128) << 8u128 | (
    h[15] as u128)
}

/// The hash a key stands for.
pub fn bytes_of_key(k: u128) -> (h: [u8; 16])
    ensures
        h@ == key_bytes(k),
{
    let h: [u8; 16] = [
        (k >> 120u128) as u8,
        (k >> 112u128) as u8,
        (k >> 104u128) as u8,
        (k >> 96u128) as u8,
        (k >> 88u128) as u8,
        (k >> 80u128) as u8,
        (k >> 72u128) as u8,
        (k >> 64u128) as u8,
        (k >> 56u128) as u8,
        (k >> 48u128) as u8,
        (k >> 40u128) as u8,
        (k >> 32u128) as u8,
        (k >> 24u128) as u8,
        (k >> 16u128) as u8,
        (k >> 8u128) as u8,
        k as u8,
    ];
    assert(h@ =~= key_bytes(k));
    h
}

/// The set of hashes of files the user deleted.
pub struct DeletedHashes {
    hashes: HashMap<u128, bool>,
}

impl View for DeletedHashes {
    type V = Set<u128>;

    /// The keys (`hash_key`) of the stored hashes.
    closed spec fn view(&self) -> Set<u128> {
        self.hashes@.dom()
    }
}

/// A non-empty line of a hash file that is no hash, trimmed, and why.
pub struct InvalidHashLine {
    pub line: String,
    pub error: HexError,
}

/// What one line of a hash file decodes to: its trimmed text, as UTF-8
/// bytes, hex-decoded into 16 bytes.
pub open spec fn line_hash(line: Seq<char>) -> Result<Seq<u8>, HexError> {
    hex_decode16(vstd::utf8::encode_utf8(trim(line)))
}

/// A line that holds a hash: non-empty once trimmed, and decoding.
pub open spec fn line_holds(line: Seq<char>, k: u128) -> bool {
    &&& trim(line).len() > 0
    &&& (line_hash(line) matches Ok(b) && key_of_bytes(b) == k)
}

/// The keys of all hashes that the lines of a hash file hold.
pub open spec fn parsed_keys(lines: Seq<Seq<char>>) -> Set<u128> {
    Set::new(|k: u128| exists|i: int| 0 <= i < lines.len() && line_holds(#[trigger] lines[i], k))
}

proof fn lemma_parsed_keys_push(prev: Seq<Seq<char>>, l: Seq<char>)
    ensures
        parsed_keys(prev.push(l)) == (if trim(l).len() > 0 && line_hash(l) is Ok {
            parsed_keys(prev).insert(key_of_bytes(line_hash(l)->Ok_0))
        } else {
            parsed_keys(prev)
        }),
{
    let next = prev.push(l);
    let expected = if trim(l).len() > 0 && line_hash(l) is Ok {
        parsed_keys(prev).insert(key_of_bytes(line_hash(l)->Ok_0))
    } else {
        parsed_keys(prev)
    };
    assert forall|k: u128| #[trigger] parsed_keys(next).contains(k) implies expected.contains(k) by {
        let w = choose|w: int| 0 <= w < next.len() && line_holds(#[trigger] next[w], k);
        if w < prev.len() {
            assert(prev[w] == next[w]);
        }
    }
    assert forall|k: u128| #[trigger] expected.contains(k) implies parsed_keys(next).contains(k) by {
        if parsed_keys(prev).contains(k) {
            let w = choose|w: int| 0 <= w < prev.len() && line_holds(#[trigger] prev[w], k);
            assert(prev[w] == next[w]);
        } else {
            assert(line_holds(next[prev.len() as int], k));
        }
    }
    assert(parsed_keys(next) =~= expected);
}

/// The lines that are neither blank nor a hash, trimmed, each with its
/// error, in file order.
pub open spec fn parse_warnings(lines: Seq<Seq<char>>) -> Seq<(Seq<char>, HexError)>
    decreases lines.len(),
{
    if lines.len() == 0 {
        Seq::empty()
    } else {
        let prev = parse_warnings(lines.drop_last());
        let t = trim(lines.last());
        if t.len() > 0 && line_hash(lines.last()) is Err {
            prev.push((t, line_hash(lines.last())->Err_0))
        } else {
            prev
        }
    }
}

/// The text of a hash file for the keys `ks`, in that order: each hash as
/// 32 lowercase hex digits and a newline.
pub open spec fn hashes_text(ks: Seq<u128>) -> Seq<char>
    decreases ks.len(),
{
    if ks.len() == 0 {
        Seq::empty()
    } else {
        hashes_text(ks.drop_last()) + hex_lower(key_bytes(ks.last())) + seq!['\n']
    }
}

/// One line of a hash file, without its newline.
pub open spec fn hash_line(k: u128) -> Seq<char> {
    hex_lower(key_bytes(k))
}

proof fn lemma_hash_line(k: u128)
    ensures
        hash_line(k).len() == 32,
        forall|i: int| 0 <= i < hash_line(k).len() ==> hash_line(k)[i] != '\n',
        trim(hash_line(k)) == hash_line(k),
        line_hash(hash_line(k)) == Ok::<Seq<u8>, HexError>(key_bytes(k)),
        key_of_bytes(key_bytes(k)) == k,
{
    let l = hash_line(k);
    let b = key_bytes(k);
    assert forall|i: int| 0 <= i < l.len() implies !is_whitespace(#[trigger] l[i]) && l[i] != '\n' by {
        let d = if i % 2 == 0 {
            b[i / 2] / 16
        } else {
            b[i / 2] % 16
        };
        assert(0 <= d < 16);
    }
    lemma_trim_noop(l);
    lemma_hex_roundtrip(b);
    lemma_bytes_of_key(k);
}

/// The lines of the text for `ks`: one per key, then the empty piece after
/// the final newline.
proof fn lemma_split_hashes_text(ks: Seq<u128>)
    ensures
        split_lines(hashes_text(ks)) == Seq::new(ks.len(), |i: int| hash_line(ks[i])).push(
            Seq::<char>::empty(),
        ),
    decreases ks.len(),
{
    if ks.len() == 0 {
        assert(split_lines(hashes_text(ks)) =~= seq![Seq::<char>::empty()]);
        assert(Seq::new(0, |i: int| hash_line(ks[i])).push(Seq::<char>::empty()) =~= seq![
            Seq::<char>::empty(),
        ]);
    } else {
        let prev = ks.drop_last();
        let k = ks.last();
        lemma_split_hashes_text(prev);
        lemma_hash_line(k);
        let before = hashes_text(prev);
        let line = hash_line(k);
        lemma_split_on_append(before, line, '\n');
        let with_line = before + line;
        assert(hashes_text(ks) =~= with_line.push('\n'));
        assert(with_line.push('\n').drop_last() =~= with_line);
        let sp = split_lines(before);
        assert(sp.last() + line =~= line);
        assert(split_lines(hashes_text(ks)) =~= Seq::new(ks.len(), |i: int| hash_line(ks[i])).push(
            Seq::<char>::empty(),
        ));
    }
}

/// Law: reading back the text that `to_text` writes for a store gives the
/// same hashes, and no line of it is refused. Stated over the keys `ks` in
/// the order `to_text` wrote them (any order of the store's keys).
pub proof fn lemma_text_roundtrip(ks: Seq<u128>)
    requires
        ks.no_duplicates(),
    ensures
        parsed_keys(split_lines(hashes_text(ks))) == ks.to_set(),
        parse_warnings(split_lines(hashes_text(ks))).len() == 0,
{
    lemma_split_hashes_text(ks);
    let lines = split_lines(hashes_text(ks));
    assert forall|i: int| 0 <= i < ks.len() implies line_holds(#[trigger] lines[i], ks[i]) by {
        lemma_hash_line(ks[i]);
    }
    assert forall|k: u128| #[trigger] parsed_keys(lines).contains(k) implies ks.to_set().contains(
        k,
    ) by {
        let w = choose|w: int| 0 <= w < lines.len() && line_holds(#[trigger] lines[w], k);
        if w < ks.len() {
            lemma_hash_line(ks[w]);
            assert(ks[w] == k);
            assert(ks.contains(k));
        } else {
            assert(lines[w] =~= Seq::<char>::empty());
            assert(trim_start(lines[w]) =~= Seq::<char>::empty());
        }
    }
    assert forall|k: u128| #[trigger] ks.to_set().contains(k) implies parsed_keys(lines).contains(
        k,
    ) by {
        assert(ks.contains(k));
        let w = choose|w: int| 0 <= w < ks.len() && ks[w] == k;
        assert(line_holds(lines[w], k));
    }
    assert(parsed_keys(lines) =~= ks.to_set());
    lemma_no_warnings(lines, ks);
}

proof fn lemma_no_warnings(lines: Seq<Seq<char>>, ks: Seq<u128>)
    requires
        lines == Seq::new(ks.len(), |i: int| hash_line(ks[i])).push(Seq::<char>::empty()),
    ensures
        parse_warnings(lines).len() == 0,
{
    assert(lines.last() =~= Seq::<char>::empty());
    assert(trim_start(lines.last()) =~= Seq::<char>::empty());
    assert(lines.drop_last() =~= Seq::new(ks.len(), |i: int| hash_line(ks[i])));
    lemma_no_warnings_lines(ks, ks.len() as int);
    assert(Seq::new(ks.len(), |i: int| hash_line(ks[i])).take(ks.len() as int) =~= lines.drop_last());
}

proof fn lemma_no_warnings_lines(ks: Seq<u128>, n: int)
    requires
        0 <= n <= ks.len(),
    ensures
        parse_warnings(Seq::new(ks.len(), |i: int| hash_line(ks[i])).take(n)).len() == 0,
    decreases n,
{
    let all = Seq::new(ks.len(), |i: int| hash_line(ks[i]));
    if n > 0 {
        lemma_no_warnings_lines(ks, n - 1);
        assert(all.take(n).drop_last() =~= all.take(n - 1));
        lemma_hash_line(ks[n - 1]);
    }
}

/// Law: reading back the text that `to_text` wrote for a store (any order
/// of its keys, as `to_text` states) gives the same store, with no line
/// refused.
pub proof fn lemma_save_then_load(d: DeletedHashes, text: Seq<char>)
    requires
        exists|ks: Seq<u128>| ks.no_duplicates() && ks.to_set() == d@ && text == hashes_text(ks),
    ensures
        parsed_keys(split_lines(text)) == d@,
        parse_warnings(split_lines(text)).len() == 0,
{
    let ks = choose|ks: Seq<u128>| ks.no_duplicates() && ks.to_set() == d@ && text == hashes_text(ks);
    lemma_text_roundtrip(ks);
}

/// Every store holds finitely many hashes.
pub proof fn lemma_store_finite(d: &DeletedHashes)
    ensures
        d@.finite(),
{
    vstd::std_specs::hash::axiom_hashmap_view_finite_dom(d.hashes);
}

/// Law: once a hash is inserted the store holds it; every other hash is
/// held exactly when it was before; the count grows by one only for a hash
/// that was not there; and inserting a hash the store already holds leaves
/// it unchanged.
pub proof fn lemma_insert_then_contains(d: &DeletedHashes, h: [u8; 16], g: [u8; 16])
    ensures
        d@.insert(hash_key(h)).contains(hash_key(h)),
        g != h ==> d@.insert(hash_key(h)).contains(hash_key(g)) == d@.contains(hash_key(g)),
        d@.insert(hash_key(h)).finite(),
        d@.insert(hash_key(h)).len() == if d@.contains(hash_key(h)) {
            d@.len()
        } else {
            d@.len() + 1
        },
        d@.contains(hash_key(h)) ==> d@.insert(hash_key(h)) == d@,
{
    lemma_store_finite(d);
    if g != h && hash_key(g) == hash_key(h) {
        lemma_hash_key_injective(g, h);
    }
    if d@.contains(hash_key(h)) {
        assert(d@.insert(hash_key(h)) =~= d@);
    }
}

/// The keys a store holds after `new` and then `insert` of each of `hs`, in
/// that order.
pub open spec fn keys_after_inserts(hs: Seq<[u8; 16]>) -> Set<u128>
    decreases hs.len(),
{
    if hs.len() == 0 {
        Set::empty()
    } else {
        keys_after_inserts(hs.drop_last()).insert(hash_key(hs.last()))
    }
}

/// Law: a store built by `new` and then `insert` of each of `hs` holds
/// exactly the hashes among them, and its `len` is the number of distinct
/// hashes among them.
pub proof fn lemma_inserts_count(hs: Seq<[u8; 16]>)
    ensures
        keys_after_inserts(hs).finite(),
        keys_after_inserts(hs).len() == hs.to_set().len(),
        forall|h: [u8; 16]| #[trigger] keys_after_inserts(hs).contains(hash_key(h)) <==> hs.contains(h),
    decreases hs.len(),
{
    vstd::seq_lib::seq_to_set_is_finite(hs);
    if hs.len() == 0 {
        assert(hs.to_set() =~= Set::<[u8; 16]>::empty());
    } else {
        let p = hs.drop_last();
        let x = hs.last();
        lemma_inserts_count(p);
        vstd::seq_lib::seq_to_set_is_finite(p);
        assert(hs =~= p.push(x));
        assert(hs.to_set() =~= p.to_set().insert(x)) by {
            assert forall|y: [u8; 16]| #[trigger] hs.to_set().contains(y) implies p.to_set().insert(
                x,
            ).contains(y) by {
                let j = choose|j: int| 0 <= j < hs.len() && hs[j] == y;
                if j < p.len() {
                    assert(p[j] == y);
                }
            }
            assert forall|y: [u8; 16]| #[trigger] p.to_set().insert(x).contains(y) implies hs.to_set().contains(
                y,
            ) by {
                if y == x {
                    assert(hs[hs.len() - 1] == y);
                } else {
                    let j = choose|j: int| 0 <= j < p.len() && p[j] == y;
                    assert(hs[j] == y);
                }
            }
        }
        assert forall|h: [u8; 16]| #[trigger] keys_after_inserts(hs).contains(hash_key(h))
            <==> hs.contains(h) by {
            if h != x && hash_key(h) == hash_key(x) {
                lemma_hash_key_injective(h, x);
            }
            assert(hs.contains(h) <==> hs.to_set().contains(h));
            assert(p.contains(h) <==> p.to_set().contains(h));
        }
        assert(p.contains(x) <==> p.to_set().contains(x));
        assert(keys_after_inserts(p).contains(hash_key(x)) <==> p.contains(x));
        assert(keys_after_inserts(hs) == keys_after_inserts(p).insert(hash_key(x)));
    }
}

/// Whether a cached entry no longer describes its file, given the file's
/// size and modification time in seconds (`None` when its metadata cannot
/// be read): stale when unreadable or when either differs (the size is
/// compared as `i64`, as the cache keeps it).
pub open spec fn stale_by(metadata: Option<(u64, u64)>, cached_size: i64, cached_mtime: u64) -> bool {
    match metadata {
        Some((len, mtime)) => len as i64 != cached_size || mtime != cached_mtime,
        None => true,
    }
}

/// Law: an entry recorded from a file's current size and modification
/// time is not stale while the file stays as it is.
pub proof fn lemma_fresh_entry_not_stale(len: u64, mtime: u64)
    ensures
        !stale_by(Some((len, mtime)), len as i64, mtime),
{
}

/// Decides whether a cached entry is stale from the file's metadata.
pub fn is_stale_by_metadata(metadata: Option<(u64, u64)>, cached_size: i64, cached_mtime: u64) -> (res: bool)
    ensures
        res == stale_by(metadata, cached_size, cached_mtime),
{
    match metadata {
        Some((len, mtime)) => {
            let size = len as i64;
            size != cached_size || mtime != cached_mtime
        },
        None => true,
    }
}

impl DeletedHashes {
    /// An empty store.
    pub fn new() -> (res: Self)
        ensures
            res@ == Set::<u128>::empty(),
    {
        DeletedHashes { hashes: HashMap::new() }
    }

    /// Whether `hash` is in the store.
    pub fn contains(&self, hash: &[u8; 16]) -> (res: bool)
        ensures
            res == self@.contains(hash_key(*hash)),
    {
        let k = key_of(hash);
        self.hashes.contains_key(&k)
    }

    /// Adds `hash` to the store.
    pub fn insert(&mut self, hash: [u8; 16])
        ensures
            final(self)@ == old(self)@.insert(hash_key(hash)),
    {
        let k = key_of(&hash);
        self.hashes.insert(k, true);
    }

    /// The number of distinct hashes in the store.
    pub fn len(&self) -> (res: usize)
        ensures
            res == self@.len(),
    {
        self.hashes.len()
    }

    /// Reads the text of a hash file: every line is trimmed, blank lines are
    /// skipped, a line that decodes as a 16-byte hex hash adds it, and any
    /// other line is given back with its error, in file order.
    #[verifier::rlimit(30)]
    pub fn parse(content: &str) -> (res: (DeletedHashes, Vec<InvalidHashLine>))
        ensures
            res.0@ == parsed_keys(split_lines(content@)),
            res.1.len() == parse_warnings(split_lines(content@)).len(),
            forall|i: int|
                0 <= i < res.1.len() ==> (#[trigger] res.1@[i]).line@ == parse_warnings(
                    split_lines(content@),
                )[i].0 && res.1@[i].error == parse_warnings(split_lines(content@))[i].1,
    {
        let chars = chars_of(content);
        let lines = split_chars(&chars, '\n');
        let ghost ls = split_lines(content@);
        let mut dh = DeletedHashes::new();
        let mut warnings: Vec<InvalidHashLine> = Vec::new();
        let mut i: usize = 0;
        while i < lines.len()
            invariant
                i <= lines.len(),
                lines.len() == ls.len(),
                forall|k: int| 0 <= k < lines.len() ==> #[trigger] lines@[k]@ == ls[k],
                dh@ == parsed_keys(ls.take(i as int)),
                warnings.len() == parse_warnings(ls.take(i as int)).len(),
                forall|j: int|
                    0 <= j < warnings.len() ==> (#[trigger] warnings@[j]).line@ == parse_warnings(
                        ls.take(i as int),
                    )[j].0 && warnings@[j].error == parse_warnings(ls.take(i as int))[j].1,
            decreases lines.len() - i,
        {
            let ghost prev = ls.take(i as int);
            let ghost next = ls.take(i + 1);
            assert(next.drop_last() =~= prev);
            assert(next.last() == ls[i as int]);
            proof {
                assert(next =~= prev.push(ls[i as int]));
                lemma_parsed_keys_push(prev, ls[i as int]);
            }
            let t = trim_chars(&lines[i]);
            if t.len() > 0 {
                let ts = string_from_chars(&t);
                let bytes = ts.as_str().as_bytes();
                match hex_decode_to_16(bytes) {
                    Ok(h) => {
                        dh.insert(h);
                    },
                    Err(e) => {
                        warnings.push(InvalidHashLine { line: ts, error: e });
                    },
                }
            }
            i += 1;
        }
        assert(ls.take(lines.len() as int) =~= ls);
        (dh, warnings)
    }

    /// The text of the store's file: every hash as 32 lowercase hex digits
    /// and a newline, in the order in which the map hands out its keys.
    pub fn to_text(&self) -> (res: String)
        ensures
            exists|ks: Seq<u128>|
                ks.no_duplicates() && ks.to_set() == self@ && res@ == hashes_text(ks),
    {
        let mut out: Vec<char> = Vec::new();
        let ghost mut done: Seq<u128> = Seq::empty();
        for k in it: self.hashes.keys()
            invariant
                it.seq().unref().to_set() == self.hashes@.dom(),
                it.seq().no_duplicates(),
                done == it.seq().unref().take(it.index() as int),
                done.no_duplicates(),
                done.len() == it.seq().len() ==> done.to_set() == self.hashes@.dom(),
                out@ == hashes_text(done),
        {
            let h = bytes_of_key(*k);
            let digits = hex_encode16(&h);
            let dv = chars_of(digits.as_str());
            let ghost before = done;
            push_all(&mut out, &dv);
            out.push('\n');
            proof {
                done = done.push(*k);
                assert(done.drop_last() =~= before);
                assert(out@ =~= hashes_text(done));
                assert(done.len() == it.seq().len() ==> done =~= it.seq().unref());
            }
        }
        string_from_chars(&out)
    }
}

} // verus!
