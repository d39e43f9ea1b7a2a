//! The decisions that the commands make between their outside steps: what
//! identifies a file's content, and when a cached entry can stand in for a
//! fresh probe.

use vstd::prelude::*;

verus! {

/// What BLAKE3 gives for an input: its 32-byte digest. The algorithm takes
/// pages, so the result is named.
pub uninterp spec fn blake3_hash(input: Seq<u8>) -> Seq<u8>;

/// `blake3::hash` and `Hash::as_bytes`. Trusted: the result is the
/// `blake3_hash` of the input; nothing more is claimed of it.
#[verifier::external_body]
fn blake3_digest(input: &[u8]) -> (res: [u8; 32])
    ensures
        res@ == blake3_hash(input@),
{
    *blake3::hash(input).as_bytes()
}

/// How many leading bytes of a file its hash covers.
pub open spec fn hashed_prefix_len() -> nat {
    16384
}

/// The content hash of a file: the first 16 bytes of the BLAKE3 digest of
/// its first 16 KiB (all of it when it is shorter).
pub open spec fn content_hash_spec(data: Seq<u8>) -> Seq<u8> {
    let n = if data.len() < hashed_prefix_len() {
        data.len()
    } else {
        hashed_prefix_len()
    };
    blake3_hash(data.take(n as int)).take(16)
}

/// The content hash of the bytes of a file.
pub fn content_hash(data: &[u8]) -> (res: [u8; 16])
    ensures
        res@ == content_hash_spec(data@),
{
    let n: usize = if data.len() < 16384 {
        data.len()
    } else {
        16384
    };
    let mut limited: Vec<u8> = Vec::new();
    let mut i: usize = 0;
    while i < n
        invariant
            n <= data@.len(),
            i <= n,
            limited@ == data@.take(i as int),
        decreases n - i,
    {
        limited.push(data[i]);
        i += 1;
    }
    let d = blake3_digest(limited.as_slice());
    let res: [u8; 16] = [
        d[0],
        d[1],
        d[2],
        d[3],
        d[4],
        d[5],
        d[6],
        d[7],
        d[8],
        d[9],
        d[10],
        d[11],
        d[12],
        d[13],
        d[14],
        d[15],
    ];
    assert(res@ =~= d@.take(16));
    res
}

/// Law: the content hash depends on the first 16 KiB of a file alone; two
/// files that agree there (and are both that long, or equal) share it.
pub proof fn lemma_hash_reads_prefix(a: Seq<u8>, b: Seq<u8>)
    requires
        a.len() >= hashed_prefix_len(),
        b.len() >= hashed_prefix_len(),
        a.take(hashed_prefix_len() as int) == b.take(hashed_prefix_len() as int),
    ensures
        content_hash_spec(a) == content_hash_spec(b),
{
}

/// Whether a scan may reuse a cache entry: there is one (`Some((stale,
/// no_ocr))`), its file has not changed, and when OCR is asked for it
/// holds OCR results.
pub open spec fn cache_usable(entry: Option<(bool, bool)>, with_ocr: bool) -> bool {
    match entry {
        Some((stale, no_ocr)) => !stale && !(with_ocr && no_ocr),
        None => false,
    }
}

/// Decides whether a scan may reuse a cache entry, given whether there is
/// one, whether it is stale, and whether it lacks OCR results.
pub fn cache_entry_usable(entry: Option<(bool, bool)>, with_ocr: bool) -> (res: bool)
    ensures
        res == cache_usable(entry, with_ocr),
{
    match entry {
        Some((stale, no_ocr)) => {
            if stale {
                false
            } else if with_ocr && no_ocr {
                false
            } else {
                true
            }
        },
        None => false,
    }
}

} // verus!
