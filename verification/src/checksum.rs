use vstd::prelude::*;

verus! {

// ---------------------------------------------------------------------------
// The page checksum: a 32-bit modular sum over the payload bytes, stored as
// four little-endian bytes after the payload. A sum over at most one page of
// payload never reaches the modulus, so any change to a single payload byte
// changes the checksum.
// ---------------------------------------------------------------------------

/// The sum of a byte sequence as an unbounded natural number.
pub open spec fn sum_bytes(s: Seq<u8>) -> nat
    decreases s.len(),
{
    if s.len() == 0 {
        0
    } else {
        sum_bytes(s.drop_last()) + s.last() as nat
    }
}

/// The checksum of a page payload.
pub open spec fn page_checksum(payload: Seq<u8>) -> u32 {
    (sum_bytes(payload) % 0x1_0000_0000) as u32
}

/// The four little-endian bytes that store a checksum.
pub open spec fn u32_le_bytes(c: u32) -> Seq<u8> {
    seq![
        (c & 0xff) as u8,
        ((c >> 8u32) & 0xff) as u8,
        ((c >> 16u32) & 0xff) as u8,
        ((c >> 24u32) & 0xff) as u8,
    ]
}

/// A byte sum is bounded by the length times the largest byte.
pub proof fn lemma_sum_bytes_bound(s: Seq<u8>)
    ensures
        sum_bytes(s) <= s.len() * 255,
    decreases s.len(),
{
    if s.len() > 0 {
        lemma_sum_bytes_bound(s.drop_last());
    }
}

/// Zero bytes at the tail leave the sum unchanged.
pub proof fn lemma_sum_bytes_zero_tail(s: Seq<u8>, t: Seq<u8>)
    requires
        s.len() <= t.len(),
        t.take(s.len() as int) =~= s,
        forall|i: int| s.len() <= i < t.len() ==> t[i] == 0,
    ensures
        sum_bytes(t) == sum_bytes(s),
    decreases t.len(),
{
    if t.len() > s.len() {
        assert(t.drop_last().take(s.len() as int) =~= s);
        lemma_sum_bytes_zero_tail(s, t.drop_last());
    } else {
        assert(t =~= s);
    }
}

/// Replacing the byte at one position moves the sum by exactly the
/// difference of the bytes.
pub proof fn lemma_sum_bytes_update(s: Seq<u8>, i: int, b: u8)
    requires
        0 <= i < s.len(),
    ensures
        sum_bytes(s.update(i, b)) + s[i] == sum_bytes(s) + b,
    decreases s.len(),
{
    let t = s.update(i, b);
    if i == s.len() - 1 {
        assert(t.drop_last() =~= s.drop_last());
    } else {
        assert(t.drop_last() =~= s.drop_last().update(i, b));
        assert(t.last() == s.last());
        lemma_sum_bytes_update(s.drop_last(), i, b);
    }
}

/// Corrupting any single byte of a payload no longer than a page changes its
/// checksum.
pub proof fn lemma_checksum_single_byte(s: Seq<u8>, i: int, b: u8)
    requires
        s.len() <= 1020,
        0 <= i < s.len(),
        b != s[i],
    ensures
        page_checksum(s.update(i, b)) != page_checksum(s),
{
    lemma_sum_bytes_bound(s);
    lemma_sum_bytes_bound(s.update(i, b));
    lemma_sum_bytes_update(s, i, b);
}

/// Computes the checksum of `bytes[start..start + len]`.
pub fn checksum_range(bytes: &Vec<u8>, start: usize, len: usize) -> (c: u32)
    requires
        len <= 1020,
        start + len <= bytes@.len(),
    ensures
        c == page_checksum(bytes@.subrange(start as int, start + len)),
{
    let ghost s = bytes@.subrange(start as int, start + len);
    let blen: usize = bytes.len();
    let mut acc: u32 = 0;
    let mut j: usize = 0;
    while j < len
        invariant
            j <= len <= 1020,
            start + len <= blen == bytes@.len(),
            s =~= bytes@.subrange(start as int, start + len),
            acc == sum_bytes(s.take(j as int)),
            acc <= j * 255,
        decreases len - j,
    {
        let b: u8 = bytes[start + j];
        proof {
            assert(s.take(j + 1).drop_last() =~= s.take(j as int));
            assert(s.take(j + 1).last() == s[j as int]);
            assert(s[j as int] == bytes@[start + j]);
        }
        acc = acc + (b as u32);
        j = j + 1;
    }
    proof {
        assert(s.take(len as int) =~= s);
        lemma_sum_bytes_bound(s);
    }
    acc
}

} // verus!
