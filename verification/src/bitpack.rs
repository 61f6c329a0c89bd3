use vstd::prelude::*;
use vstd::arithmetic::power2::pow2;
use vstd::arithmetic::power2::lemma_pow2_unfold;
use vstd::arithmetic::power2::lemma_pow2_strictly_increases;
use vstd::arithmetic::power2::lemma2_to64;
use vstd::arithmetic::div_mod::lemma_fundamental_div_mod;
use vstd::arithmetic::div_mod::lemma_fundamental_div_mod_converse;

verus! {

// ---------------------------------------------------------------------------
// The bit model.
//
// A byte sequence carries a bit stream: each byte contributes its eight bits
// most-significant first, and the bytes follow each other without padding.
// A field of width `w` occupies `w` consecutive bits of that stream, again
// most-significant first within the field's own run.
// ---------------------------------------------------------------------------

/// Bit `k` of byte `b`, where bit 0 is the most significant.
pub open spec fn byte_bit(b: u8, k: int) -> bool {
    (b >> ((7 - k) as u8)) & 1 == 1
}

/// The bit stream carried by a byte sequence.
pub open spec fn stream_bits(bytes: Seq<u8>) -> Seq<bool> {
    Seq::new(bytes.len() * 8, |i: int| byte_bit(bytes[i / 8], i % 8))
}

/// The `w` bits of the field run that encodes `v`, most significant first.
pub open spec fn bits_of_value(v: u64, w: nat) -> Seq<bool> {
    Seq::new(w, |j: int| (v >> ((w - 1 - j) as u64)) & 1 == 1)
}

/// The unsigned value carried by a bit run whose first bit is most
/// significant.
pub open spec fn value_of_bits(s: Seq<bool>) -> nat
    decreases s.len(),
{
    if s.len() == 0 {
        0
    } else {
        value_of_bits(s.drop_last()) * 2 + (if s.last() {
            1nat
        } else {
            0nat
        })
    }
}

/// A bit run of width `w` never carries a value of `pow2(w)` or more.
pub proof fn lemma_value_of_bits_bound(s: Seq<bool>)
    ensures
        value_of_bits(s) < pow2(s.len()),
    decreases s.len(),
{
    if s.len() == 0 {
        assert(pow2(0) == 1) by {
            lemma2_to64();
        }
    } else {
        lemma_value_of_bits_bound(s.drop_last());
        lemma_pow2_unfold(s.len());
    }
}

/// Packing a value of any width up to 64 bits and then unpacking the
/// resulting bit run returns the value unchanged: `value_of_bits` inverts
/// `bits_of_value` on every representable value.
pub proof fn lemma_pack_unpack_identity(v: u64, w: nat)
    requires
        w <= 64,
        v < pow2(w),
    ensures
        value_of_bits(bits_of_value(v, w)) == v,
    decreases w,
{
    if w == 0 {
        assert(pow2(0) == 1) by {
            lemma2_to64();
        }
        assert(bits_of_value(v, 0) =~= Seq::<bool>::empty());
    } else {
        let s = bits_of_value(v, w);
        let h = v >> 1u64;
        assert(v >> 1u64 == v / 2 && v == (v / 2) * 2 + (v & 1) && ((v & 1) == 0 || (v & 1)
            == 1)) by (bit_vector);
        lemma_pow2_unfold(w);
        assert(h < pow2((w - 1) as nat));
        assert(s.drop_last() =~= bits_of_value(h, (w - 1) as nat)) by {
            assert forall|j: int| 0 <= j < w - 1 implies s[j] == (((h >> ((w - 2 - j) as u64)) & 1)
                == 1) by {
                let k = (w - 2 - j) as u64;
                let k1 = (w - 1 - j) as u64;
                assert((v >> 1u64) >> k == v >> k1) by (bit_vector)
                    requires
                        k < 63u64 && k1 == (k + 1u64) as u64,
                ;
            }
        }
        lemma_pack_unpack_identity(h, (w - 1) as nat);
        assert(s.last() == ((v >> 0u64) & 1 == 1));
        assert(v >> 0u64 == v) by (bit_vector);
        assert(value_of_bits(s) == h * 2 + (v & 1));
    }
}

/// The bit stream of a prefix of a byte sequence is a prefix of the whole
/// sequence's bit stream.
pub proof fn lemma_stream_bits_prefix(a: Seq<u8>, b: Seq<u8>)
    requires
        a.len() <= b.len(),
        b.take(a.len() as int) =~= a,
    ensures
        stream_bits(b).take((a.len() * 8) as int) =~= stream_bits(a),
{
    assert forall|i: int| 0 <= i < a.len() * 8 implies stream_bits(b)[i] == stream_bits(a)[i] by {
        lemma_fundamental_div_mod(i, 8);
        assert(i / 8 < a.len());
        assert(b[i / 8] == a[i / 8]);
    }
}

// ---------------------------------------------------------------------------
// The bit writer: a growable bit cursor over a byte buffer.
// ---------------------------------------------------------------------------

/// A buffer of `(n + 7) / 8` bytes holds at least `n` bits.
pub proof fn lemma_nbits_le_bytes(n: int, l: int)
    requires
        0 <= n,
        l == (n + 7) / 8,
    ensures
        n <= l * 8 < n + 8,
{
    lemma_fundamental_div_mod_converse(n + 7, 8, (n + 7) / 8, (n + 7) % 8);
}

/// Accumulates a bit stream into bytes. Bits beyond the cursor are kept at
/// zero, so the byte buffer is at all times the stream plus zero padding up
/// to the next byte boundary.
pub struct BitWriter {
    bytes: Vec<u8>,
    nbits: usize,
}

impl BitWriter {
    /// The bit stream written so far.
    pub closed spec fn bits(self) -> Seq<bool> {
        stream_bits(self.bytes@).take(self.nbits as int)
    }

    pub closed spec fn wf(self) -> bool {
        &&& self.bytes@.len() == (self.nbits + 7) / 8
        &&& forall|i: int|
            self.nbits <= i < self.bytes@.len() * 8 ==> !stream_bits(self.bytes@)[i]
    }

    pub fn new() -> (w: BitWriter)
        ensures
            w.wf(),
            w.bits() =~= Seq::<bool>::empty(),
    {
        BitWriter { bytes: Vec::new(), nbits: 0 }
    }

    /// Appends one bit to the stream.
    pub fn push_bit(&mut self, b: bool)
        requires
            old(self).wf(),
            old(self).bits().len() < usize::MAX,
        ensures
            final(self).wf(),
            final(self).bits() =~= old(self).bits().push(b),
    {
        let ghost n = old(self).nbits as int;
        let ghost ob = old(self).bytes@;
        let k: usize = self.nbits % 8;
        if k == 0 {
            let c: u8 = if b {
                0x80
            } else {
                0
            };
            proof {
                lemma_fundamental_div_mod_converse(n, 8, n / 8, 0);
                lemma_fundamental_div_mod_converse(n + 7, 8, n / 8, 7);
                lemma_fundamental_div_mod_converse(n + 8, 8, n / 8 + 1, 0);
            }
            self.bytes.push(c);
            self.nbits = self.nbits + 1;
            proof {
                let nb = self.bytes@;
                assert(forall|sh: u8|
                    sh < 8 ==> #[trigger] ((0x80u8 >> sh) & 1) == (if sh == 7 {
                        1u8
                    } else {
                        0u8
                    })) by (bit_vector);
                assert(forall|sh: u8| sh < 8 ==> #[trigger] ((0u8 >> sh) & 1) == 0u8)
                    by (bit_vector);
                assert forall|i: int| 0 <= i < ob.len() * 8 implies stream_bits(nb)[i]
                    == stream_bits(ob)[i] by {
                    assert(i / 8 < ob.len() && nb[i / 8] == ob[i / 8]);
                }
                assert forall|j: int| 0 <= j < 8 implies #[trigger] stream_bits(nb)[n + j] == (j
                    == 0 && b) by {
                    lemma_fundamental_div_mod_converse(n + j, 8, ob.len() as int, j);
                    assert(nb[ob.len() as int] == c);
                    assert(byte_bit(c, j) == (j == 0 && b));
                }
                assert(final(self).bits() =~= old(self).bits().push(b));
            }
        } else {
            proof {
                lemma_fundamental_div_mod_converse(n, 8, n / 8, k as int);
                lemma_fundamental_div_mod_converse(n + 7, 8, n / 8 + 1, k - 1);
                lemma_fundamental_div_mod_converse(n + 8, 8, n / 8 + 1, k as int);
            }
            let idx: usize = self.bytes.len() - 1;
            if b {
                let obyte: u8 = self.bytes[idx];
                let nbyte: u8 = obyte | (0x80u8 >> (k as u8));
                self.bytes.set(idx, nbyte);
                proof {
                    let kk = k as u8;
                    assert(forall|sh: u8|
                        sh < 8 ==> #[trigger] ((obyte | (0x80u8 >> kk)) >> sh) & 1 == (if sh == (7
                            - kk) as u8 {
                            1u8
                        } else {
                            (obyte >> sh) & 1
                        })) by (bit_vector)
                        requires
                            kk < 8,
                    ;
                    let nb = self.bytes@;
                    assert forall|i: int| 0 <= i < nb.len() * 8 && i / 8 != idx implies stream_bits(
                        nb,
                    )[i] == stream_bits(ob)[i] by {
                        assert(nb[i / 8] == ob[i / 8]);
                    }
                    assert forall|j: int| 0 <= j < 8 implies #[trigger] stream_bits(nb)[idx * 8
                        + j] == (j == k || byte_bit(obyte, j)) by {
                        lemma_fundamental_div_mod_converse(idx * 8 + j, 8, idx as int, j);
                        assert(nb[idx as int] == nbyte);
                    }
                    assert forall|j: int| 0 <= j < 8 implies #[trigger] stream_bits(ob)[idx * 8
                        + j] == byte_bit(obyte, j) by {
                        lemma_fundamental_div_mod_converse(idx * 8 + j, 8, idx as int, j);
                        assert(ob[idx as int] == obyte);
                    }
                    assert(idx * 8 + k == n);
                }
            }
            self.nbits = self.nbits + 1;
            proof {
                assert(idx * 8 + k == n);
                assert forall|i: int| n < i < self.bytes@.len() * 8 implies !stream_bits(
                    self.bytes@,
                )[i] by {
                    if i / 8 == idx {
                        lemma_fundamental_div_mod_converse(i, 8, idx as int, i - idx * 8);
                        assert(!stream_bits(ob)[i]);
                    } else {
                        assert(!stream_bits(ob)[i]);
                    }
                }
                assert(stream_bits(self.bytes@)[n] == b);
                assert forall|i: int| 0 <= i < n implies stream_bits(self.bytes@)[i] == stream_bits(
                    ob,
                )[i] by {
                    if i / 8 == idx {
                        lemma_fundamental_div_mod_converse(i, 8, idx as int, i - idx * 8);
                    }
                }
                assert(final(self).bits() =~= old(self).bits().push(b));
            }
        }
    }

    /// Appends the `w`-bit field run that encodes `v`, most significant bit
    /// first.
    pub fn write_bits(&mut self, v: u64, w: usize)
        requires
            old(self).wf(),
            w <= 64,
            v < pow2(w as nat),
            old(self).bits().len() + w <= usize::MAX,
        ensures
            final(self).wf(),
            final(self).bits() =~= old(self).bits() + bits_of_value(v, w as nat),
    {
        let mut i: usize = 0;
        while i < w
            invariant
                self.wf(),
                i <= w <= 64,
                old(self).nbits + w <= usize::MAX,
                self.nbits == old(self).nbits + i,
                self.bits() =~= old(self).bits() + bits_of_value(v, w as nat).take(i as int),
            decreases w - i,
        {
            let sh: usize = w - 1 - i;
            let bit: bool = ((v >> (sh as u64)) & 1) == 1;
            proof {
                assert(bits_of_value(v, w as nat)[i as int] == bit);
                assert(bits_of_value(v, w as nat).take(i + 1) =~= bits_of_value(
                    v,
                    w as nat,
                ).take(i as int).push(bit));
            }
            self.push_bit(bit);
            i = i + 1;
        }
        proof {
            assert(bits_of_value(v, w as nat).take(w as int) =~= bits_of_value(v, w as nat));
        }
    }

    /// The number of bits written so far.
    pub fn bit_len(&self) -> (n: usize)
        requires
            self.wf(),
        ensures
            n == self.bits().len(),
    {
        proof {
            lemma_nbits_le_bytes(self.nbits as int, self.bytes@.len() as int);
        }
        self.nbits
    }

    /// Hands out the accumulated bytes: the bit stream padded with zero bits
    /// up to the next byte boundary.
    pub fn into_bytes(self) -> (r: Vec<u8>)
        requires
            self.wf(),
        ensures
            r@.len() == (self.bits().len() + 7) / 8,
            stream_bits(r@).take(self.bits().len() as int) =~= self.bits(),
            forall|i: int| self.bits().len() <= i < r@.len() * 8 ==> !stream_bits(r@)[i],
    {
        proof {
            lemma_nbits_le_bytes(self.nbits as int, self.bytes@.len() as int);
        }
        self.bytes
    }
}

// ---------------------------------------------------------------------------
// The bit reader: a forward cursor over a growable byte buffer.
// ---------------------------------------------------------------------------

/// Reads a bit stream out of bytes that are handed in chunk by chunk, so a
/// caller can pull bytes from its source only as the cursor needs them.
pub struct BitReader {
    bytes: Vec<u8>,
    pos: usize,
}

impl BitReader {
    /// The whole bit stream received so far.
    pub open spec fn bits(self) -> Seq<bool> {
        stream_bits(self.byte_seq())
    }

    /// The cursor: how many bits have been consumed.
    pub closed spec fn cursor(self) -> nat {
        self.pos as nat
    }

    /// The bytes received so far.
    pub closed spec fn byte_seq(self) -> Seq<u8> {
        self.bytes@
    }

    pub closed spec fn wf(self) -> bool {
        &&& self.pos <= self.bytes@.len() * 8
        &&& self.bytes@.len() * 8 <= usize::MAX
    }

    pub fn new() -> (r: BitReader)
        ensures
            r.wf(),
            r.byte_seq() =~= Seq::<u8>::empty(),
            r.cursor() == 0,
    {
        BitReader { bytes: Vec::new(), pos: 0 }
    }

    /// Feeds one more chunk of bytes to the stream.
    pub fn append_bytes(&mut self, chunk: &Vec<u8>)
        requires
            old(self).wf(),
            (old(self).byte_seq().len() + chunk@.len()) * 8 <= usize::MAX,
        ensures
            final(self).wf(),
            final(self).byte_seq() =~= old(self).byte_seq() + chunk@,
            final(self).cursor() == old(self).cursor(),
    {
        let mut j: usize = 0;
        while j < chunk.len()
            invariant
                j <= chunk@.len(),
                (old(self).byte_seq().len() + chunk@.len()) * 8 <= usize::MAX,
                self.bytes@ =~= old(self).bytes@ + chunk@.take(j as int),
                self.pos == old(self).pos,
                old(self).wf(),
            decreases chunk@.len() - j,
        {
            let b: u8 = chunk[j];
            self.bytes.push(b);
            proof {
                assert(chunk@.take(j + 1) =~= chunk@.take(j as int).push(b));
            }
            j = j + 1;
        }
        proof {
            assert(chunk@.take(chunk@.len() as int) =~= chunk@);
        }
    }

    /// How many bits remain between the cursor and the end of the received
    /// bytes.
    pub fn available(&self) -> (n: usize)
        requires
            self.wf(),
        ensures
            n == self.bits().len() - self.cursor(),
    {
        self.bytes.len() * 8 - self.pos
    }

    /// Reads the next `w` bits as one unsigned value, most significant bit
    /// first, and advances the cursor past them.
    pub fn read_bits(&mut self, w: usize) -> (r: u64)
        requires
            old(self).wf(),
            w <= 64,
            old(self).cursor() + w <= old(self).bits().len(),
        ensures
            final(self).wf(),
            final(self).byte_seq() =~= old(self).byte_seq(),
            final(self).cursor() == old(self).cursor() + w,
            r == value_of_bits(old(self).bits().subrange(
                old(self).cursor() as int,
                old(self).cursor() + w,
            )),
            r < pow2(w as nat),
    {
        let ghost run = old(self).bits().subrange(old(self).cursor() as int, old(self).cursor() + w);
        proof {
            lemma2_to64();
        }
        let mut r: u64 = 0;
        let mut i: usize = 0;
        while i < w
            invariant
                self.wf(),
                self.bytes@ =~= old(self).bytes@,
                i <= w <= 64,
                old(self).cursor() + w <= old(self).bits().len(),
                self.pos == old(self).pos + i,
                run =~= old(self).bits().subrange(old(self).cursor() as int, old(self).cursor() + w),
                r == value_of_bits(run.take(i as int)),
                r < pow2(i as nat),
            decreases w - i,
        {
            let byte: u8 = self.bytes[self.pos / 8];
            let sh: u8 = (7 - self.pos % 8) as u8;
            let bit: bool = ((byte >> sh) & 1) == 1;
            proof {
                assert(self.bits()[self.pos as int] == bit);
                assert(run[i as int] == bit);
                assert(run.take(i + 1).drop_last() =~= run.take(i as int));
                assert(run.take(i + 1).last() == bit);
                lemma_pow2_unfold((i + 1) as nat);
                if i + 1 < 64 {
                    lemma_pow2_strictly_increases((i + 1) as nat, 64);
                }
                lemma2_to64();
                assert(r * 2 + 1 < pow2((i + 1) as nat));
            }
            r = r * 2 + (if bit {
                1
            } else {
                0
            });
            self.pos = self.pos + 1;
            i = i + 1;
        }
        proof {
            assert(run.take(w as int) =~= run);
            if w < 64 {
                lemma_pow2_strictly_increases(w as nat, 64);
            }
        }
        r
    }
}

} // verus!
