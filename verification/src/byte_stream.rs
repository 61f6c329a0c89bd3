use vstd::prelude::*;
use vstd::arithmetic::div_mod::lemma_fundamental_div_mod;
use vstd::arithmetic::div_mod::lemma_fundamental_div_mod_converse;
use crate::checksum::checksum_range;
use crate::checksum::lemma_checksum_single_byte;
use crate::checksum::lemma_sum_bytes_zero_tail;
use crate::checksum::page_checksum;
use crate::checksum::u32_le_bytes;
use crate::error::Error;

verus! {

// ---------------------------------------------------------------------------
// The paged byte stream.
//
// The physical stream is a run of fixed-size pages. Each page holds a
// payload region followed by a trailing checksum over that payload alone.
// The payload regions of consecutive pages, with page boundaries erased,
// form the logical byte stream that the codec above reads and writes.
// ---------------------------------------------------------------------------

pub const PAGE_SIZE: usize = 1024;

pub const CHECKSUM_SIZE: usize = 4;

pub const PAYLOAD_SIZE: usize = 1020;

/// How many pages a physical stream holds.
pub open spec fn num_pages(phys: Seq<u8>) -> int {
    phys.len() as int / 1024
}

/// The payload region of page `p`.
pub open spec fn page_payload(phys: Seq<u8>, p: int) -> Seq<u8> {
    phys.subrange(p * 1024, p * 1024 + 1020)
}

/// The stored trailing checksum bytes of page `p`.
pub open spec fn page_stored_checksum(phys: Seq<u8>, p: int) -> Seq<u8> {
    phys.subrange(p * 1024 + 1020, p * 1024 + 1024)
}

/// Page `p` is intact: its stored checksum bytes equal the checksum
/// computed over its payload.
pub open spec fn page_valid(phys: Seq<u8>, p: int) -> bool {
    page_stored_checksum(phys, p) =~= u32_le_bytes(page_checksum(page_payload(phys, p)))
}

/// A whole number of pages, every one of them intact.
pub open spec fn well_formed_physical(phys: Seq<u8>) -> bool {
    &&& phys.len() % 1024 == 0
    &&& forall|p: int| 0 <= p < num_pages(phys) ==> page_valid(phys, p)
}

/// The logical byte stream: the payload regions of all pages, in order,
/// with the page boundaries erased.
pub open spec fn logical_of(phys: Seq<u8>) -> Seq<u8> {
    Seq::new((num_pages(phys) * 1020) as nat, |i: int| phys[(i / 1020) * 1024 + i % 1020])
}

/// A payload extended with zero bytes up to the next page boundary.
pub open spec fn padded_payload(payload: Seq<u8>) -> Seq<u8> {
    Seq::new(
        (((payload.len() + 1019) as int / 1020) * 1020) as nat,
        |i: int|
            if i < payload.len() {
                payload[i]
            } else {
                0u8
            },
    )
}

/// Two distinct checksums are never stored as the same four bytes.
pub proof fn lemma_u32_le_bytes_injective(c1: u32, c2: u32)
    requires
        u32_le_bytes(c1) =~= u32_le_bytes(c2),
    ensures
        c1 == c2,
{
    assert(u32_le_bytes(c1)[0] == u32_le_bytes(c2)[0]);
    assert(u32_le_bytes(c1)[1] == u32_le_bytes(c2)[1]);
    assert(u32_le_bytes(c1)[2] == u32_le_bytes(c2)[2]);
    assert(u32_le_bytes(c1)[3] == u32_le_bytes(c2)[3]);
    assert((((c1 & 0xff) as u8) == ((c2 & 0xff) as u8) && (((c1 >> 8u32) & 0xff) as u8) == (((c2
        >> 8u32) & 0xff) as u8) && (((c1 >> 16u32) & 0xff) as u8) == (((c2 >> 16u32) & 0xff) as u8)
        && (((c1 >> 24u32) & 0xff) as u8) == (((c2 >> 24u32) & 0xff) as u8)) ==> c1 == c2)
        by (bit_vector);
}

/// Corrupting any single byte of an intact page leaves that page no longer
/// valid, and leaves the validity of every other page unchanged.
pub proof fn lemma_corruption_detected(phys: Seq<u8>, i: int, b: u8)
    requires
        phys.len() % 1024 == 0,
        0 <= i < phys.len(),
        b != phys[i],
        page_valid(phys, i / 1024),
    ensures
        !page_valid(phys.update(i, b), i / 1024),
        forall|q: int|
            0 <= q < num_pages(phys) && q != i / 1024 ==> page_valid(phys.update(i, b), q)
                == page_valid(phys, q),
{
    let p = i / 1024;
    let r = i % 1024;
    let t = phys.update(i, b);
    lemma_fundamental_div_mod(i, 1024);
    if r < 1020 {
        assert(page_payload(t, p) =~= page_payload(phys, p).update(r, b));
        assert(page_stored_checksum(t, p) =~= page_stored_checksum(phys, p));
        lemma_checksum_single_byte(page_payload(phys, p), r, b);
        if page_valid(t, p) {
            lemma_u32_le_bytes_injective(
                page_checksum(page_payload(phys, p)),
                page_checksum(page_payload(t, p)),
            );
        }
    } else {
        assert(page_payload(t, p) =~= page_payload(phys, p));
        assert(page_stored_checksum(t, p)[r - 1020] != page_stored_checksum(phys, p)[r - 1020]);
    }
    assert forall|q: int| 0 <= q < num_pages(phys) && q != p implies page_valid(t, q) == page_valid(
        phys,
        q,
    ) by {
        assert(page_payload(t, q) =~= page_payload(phys, q));
        assert(page_stored_checksum(t, q) =~= page_stored_checksum(phys, q));
    }
}

/// Accumulates the logical byte stream and emits it as checksummed pages.
/// Payload collects in a page-sized buffer; every full buffer leaves at
/// once as a completed page, and the final partial buffer, zero-padded to a
/// full page, leaves when the stream is finished.
pub struct PagedWriter {
    phys: Vec<u8>,
    buf: Vec<u8>,
}

impl PagedWriter {
    /// The logical payload bytes written so far.
    pub closed spec fn payload(self) -> Seq<u8> {
        logical_of(self.phys@) + self.buf@
    }

    pub closed spec fn wf(self) -> bool {
        &&& self.phys@.len() % 1024 == 0
        &&& forall|p: int| 0 <= p < num_pages(self.phys@) ==> page_valid(self.phys@, p)
        &&& self.buf@.len() < 1020
    }

    pub fn new() -> (w: PagedWriter)
        ensures
            w.wf(),
            w.payload() =~= Seq::<u8>::empty(),
    {
        let w = PagedWriter { phys: Vec::new(), buf: Vec::new() };
        proof {
            assert(logical_of(w.phys@) =~= Seq::<u8>::empty());
        }
        w
    }

    /// Emits the buffered payload, zero-padded to a full page, as one
    /// completed page with its trailing checksum.
    fn emit_page(&mut self)
        requires
            old(self).phys@.len() % 1024 == 0,
            forall|p: int| 0 <= p < num_pages(old(self).phys@) ==> page_valid(old(self).phys@, p),
            0 < old(self).buf@.len() <= 1020,
            old(self).phys@.len() + 1024 <= usize::MAX,
        ensures
            final(self).wf(),
            final(self).buf@ =~= Seq::<u8>::empty(),
            final(self).phys@.len() == old(self).phys@.len() + 1024,
            num_pages(final(self).phys@) == num_pages(old(self).phys@) + 1,
            logical_of(final(self).phys@) =~= logical_of(old(self).phys@) + old(self).buf@
                + Seq::new((1020 - old(self).buf@.len()) as nat, |i: int| 0u8),
    {
        let ghost old_phys = self.phys@;
        let ghost old_buf = self.buf@;
        let ghost p = num_pages(old_phys);
        proof {
            lemma_fundamental_div_mod(old_phys.len() as int, 1024);
            assert(old_phys.len() == p * 1024);
        }
        let blen: usize = self.buf.len();
        let c: u32 = checksum_range(&self.buf, 0, blen);
        while self.buf.len() < 1020
            invariant
                old_buf.len() <= self.buf@.len() <= 1020,
                self.buf@.take(old_buf.len() as int) =~= old_buf,
                forall|i: int| old_buf.len() <= i < self.buf@.len() ==> self.buf@[i] == 0,
                self.phys@ =~= old_phys,
            decreases 1020 - self.buf@.len(),
        {
            self.buf.push(0);
        }
        let ghost pay = self.buf@;
        proof {
            assert(old_buf =~= old_buf.subrange(0, old_buf.len() as int));
            lemma_sum_bytes_zero_tail(old_buf, pay);
            assert(page_checksum(pay) == c);
        }
        self.phys.append(&mut self.buf);
        self.phys.push((c & 0xff) as u8);
        self.phys.push(((c >> 8u32) & 0xff) as u8);
        self.phys.push(((c >> 16u32) & 0xff) as u8);
        self.phys.push(((c >> 24u32) & 0xff) as u8);
        proof {
            let np = self.phys@;
            assert(np.len() == (p + 1) * 1024);
            assert(np.subrange(p * 1024, p * 1024 + 1020) =~= pay);
            assert(np.subrange(p * 1024 + 1020, p * 1024 + 1024) =~= u32_le_bytes(c));
            lemma_fundamental_div_mod_converse(np.len() as int, 1024, p + 1, 0);
            assert forall|q: int| 0 <= q < p + 1 implies page_valid(np, q) by {
                if q < p {
                    assert(page_valid(old_phys, q));
                    assert(page_payload(np, q) =~= page_payload(old_phys, q));
                    assert(page_stored_checksum(np, q) =~= page_stored_checksum(old_phys, q));
                    assert(page_valid(np, q));
                } else {
                    assert(page_payload(np, q) =~= pay);
                    assert(page_stored_checksum(np, q) =~= u32_le_bytes(c));
                    assert(page_valid(np, q));
                }
            }
            assert(logical_of(np) =~= logical_of(old_phys) + pay) by {
                assert forall|i: int| 0 <= i < (p + 1) * 1020 implies logical_of(np)[i]
                    == (logical_of(old_phys) + pay)[i] by {
                    lemma_fundamental_div_mod(i, 1020);
                    let q = i / 1020;
                    let r = i % 1020;
                    if q < p {
                        assert(np[q * 1024 + r] == old_phys[q * 1024 + r]);
                        assert(logical_of(old_phys)[i] == old_phys[q * 1024 + r]);
                    } else {
                        assert(q == p);
                        assert(np[q * 1024 + r] == pay[r]);
                    }
                }
            }
            assert(pay =~= old_buf + Seq::new((1020 - old_buf.len()) as nat, |i: int| 0u8));
        }
    }

    /// Appends payload bytes to the logical stream. Every page-sized run of
    /// buffered payload is checksummed and appended as a completed page as
    /// soon as it is full.
    pub fn write_all(&mut self, bytes: &Vec<u8>)
        requires
            old(self).wf(),
            ((old(self).payload().len() + bytes@.len() + 1019) / 1020) * 1024 <= usize::MAX,
        ensures
            final(self).wf(),
            final(self).payload() =~= old(self).payload() + bytes@,
    {
        let ghost total = old(self).payload().len() + bytes@.len();
        let blen: usize = bytes.len();
        let mut i: usize = 0;
        while i < blen
            invariant
                i <= blen == bytes@.len(),
                self.wf(),
                total == old(self).payload().len() + blen,
                ((total + 1019) / 1020) * 1024 <= usize::MAX,
                self.payload().len() == old(self).payload().len() + i,
                self.payload().len() <= total,
                self.payload() =~= old(self).payload() + bytes@.take(i as int),
            decreases blen - i,
        {
            let b: u8 = bytes[i];
            let ghost before = self.payload();
            self.buf.push(b);
            proof {
                assert(self.payload() =~= before.push(b));
                assert(before.push(b) =~= old(self).payload() + bytes@.take(i + 1));
            }
            if self.buf.len() == 1020 {
                proof {
                    let np = num_pages(self.phys@);
                    lemma_fundamental_div_mod(self.phys@.len() as int, 1024);
                    assert(self.phys@.len() == np * 1024);
                    assert(logical_of(self.phys@).len() == np * 1020);
                    assert((np + 1) * 1020 == self.payload().len());
                    assert(np + 1 <= (total + 1019) / 1020) by {
                        lemma_fundamental_div_mod((total + 1019) as int, 1020);
                    }
                    assert((np + 1) * 1024 <= ((total + 1019) / 1020) * 1024) by (nonlinear_arith)
                        requires
                            np + 1 <= (total + 1019) as int / 1020,
                    ;
                }
                let ghost before_emit = self.payload();
                self.emit_page();
                proof {
                    assert(self.payload() =~= before_emit);
                }
            }
            i = i + 1;
        }
        proof {
            assert(bytes@.take(blen as int) =~= bytes@);
        }
    }

    /// Ends the stream: a final partial buffer leaves as a zero-padded,
    /// checksummed page, and the completed physical page run is handed
    /// over.
    pub fn finish(self) -> (phys: Vec<u8>)
        requires
            self.wf(),
            ((self.payload().len() + 1019) / 1020) * 1024 <= usize::MAX,
        ensures
            well_formed_physical(phys@),
            logical_of(phys@) =~= padded_payload(self.payload()),
            num_pages(phys@) == (self.payload().len() + 1019) as int / 1020,
    {
        let ghost pl = self.payload();
        let mut w = self;
        let ghost p = num_pages(w.phys@);
        proof {
            lemma_fundamental_div_mod(w.phys@.len() as int, 1024);
            assert(w.phys@.len() == p * 1024);
            assert(logical_of(w.phys@).len() == p * 1020);
        }
        if w.buf.len() > 0 {
            proof {
                assert(p * 1020 < pl.len());
                assert(p + 1 <= (pl.len() + 1019) as int / 1020) by {
                    lemma_fundamental_div_mod((pl.len() + 1019) as int, 1020);
                }
                assert((p + 1) * 1024 <= ((pl.len() + 1019) as int / 1020) * 1024)
                    by (nonlinear_arith)
                    requires
                        p + 1 <= (pl.len() + 1019) as int / 1020,
                ;
            }
            w.emit_page();
            proof {
                assert((pl.len() + 1019) as int / 1020 == p + 1) by {
                    lemma_fundamental_div_mod_converse(
                        pl.len() + 1019 as int,
                        1020,
                        p + 1,
                        pl.len() - p * 1020 - 1,
                    );
                }
                assert(padded_payload(pl).len() == (p + 1) * 1020);
                assert(logical_of(w.phys@) =~= padded_payload(pl));
            }
        } else {
            proof {
                assert(pl =~= logical_of(w.phys@));
                assert((pl.len() + 1019) as int / 1020 == p) by {
                    lemma_fundamental_div_mod_converse(pl.len() + 1019 as int, 1020, p, 1019);
                }
                assert(padded_payload(pl) =~= pl);
            }
        }
        w.phys
    }
}

// ---------------------------------------------------------------------------
// The paged reader.
// ---------------------------------------------------------------------------

/// The pages that a read of `n` logical bytes starting at `pos` touches.
pub open spec fn touches_page(pos: int, n: int, p: int) -> bool {
    n > 0 && pos / 1020 <= p <= (pos + n - 1) / 1020
}

/// Reads the logical byte stream out of a physical page run, recomputing
/// and checking the checksum of every page it touches before handing any of
/// that page's payload out. The stream owns the physical bytes for the
/// duration of the session; the declared logical length bounds what may be
/// read.
pub struct PagedReader {
    phys: Vec<u8>,
    logical_len: usize,
    pos: usize,
}

impl PagedReader {
    /// The physical bytes the reader was given.
    pub closed spec fn phys_seq(self) -> Seq<u8> {
        self.phys@
    }

    /// The declared logical length of the section.
    pub closed spec fn logical_len(self) -> nat {
        self.logical_len as nat
    }

    /// The read cursor in the logical stream.
    pub closed spec fn cursor(self) -> nat {
        self.pos as nat
    }

    pub open spec fn wf(self) -> bool {
        &&& self.phys_seq().len() % 1024 == 0
        &&& self.logical_len() <= num_pages(self.phys_seq()) * 1020
        &&& self.cursor() <= self.logical_len()
    }

    /// Takes ownership of a physical page run whose declared logical length
    /// is `logical_len`. Fails with a truncation error when the bytes do not
    /// form a whole number of pages or hold less payload than declared.
    pub fn new(phys: Vec<u8>, logical_len: usize) -> (r: Result<PagedReader, Error>)
        ensures
            match r {
                Ok(pr) => {
                    &&& phys@.len() % 1024 == 0
                    &&& logical_len <= num_pages(phys@) * 1020
                    &&& pr.wf()
                    &&& pr.phys_seq() =~= phys@
                    &&& pr.logical_len() == logical_len
                    &&& pr.cursor() == 0
                },
                Err(e) => {
                    &&& e == Error::TruncatedSection
                    &&& !(phys@.len() % 1024 == 0 && logical_len <= num_pages(phys@) * 1020)
                },
            },
    {
        let plen: usize = phys.len();
        if plen % 1024 != 0 {
            return Err(Error::TruncatedSection);
        }
        let npages: usize = plen / 1024;
        proof {
            lemma_fundamental_div_mod(plen as int, 1024);
            assert(npages * 1024 <= plen);
        }
        let cap: usize = npages * 1020;
        if logical_len > cap {
            return Err(Error::TruncatedSection);
        }
        Ok(PagedReader { phys, logical_len, pos: 0 })
    }

    /// How many logical bytes remain before the declared end.
    pub fn remaining(&self) -> (n: usize)
        requires
            self.wf(),
        ensures
            n == self.logical_len() - self.cursor(),
    {
        self.logical_len - self.pos
    }

    /// Reads the next `n` logical bytes. Every page touched is checked
    /// against its stored checksum first; the first mismatch aborts the read
    /// with the index of the offending page and moves nothing. Asking for
    /// more bytes than the declared length still holds is a truncation
    /// error, never a short read.
    pub fn read(&mut self, n: usize) -> (r: Result<Vec<u8>, Error>)
        requires
            old(self).wf(),
        ensures
            final(self).wf(),
            final(self).phys_seq() =~= old(self).phys_seq(),
            final(self).logical_len() == old(self).logical_len(),
            match r {
                Ok(out) => {
                    &&& old(self).cursor() + n <= old(self).logical_len()
                    &&& final(self).cursor() == old(self).cursor() + n
                    &&& out@ =~= logical_of(old(self).phys_seq()).subrange(
                        old(self).cursor() as int,
                        old(self).cursor() + n,
                    )
                    &&& forall|p: int|
                        touches_page(old(self).cursor() as int, n as int, p) ==> page_valid(
                            old(self).phys_seq(),
                            p,
                        )
                },
                Err(Error::ChecksumMismatch { page }) => {
                    &&& final(self).cursor() == old(self).cursor()
                    &&& old(self).cursor() + n <= old(self).logical_len()
                    &&& touches_page(old(self).cursor() as int, n as int, page as int)
                    &&& !page_valid(old(self).phys_seq(), page as int)
                    &&& forall|q: int|
                        touches_page(old(self).cursor() as int, n as int, q) && q < page
                            ==> page_valid(old(self).phys_seq(), q)
                },
                Err(Error::TruncatedSection) => {
                    &&& final(self).cursor() == old(self).cursor()
                    &&& old(self).cursor() + n > old(self).logical_len()
                },
                Err(_) => false,
            },
    {
        let ghost phys = self.phys@;
        let ghost pos0 = self.pos as int;
        if n == 0 {
            proof {
                assert(Seq::<u8>::empty() =~= logical_of(phys).subrange(pos0, pos0));
            }
            return Ok(Vec::new());
        }
        if n > self.logical_len - self.pos {
            return Err(Error::TruncatedSection);
        }
        let ghost npages = num_pages(phys);
        let phys_len: usize = self.phys.len();
        proof {
            lemma_fundamental_div_mod(phys.len() as int, 1024);
            assert(phys.len() == npages * 1024);
        }
        let first: usize = self.pos / 1020;
        let last: usize = (self.pos + n - 1) / 1020;
        proof {
            lemma_fundamental_div_mod(pos0 + n - 1, 1020);
            if last >= npages {
                assert(pos0 + n - 1 >= npages * 1020);
            }
            lemma_fundamental_div_mod(pos0, 1020);
        }
        let mut p: usize = first;
        while p <= last
            invariant
                first <= p <= last + 1,
                last < npages,
                npages == num_pages(phys),
                phys =~= self.phys@,
                phys.len() == npages * 1024 == phys_len,
                self.pos == pos0,
                first == pos0 / 1020,
                last == (pos0 + n - 1) / 1020,
                n >= 1,
                pos0 + n <= self.logical_len,
                self.wf(),
                forall|q: int| first <= q < p ==> page_valid(phys, q),
            decreases last + 1 - p,
        {
            let c: u32 = checksum_range(&self.phys, p * 1024, 1020);
            let b0: u8 = self.phys[p * 1024 + 1020];
            let b1: u8 = self.phys[p * 1024 + 1021];
            let b2: u8 = self.phys[p * 1024 + 1022];
            let b3: u8 = self.phys[p * 1024 + 1023];
            let ok: bool = b0 == (c & 0xff) as u8 && b1 == ((c >> 8u32) & 0xff) as u8 && b2 == ((c
                >> 16u32) & 0xff) as u8 && b3 == ((c >> 24u32) & 0xff) as u8;
            proof {
                assert(page_payload(phys, p as int) =~= phys.subrange(
                    p * 1024,
                    p * 1024 + 1020,
                ));
                assert(page_stored_checksum(phys, p as int) =~= seq![b0, b1, b2, b3]);
                if ok {
                    assert(page_stored_checksum(phys, p as int) =~= u32_le_bytes(c));
                } else {
                    assert(!(page_stored_checksum(phys, p as int) =~= u32_le_bytes(c)));
                }
            }
            if !ok {
                return Err(Error::ChecksumMismatch { page: p });
            }
            p = p + 1;
        }
        let mut out: Vec<u8> = Vec::new();
        let mut i: usize = 0;
        while i < n
            invariant
                i <= n,
                n >= 1,
                phys =~= self.phys@,
                phys.len() == npages * 1024 == phys_len,
                npages == num_pages(phys),
                self.pos == pos0,
                pos0 + n <= self.logical_len,
                first == pos0 / 1020,
                last == (pos0 + n - 1) / 1020,
                last < npages,
                self.wf(),
                out@ =~= logical_of(phys).subrange(pos0, pos0 + i),
            decreases n - i,
        {
            let li: usize = self.pos + i;
            proof {
                lemma_fundamental_div_mod(li as int, 1020);
                if li as int / 1020 >= npages {
                    assert(li >= npages * 1020);
                }
                assert(logical_of(phys)[li as int] == phys[(li as int / 1020) * 1024 + li as int
                    % 1020]);
                assert(out@.push(phys[(li as int / 1020) * 1024 + li as int % 1020])
                    =~= logical_of(phys).subrange(pos0, pos0 + i + 1));
            }
            let b: u8 = self.phys[(li / 1020) * 1024 + li % 1020];
            out.push(b);
            i = i + 1;
        }
        self.pos = self.pos + n;
        Ok(out)
    }
}

} // verus!
