use vstd::prelude::*;
use vstd::arithmetic::div_mod::lemma_fundamental_div_mod;
use crate::bitpack::BitReader;
use crate::bitpack::lemma_stream_bits_prefix;
use crate::bitpack::stream_bits;
use crate::byte_stream::PagedReader;
use crate::byte_stream::logical_of;
use crate::byte_stream::num_pages;
use crate::byte_stream::page_valid;
use crate::comp_vector::SectionDescriptor;
use crate::comp_vector::lemma_row_width_take_le;
use crate::comp_vector::lemma_row_width_take_succ;
use crate::comp_vector::proto_valid;
use crate::comp_vector::row_width;
use crate::comp_vector::spec_decode_row;
use crate::comp_vector::spec_decode_row_prefix;
use crate::comp_vector::spec_decode_rows;
use crate::error::Error;
use crate::record::Record;
use crate::record::RecordType;
use crate::record::RecordValue;
use crate::record::type_valid;
use crate::record::value_from_raw;

verus! {

// ---------------------------------------------------------------------------
// The point cloud iterator: a forward-only, lazy pass that pulls pages from
// the checksummed stream only as the next row needs their bits, and decodes
// one row per pull. An error of any kind ends the sequence; pulling after
// the declared row count, or after an error, yields no further element.
// ---------------------------------------------------------------------------

/// The bit stream of a whole section: the bits of its declared logical
/// bytes.
pub open spec fn section_bits(phys: Seq<u8>, logical_len: int) -> Seq<bool> {
    stream_bits(logical_of(phys).take(logical_len))
}

/// Whether the row whose run starts at index `i` fails to decode.
pub open spec fn row_at_fails(bits: Seq<bool>, proto: Seq<Record>, i: int) -> bool {
    spec_decode_row(bits, proto, i * row_width(proto)) is None
}

/// Once a field fails to decode, the whole row fails to decode.
proof fn lemma_row_prefix_none(bits: Seq<bool>, proto: Seq<Record>, pos: int, j: int)
    requires
        0 <= j <= proto.len(),
        spec_decode_row_prefix(bits, proto, pos, j) is None,
    ensures
        spec_decode_row(bits, proto, pos) is None,
    decreases proto.len() - j,
{
    if j < proto.len() {
        lemma_row_prefix_none(bits, proto, pos, j + 1);
    }
}

pub struct PointCloudIterator {
    reader: PagedReader,
    bits: BitReader,
    proto: Vec<Record>,
    row_w: usize,
    total: u64,
    yielded: u64,
    failed: bool,
}

impl PointCloudIterator {
    /// The prototype the iterator decodes against.
    pub closed spec fn prototype(self) -> Seq<Record> {
        self.proto@
    }

    /// The physical bytes of the section.
    pub closed spec fn phys(self) -> Seq<u8> {
        self.reader.phys_seq()
    }

    /// The declared logical byte length of the section.
    pub closed spec fn llen(self) -> nat {
        self.reader.logical_len()
    }

    /// The declared row count of the section.
    pub closed spec fn total(self) -> nat {
        self.total as nat
    }

    /// How many rows have been yielded so far.
    pub closed spec fn yielded(self) -> nat {
        self.yielded as nat
    }

    /// Whether an earlier pull failed; a failed iterator yields nothing
    /// more.
    pub closed spec fn failed(self) -> bool {
        self.failed
    }

    pub closed spec fn wf(self) -> bool {
        &&& proto_valid(self.proto@)
        &&& self.row_w == row_width(self.proto@)
        &&& self.reader.wf()
        &&& self.llen() * 8 <= usize::MAX
        &&& self.bits.wf()
        &&& self.bits.byte_seq() =~= logical_of(self.reader.phys_seq()).subrange(
            0,
            self.reader.cursor() as int,
        )
        &&& self.reader.cursor() <= self.llen()
        &&& self.yielded <= self.total
        &&& (!self.failed ==> self.bits.cursor() == self.yielded * row_width(self.proto@))
    }

    /// Opens a decode pass over one section: the physical pages, the
    /// prototype, and the section descriptor the metadata layer supplied.
    pub fn new(phys: Vec<u8>, proto: Vec<Record>, desc: &SectionDescriptor) -> (r: Result<
        PointCloudIterator,
        Error,
    >)
        requires
            row_width(proto@) <= usize::MAX,
            desc.logical_length * 8 <= usize::MAX,
        ensures
            match r {
                Ok(it) => {
                    &&& proto_valid(proto@)
                    &&& it.wf()
                    &&& it.prototype() =~= proto@
                    &&& it.phys() =~= phys@
                    &&& it.llen() == desc.logical_length
                    &&& it.total() == desc.record_count
                    &&& it.yielded() == 0
                    &&& !it.failed()
                    &&& phys@.len() % 1024 == 0
                    &&& desc.logical_length <= num_pages(phys@) * 1020
                },
                Err(e) => {
                    ||| (e == Error::InvalidFieldDescriptor && !proto_valid(proto@))
                    ||| (e == Error::TruncatedSection && !(phys@.len() % 1024 == 0
                        && desc.logical_length <= num_pages(phys@) * 1020))
                },
            },
    {
        let mut j: usize = 0;
        while j < proto.len()
            invariant
                j <= proto@.len(),
                forall|jj: int| 0 <= jj < j ==> type_valid(#[trigger] proto@[jj].data_type),
            decreases proto@.len() - j,
        {
            let t: RecordType = proto[j].data_type;
            match t.validate() {
                Ok(()) => {
                },
                Err(e) => {
                    return Err(e);
                },
            }
            j = j + 1;
        }
        let mut row_w: usize = 0;
        let mut k: usize = 0;
        while k < proto.len()
            invariant
                k <= proto@.len(),
                proto_valid(proto@),
                row_width(proto@) <= usize::MAX,
                row_w == row_width(proto@.take(k as int)),
            decreases proto@.len() - k,
        {
            let t: RecordType = proto[k].data_type;
            proof {
                lemma_row_width_take_succ(proto@, k as int);
                lemma_row_width_take_le(proto@, k + 1);
            }
            row_w = row_w + t.width();
            k = k + 1;
        }
        proof {
            assert(proto@.take(proto@.len() as int) =~= proto@);
        }
        let ll: usize = desc.logical_length as usize;
        let reader = match PagedReader::new(phys, ll) {
            Ok(pr) => pr,
            Err(e) => {
                return Err(e);
            },
        };
        Ok(
            PointCloudIterator {
                reader,
                bits: BitReader::new(),
                proto,
                row_w,
                total: desc.record_count,
                yielded: 0,
                failed: false,
            },
        )
    }

    /// How many rows the section declares.
    pub fn record_count(&self) -> (n: u64)
        ensures
            n == self.total(),
    {
        self.total
    }

    /// Pulls the next row. The declared row count bounds the sequence
    /// exactly: every pull before it decodes one row, every pull after it
    /// returns `None` rather than an error. The first failing pull reports
    /// its error once; afterwards the iterator yields `None` forever.
    pub fn next(&mut self) -> (r: Result<Option<Vec<RecordValue>>, Error>)
        requires
            old(self).wf(),
        ensures
            final(self).wf(),
            final(self).prototype() =~= old(self).prototype(),
            final(self).phys() =~= old(self).phys(),
            final(self).llen() == old(self).llen(),
            final(self).total() == old(self).total(),
            match r {
                Ok(Some(row)) => {
                    &&& !old(self).failed() && !final(self).failed()
                    &&& old(self).yielded() < old(self).total()
                    &&& final(self).yielded() == old(self).yielded() + 1
                    &&& (old(self).yielded() + 1) * row_width(old(self).prototype()) <= old(
                        self,
                    ).llen() * 8
                    &&& spec_decode_row(
                        section_bits(old(self).phys(), old(self).llen() as int),
                        old(self).prototype(),
                        (old(self).yielded() * row_width(old(self).prototype())) as int,
                    ) == Some(row@)
                },
                Ok(None) => {
                    &&& (old(self).yielded() == old(self).total() || old(self).failed())
                    &&& final(self).yielded() == old(self).yielded()
                    &&& final(self).failed() == old(self).failed()
                },
                Err(e) => {
                    &&& !old(self).failed() && final(self).failed()
                    &&& old(self).yielded() < old(self).total()
                    &&& final(self).yielded() == old(self).yielded()
                    &&& match e {
                        Error::ChecksumMismatch { page } => 0 <= page < num_pages(old(self).phys())
                            && !page_valid(old(self).phys(), page as int),
                        Error::TruncatedSection => (old(self).yielded() + 1) * row_width(
                            old(self).prototype(),
                        ) > old(self).llen() * 8,
                        Error::ValueOutOfRange => spec_decode_row(
                            section_bits(old(self).phys(), old(self).llen() as int),
                            old(self).prototype(),
                            (old(self).yielded() * row_width(old(self).prototype())) as int,
                        ) is None,
                        _ => false,
                    }
                },
            },
    {
        if self.failed || self.yielded == self.total {
            return Ok(None);
        }
        let ghost sbits = section_bits(self.reader.phys_seq(), self.reader.logical_len() as int);
        let ghost rw = row_width(self.proto@);
        let ghost start = (self.yielded * row_width(self.proto@)) as int;
        let ghost phys = self.reader.phys_seq();
        let ghost llen = self.reader.logical_len() as int;
        proof {
            assert(logical_of(phys).take(llen).len() == llen);
            assert(sbits.len() == llen * 8);
        }
        while self.bits.available() < self.row_w
            invariant
                self.wf(),
                !self.failed,
                self.yielded < self.total,
                self.proto@ == old(self).proto@,
                self.total == old(self).total,
                self.yielded == old(self).yielded,
                self.failed == old(self).failed,
                phys =~= self.reader.phys_seq(),
                phys =~= old(self).phys(),
                llen == self.reader.logical_len(),
                llen == old(self).llen(),
                sbits =~= section_bits(phys, llen),
                sbits.len() == llen * 8,
                rw == row_width(self.proto@),
                self.row_w == rw,
                start == self.yielded * rw,
                self.bits.cursor() == start,
            decreases llen - self.reader.cursor(),
        {
            let rem: usize = self.reader.remaining();
            if rem == 0 {
                self.failed = true;
                proof {
                    assert(self.bits.byte_seq().len() == llen);
                    assert(self.bits.bits().len() == llen * 8);
                    assert(llen * 8 - self.yielded * rw < rw);
                    assert((self.yielded + 1) * rw == self.yielded * rw + rw) by (nonlinear_arith);
                }
                return Err(Error::TruncatedSection);
            }
            let chunk_len: usize = if rem < 1020 {
                rem
            } else {
                1020
            };
            let ghost pos_before = self.reader.cursor() as int;
            match self.reader.read(chunk_len) {
                Ok(chunk) => {
                    proof {
                        assert((self.bits.byte_seq().len() + chunk@.len()) <= llen);
                    }
                    self.bits.append_bytes(&chunk);
                    proof {
                        assert(self.bits.byte_seq() =~= logical_of(phys).subrange(
                            0,
                            self.reader.cursor() as int,
                        ));
                    }
                },
                Err(e) => {
                    self.failed = true;
                    proof {
                        if e is TruncatedSection {
                            assert(false);
                        }
                        match e {
                            Error::ChecksumMismatch { page } => {
                                lemma_fundamental_div_mod(pos_before + chunk_len - 1, 1020);
                                lemma_fundamental_div_mod(phys.len() as int, 1024);
                                if page as int >= num_pages(phys) {
                                    assert(pos_before + chunk_len - 1 >= num_pages(phys) * 1020);
                                }
                            },
                            _ => {
                            },
                        }
                    }
                    return Err(e);
                },
            }
        }
        proof {
            assert(self.bits.byte_seq().len() <= llen);
            lemma_stream_bits_prefix(self.bits.byte_seq(), logical_of(phys).take(llen));
            assert(self.bits.bits() =~= sbits.take((self.bits.byte_seq().len() * 8) as int));
            assert(start + rw <= self.bits.bits().len());
        }
        let ghost pulled_bits = self.bits.bits().len() as int;
        let n: usize = self.proto.len();
        let mut row: Vec<RecordValue> = Vec::new();
        let mut j: usize = 0;
        while j < n
            invariant
                j <= n == self.proto@.len(),
                proto_valid(self.proto@),
                self.reader.wf(),
                self.llen() * 8 <= usize::MAX,
                self.bits.wf(),
                self.reader.cursor() <= self.llen(),
                !self.failed,
                self.yielded < self.total,
                self.proto@ == old(self).proto@,
                self.total == old(self).total,
                self.yielded == old(self).yielded,
                self.failed == old(self).failed,
                phys =~= self.reader.phys_seq(),
                phys =~= old(self).phys(),
                llen == self.reader.logical_len(),
                llen == old(self).llen(),
                rw == row_width(self.proto@),
                self.row_w == rw,
                start == self.yielded * rw,
                sbits =~= section_bits(phys, llen),
                sbits.len() == llen * 8,
                self.bits.byte_seq() =~= logical_of(phys).subrange(
                    0,
                    self.reader.cursor() as int,
                ),
                pulled_bits == self.bits.bits().len(),
                start + rw <= pulled_bits <= llen * 8,
                self.bits.bits() =~= sbits.take(pulled_bits),
                self.bits.cursor() == start + row_width(self.proto@.take(j as int)),
                spec_decode_row_prefix(sbits, self.proto@, start, j as int) == Some(row@),
            decreases n - j,
        {
            let t: RecordType = self.proto[j].data_type;
            let w: usize = t.width();
            proof {
                lemma_row_width_take_succ(self.proto@, j as int);
                lemma_row_width_take_le(self.proto@, j + 1);
            }
            let raw: u64 = self.bits.read_bits(w);
            proof {
                let pos_f = start + row_width(self.proto@.take(j as int));
                assert(self.bits.bits().subrange(pos_f, pos_f + w) =~= sbits.subrange(
                    pos_f,
                    pos_f + w,
                ));
            }
            match value_from_raw(raw, &t) {
                Ok(v) => {
                    row.push(v);
                    proof {
                        assert(spec_decode_row_prefix(sbits, self.proto@, start, j + 1) == Some(
                            row@,
                        ));
                    }
                },
                Err(e) => {
                    self.failed = true;
                    proof {
                        assert(spec_decode_row_prefix(sbits, self.proto@, start, j + 1) is None);
                        lemma_row_prefix_none(sbits, self.proto@, start, j + 1);
                    }
                    return Err(e);
                },
            }
            j = j + 1;
        }
        proof {
            assert(self.proto@.take(n as int) =~= self.proto@);
            assert((self.yielded + 1) * rw == self.yielded * rw + rw) by (nonlinear_arith);
        }
        self.yielded = self.yielded + 1;
        Ok(Some(row))
    }
}

/// Round trip, end to end: a physical page run whose logical bit stream
/// begins with the exact bit run of a row set — what the encoder's finish
/// pass produces — decodes back to that row set, row for row, whatever pad
/// bits follow the run.
pub proof fn lemma_section_round_trip(
    proto: Seq<Record>,
    rows: Seq<Seq<RecordValue>>,
    phys: Seq<u8>,
    llen: int,
)
    requires
        proto_valid(proto),
        crate::comp_vector::rows_ok(proto, rows),
        0 <= llen <= logical_of(phys).len(),
        crate::comp_vector::rows_bits(proto, rows).len() <= llen * 8,
        stream_bits(logical_of(phys)).take(crate::comp_vector::rows_bits(proto, rows).len() as int)
            =~= crate::comp_vector::rows_bits(proto, rows),
    ensures
        spec_decode_rows(section_bits(phys, llen), proto, rows.len() as int) == Some(rows),
{
    let rbits = crate::comp_vector::rows_bits(proto, rows);
    let sbits = section_bits(phys, llen);
    assert(logical_of(phys).take(llen).len() == llen);
    lemma_stream_bits_prefix(logical_of(phys).take(llen), logical_of(phys));
    assert(sbits.len() == llen * 8);
    assert(sbits.take(rbits.len() as int) =~= rbits);
    assert(sbits =~= rbits + sbits.skip(rbits.len() as int));
    crate::comp_vector::lemma_round_trip(proto, rows, sbits.skip(rbits.len() as int));
    assert(rbits + sbits.skip(rbits.len() as int) =~= sbits);
}

/// Decodes a whole section in one pass, pulling each row in turn; the
/// result holds exactly the declared number of rows.
pub fn decode_section(phys: Vec<u8>, proto: Vec<Record>, desc: &SectionDescriptor) -> (r: Result<
    Vec<Vec<RecordValue>>,
    Error,
>)
    requires
        row_width(proto@) <= usize::MAX,
        desc.logical_length * 8 <= usize::MAX,
    ensures
        match r {
            Ok(rows) => {
                &&& proto_valid(proto@)
                &&& rows@.len() == desc.record_count
                &&& spec_decode_rows(
                    section_bits(phys@, desc.logical_length as int),
                    proto@,
                    desc.record_count as int,
                ) == Some(rows@.map_values(|v: Vec<RecordValue>| v@))
            },
            Err(e) => match e {
                Error::InvalidFieldDescriptor => !proto_valid(proto@),
                Error::TruncatedSection => !(phys@.len() % 1024 == 0 && desc.logical_length
                    <= num_pages(phys@) * 1020) || desc.record_count * row_width(proto@)
                    > desc.logical_length * 8,
                Error::ChecksumMismatch { page } => 0 <= page < num_pages(phys@) && !page_valid(
                    phys@,
                    page as int,
                ),
                Error::ValueOutOfRange => exists|i: int|
                    0 <= i < desc.record_count && row_at_fails(
                        section_bits(phys@, desc.logical_length as int),
                        proto@,
                        i,
                    ),
                _ => false,
            },
        },
{
    let ghost sbits = section_bits(phys@, desc.logical_length as int);
    let ghost rw = row_width(proto@);
    let mut it = match PointCloudIterator::new(phys, proto, desc) {
        Ok(it) => it,
        Err(e) => {
            return Err(e);
        },
    };
    let mut rows: Vec<Vec<RecordValue>> = Vec::new();
    loop
        invariant
            it.wf(),
            proto_valid(it.prototype()),
            it.prototype() =~= proto@,
            it.phys() =~= phys@,
            rw == row_width(it.prototype()),
            !it.failed(),
            sbits =~= section_bits(it.phys(), it.llen() as int),
            sbits =~= section_bits(phys@, desc.logical_length as int),
            it.llen() == desc.logical_length,
            it.total() == desc.record_count,
            rows@.len() == it.yielded(),
            spec_decode_rows(sbits, it.prototype(), it.yielded() as int) == Some(
                rows@.map_values(|v: Vec<RecordValue>| v@),
            ),
        decreases it.total() - it.yielded(),
    {
        let ghost yielded_before = it.yielded();
        let ghost rows_before = rows@;
        match it.next() {
            Ok(Some(row)) => {
                rows.push(row);
                proof {
                    assert(rows@ =~= rows_before.push(row));
                    assert(rows@.map_values(|v: Vec<RecordValue>| v@) =~= rows_before.map_values(
                        |v: Vec<RecordValue>| v@,
                    ).push(row@));
                    assert((yielded_before + 1) - 1 == yielded_before);
                    assert(spec_decode_rows(sbits, it.prototype(), yielded_before + 1 as int) == Some(
                        rows@.map_values(|v: Vec<RecordValue>| v@),
                    ));
                }
            },
            Ok(None) => {
                proof {
                    assert(it.yielded() == it.total());
                    assert(rows@.len() == desc.record_count);
                }
                return Ok(rows);
            },
            Err(e) => {
                proof {
                    match e {
                        Error::TruncatedSection => {
                            assert((yielded_before + 1) * rw > desc.logical_length * 8);
                            assert(desc.record_count * rw >= (yielded_before + 1) * rw)
                                by (nonlinear_arith)
                                requires
                                    0 <= yielded_before,
                                    yielded_before + 1 <= desc.record_count,
                                    rw >= 0,
                            ;
                        },
                        Error::ValueOutOfRange => {
                            assert(row_at_fails(sbits, it.prototype(), yielded_before as int));
                        },
                        _ => {
                        },
                    }
                }
                return Err(e);
            },
        }
    }
}

} // verus!
