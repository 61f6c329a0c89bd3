use vstd::prelude::*;
use crate::bitpack::BitWriter;
use crate::bitpack::stream_bits;
use crate::bitpack::value_of_bits;
use crate::byte_stream::logical_of;
use crate::byte_stream::num_pages;
use crate::byte_stream::PagedWriter;
use crate::byte_stream::padded_payload;
use crate::byte_stream::well_formed_physical;
use crate::error::Error;
use crate::record::Record;
use crate::record::RecordValue;
use crate::record::bit_width;
use crate::record::check_and_raw;
use crate::record::decode_raw;
use crate::record::field_bits;
use crate::record::lemma_field_round_trip;
use crate::record::type_valid;
use crate::record::value_in_bounds;
use crate::record::value_matches;

verus! {

// ---------------------------------------------------------------------------
// The compressed-vector codec: a forward-only pass that packs point rows
// field by field, in prototype order, into the shared bit cursor, and the
// specification of the inverse pass.
// ---------------------------------------------------------------------------

/// Every descriptor of the prototype is well formed.
pub open spec fn proto_valid(proto: Seq<Record>) -> bool {
    forall|j: int| 0 <= j < proto.len() ==> type_valid(#[trigger] proto[j].data_type)
}

/// A row fits the prototype: one value per field, each of the declared kind
/// and inside the declared bounds.
pub open spec fn row_ok(proto: Seq<Record>, row: Seq<RecordValue>) -> bool {
    &&& row.len() == proto.len()
    &&& forall|j: int|
        0 <= j < proto.len() ==> value_in_bounds(#[trigger] row[j], proto[j].data_type)
}

/// Every row of the set fits the prototype.
pub open spec fn rows_ok(proto: Seq<Record>, rows: Seq<Seq<RecordValue>>) -> bool {
    forall|i: int| 0 <= i < rows.len() ==> row_ok(proto, #[trigger] rows[i])
}

/// How many bits one whole row occupies: the sum of its fields' widths.
pub open spec fn row_width(proto: Seq<Record>) -> nat
    decreases proto.len(),
{
    if proto.len() == 0 {
        0
    } else {
        row_width(proto.drop_last()) + bit_width(proto.last().data_type)
    }
}

/// The exact bit run of one row: its fields' runs in prototype order, with
/// no padding between fields.
pub open spec fn row_bits(proto: Seq<Record>, row: Seq<RecordValue>) -> Seq<bool>
    decreases proto.len(),
{
    if proto.len() == 0 {
        Seq::empty()
    } else {
        row_bits(proto.drop_last(), row.drop_last()) + field_bits(
            row.last(),
            proto.last().data_type,
        )
    }
}

/// The exact bit run of a whole row set: its rows' runs in order, with no
/// padding between rows.
pub open spec fn rows_bits(proto: Seq<Record>, rows: Seq<Seq<RecordValue>>) -> Seq<bool>
    decreases rows.len(),
{
    if rows.len() == 0 {
        Seq::empty()
    } else {
        rows_bits(proto, rows.drop_last()) + row_bits(proto, rows.last())
    }
}

/// One more field extends a row prefix's width by that field's width.
pub proof fn lemma_row_width_take_succ(proto: Seq<Record>, j: int)
    requires
        0 <= j < proto.len(),
    ensures
        row_width(proto.take(j + 1)) == row_width(proto.take(j)) + bit_width(proto[j].data_type),
{
    assert(proto.take(j + 1).drop_last() =~= proto.take(j));
}

/// A prefix of the prototype never occupies more bits than the whole.
pub proof fn lemma_row_width_take_le(proto: Seq<Record>, j: int)
    requires
        0 <= j <= proto.len(),
    ensures
        row_width(proto.take(j)) <= row_width(proto),
    decreases proto.len() - j,
{
    if j == proto.len() {
        assert(proto.take(j) =~= proto);
    } else {
        lemma_row_width_take_succ(proto, j);
        lemma_row_width_take_le(proto, j + 1);
    }
}

/// A row's bit run is exactly as long as the prototype's row width.
pub proof fn lemma_row_bits_len(proto: Seq<Record>, row: Seq<RecordValue>)
    requires
        row.len() == proto.len(),
    ensures
        row_bits(proto, row).len() == row_width(proto),
    decreases proto.len(),
{
    if proto.len() > 0 {
        lemma_row_bits_len(proto.drop_last(), row.drop_last());
    }
}

/// A row set's bit run is exactly the row count times the row width.
pub proof fn lemma_rows_bits_len(proto: Seq<Record>, rows: Seq<Seq<RecordValue>>)
    requires
        rows_ok(proto, rows),
    ensures
        rows_bits(proto, rows).len() == rows.len() * row_width(proto),
    decreases rows.len(),
{
    if rows.len() > 0 {
        lemma_rows_bits_len(proto, rows.drop_last());
        lemma_row_bits_len(proto, rows.last());
        assert(rows.drop_last().len() * row_width(proto) + row_width(proto) == rows.len()
            * row_width(proto)) by (nonlinear_arith)
            requires
                rows.len() >= 1,
                rows.drop_last().len() == rows.len() - 1,
        ;
    }
}

/// One more field extends a row prefix's bit run by that field's run.
pub proof fn lemma_row_bits_take_succ(proto: Seq<Record>, row: Seq<RecordValue>, j: int)
    requires
        row.len() == proto.len(),
        0 <= j < proto.len(),
    ensures
        row_bits(proto.take(j + 1), row.take(j + 1)) =~= row_bits(proto.take(j), row.take(j))
            + field_bits(row[j], proto[j].data_type),
{
    assert(proto.take(j + 1).drop_last() =~= proto.take(j));
    assert(row.take(j + 1).drop_last() =~= row.take(j));
}

/// One more row extends a row-set prefix's bit run by that row's run.
pub proof fn lemma_rows_bits_take_succ(proto: Seq<Record>, rows: Seq<Seq<RecordValue>>, i: int)
    requires
        0 <= i < rows.len(),
    ensures
        rows_bits(proto, rows.take(i + 1)) =~= rows_bits(proto, rows.take(i)) + row_bits(
            proto,
            rows[i],
        ),
{
    assert(rows.take(i + 1).drop_last() =~= rows.take(i));
}

// ---------------------------------------------------------------------------
// The specification of the decode pass.
// ---------------------------------------------------------------------------

/// What the field of descriptor `t` whose run starts at bit `pos` decodes
/// to.
pub open spec fn spec_decode_field(bits: Seq<bool>, t: crate::record::RecordType, pos: int) -> Option<
    RecordValue,
> {
    decode_raw(value_of_bits(bits.subrange(pos, pos + bit_width(t))) as u64, t)
}

/// The first `j` fields of the row whose run starts at bit `pos`.
pub open spec fn spec_decode_row_prefix(
    bits: Seq<bool>,
    proto: Seq<Record>,
    pos: int,
    j: int,
) -> Option<Seq<RecordValue>>
    decreases j,
{
    if j <= 0 {
        Some(Seq::empty())
    } else {
        match spec_decode_row_prefix(bits, proto, pos, j - 1) {
            Some(vs) => match spec_decode_field(
                bits,
                proto[j - 1].data_type,
                pos + row_width(proto.take(j - 1)),
            ) {
                Some(v) => Some(vs.push(v)),
                None => None,
            },
            None => None,
        }
    }
}

/// The whole row whose run starts at bit `pos`.
pub open spec fn spec_decode_row(bits: Seq<bool>, proto: Seq<Record>, pos: int) -> Option<
    Seq<RecordValue>,
> {
    spec_decode_row_prefix(bits, proto, pos, proto.len() as int)
}

/// The first `i` rows of the stream.
pub open spec fn spec_decode_rows(bits: Seq<bool>, proto: Seq<Record>, i: int) -> Option<
    Seq<Seq<RecordValue>>,
>
    decreases i,
{
    if i <= 0 {
        Some(Seq::empty())
    } else {
        match spec_decode_rows(bits, proto, i - 1) {
            Some(rs) => match spec_decode_row(bits, proto, (i - 1) * row_width(proto)) {
                Some(r) => Some(rs.push(r)),
                None => None,
            },
            None => None,
        }
    }
}

// ---------------------------------------------------------------------------
// The round trip: decoding what was encoded returns the rows exactly.
// ---------------------------------------------------------------------------

/// Decoding a row out of a stream that carries that row's exact bit run at
/// `pos` returns the row.
proof fn lemma_row_decode_prefix(
    bits: Seq<bool>,
    proto: Seq<Record>,
    row: Seq<RecordValue>,
    pos: int,
    j: int,
)
    requires
        proto_valid(proto),
        row_ok(proto, row),
        0 <= pos,
        pos + row_width(proto) <= bits.len(),
        bits.subrange(pos, pos + row_width(proto)) =~= row_bits(proto, row),
        0 <= j <= proto.len(),
    ensures
        spec_decode_row_prefix(bits, proto, pos, j) == Some(row.take(j)),
    decreases j,
{
    lemma_row_bits_len(proto, row);
    if j > 0 {
        lemma_row_decode_prefix(bits, proto, row, pos, j - 1);
        let fw = bit_width(proto[j - 1].data_type);
        let a = row_width(proto.take(j - 1));
        lemma_row_width_take_succ(proto, j - 1);
        lemma_row_width_take_le(proto, j);
        lemma_row_width_take_le(proto, j - 1);
        assert(row_bits(proto.take(j), row.take(j)) =~= row_bits(proto.take(j - 1), row.take(j - 1))
            + field_bits(row[j - 1], proto[j - 1].data_type)) by {
            lemma_row_bits_take_succ(proto, row, j - 1);
        }
        assert(row_bits(proto, row).take(row_width(proto.take(j)) as int) =~= row_bits(
            proto.take(j),
            row.take(j),
        )) by {
            lemma_row_bits_prefix(proto, row, j);
        }
        assert(row_bits(proto, row).take(row_width(proto.take(j - 1)) as int) =~= row_bits(
            proto.take(j - 1),
            row.take(j - 1),
        )) by {
            lemma_row_bits_prefix(proto, row, j - 1);
        }
        assert(bits.subrange(pos + a, pos + a + fw) =~= field_bits(
            row[j - 1],
            proto[j - 1].data_type,
        )) by {
            lemma_row_bits_len(proto.take(j - 1), row.take(j - 1));
            lemma_row_bits_len(proto.take(j), row.take(j));
            assert forall|k: int| 0 <= k < fw implies #[trigger] bits.subrange(
                pos + a,
                pos + a + fw,
            )[k] == field_bits(row[j - 1], proto[j - 1].data_type)[k] by {
                assert(bits[pos + a + k] == row_bits(proto, row)[a + k]);
                assert(row_bits(proto.take(j), row.take(j))[a + k] == field_bits(
                    row[j - 1],
                    proto[j - 1].data_type,
                )[k]);
            }
        }
        lemma_field_round_trip(row[j - 1], proto[j - 1].data_type);
        assert(row.take(j) =~= row.take(j - 1).push(row[j - 1]));
    } else {
        assert(row.take(0) =~= Seq::<RecordValue>::empty());
    }
}

/// A row-prefix's bit run is a prefix of the whole row's bit run.
proof fn lemma_row_bits_prefix(proto: Seq<Record>, row: Seq<RecordValue>, j: int)
    requires
        row.len() == proto.len(),
        0 <= j <= proto.len(),
    ensures
        row_bits(proto, row).take(row_width(proto.take(j)) as int) =~= row_bits(
            proto.take(j),
            row.take(j),
        ),
    decreases proto.len(),
{
    lemma_row_bits_len(proto, row);
    lemma_row_width_take_le(proto, j);
    if j == proto.len() {
        assert(proto.take(j) =~= proto);
        assert(row.take(j) =~= row);
    } else {
        if proto.len() > 0 {
            let dp = proto.drop_last();
            let dr = row.drop_last();
            lemma_row_bits_prefix(dp, dr, j);
            assert(dp.take(j) =~= proto.take(j));
            assert(dr.take(j) =~= row.take(j));
            lemma_row_bits_len(dp, dr);
            lemma_row_width_take_le(dp, j);
            assert(row_bits(proto, row).take(row_width(proto.take(j)) as int) =~= row_bits(
                dp,
                dr,
            ).take(row_width(dp.take(j)) as int));
        }
    }
}

/// A row-set prefix's bit run is a prefix of the whole set's bit run.
proof fn lemma_rows_bits_prefix(proto: Seq<Record>, rows: Seq<Seq<RecordValue>>, i: int)
    requires
        rows_ok(proto, rows),
        0 <= i <= rows.len(),
    ensures
        rows_bits(proto, rows).take((i * row_width(proto)) as int) =~= rows_bits(
            proto,
            rows.take(i),
        ),
    decreases rows.len(),
{
    lemma_rows_bits_len(proto, rows);
    lemma_rows_bits_len(proto, rows.take(i));
    assert(rows.take(i).len() == i);
    if i == rows.len() {
        assert(rows.take(i) =~= rows);
    } else {
        let dr = rows.drop_last();
        lemma_rows_bits_prefix(proto, dr, i);
        assert(dr.take(i) =~= rows.take(i));
        lemma_rows_bits_len(proto, dr);
        assert(i * row_width(proto) <= dr.len() * row_width(proto)) by (nonlinear_arith)
            requires
                0 <= i <= dr.len(),
                row_width(proto) >= 0,
        ;
        assert(rows_bits(proto, rows).take((i * row_width(proto)) as int) =~= rows_bits(
            proto,
            dr,
        ).take((i * row_width(proto)) as int));
    }
}

/// The round trip at the heart of the codec: a stream that begins with the
/// exact bit run of a row set decodes back to that row set, whatever
/// trailing padding follows the run.
pub proof fn lemma_round_trip(proto: Seq<Record>, rows: Seq<Seq<RecordValue>>, tail: Seq<bool>)
    requires
        proto_valid(proto),
        rows_ok(proto, rows),
    ensures
        spec_decode_rows(rows_bits(proto, rows) + tail, proto, rows.len() as int) == Some(rows),
{
    lemma_rows_decode_upto(rows_bits(proto, rows) + tail, proto, rows, rows.len() as int);
    assert(rows.take(rows.len() as int) =~= rows);
}

/// Decoding the first `i` rows of a stream that begins with the whole row
/// set's bit run returns those rows.
proof fn lemma_rows_decode_upto(
    bits: Seq<bool>,
    proto: Seq<Record>,
    rows: Seq<Seq<RecordValue>>,
    i: int,
)
    requires
        proto_valid(proto),
        rows_ok(proto, rows),
        rows_bits(proto, rows).len() <= bits.len(),
        bits.take(rows_bits(proto, rows).len() as int) =~= rows_bits(proto, rows),
        0 <= i <= rows.len(),
    ensures
        spec_decode_rows(bits, proto, i) == Some(rows.take(i)),
    decreases i,
{
    lemma_rows_bits_len(proto, rows);
    if i > 0 {
        lemma_rows_decode_upto(bits, proto, rows, i - 1);
        let rw = row_width(proto) as int;
        let pos = (i - 1) * rw;
        lemma_rows_bits_prefix(proto, rows, i);
        lemma_rows_bits_prefix(proto, rows, i - 1);
        lemma_rows_bits_take_succ(proto, rows, i - 1);
        lemma_rows_bits_len(proto, rows.take(i - 1));
        lemma_rows_bits_len(proto, rows.take(i));
        lemma_row_bits_len(proto, rows[i - 1]);
        assert(rows.take(i - 1).len() == i - 1);
        assert(i * rw <= rows.len() * rw && (i - 1) * rw >= 0 && (i - 1) * rw + rw == i * rw)
            by (nonlinear_arith)
            requires
                0 < i <= rows.len(),
                rw >= 0,
        ;
        assert(bits.subrange(pos, pos + rw) =~= row_bits(proto, rows[i - 1])) by {
            assert forall|k: int| 0 <= k < rw implies #[trigger] bits.subrange(pos, pos + rw)[k]
                == row_bits(proto, rows[i - 1])[k] by {
                assert(bits[pos + k] == rows_bits(proto, rows)[pos + k]);
                assert(rows_bits(proto, rows.take(i))[pos + k] == row_bits(proto, rows[i - 1])[k]);
            }
        }
        lemma_row_decode_prefix(bits, proto, rows[i - 1], pos, proto.len() as int);
        assert(rows[i - 1].take(proto.len() as int) =~= rows[i - 1]);
        assert(rows.take(i) =~= rows.take(i - 1).push(rows[i - 1]));
    } else {
        assert(rows.take(0) =~= Seq::<Seq<RecordValue>>::empty());
    }
}

// ---------------------------------------------------------------------------
// The encoder: the forward-only encode pass.
// ---------------------------------------------------------------------------

/// Locates and describes one encoded compressed-vector section: where it
/// starts in the file, how many logical payload bytes it holds, and how
/// many rows were packed into it. The metadata layer persists it and hands
/// it back to open the section for decoding.
#[derive(Clone, Copy, Debug, PartialEq, Eq, Structural)]
pub struct SectionDescriptor {
    /// The byte offset of the section's first page in the file.
    pub offset: u64,
    /// The number of logical payload bytes the packed rows occupy.
    pub logical_length: u64,
    /// The number of rows the section holds.
    pub record_count: u64,
}

/// Encodes a row set against a prototype: rows arrive one at a time, each
/// packed field by field in prototype order into the shared bit cursor, and
/// the finished stream leaves as checksummed pages together with its
/// section descriptor.
pub struct Encoder {
    proto: Vec<Record>,
    writer: BitWriter,
    count: u64,
    rows: Ghost<Seq<Seq<RecordValue>>>,
}

impl Encoder {
    /// The prototype the encoder was built with.
    pub closed spec fn prototype(self) -> Seq<Record> {
        self.proto@
    }

    /// The rows accepted so far.
    pub closed spec fn rows(self) -> Seq<Seq<RecordValue>> {
        self.rows@
    }

    /// The number of bits packed so far.
    pub closed spec fn total_bits(self) -> nat {
        self.writer.bits().len()
    }

    pub closed spec fn wf(self) -> bool {
        &&& proto_valid(self.proto@)
        &&& rows_ok(self.proto@, self.rows@)
        &&& self.writer.wf()
        &&& self.writer.bits() =~= rows_bits(self.proto@, self.rows@)
        &&& self.count == self.rows@.len()
    }

    /// Starts an encode pass. Every descriptor of the prototype is
    /// validated as the schema layer handed it over.
    pub fn new(proto: Vec<Record>) -> (r: Result<Encoder, Error>)
        ensures
            match r {
                Ok(enc) => {
                    &&& proto_valid(proto@)
                    &&& enc.wf()
                    &&& enc.prototype() =~= proto@
                    &&& enc.rows() =~= Seq::<Seq<RecordValue>>::empty()
                    &&& enc.total_bits() == 0
                },
                Err(e) => {
                    &&& e == Error::InvalidFieldDescriptor
                    &&& !proto_valid(proto@)
                },
            },
    {
        let mut j: usize = 0;
        while j < proto.len()
            invariant
                j <= proto@.len(),
                forall|jj: int| 0 <= jj < j ==> type_valid(#[trigger] proto@[jj].data_type),
            decreases proto@.len() - j,
        {
            let t: crate::record::RecordType = proto[j].data_type;
            match t.validate() {
                Ok(()) => {
                },
                Err(e) => {
                    return Err(e);
                },
            }
            j = j + 1;
        }
        let enc = Encoder {
            proto,
            writer: BitWriter::new(),
            count: 0,
            rows: Ghost(Seq::empty()),
        };
        proof {
            assert(rows_bits(enc.proto@, enc.rows@) =~= Seq::<bool>::empty());
        }
        Ok(enc)
    }

    /// The number of rows accepted so far.
    pub fn row_count(&self) -> (n: u64)
        requires
            self.wf(),
        ensures
            n == self.rows().len(),
    {
        self.count
    }

    /// Accepts one row and packs it, field by field in prototype order,
    /// into the shared bit cursor. A row that does not fit the prototype is
    /// refused whole: nothing of it reaches the stream, and the encoder is
    /// left exactly as it was.
    pub fn add_row(&mut self, row: &Vec<RecordValue>) -> (r: Result<(), Error>)
        requires
            old(self).wf(),
            old(self).total_bits() + row_width(old(self).prototype()) <= usize::MAX,
            old(self).rows().len() < u64::MAX,
        ensures
            final(self).wf(),
            final(self).prototype() =~= old(self).prototype(),
            match r {
                Ok(()) => {
                    &&& row_ok(old(self).prototype(), row@)
                    &&& final(self).rows() =~= old(self).rows().push(row@)
                },
                Err(e) => {
                    &&& final(self).rows() =~= old(self).rows()
                    &&& final(self).total_bits() == old(self).total_bits()
                    &&& !row_ok(old(self).prototype(), row@)
                    &&& (e == Error::SchemaMismatch || e == Error::ValueOutOfRange)
                    &&& (e == Error::SchemaMismatch ==> (row@.len() != old(self).prototype().len()
                        || exists|j: int|
                            0 <= j < row@.len() && !value_matches(
                                #[trigger] row@[j],
                                old(self).prototype()[j].data_type,
                            )))
                    &&& (e == Error::ValueOutOfRange ==> exists|j: int|
                        0 <= j < row@.len() && !value_in_bounds(
                            #[trigger] row@[j],
                            old(self).prototype()[j].data_type,
                        ))
                },
            },
    {
        let ghost proto = self.proto@;
        let n: usize = self.proto.len();
        if row.len() != n {
            return Err(Error::SchemaMismatch);
        }
        let mut raws: Vec<u64> = Vec::new();
        let mut j: usize = 0;
        while j < n
            invariant
                j <= n == proto.len() == row@.len(),
                proto =~= self.proto@,
                self.proto@ == old(self).proto@,
                self.rows@ == old(self).rows@,
                self.count == old(self).count,
                self.writer == old(self).writer,
                old(self).wf(),
                raws@.len() == j,
                forall|jj: int|
                    0 <= jj < j ==> value_in_bounds(#[trigger] row@[jj], proto[jj].data_type),
                forall|jj: int|
                    0 <= jj < j ==> #[trigger] raws@[jj] == crate::record::raw_of(
                        row@[jj],
                        proto[jj].data_type,
                    ),
            decreases n - j,
        {
            let t: crate::record::RecordType = self.proto[j].data_type;
            match check_and_raw(&row[j], &t) {
                Ok(raw) => {
                    raws.push(raw);
                },
                Err(e) => {
                    return Err(e);
                },
            }
            j = j + 1;
        }
        let ghost base = self.writer.bits();
        let mut k: usize = 0;
        while k < n
            invariant
                k <= n == proto.len() == row@.len(),
                proto =~= self.proto@,
                self.proto@ == old(self).proto@,
                self.rows@ == old(self).rows@,
                self.count == old(self).count,
                old(self).wf(),
                proto_valid(proto),
                self.writer.wf(),
                base =~= rows_bits(proto, self.rows@),
                base.len() + row_width(proto) <= usize::MAX,
                raws@.len() == n,
                forall|jj: int|
                    0 <= jj < n ==> value_in_bounds(#[trigger] row@[jj], proto[jj].data_type),
                forall|jj: int|
                    0 <= jj < n ==> #[trigger] raws@[jj] == crate::record::raw_of(
                        row@[jj],
                        proto[jj].data_type,
                    ),
                self.writer.bits() =~= base + row_bits(proto.take(k as int), row@.take(k as int)),
            decreases n - k,
        {
            let t: crate::record::RecordType = self.proto[k].data_type;
            let w: usize = t.width();
            proof {
                lemma_row_bits_len(proto.take(k as int), row@.take(k as int));
                lemma_row_width_take_succ(proto, k as int);
                lemma_row_width_take_le(proto, k + 1);
                crate::record::lemma_raw_in_width(row@[k as int], proto[k as int].data_type);
            }
            self.writer.write_bits(raws[k], w);
            proof {
                lemma_row_bits_take_succ(proto, row@, k as int);
            }
            k = k + 1;
        }
        proof {
            assert(proto.take(n as int) =~= proto);
            assert(row@.take(n as int) =~= row@);
        }
        self.count = self.count + 1;
        proof {
            let rs = self.rows@;
            self.rows@ = rs.push(row@);
            assert(rs.push(row@).drop_last() =~= rs);
            assert(rs.push(row@).last() =~= row@);
            assert(rows_bits(proto, rs.push(row@)) =~= rows_bits(proto, rs) + row_bits(
                proto,
                row@,
            ));
        }
        Ok(())
    }

    /// Ends the pass: pads the stream with zero bits to the next byte
    /// boundary and with zero bytes to the next page boundary, checksums
    /// every page, and hands back the physical pages with the section
    /// descriptor that the metadata layer persists. The caller supplies the
    /// byte offset at which it will place the section.
    pub fn finish(self, offset: u64) -> (r: (Vec<u8>, SectionDescriptor))
        requires
            self.wf(),
            (((self.total_bits() + 7) / 8 + 1019) / 1020) * 1024 <= usize::MAX,
        ensures
            well_formed_physical(r.0@),
            stream_bits(logical_of(r.0@)).take(self.total_bits() as int) =~= rows_bits(
                self.prototype(),
                self.rows(),
            ),
            self.total_bits() == self.rows().len() * row_width(self.prototype()),
            r.1.offset == offset,
            r.1.logical_length == (self.total_bits() + 7) / 8,
            r.1.record_count == self.rows().len(),
            r.1.logical_length <= num_pages(r.0@) * 1020,
            r.1.logical_length * 8 >= self.total_bits(),
    {
        proof {
            lemma_rows_bits_len(self.proto@, self.rows@);
        }
        let ghost nbits = self.writer.bits().len();
        let payload: Vec<u8> = self.writer.into_bytes();
        proof {
            crate::bitpack::lemma_nbits_le_bytes(nbits as int, payload@.len() as int);
        }
        let ll: usize = payload.len();
        let mut pages = PagedWriter::new();
        pages.write_all(&payload);
        let phys: Vec<u8> = pages.finish();
        proof {
            let pp = padded_payload(payload@);
            assert(pp.take(payload@.len() as int) =~= payload@);
            crate::bitpack::lemma_stream_bits_prefix(payload@, pp);
            assert(stream_bits(logical_of(phys@)).take(nbits as int) =~= stream_bits(
                payload@,
            ).take(nbits as int));
            vstd::arithmetic::div_mod::lemma_fundamental_div_mod(payload@.len() as int + 1019, 1020);
        }
        let desc = SectionDescriptor {
            offset,
            logical_length: ll as u64,
            record_count: self.count,
        };
        (phys, desc)
    }
}

} // verus!
