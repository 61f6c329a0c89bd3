use vstd::prelude::*;
use vstd::arithmetic::power2::pow2;
use vstd::arithmetic::power2::lemma_pow2_strictly_increases;
use vstd::arithmetic::power2::lemma_pow2_unfold;
use vstd::arithmetic::power2::lemma2_to64;
use crate::bitpack::bits_of_value;
use crate::bitpack::lemma_pack_unpack_identity;
use crate::error::Error;

verus! {

// ---------------------------------------------------------------------------
// The field descriptor and point record model.
//
// A field descriptor gives one scalar field its kind and bounds; an ordered
// run of named descriptors (the prototype) fixes the exact field order
// inside each packed record. Integer-family fields carry their value as a
// raw offset from `min` in the smallest width that spans `[min, max]`;
// float fields carry their IEEE-754 bit pattern verbatim in a fixed 32- or
// 64-bit run. The scale and offset of a scaled integer are carried as the
// bit patterns of their doubles: the codec packs and checks the raw scaled
// integer, and the owner of the schema applies `raw * scale + offset`
// outside the bit-level core.
// ---------------------------------------------------------------------------

/// Whether a double's bit pattern denotes a finite value strictly greater
/// than zero: sign bit clear, not the zero pattern, exponent not all ones.
pub open spec fn f64_bits_positive_finite(bits: u64) -> bool {
    &&& bits & 0x8000_0000_0000_0000 == 0
    &&& bits != 0
    &&& (bits >> 52u64) & 0x7ff != 0x7ff
}

/// The typed description of one scalar field.
#[derive(Clone, Copy, Debug, PartialEq, Eq, Structural)]
pub enum RecordType {
    /// An integer whose values lie in `[min, max]`.
    Integer { min: i64, max: i64 },
    /// A scaled integer: the stream stores the raw integer in `[min, max]`;
    /// the denoted real value is `raw * scale + offset`. The scale and
    /// offset doubles are carried as their IEEE-754 bit patterns.
    ScaledInteger { min: i64, max: i64, scale_bits: u64, offset_bits: u64 },
    /// A 32-bit IEEE-754 float, stored as its raw bit pattern.
    Single,
    /// A 64-bit IEEE-754 float, stored as its raw bit pattern.
    Double,
}

/// One decoded scalar: the value of one field of one point record. Floats
/// are carried as their IEEE-754 bit patterns.
#[derive(Clone, Copy, Debug, PartialEq, Eq, Structural)]
pub enum RecordValue {
    Integer(i64),
    ScaledInteger(i64),
    Single(u32),
    Double(u64),
}

/// One named field of the prototype.
#[derive(Clone, Debug)]
pub struct Record {
    /// The field's name; the codec orders fields by position, the name is
    /// carried for the metadata layer.
    pub name: String,
    /// The field's descriptor.
    pub data_type: RecordType,
}

/// A well-formed descriptor: bounds in order, and a positive finite scale.
pub open spec fn type_valid(t: RecordType) -> bool {
    match t {
        RecordType::Integer { min, max } => min <= max,
        RecordType::ScaledInteger { min, max, scale_bits, offset_bits } => min <= max
            && f64_bits_positive_finite(scale_bits),
        RecordType::Single => true,
        RecordType::Double => true,
    }
}

/// The value is of the kind its descriptor declares.
pub open spec fn value_matches(v: RecordValue, t: RecordType) -> bool {
    match (v, t) {
        (RecordValue::Integer(_), RecordType::Integer { .. }) => true,
        (RecordValue::ScaledInteger(_), RecordType::ScaledInteger { .. }) => true,
        (RecordValue::Single(_), RecordType::Single) => true,
        (RecordValue::Double(_), RecordType::Double) => true,
        _ => false,
    }
}

/// The value is of the declared kind and inside the declared bounds.
pub open spec fn value_in_bounds(v: RecordValue, t: RecordType) -> bool {
    match (v, t) {
        (RecordValue::Integer(x), RecordType::Integer { min, max }) => min <= x <= max,
        (RecordValue::ScaledInteger(x), RecordType::ScaledInteger { min, max, .. }) => min <= x
            <= max,
        (RecordValue::Single(_), RecordType::Single) => true,
        (RecordValue::Double(_), RecordType::Double) => true,
        _ => false,
    }
}

/// The smallest width `w` with `pow2(w) >= range`.
pub open spec fn min_bits(range: nat) -> nat
    decreases range,
{
    if range <= 1 {
        0
    } else {
        1 + min_bits(((range + 1) / 2) as nat)
    }
}

/// `min_bits` spans its range and is minimal.
pub proof fn lemma_min_bits(range: nat)
    requires
        range >= 1,
    ensures
        pow2(min_bits(range)) >= range,
        min_bits(range) > 0 ==> pow2((min_bits(range) - 1) as nat) < range,
    decreases range,
{
    lemma2_to64();
    if range > 1 {
        let half = ((range + 1) / 2) as nat;
        lemma_min_bits(half);
        lemma_pow2_unfold(min_bits(range));
        if min_bits(half) > 0 {
            lemma_pow2_unfold((min_bits(range) - 1) as nat);
        }
    }
}

/// No width smaller than `min_bits(range)` spans the range, and any width
/// that spans it is at least `min_bits(range)`.
pub proof fn lemma_min_bits_unique(range: nat, w: nat)
    requires
        range >= 1,
        pow2(w) >= range,
        w > 0 ==> pow2((w - 1) as nat) < range,
    ensures
        w == min_bits(range),
{
    lemma_min_bits(range);
    let m = min_bits(range);
    if w < m {
        if w < m - 1 {
            lemma_pow2_strictly_increases(w, (m - 1) as nat);
        }
        assert(pow2(w) <= pow2((m - 1) as nat));
    }
    if w > m {
        if m < w - 1 {
            lemma_pow2_strictly_increases(m, (w - 1) as nat);
        }
        assert(pow2(m) <= pow2((w - 1) as nat));
    }
}

/// The declared span of an integer-family descriptor: `max - min + 1`.
pub open spec fn type_range(t: RecordType) -> nat {
    match t {
        RecordType::Integer { min, max } => (max - min + 1) as nat,
        RecordType::ScaledInteger { min, max, .. } => (max - min + 1) as nat,
        RecordType::Single => pow2(32),
        RecordType::Double => pow2(64),
    }
}

/// The exact number of bits one field of this descriptor occupies.
pub open spec fn bit_width(t: RecordType) -> nat {
    match t {
        RecordType::Integer { .. } => min_bits(type_range(t)),
        RecordType::ScaledInteger { .. } => min_bits(type_range(t)),
        RecordType::Single => 32,
        RecordType::Double => 64,
    }
}

/// Every well-formed field fits in 64 bits.
pub proof fn lemma_bit_width_le_64(t: RecordType)
    requires
        type_valid(t),
    ensures
        bit_width(t) <= 64,
        pow2(bit_width(t)) >= type_range(t),
        type_range(t) >= 1,
{
    lemma2_to64();
    match t {
        RecordType::Integer { min, max } => {
            lemma_min_bits(type_range(t));
            lemma_min_bits_le(type_range(t), 64);
        },
        RecordType::ScaledInteger { .. } => {
            lemma_min_bits(type_range(t));
            lemma_min_bits_le(type_range(t), 64);
        },
        RecordType::Single => {
        },
        RecordType::Double => {
        },
    }
}

/// A width that spans the range bounds `min_bits` from above.
pub proof fn lemma_min_bits_le(range: nat, w: nat)
    requires
        range >= 1,
        pow2(w) >= range,
    ensures
        min_bits(range) <= w,
{
    lemma_min_bits(range);
    let m = min_bits(range);
    if m > w {
        if w < m - 1 {
            lemma_pow2_strictly_increases(w, (m - 1) as nat);
        }
        assert(pow2(w) <= pow2((m - 1) as nat));
    }
}

/// The raw unsigned integer that the stream stores for a value: the offset
/// from `min` for the integer kinds, the bit pattern for floats.
pub open spec fn raw_of(v: RecordValue, t: RecordType) -> nat {
    match (v, t) {
        (RecordValue::Integer(x), RecordType::Integer { min, .. }) => (x - min) as nat,
        (RecordValue::ScaledInteger(x), RecordType::ScaledInteger { min, .. }) => (x - min) as nat,
        (RecordValue::Single(b), _) => b as nat,
        (RecordValue::Double(b), _) => b as nat,
        _ => 0,
    }
}

/// The exact bit run that encodes one field value.
pub open spec fn field_bits(v: RecordValue, t: RecordType) -> Seq<bool> {
    bits_of_value(raw_of(v, t) as u64, bit_width(t))
}

/// What a raw unsigned integer read back from the stream decodes to: the
/// raw must fit the declared span, so that `min + raw` never leaves the
/// declared bounds.
pub open spec fn decode_raw(raw: u64, t: RecordType) -> Option<RecordValue> {
    match t {
        RecordType::Integer { min, max } => if raw <= max - min {
            Some(RecordValue::Integer((min + raw) as i64))
        } else {
            None
        },
        RecordType::ScaledInteger { min, max, .. } => if raw <= max - min {
            Some(RecordValue::ScaledInteger((min + raw) as i64))
        } else {
            None
        },
        RecordType::Single => Some(RecordValue::Single(raw as u32)),
        RecordType::Double => Some(RecordValue::Double(raw)),
    }
}

/// An in-bounds value's raw fits the field's width.
pub proof fn lemma_raw_in_width(v: RecordValue, t: RecordType)
    requires
        type_valid(t),
        value_in_bounds(v, t),
    ensures
        raw_of(v, t) < pow2(bit_width(t)),
        raw_of(v, t) < pow2(64),
{
    lemma_bit_width_le_64(t);
    lemma2_to64();
    match (v, t) {
        (RecordValue::Single(b), RecordType::Single) => {
        },
        _ => {
        },
    }
}

/// Packing an in-bounds value and decoding the raw read back from its bit
/// run returns the value unchanged.
pub proof fn lemma_field_round_trip(v: RecordValue, t: RecordType)
    requires
        type_valid(t),
        value_in_bounds(v, t),
    ensures
        decode_raw((crate::bitpack::value_of_bits(field_bits(v, t)) as u64), t) == Some(v),
{
    lemma_raw_in_width(v, t);
    lemma_bit_width_le_64(t);
    lemma_pack_unpack_identity(raw_of(v, t) as u64, bit_width(t));
}

// ---------------------------------------------------------------------------
// Executable descriptor and value operations.
// ---------------------------------------------------------------------------

impl RecordType {
    /// Validates the descriptor as the schema layer hands it over: bounds
    /// must be in order and a scale must be positive and finite.
    pub fn validate(&self) -> (r: Result<(), Error>)
        ensures
            r is Ok <==> type_valid(*self),
            r is Err ==> r == Result::<(), Error>::Err(Error::InvalidFieldDescriptor),
    {
        match self {
            RecordType::Integer { min, max } => {
                if min <= max {
                    Ok(())
                } else {
                    Err(Error::InvalidFieldDescriptor)
                }
            },
            RecordType::ScaledInteger { min, max, scale_bits, offset_bits } => {
                let sb: u64 = *scale_bits;
                let positive_finite: bool = sb & 0x8000_0000_0000_0000 == 0 && sb != 0 && (sb
                    >> 52u64) & 0x7ff != 0x7ff;
                if min <= max && positive_finite {
                    Ok(())
                } else {
                    Err(Error::InvalidFieldDescriptor)
                }
            },
            RecordType::Single => Ok(()),
            RecordType::Double => Ok(()),
        }
    }

    /// The exact number of bits one field of this descriptor occupies in
    /// the packed stream.
    pub fn width(&self) -> (w: usize)
        requires
            type_valid(*self),
        ensures
            w == bit_width(*self),
            w <= 64,
    {
        match self {
            RecordType::Single => 32,
            RecordType::Double => 64,
            RecordType::Integer { min, max } | RecordType::ScaledInteger { min, max, .. } => {
                let range: u128 = (*max as i128 - *min as i128 + 1) as u128;
                proof {
                    lemma_bit_width_le_64(*self);
                    lemma2_to64();
                    assert(range == type_range(*self));
                }
                let mut w: usize = 0;
                let mut p: u128 = 1;
                while p < range
                    invariant
                        1 <= range <= pow2(64),
                        p == pow2(w as nat),
                        w == 0 || pow2((w - 1) as nat) < range,
                        w <= 64,
                    decreases 65 - w,
                {
                    proof {
                        lemma2_to64();
                        lemma_pow2_unfold((w + 1) as nat);
                        if w == 64 {
                            assert(false);
                        }
                        lemma_pow2_strictly_increases(w as nat, (w + 1) as nat);
                        assert(p * 2 == pow2((w + 1) as nat));
                    }
                    p = p * 2;
                    w = w + 1;
                }
                proof {
                    lemma_min_bits_unique(type_range(*self), w as nat);
                }
                w
            },
        }
    }
}

/// Checks a value against its descriptor and hands back the raw unsigned
/// integer that the stream stores for it. A value of the wrong kind is a
/// schema mismatch; one of the right kind outside `[min, max]` is out of
/// range.
pub fn check_and_raw(v: &RecordValue, t: &RecordType) -> (r: Result<u64, Error>)
    requires
        type_valid(*t),
    ensures
        match r {
            Ok(raw) => {
                &&& value_in_bounds(*v, *t)
                &&& raw == raw_of(*v, *t)
                &&& raw < pow2(bit_width(*t))
            },
            Err(e) => {
                &&& !value_in_bounds(*v, *t)
                &&& (e == Error::ValueOutOfRange || e == Error::SchemaMismatch)
                &&& (e == Error::SchemaMismatch <==> !value_matches(*v, *t))
            },
        },
{
    match (v, t) {
        (RecordValue::Integer(x), RecordType::Integer { min, max }) => {
            if *x < *min || *x > *max {
                Err(Error::ValueOutOfRange)
            } else {
                let raw: u64 = (*x as i128 - *min as i128) as u64;
                proof {
                    lemma_raw_in_width(*v, *t);
                }
                Ok(raw)
            }
        },
        (RecordValue::ScaledInteger(x), RecordType::ScaledInteger { min, max, .. }) => {
            if *x < *min || *x > *max {
                Err(Error::ValueOutOfRange)
            } else {
                let raw: u64 = (*x as i128 - *min as i128) as u64;
                proof {
                    lemma_raw_in_width(*v, *t);
                }
                Ok(raw)
            }
        },
        (RecordValue::Single(b), RecordType::Single) => {
            proof {
                lemma_raw_in_width(*v, *t);
            }
            Ok(*b as u64)
        },
        (RecordValue::Double(b), RecordType::Double) => {
            proof {
                lemma_raw_in_width(*v, *t);
            }
            Ok(*b)
        },
        _ => Err(Error::SchemaMismatch),
    }
}

/// Decodes the raw unsigned integer read back from a field's bit run. A raw
/// beyond the declared span would denote a value outside `[min, max]` and
/// is rejected rather than folded into the bounds.
pub fn value_from_raw(raw: u64, t: &RecordType) -> (r: Result<RecordValue, Error>)
    requires
        type_valid(*t),
        raw < pow2(bit_width(*t)),
    ensures
        match r {
            Ok(v) => decode_raw(raw, *t) == Some(v),
            Err(e) => {
                &&& e == Error::ValueOutOfRange
                &&& decode_raw(raw, *t) is None
            },
        },
{
    proof {
        lemma_bit_width_le_64(*t);
        lemma2_to64();
    }
    match t {
        RecordType::Integer { min, max } => {
            let span: u64 = (*max as i128 - *min as i128) as u64;
            if raw <= span {
                Ok(RecordValue::Integer((*min as i128 + raw as i128) as i64))
            } else {
                Err(Error::ValueOutOfRange)
            }
        },
        RecordType::ScaledInteger { min, max, .. } => {
            let span: u64 = (*max as i128 - *min as i128) as u64;
            if raw <= span {
                Ok(RecordValue::ScaledInteger((*min as i128 + raw as i128) as i64))
            } else {
                Err(Error::ValueOutOfRange)
            }
        },
        RecordType::Single => {
            proof {
                assert(raw < pow2(32));
            }
            Ok(RecordValue::Single(raw as u32))
        },
        RecordType::Double => Ok(RecordValue::Double(raw)),
    }
}

} // verus!
