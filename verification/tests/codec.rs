use e57::BitReader;
use e57::BitWriter;
use e57::Encoder;
use e57::Error;
use e57::PointCloudIterator;
use e57::Record;
use e57::RecordType;
use e57::RecordValue;
use e57::SectionDescriptor;
use e57::decode_section;

fn field(name: &str, data_type: RecordType) -> Record {
    Record { name: String::from(name), data_type }
}

fn xyz_proto() -> Vec<Record> {
    vec![
        field("x", RecordType::Double),
        field("intensity", RecordType::Integer { min: 0, max: 255 }),
    ]
}

fn xyz_rows() -> Vec<Vec<RecordValue>> {
    vec![
        vec![RecordValue::Double(1.5f64.to_bits()), RecordValue::Integer(10)],
        vec![RecordValue::Double(2.25f64.to_bits()), RecordValue::Integer(200)],
        vec![RecordValue::Double(3.0f64.to_bits()), RecordValue::Integer(0)],
    ]
}

fn encode_rows(proto: Vec<Record>, rows: &[Vec<RecordValue>]) -> (Vec<u8>, SectionDescriptor) {
    let mut enc = Encoder::new(proto).expect("prototype must validate");
    for row in rows {
        enc.add_row(row).expect("row must encode");
    }
    enc.finish(0)
}

#[test]
fn bit_width_values() {
    assert_eq!(RecordType::Integer { min: 0, max: 255 }.width(), 8);
    assert_eq!(RecordType::Integer { min: 0, max: 256 }.width(), 9);
    assert_eq!(RecordType::Integer { min: 0, max: 1 }.width(), 1);
    assert_eq!(RecordType::Integer { min: 5, max: 5 }.width(), 0);
    assert_eq!(RecordType::Integer { min: -3, max: 4 }.width(), 3);
    assert_eq!(RecordType::Integer { min: i64::MIN, max: i64::MAX }.width(), 64);
    assert_eq!(RecordType::Single.width(), 32);
    assert_eq!(RecordType::Double.width(), 64);
}

#[test]
fn pack_unpack_identity_all_widths() {
    for b in 1..64usize {
        let max_v: u64 = (1u64 << b) - 1;
        let samples: [u64; 4] = [0, 1, max_v / 2, max_v];
        let mut w = BitWriter::new();
        for v in samples {
            w.write_bits(v, b);
        }
        let bytes = w.into_bytes();
        let mut r = BitReader::new();
        r.append_bytes(&bytes);
        for v in samples {
            assert_eq!(r.read_bits(b), v);
        }
    }
    // the full 64-bit width
    let mut w = BitWriter::new();
    w.write_bits(u64::MAX, 64);
    w.write_bits(0x0123_4567_89ab_cdef, 64);
    let bytes = w.into_bytes();
    let mut r = BitReader::new();
    r.append_bytes(&bytes);
    assert_eq!(r.read_bits(64), u64::MAX);
    assert_eq!(r.read_bits(64), 0x0123_4567_89ab_cdef);
}

#[test]
fn three_records_round_trip() {
    let rows = xyz_rows();
    let (phys, desc) = encode_rows(xyz_proto(), &rows);
    assert_eq!(desc.record_count, 3);
    let decoded = decode_section(phys, xyz_proto(), &desc).expect("intact section must decode");
    assert_eq!(decoded.len(), 3);
    assert_eq!(decoded, rows);
    assert_eq!(decoded[0][0], RecordValue::Double(1.5f64.to_bits()));
    assert_eq!(decoded[1][1], RecordValue::Integer(200));
}

#[test]
fn scaled_integer_round_trip() {
    let scale: f64 = 0.001;
    let offset: f64 = 0.0;
    let raw = ((1.234f64 - offset) / scale).round() as i64;
    assert_eq!(raw, 1234);
    let t = RecordType::ScaledInteger {
        min: 0,
        max: 2000,
        scale_bits: scale.to_bits(),
        offset_bits: offset.to_bits(),
    };
    let proto = vec![field("height", t)];
    let rows = vec![vec![RecordValue::ScaledInteger(raw)]];
    let (phys, desc) = encode_rows(proto, &rows);
    let t2 = RecordType::ScaledInteger {
        min: 0,
        max: 2000,
        scale_bits: scale.to_bits(),
        offset_bits: offset.to_bits(),
    };
    let decoded = decode_section(phys, vec![field("height", t2)], &desc).expect("must decode");
    match decoded[0][0] {
        RecordValue::ScaledInteger(got) => {
            assert_eq!(got, 1234);
            let value = got as f64 * scale + offset;
            assert!((value - 1.234).abs() <= scale / 2.0);
            assert!((value - 1.234).abs() < 1e-9);
        },
        _ => panic!("wrong value kind"),
    }
}

#[test]
fn out_of_range_encode_is_refused() {
    let mut enc = Encoder::new(vec![field("intensity", RecordType::Integer { min: 0, max: 255 })])
        .expect("prototype must validate");
    let bad = vec![RecordValue::Integer(300)];
    assert_eq!(enc.add_row(&bad), Err(Error::ValueOutOfRange));
    let good = vec![RecordValue::Integer(255)];
    assert_eq!(enc.add_row(&good), Ok(()));
    let (phys, desc) = enc.finish(0);
    // the refused row left nothing in the stream: only the good row exists
    assert_eq!(desc.record_count, 1);
    let proto = vec![field("intensity", RecordType::Integer { min: 0, max: 255 })];
    let decoded = decode_section(phys, proto, &desc).expect("must decode");
    assert_eq!(decoded, vec![vec![RecordValue::Integer(255)]]);
}

#[test]
fn single_byte_corruption_detected() {
    // enough rows for two pages: 120 rows of 72 bits = 1080 payload bytes
    let mut rows: Vec<Vec<RecordValue>> = Vec::new();
    for i in 0..120i64 {
        rows.push(vec![
            RecordValue::Double((i as f64 * 0.5).to_bits()),
            RecordValue::Integer(i % 256),
        ]);
    }
    let (phys, desc) = encode_rows(xyz_proto(), &rows);
    assert_eq!(e57::byte_stream::PAGE_SIZE, e57::byte_stream::PAYLOAD_SIZE + e57::byte_stream::CHECKSUM_SIZE);
    assert_eq!(phys.len(), 2 * e57::byte_stream::PAGE_SIZE);
    for i in 0..phys.len() {
        let mut bad = phys.clone();
        bad[i] = bad[i].wrapping_add(1);
        match decode_section(bad, xyz_proto(), &desc) {
            Err(Error::ChecksumMismatch { page }) => {
                assert_eq!(page, i / e57::byte_stream::PAGE_SIZE)
            },
            other => panic!("corrupt byte {} was not detected: {:?}", i, other),
        }
    }
}

#[test]
fn iterator_yields_declared_count() {
    let rows = xyz_rows();
    let (phys, desc) = encode_rows(xyz_proto(), &rows);
    let mut it = PointCloudIterator::new(phys, xyz_proto(), &desc).expect("section must open");
    assert_eq!(it.record_count(), 3);
    let mut yielded = 0usize;
    while let Some(row) = it.next().expect("intact section must decode") {
        assert_eq!(row, rows[yielded]);
        yielded += 1;
    }
    assert_eq!(yielded, 3);
    // pulling past exhaustion yields no further element, not an error
    assert_eq!(it.next(), Ok(None));
    assert_eq!(it.next(), Ok(None));
}

#[test]
fn truncated_section_detected() {
    let rows = xyz_rows();
    let (phys, desc) = encode_rows(xyz_proto(), &rows);
    // a descriptor that promises one more row than the stream holds
    let lying = SectionDescriptor {
        offset: desc.offset,
        logical_length: desc.logical_length,
        record_count: desc.record_count + 1,
    };
    assert_eq!(
        decode_section(phys.clone(), xyz_proto(), &lying),
        Err(Error::TruncatedSection)
    );
    // physical bytes that are not a whole number of pages
    let mut short = phys.clone();
    short.truncate(1000);
    assert_eq!(
        decode_section(short, xyz_proto(), &desc),
        Err(Error::TruncatedSection)
    );
    // a declared logical length beyond what the pages hold
    let lying_len = SectionDescriptor {
        offset: desc.offset,
        logical_length: 5000,
        record_count: desc.record_count,
    };
    assert_eq!(
        decode_section(phys, xyz_proto(), &lying_len),
        Err(Error::TruncatedSection)
    );
}

#[test]
fn invalid_descriptor_rejected() {
    assert_eq!(
        RecordType::Integer { min: 5, max: 4 }.validate(),
        Err(Error::InvalidFieldDescriptor)
    );
    let zero_scale = RecordType::ScaledInteger {
        min: 0,
        max: 10,
        scale_bits: 0.0f64.to_bits(),
        offset_bits: 0.0f64.to_bits(),
    };
    assert_eq!(zero_scale.validate(), Err(Error::InvalidFieldDescriptor));
    let negative_scale = RecordType::ScaledInteger {
        min: 0,
        max: 10,
        scale_bits: (-0.001f64).to_bits(),
        offset_bits: 0.0f64.to_bits(),
    };
    assert_eq!(negative_scale.validate(), Err(Error::InvalidFieldDescriptor));
    assert_eq!(RecordType::Integer { min: -1, max: 1 }.validate(), Ok(()));
    match Encoder::new(vec![field("bad", RecordType::Integer { min: 5, max: 4 })]) {
        Err(Error::InvalidFieldDescriptor) => {},
        _ => panic!("inverted bounds must be refused"),
    }
}

#[test]
fn schema_mismatch_rejected() {
    let mut enc = Encoder::new(xyz_proto()).expect("prototype must validate");
    // wrong kind in the second field
    let wrong_kind = vec![
        RecordValue::Double(1.0f64.to_bits()),
        RecordValue::Double(2.0f64.to_bits()),
    ];
    assert_eq!(enc.add_row(&wrong_kind), Err(Error::SchemaMismatch));
    // a missing field
    let too_short = vec![RecordValue::Double(1.0f64.to_bits())];
    assert_eq!(enc.add_row(&too_short), Err(Error::SchemaMismatch));
    // an extra field
    let too_long = vec![
        RecordValue::Double(1.0f64.to_bits()),
        RecordValue::Integer(1),
        RecordValue::Integer(2),
    ];
    assert_eq!(enc.add_row(&too_long), Err(Error::SchemaMismatch));
}

#[test]
fn decoded_raw_beyond_span_is_refused() {
    // Integer{0,200} occupies 8 bits, so the stream can carry raws the
    // bounds exclude; decoding one is an out-of-range error, not a clamp
    let mut w = BitWriter::new();
    w.write_bits(250, 8);
    let payload = w.into_bytes();
    let mut pages = e57::PagedWriter::new();
    pages.write_all(&payload);
    let phys = pages.finish();
    let desc = SectionDescriptor { offset: 0, logical_length: 1, record_count: 1 };
    let proto = vec![field("intensity", RecordType::Integer { min: 0, max: 200 })];
    assert_eq!(decode_section(phys, proto, &desc), Err(Error::ValueOutOfRange));
}

#[test]
fn zero_width_field_round_trip() {
    // a constant field occupies no bits at all
    let proto = vec![
        field("flag", RecordType::Integer { min: 7, max: 7 }),
        field("intensity", RecordType::Integer { min: 0, max: 255 }),
    ];
    let rows = vec![
        vec![RecordValue::Integer(7), RecordValue::Integer(42)],
        vec![RecordValue::Integer(7), RecordValue::Integer(99)],
    ];
    let (phys, desc) = encode_rows(proto, &rows);
    assert_eq!(desc.logical_length, 2);
    let proto2 = vec![
        field("flag", RecordType::Integer { min: 7, max: 7 }),
        field("intensity", RecordType::Integer { min: 0, max: 255 }),
    ];
    let decoded = decode_section(phys, proto2, &desc).expect("must decode");
    assert_eq!(decoded, rows);
}

#[test]
fn empty_section_round_trip() {
    let (phys, desc) = encode_rows(xyz_proto(), &[]);
    assert_eq!(desc.record_count, 0);
    assert_eq!(desc.logical_length, 0);
    assert_eq!(phys.len(), 0);
    let decoded = decode_section(phys, xyz_proto(), &desc).expect("must decode");
    assert!(decoded.is_empty());
}

#[test]
fn negative_bounds_round_trip() {
    let proto = vec![field("delta", RecordType::Integer { min: -1000, max: 1000 })];
    let rows = vec![
        vec![RecordValue::Integer(-1000)],
        vec![RecordValue::Integer(0)],
        vec![RecordValue::Integer(1000)],
        vec![RecordValue::Integer(-1)],
    ];
    let (phys, desc) = encode_rows(proto, &rows);
    let proto2 = vec![field("delta", RecordType::Integer { min: -1000, max: 1000 })];
    let decoded = decode_section(phys, proto2, &desc).expect("must decode");
    assert_eq!(decoded, rows);
}

#[test]
fn single_precision_round_trip() {
    let proto = vec![field("temperature", RecordType::Single)];
    let rows = vec![
        vec![RecordValue::Single(21.5f32.to_bits())],
        vec![RecordValue::Single((-0.0f32).to_bits())],
        vec![RecordValue::Single(f32::MAX.to_bits())],
    ];
    let (phys, desc) = encode_rows(proto, &rows);
    let proto2 = vec![field("temperature", RecordType::Single)];
    let decoded = decode_section(phys, proto2, &desc).expect("must decode");
    assert_eq!(decoded, rows);
    match decoded[0][0] {
        RecordValue::Single(bits) => assert_eq!(f32::from_bits(bits), 21.5),
        _ => panic!("wrong value kind"),
    }
}
