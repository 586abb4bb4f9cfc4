use rust_utils::{repack_record_fields, RepackError, TypeTag};

#[test]
fn u8_and_f32_record() {
    let mut buf = vec![0u8; 8];
    buf[0] = 0x2A;
    buf[4..8].copy_from_slice(&1.5f32.to_le_bytes());
    let out = repack_record_fields(&buf, &[0, 4], &['B', 'f'], 8).unwrap();
    let mut expected = vec![0x2Au8];
    expected.extend_from_slice(&1.5f32.to_le_bytes());
    assert_eq!(out, expected);
    assert_eq!(out.len(), 5);
}

#[test]
fn mismatched_lists_refused() {
    assert_eq!(
        repack_record_fields(&[1, 2, 3, 4], &[0, 1], &['B'], 2),
        Err(RepackError::FieldMismatch)
    );
    assert_eq!(
        repack_record_fields(&[], &[0], &[], 0),
        Err(RepackError::FieldMismatch)
    );
}

#[test]
fn zero_stride_refused() {
    assert_eq!(
        repack_record_fields(&[1, 2, 3], &[0], &['B'], 0),
        Err(RepackError::InvalidStride)
    );
}

#[test]
fn three_records_exact() {
    let buf: Vec<u8> = (0u8..24).collect();
    let out = repack_record_fields(&buf, &[0, 2], &['B', 'H'], 8).unwrap();
    assert_eq!(out, vec![0, 2, 3, 8, 10, 11, 16, 18, 19]);
}

#[test]
fn three_records_trailing_bytes_dropped() {
    let buf: Vec<u8> = (0u8..29).collect();
    let out = repack_record_fields(&buf, &[0, 2], &['B', 'H'], 8).unwrap();
    assert_eq!(out.len(), 3 * 3);
    assert_eq!(out, vec![0, 2, 3, 8, 10, 11, 16, 18, 19]);
    assert_eq!(Ok(out), repack_record_fields(&buf[..24], &[0, 2], &['B', 'H'], 8));
}

#[test]
fn field_past_stride_refused() {
    let buf = vec![0u8; 16];
    assert_eq!(
        repack_record_fields(&buf, &[0, 6], &['B', 'I'], 8),
        Err(RepackError::OutOfBounds)
    );
}

#[test]
fn unsupported_code_named() {
    let buf = vec![0u8; 16];
    assert_eq!(
        repack_record_fields(&buf, &[0, 4, 8], &['B', 'd', 'f'], 16),
        Err(RepackError::UnsupportedType('d'))
    );
    assert_eq!(
        repack_record_fields(&buf, &[0], &['q'], 8),
        Err(RepackError::UnsupportedType('q'))
    );
}

#[test]
fn unsupported_code_refused_on_empty_buffer() {
    assert_eq!(
        repack_record_fields(&[], &[0], &['Q'], 8),
        Err(RepackError::UnsupportedType('Q'))
    );
}

#[test]
fn signed_fields_keep_bit_pattern() {
    let mut buf = vec![0u8; 8];
    buf[0] = (-3i8) as u8;
    buf[2..4].copy_from_slice(&(-1234i16).to_le_bytes());
    buf[4..8].copy_from_slice(&(-123456i32).to_le_bytes());
    let out = repack_record_fields(&buf, &[4, 2, 0], &['i', 'h', 'b'], 8).unwrap();
    let mut expected = Vec::new();
    expected.extend_from_slice(&(-123456i32).to_le_bytes());
    expected.extend_from_slice(&(-1234i16).to_le_bytes());
    expected.push((-3i8) as u8);
    assert_eq!(out, expected);
}

#[test]
fn unsigned_wide_fields() {
    let mut buf = vec![0u8; 6];
    buf[0..4].copy_from_slice(&0xDEADBEEFu32.to_le_bytes());
    buf[4..6].copy_from_slice(&0xBEEFu16.to_le_bytes());
    let out = repack_record_fields(&buf, &[4, 0], &['H', 'I'], 6).unwrap();
    assert_eq!(out, vec![0xEF, 0xBE, 0xEF, 0xBE, 0xAD, 0xDE]);
}

#[test]
fn empty_buffer_gives_empty_output() {
    let out = repack_record_fields(&[], &[0, 1], &['B', 'b'], 4).unwrap();
    assert!(out.is_empty());
}

#[test]
fn buffer_shorter_than_stride_gives_no_records() {
    let out = repack_record_fields(&[1, 2, 3], &[0], &['I'], 4).unwrap();
    assert!(out.is_empty());
}

#[test]
fn field_into_trailing_bytes_refused() {
    // the field ends past its record even though the trailing bytes exist
    let buf: Vec<u8> = (0u8..6).collect();
    assert_eq!(
        repack_record_fields(&buf, &[3], &['H'], 4),
        Err(RepackError::OutOfBounds)
    );
}

#[test]
fn field_into_next_record_refused() {
    // record 0's field would read the first byte of record 1
    let buf: Vec<u8> = (0u8..10).collect();
    assert_eq!(
        repack_record_fields(&buf, &[0, 3], &['B', 'H'], 4),
        Err(RepackError::OutOfBounds)
    );
}

#[test]
fn field_ending_at_stride_accepted() {
    let buf: Vec<u8> = (0u8..9).collect();
    let out = repack_record_fields(&buf, &[2], &['H'], 4).unwrap();
    assert_eq!(out, vec![2, 3, 6, 7]);
}

#[test]
fn huge_offset_refused() {
    assert_eq!(
        repack_record_fields(&[0u8; 8], &[usize::MAX], &['B'], 8),
        Err(RepackError::OutOfBounds)
    );
}

#[test]
fn type_tags_and_widths() {
    let codes = ['B', 'b', 'H', 'h', 'I', 'i', 'f'];
    let tags = [
        TypeTag::U8,
        TypeTag::I8,
        TypeTag::U16,
        TypeTag::I16,
        TypeTag::U32,
        TypeTag::I32,
        TypeTag::F32,
    ];
    let widths = [1usize, 1, 2, 2, 4, 4, 4];
    for k in 0..codes.len() {
        assert_eq!(TypeTag::from_code(codes[k]), Some(tags[k]));
        assert_eq!(tags[k].width(), widths[k]);
    }
    assert_eq!(TypeTag::from_code('d'), None);
    assert_eq!(TypeTag::from_code('Q'), None);
}
