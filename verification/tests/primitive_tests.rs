use wire_codec::bytes::{write_be, write_bytes};
use wire_codec::cursor::Cursor;
use wire_codec::errors::DecodeError;
use wire_codec::field::{FieldKind, FieldValue};
use wire_codec::tlv::TlvRecord;
use wire_codec::varint::write_varint;

fn varint_bytes(x: u64) -> Vec<u8> {
    let mut out = Vec::new();
    write_varint(&mut out, x);
    out
}

#[test]
fn varint_encodes_compactly() {
    assert_eq!(varint_bytes(0), vec![0x00]);
    assert_eq!(varint_bytes(0xFC), vec![0xFC]);
    assert_eq!(varint_bytes(0xFD), vec![0xFD, 0x00, 0xFD]);
    assert_eq!(varint_bytes(0xFFFF), vec![0xFD, 0xFF, 0xFF]);
    assert_eq!(varint_bytes(0x1_0000), vec![0xFE, 0x00, 0x01, 0x00, 0x00]);
    assert_eq!(
        varint_bytes(0xFFFF_FFFF),
        vec![0xFE, 0xFF, 0xFF, 0xFF, 0xFF]
    );
    assert_eq!(
        varint_bytes(0x1_0000_0000),
        vec![0xFF, 0x00, 0x00, 0x00, 0x01, 0x00, 0x00, 0x00, 0x00]
    );
}

#[test]
fn varint_round_trips_at_width_boundaries() {
    for x in [
        0u64,
        1,
        0xFC,
        0xFD,
        0xFFFF,
        0x1_0000,
        0xFFFF_FFFF,
        0x1_0000_0000,
        u64::MAX,
    ] {
        let data = varint_bytes(x);
        let mut cur = Cursor::new();
        assert_eq!(cur.read_varint(&data), Ok(x));
        assert_eq!(cur.pos, data.len());
    }
}

#[test]
fn varint_rejects_non_minimal_encoding() {
    // 0x10 written in the three-byte form must be one byte instead
    let data = vec![0xFD, 0x00, 0x10];
    let mut cur = Cursor::new();
    assert_eq!(cur.read_varint(&data), Err(DecodeError::Malformed));
    assert_eq!(cur.pos, 0);
}

#[test]
fn varint_rejects_truncated_encoding() {
    let data = vec![0xFD, 0x01];
    let mut cur = Cursor::new();
    assert_eq!(cur.read_varint(&data), Err(DecodeError::Truncated));
    assert_eq!(cur.pos, 0);
}

#[test]
fn peek_does_not_consume() {
    let data = vec![0xFD, 0x01, 0x00, 0x42];
    let mut cur = Cursor::new();
    assert_eq!(cur.peek_varint(&data), Ok(Some(0x100)));
    assert_eq!(cur.pos, 0);
    // the peeked bytes are still there for the consuming read
    assert_eq!(cur.read_varint(&data), Ok(0x100));
    assert_eq!(cur.pos, 3);
    assert_eq!(cur.peek_varint(&data), Ok(Some(0x42)));
    assert_eq!(cur.pos, 3);
}

#[test]
fn peek_reports_end_of_stream() {
    let data = vec![0x07];
    let mut cur = Cursor::new();
    assert_eq!(cur.read_varint(&data), Ok(7));
    assert_eq!(cur.peek_varint(&data), Ok(None));
}

#[test]
fn big_endian_read_and_write_agree() {
    let mut out = Vec::new();
    write_be(&mut out, 0x0102_0304_0506_0708, 8);
    assert_eq!(out, vec![1, 2, 3, 4, 5, 6, 7, 8]);
    let mut cur = Cursor::new();
    assert_eq!(cur.read_be(&out, 8), Ok(0x0102_0304_0506_0708));

    let mut out16 = Vec::new();
    write_be(&mut out16, 0xBEEF, 2);
    assert_eq!(out16, vec![0xBE, 0xEF]);
}

#[test]
fn read_be_past_end_is_truncated() {
    let data = vec![1, 2, 3];
    let mut cur = Cursor::new();
    assert_eq!(cur.read_be(&data, 4), Err(DecodeError::Truncated));
    assert_eq!(cur.pos, 0);
}

#[test]
fn write_bytes_appends() {
    let mut out = vec![1u8];
    write_bytes(&mut out, &vec![2, 3]);
    assert_eq!(out, vec![1, 2, 3]);
}

#[test]
fn tlv_record_round_trips_raw() {
    let mut out = Vec::new();
    wire_codec::tlv::write_tlv_record(&mut out, 300, &vec![0xAA, 0xBB]);
    assert_eq!(out, vec![0xFD, 0x01, 0x2C, 0x02, 0xAA, 0xBB]);
    let mut cur = Cursor::new();
    let rec = cur.read_tlv_record(&out).unwrap();
    assert_eq!(
        rec,
        TlvRecord { ext_type: 300, value: vec![0xAA, 0xBB] }
    );
    assert_eq!(cur.pos, out.len());
}

#[test]
fn field_codec_reads_each_kind() {
    let data = vec![
        0x11, // U8
        0x22, 0x33, // U16
        0x44, 0x55, 0x66, 0x77, // U32
        0x00, 0x01, 0x02, 0x03, 0x04, 0x05, 0x06, 0x07, // U64
        0xAA, 0xBB, // FixedBytes(2)
        0x00, 0x01, 0xCC, // VarBytes, one byte
    ];
    let mut cur = Cursor::new();
    assert_eq!(cur.read_field(&data, FieldKind::U8), Ok(FieldValue::U8(0x11)));
    assert_eq!(
        cur.read_field(&data, FieldKind::U16),
        Ok(FieldValue::U16(0x2233))
    );
    assert_eq!(
        cur.read_field(&data, FieldKind::U32),
        Ok(FieldValue::U32(0x4455_6677))
    );
    assert_eq!(
        cur.read_field(&data, FieldKind::U64),
        Ok(FieldValue::U64(0x0001_0203_0405_0607))
    );
    assert_eq!(
        cur.read_field(&data, FieldKind::FixedBytes(2)),
        Ok(FieldValue::Bytes(vec![0xAA, 0xBB]))
    );
    assert_eq!(
        cur.read_field(&data, FieldKind::VarBytes),
        Ok(FieldValue::Bytes(vec![0xCC]))
    );
    assert_eq!(cur.pos, data.len());
}

#[test]
fn var_bytes_length_prefix_covers_payload() {
    // the prefix says three bytes but only two remain
    let data = vec![0x00, 0x03, 0x01, 0x02];
    let mut cur = Cursor::new();
    assert_eq!(
        cur.read_field(&data, FieldKind::VarBytes),
        Err(DecodeError::Truncated)
    );
    assert_eq!(cur.pos, 0);
}
