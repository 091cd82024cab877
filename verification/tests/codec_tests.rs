use wire_codec::cursor::Cursor;
use wire_codec::errors::DecodeError;
use wire_codec::family::Family;
use wire_codec::field::{FieldKind, FieldValue};
use wire_codec::msg::{Message, OptSlot, Schema};

fn ping_schema() -> Schema {
    Schema::new(0x0012, vec![FieldKind::U16, FieldKind::VarBytes], vec![]).unwrap()
}

fn ping_message(num_pong_bytes: u16, ignored: Vec<u8>) -> Message {
    Message {
        required: vec![FieldValue::U16(num_pong_bytes), FieldValue::Bytes(ignored)],
        optional: vec![],
    }
}

#[test]
fn ping_encodes_to_known_bytes() {
    let schema = ping_schema();
    let msg = ping_message(10, vec![]);
    let bytes = schema.encode_to_vec(&msg);
    assert_eq!(bytes, vec![0x00, 0x12, 0x00, 0x0A, 0x00, 0x00]);
}

#[test]
fn ping_decodes_from_known_bytes() {
    let schema = ping_schema();
    let data = vec![0x00, 0x12, 0x00, 0x0A, 0x00, 0x00];
    let mut cur = Cursor::new();
    let msg = schema.decode(&data, &mut cur, true).unwrap();
    assert_eq!(msg, ping_message(10, vec![]));
    assert_eq!(cur.pos, 6);
}

#[test]
fn encode_reports_byte_count() {
    let schema = ping_schema();
    let msg = ping_message(10, vec![1, 2, 3]);
    let mut out = Vec::new();
    let count = schema.encode(&msg, &mut out);
    assert_eq!(count, out.len());
    assert_eq!(count, 9);
}

#[test]
fn round_trip_all_field_kinds() {
    let schema = Schema::new(
        0x0100,
        vec![
            FieldKind::U8,
            FieldKind::U16,
            FieldKind::U32,
            FieldKind::U64,
            FieldKind::FixedBytes(3),
            FieldKind::VarBytes,
        ],
        vec![
            OptSlot { ext_type: 1, kind: FieldKind::U32 },
            OptSlot { ext_type: 7, kind: FieldKind::VarBytes },
        ],
    )
    .unwrap();
    let msg = Message {
        required: vec![
            FieldValue::U8(0xAB),
            FieldValue::U16(0xCDEF),
            FieldValue::U32(0xDEAD_BEEF),
            FieldValue::U64(0x0123_4567_89AB_CDEF),
            FieldValue::Bytes(vec![9, 8, 7]),
            FieldValue::Bytes(vec![0xFF; 300]),
        ],
        optional: vec![
            Some(FieldValue::U32(42)),
            Some(FieldValue::Bytes(vec![5, 5, 5])),
        ],
    };
    assert!(schema.message_fits(&msg));
    let bytes = schema.encode_to_vec(&msg);
    let mut cur = Cursor::new();
    let back = schema.decode(&bytes, &mut cur, true).unwrap();
    assert_eq!(back, msg);
    assert_eq!(cur.pos, bytes.len());
}

#[test]
fn tlv_tail_out_of_order_is_rejected() {
    // extension types 2, 5, 5: the repeat of 5 is not strictly increasing
    let schema = Schema::new(1, vec![], vec![]).unwrap();
    let data = vec![2, 0, 5, 0, 5, 0];
    let mut cur = Cursor::new();
    assert_eq!(
        schema.decode(&data, &mut cur, false),
        Err(DecodeError::OutOfOrder)
    );
}

#[test]
fn tlv_tail_out_of_order_rejected_with_declared_slots() {
    let schema = Schema::new(
        1,
        vec![],
        vec![
            OptSlot { ext_type: 2, kind: FieldKind::U8 },
            OptSlot { ext_type: 5, kind: FieldKind::U8 },
        ],
    )
    .unwrap();
    let data = vec![2, 1, 0x11, 5, 1, 0x22, 5, 1, 0x33];
    let mut cur = Cursor::new();
    assert_eq!(
        schema.decode(&data, &mut cur, false),
        Err(DecodeError::OutOfOrder)
    );
}

fn two_optionals_schema() -> Schema {
    Schema::new(
        7,
        vec![],
        vec![
            OptSlot { ext_type: 1, kind: FieldKind::U8 },
            OptSlot { ext_type: 3, kind: FieldKind::U8 },
        ],
    )
    .unwrap()
}

#[test]
fn absent_optional_resolves_to_none() {
    // the wire supplies only extension type 3; type 1 resolves to absent
    let schema = two_optionals_schema();
    let data = vec![3, 1, 0x2A];
    let mut cur = Cursor::new();
    let msg = schema.decode(&data, &mut cur, false).unwrap();
    assert_eq!(
        msg,
        Message {
            required: vec![],
            optional: vec![None, Some(FieldValue::U8(0x2A))],
        }
    );
}

#[test]
fn all_optionals_absent_on_empty_tail() {
    let schema = two_optionals_schema();
    let data = vec![];
    let mut cur = Cursor::new();
    let msg = schema.decode(&data, &mut cur, false).unwrap();
    assert_eq!(
        msg,
        Message { required: vec![], optional: vec![None, None] }
    );
}

#[test]
fn undeclared_extension_type_is_skipped() {
    let schema = two_optionals_schema();
    // type 2 is not declared: its record is skipped, type 3 still lands
    let data = vec![2, 2, 9, 9, 3, 1, 0x2A];
    let mut cur = Cursor::new();
    let msg = schema.decode(&data, &mut cur, false).unwrap();
    assert_eq!(
        msg,
        Message {
            required: vec![],
            optional: vec![None, Some(FieldValue::U8(0x2A))],
        }
    );
}

#[test]
fn truncation_before_final_required_field_is_truncated() {
    let schema = ping_schema();
    let full = schema.encode_to_vec(&ping_message(10, vec![]));
    assert_eq!(full.len(), 6);
    // the final required field ends at byte 6; cut anywhere before that
    for n in 0..6 {
        let cut = full[..n].to_vec();
        let mut cur = Cursor::new();
        assert_eq!(
            schema.decode(&cut, &mut cur, true),
            Err(DecodeError::Truncated),
            "cut at {}",
            n
        );
    }
}

#[test]
fn tag_mismatch_on_direct_decode_is_invalid_data() {
    let schema = ping_schema();
    let data = vec![0x00, 0x13, 0x00, 0x0A, 0x00, 0x00];
    let mut cur = Cursor::new();
    assert_eq!(
        schema.decode(&data, &mut cur, true),
        Err(DecodeError::InvalidData)
    );
}

#[test]
fn tlv_length_mismatch_is_malformed() {
    // the record declares two payload bytes, but a U8 field consumes one
    let schema = Schema::new(1, vec![], vec![OptSlot { ext_type: 1, kind: FieldKind::U8 }])
        .unwrap();
    let data = vec![1, 2, 0, 0];
    let mut cur = Cursor::new();
    assert_eq!(
        schema.decode(&data, &mut cur, false),
        Err(DecodeError::Malformed)
    );
}

#[test]
fn tlv_payload_shorter_than_declared_is_truncated() {
    let schema = Schema::new(1, vec![], vec![OptSlot { ext_type: 1, kind: FieldKind::U8 }])
        .unwrap();
    let data = vec![1, 5, 0];
    let mut cur = Cursor::new();
    assert_eq!(
        schema.decode(&data, &mut cur, false),
        Err(DecodeError::Truncated)
    );
}

#[test]
fn schema_new_rejects_unordered_slots() {
    assert!(Schema::new(
        1,
        vec![],
        vec![
            OptSlot { ext_type: 3, kind: FieldKind::U8 },
            OptSlot { ext_type: 3, kind: FieldKind::U8 },
        ],
    )
    .is_none());
    assert!(Schema::new(
        1,
        vec![],
        vec![
            OptSlot { ext_type: 4, kind: FieldKind::U8 },
            OptSlot { ext_type: 2, kind: FieldKind::U8 },
        ],
    )
    .is_none());
}

#[test]
fn message_fits_checks_kinds_and_domains() {
    let schema = ping_schema();
    assert!(schema.message_fits(&ping_message(1, vec![7])));
    // wrong kind
    let wrong = Message {
        required: vec![FieldValue::U8(1), FieldValue::Bytes(vec![])],
        optional: vec![],
    };
    assert!(!schema.message_fits(&wrong));
    // wrong arity
    let short = Message { required: vec![FieldValue::U16(1)], optional: vec![] };
    assert!(!schema.message_fits(&short));
    // a fixed byte string must have exactly the declared length
    let fixed = Schema::new(2, vec![FieldKind::FixedBytes(2)], vec![]).unwrap();
    let bad = Message {
        required: vec![FieldValue::Bytes(vec![1, 2, 3])],
        optional: vec![],
    };
    assert!(!fixed.message_fits(&bad));
    // a variable byte string must fit its two-byte length prefix
    let var = Schema::new(3, vec![FieldKind::VarBytes], vec![]).unwrap();
    let too_long = Message {
        required: vec![FieldValue::Bytes(vec![0; 0x1_0000])],
        optional: vec![],
    };
    assert!(!var.message_fits(&too_long));
}

fn sample_family() -> Family {
    let ping = ping_schema();
    let other = Schema::new(0x0013, vec![FieldKind::U8], vec![]).unwrap();
    Family::new(vec![ping, other]).unwrap()
}

#[test]
fn family_dispatches_by_tag() {
    let family = sample_family();
    let msg = Message { required: vec![FieldValue::U8(0x7F)], optional: vec![] };
    let mut out = Vec::new();
    family.encode(1, &msg, &mut out);
    assert_eq!(out, vec![0x00, 0x13, 0x7F]);
    let mut cur = Cursor::new();
    let (idx, back) = family.decode(&out, &mut cur).unwrap();
    assert_eq!(idx, 1);
    assert_eq!(back, msg);
}

#[test]
fn family_round_trips_every_member() {
    let family = sample_family();
    let values = vec![
        (0, ping_message(10, vec![1, 2])),
        (1, Message { required: vec![FieldValue::U8(3)], optional: vec![] }),
    ];
    for (idx, msg) in values {
        let mut out = Vec::new();
        family.encode(idx, &msg, &mut out);
        let mut cur = Cursor::new();
        let (back_idx, back) = family.decode(&out, &mut cur).unwrap();
        assert_eq!(back_idx, idx);
        assert_eq!(back, msg);
        assert_eq!(cur.pos, out.len());
    }
}

#[test]
fn unknown_tag_fails_after_exactly_two_bytes() {
    let family = sample_family();
    let data = vec![0xAB, 0xCD, 1, 2, 3];
    let mut cur = Cursor::new();
    assert_eq!(family.decode(&data, &mut cur), Err(DecodeError::InvalidData));
    assert_eq!(cur.pos, 2);
}

#[test]
fn family_decode_of_short_stream_is_truncated() {
    let family = sample_family();
    let data = vec![0x00];
    let mut cur = Cursor::new();
    assert_eq!(family.decode(&data, &mut cur), Err(DecodeError::Truncated));
    assert_eq!(cur.pos, 0);
}

#[test]
fn family_new_rejects_duplicate_tags() {
    let a = Schema::new(5, vec![], vec![]).unwrap();
    let b = Schema::new(5, vec![FieldKind::U8], vec![]).unwrap();
    assert!(Family::new(vec![a, b]).is_none());
}

#[test]
fn family_exposes_member_tags() {
    let family = sample_family();
    assert_eq!(family.len(), 2);
    assert_eq!(family.tag_of(0), 0x0012);
    assert_eq!(family.tag_of(1), 0x0013);
}

#[test]
fn index_of_tag_resolves_declared_tags_only() {
    let family = sample_family();
    assert_eq!(family.index_of_tag(0x0012), Some(0));
    assert_eq!(family.index_of_tag(0x0013), Some(1));
    assert_eq!(family.index_of_tag(0x0014), None);
}

#[test]
fn decode_starts_at_the_cursor_position() {
    let schema = ping_schema();
    let mut data = vec![0xEE, 0xEE];
    data.extend(schema.encode_to_vec(&ping_message(7, vec![9])));
    let mut cur = Cursor { pos: 2 };
    let msg = schema.decode(&data, &mut cur, true).unwrap();
    assert_eq!(msg, ping_message(7, vec![9]));
    assert_eq!(cur.pos, data.len());
}

#[test]
fn check_slots_accepts_hand_assembled_schemas() {
    let good = Schema {
        tag: 9,
        required: vec![FieldKind::U8],
        optional: vec![
            OptSlot { ext_type: 2, kind: FieldKind::U8 },
            OptSlot { ext_type: 6, kind: FieldKind::VarBytes },
        ],
    };
    assert!(good.check_slots());
    let bad = Schema {
        tag: 9,
        required: vec![],
        optional: vec![
            OptSlot { ext_type: 6, kind: FieldKind::U8 },
            OptSlot { ext_type: 2, kind: FieldKind::U8 },
        ],
    };
    assert!(!bad.check_slots());
}
