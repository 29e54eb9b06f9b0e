use dwat::decoder::{
    address_of, decode_fields, decode_log, fits_type, word_eq, word_to_i24, word_to_u128,
    DecodeFailure, DecodeFailureReason, DecodedEvent, FieldValue, RawLog, SwapV2, SwapV3,
};
use dwat::schema::{EventSchema, FieldSpec, SchemaError, SemanticType, SwapVariant};
use dwat::word::{Address, Word};

fn addr(seed: u8) -> Address {
    let mut bytes = [0u8; 20];
    for (i, b) in bytes.iter_mut().enumerate() {
        *b = seed.wrapping_add(i as u8);
    }
    Address { bytes }
}

fn addr_word(a: &Address) -> Word {
    let mut bytes = [0u8; 32];
    bytes[12..].copy_from_slice(&a.bytes);
    Word { bytes }
}

fn int_word(v: i128) -> Word {
    let mut bytes = if v < 0 { [0xffu8; 32] } else { [0u8; 32] };
    bytes[16..].copy_from_slice(&v.to_be_bytes());
    Word { bytes }
}

fn uint_word(v: u128) -> Word {
    Word::from_u128(v)
}

fn encode_v2(schema: &EventSchema, r: &SwapV2) -> RawLog {
    let mut data = Vec::new();
    for w in [r.amount0_in, r.amount1_in, r.amount0_out, r.amount1_out] {
        data.extend_from_slice(&w.bytes);
    }
    RawLog {
        address: addr(200),
        topics: vec![schema.signature, addr_word(&r.sender), addr_word(&r.to)],
        data,
    }
}

fn encode_v3(schema: &EventSchema, r: &SwapV3) -> RawLog {
    let mut data = Vec::new();
    let words = [
        r.amount0,
        r.amount1,
        r.sqrt_price_x96,
        uint_word(r.liquidity),
        int_word(r.tick as i128),
    ];
    for w in words {
        data.extend_from_slice(&w.bytes);
    }
    RawLog {
        address: addr(100),
        topics: vec![schema.signature, addr_word(&r.sender), addr_word(&r.recipient)],
        data,
    }
}

fn sample_v2() -> SwapV2 {
    SwapV2 {
        sender: addr(1),
        amount0_in: uint_word(0),
        amount1_in: uint_word(2_500_000_000_000_000_000),
        amount0_out: uint_word(7_123_456),
        amount1_out: Word { bytes: [0xff; 32] },
        to: addr(50),
    }
}

fn sample_v3(tick: i32) -> SwapV3 {
    SwapV3 {
        sender: addr(3),
        recipient: addr(90),
        amount0: int_word(-1_000_000_000_000),
        amount1: int_word(987_654_321),
        sqrt_price_x96: uint_word(79228162514264337593543950336),
        liquidity: u128::MAX,
        tick,
    }
}

fn failure(log: &RawLog, schema: &EventSchema) -> DecodeFailureReason {
    match decode_log(log.clone(), schema) {
        DecodedEvent::Failure(DecodeFailure { reason, log: back }) => {
            assert_eq!(&back, log);
            reason
        }
        other => panic!("expected a failure, got {:?}", other),
    }
}

#[test]
fn v2_round_trip() {
    let schema = EventSchema::swap_v2();
    let rec = sample_v2();
    let log = encode_v2(&schema, &rec);
    assert_eq!(decode_log(log, &schema), DecodedEvent::V2(rec));
}

#[test]
fn v3_round_trip_with_negative_values() {
    let schema = EventSchema::swap_v3();
    for tick in [0, 1, -1, 887272, -887272, 8388607, -8388608] {
        let rec = sample_v3(tick);
        let log = encode_v3(&schema, &rec);
        assert_eq!(decode_log(log, &schema), DecodedEvent::V3(rec));
    }
}

#[test]
fn v3_signed_amount_keeps_twos_complement() {
    let schema = EventSchema::swap_v3();
    let rec = sample_v3(-5);
    let log = encode_v3(&schema, &rec);
    match decode_log(log, &schema) {
        DecodedEvent::V3(out) => {
            assert_eq!(out.amount0.bytes[0], 0xff);
            assert_eq!(out.amount0, int_word(-1_000_000_000_000));
            assert_eq!(out.tick, -5);
        }
        other => panic!("unexpected {:?}", other),
    }
}

#[test]
fn signature_mismatch_is_rejected() {
    let schema = EventSchema::swap_v2();
    let mut log = encode_v2(&schema, &sample_v2());
    log.topics[0].bytes[31] ^= 1;
    assert_eq!(failure(&log, &schema), DecodeFailureReason::SignatureMismatch);
    let v3 = EventSchema::swap_v3();
    let log = encode_v2(&schema, &sample_v2());
    assert_eq!(failure(&log, &v3), DecodeFailureReason::SignatureMismatch);
}

#[test]
fn missing_topics_are_rejected() {
    let schema = EventSchema::swap_v2();
    let mut log = encode_v2(&schema, &sample_v2());
    log.topics.pop();
    assert_eq!(failure(&log, &schema), DecodeFailureReason::TopicCountMismatch);
    log.topics.clear();
    assert_eq!(failure(&log, &schema), DecodeFailureReason::TopicCountMismatch);
}

#[test]
fn extra_topic_is_rejected() {
    let schema = EventSchema::swap_v3();
    let mut log = encode_v3(&schema, &sample_v3(7));
    log.topics.push(Word::zero());
    assert_eq!(failure(&log, &schema), DecodeFailureReason::TopicCountMismatch);
}

#[test]
fn wrong_data_length_is_rejected() {
    let schema = EventSchema::swap_v2();
    let mut log = encode_v2(&schema, &sample_v2());
    log.data.pop();
    assert_eq!(failure(&log, &schema), DecodeFailureReason::DataLengthMismatch);
    log.data.truncate(96);
    assert_eq!(failure(&log, &schema), DecodeFailureReason::DataLengthMismatch);
    log.data.clear();
    assert_eq!(failure(&log, &schema), DecodeFailureReason::DataLengthMismatch);
}

#[test]
fn out_of_range_values_are_rejected() {
    let schema = EventSchema::swap_v3();
    let mut log = encode_v3(&schema, &sample_v3(1));
    // liquidity word with a bit above 128 bits
    log.data[3 * 32 + 15] = 1;
    assert_eq!(failure(&log, &schema), DecodeFailureReason::ValueOutOfRange);

    let mut log = encode_v3(&schema, &sample_v3(1));
    // tick word that is not a sign extension of 24 bits
    log.data[4 * 32 + 28] = 1;
    assert_eq!(failure(&log, &schema), DecodeFailureReason::ValueOutOfRange);

    let mut log = encode_v3(&schema, &sample_v3(1));
    // sqrtPriceX96 above 160 bits
    log.data[2 * 32] = 0x80;
    assert_eq!(failure(&log, &schema), DecodeFailureReason::ValueOutOfRange);

    let v2 = EventSchema::swap_v2();
    let mut log = encode_v2(&v2, &sample_v2());
    // address topic with bits above 160
    log.topics[1].bytes[0] = 1;
    assert_eq!(failure(&log, &v2), DecodeFailureReason::ValueOutOfRange);
}

#[test]
fn decoding_is_idempotent() {
    let schema = EventSchema::swap_v3();
    let log = encode_v3(&schema, &sample_v3(-42));
    let first = decode_log(log.clone(), &schema);
    let second = decode_log(log.clone(), &schema);
    assert_eq!(first, second);
    let mut bad = log;
    bad.data.push(0);
    assert_eq!(decode_log(bad.clone(), &schema), decode_log(bad, &schema));
}

#[test]
fn generic_fields_follow_declaration_order() {
    let schema = EventSchema::swap_v2();
    let rec = sample_v2();
    let log = encode_v2(&schema, &rec);
    let vals = decode_fields(&log, &schema).unwrap();
    assert_eq!(vals.len(), 6);
    assert_eq!(vals[0], FieldValue::Address(rec.sender));
    assert_eq!(vals[2], FieldValue::Uint(rec.amount1_in));
    assert_eq!(vals[5], FieldValue::Address(rec.to));
}

#[test]
fn word_helpers() {
    let a = addr(9);
    assert_eq!(address_of(&addr_word(&a)), a);
    assert!(word_eq(&int_word(-3), &int_word(-3)));
    assert!(!word_eq(&int_word(-3), &int_word(3)));
    assert_eq!(word_to_u128(&uint_word(123456789)), 123456789);
    assert_eq!(word_to_i24(&int_word(-8388608)), -8388608);
    assert_eq!(word_to_i24(&int_word(8388607)), 8388607);
    assert!(fits_type(&int_word(-8388608), SemanticType::Int(24)));
    assert!(!fits_type(&int_word(8388608), SemanticType::Int(24)));
    assert!(!fits_type(&int_word(-8388609), SemanticType::Int(24)));
    assert!(fits_type(&uint_word(u128::MAX), SemanticType::Uint(128)));
    assert!(!fits_type(&int_word(-1), SemanticType::Uint(128)));
    assert!(fits_type(&int_word(-1), SemanticType::Int(256)));
}

#[test]
fn schema_layout_is_checked_on_construction() {
    let v2 = EventSchema::swap_v2();
    let ok = EventSchema::new("Swap".to_string(), v2.signature, v2.fields.clone(), SwapVariant::V2);
    assert!(ok.is_ok());
    let wrong = EventSchema::new("Swap".to_string(), v2.signature, v2.fields.clone(), SwapVariant::V3);
    assert_eq!(wrong.err(), Some(SchemaError::LayoutMismatch));
    let mut fields = EventSchema::swap_v3().fields;
    fields[6] = FieldSpec::new("tick", false, SemanticType::Int(32));
    let bad = EventSchema::new("Swap".to_string(), v2.signature, fields, SwapVariant::V3);
    assert_eq!(bad.err(), Some(SchemaError::LayoutMismatch));
    assert_eq!(EventSchema::swap_v3().fields[4].name, "sqrtPriceX96");
}
