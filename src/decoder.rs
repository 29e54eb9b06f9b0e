use vstd::prelude::*;
use crate::schema::{
    count_kind, width_bytes, EventSchema, FieldSpec, SemanticType, SwapVariant, type_wf,
};
use crate::word::{
    be_nat, lemma_be_nat_bound, lemma_be_nat_leading_zeros, lemma_sign_extension, lemma_u128_bound,
    pow256, signed_of, Address, Word,
};

verus! {

/// A log as the chain delivers it: the emitting contract, its topic words
/// (the event signature first, then the indexed fields in declaration order)
/// and its data payload (one 32-byte word per non-indexed field).
#[derive(Clone, Debug, PartialEq, Eq)]
pub struct RawLog {
    pub address: Address,
    pub topics: Vec<Word>,
    pub data: Vec<u8>,
}

/// Why a log could not be decoded against a schema.
#[derive(Clone, Copy, Debug, PartialEq, Eq)]
pub enum DecodeFailureReason {
    SignatureMismatch,
    TopicCountMismatch,
    DataLengthMismatch,
    ValueOutOfRange,
}

/// One decoded field. Integers keep their full word; a signed one holds its
/// two's-complement form, sign-extended from its declared width.
#[derive(Clone, Copy, Debug, PartialEq, Eq)]
pub enum FieldValue {
    Address(Address),
    Uint(Word),
    Int(Word),
}

/// The word that field `i` of `fs` is read from: the next topic after the
/// signature for an indexed field, the next 32-byte data word otherwise.
pub open spec fn field_word(log: RawLog, fs: Seq<FieldSpec>, i: int) -> Seq<u8> {
    if fs[i].is_indexed {
        log.topics@[1 + count_kind(fs.take(i), true) as int]@
    } else {
        let k = count_kind(fs.take(i), false) as int;
        log.data@.subrange(32 * k, 32 * k + 32)
    }
}

/// The byte that fills the unused high bytes of a signed value whose top
/// byte is `b`.
pub open spec fn sign_fill(b: u8) -> u8 {
    if b >= 128 {
        0xff
    } else {
        0
    }
}

/// The word holds a value of the type: above the type's low bytes stand only
/// zeros (unsigned, address) or copies of the value's sign (signed).
pub open spec fn fits(w: Seq<u8>, t: SemanticType) -> bool {
    let k = 32 - width_bytes(t);
    match t {
        SemanticType::Int(_) => forall|j: int| 0 <= j < k ==> w[j] == sign_fill(w[k]),
        _ => forall|j: int| 0 <= j < k ==> w[j] == 0,
    }
}

/// `v` is the value that a field of type `t` takes from the word `w`.
pub open spec fn value_matches(v: FieldValue, w: Seq<u8>, t: SemanticType) -> bool {
    match t {
        SemanticType::Address => v is Address && v->Address_0@ == w.subrange(12, 32),
        SemanticType::Uint(_) => v is Uint && v->Uint_0@ == w,
        SemanticType::Int(_) => v is Int && v->Int_0@ == w,
    }
}

/// The first check that `log` fails against `schema`, in this order: a
/// signature (first topic) to compare, the signature, the topic count, the
/// data length, and the range of each field. `None` when it passes them all.
pub open spec fn decode_error(log: RawLog, schema: EventSchema) -> Option<DecodeFailureReason> {
    let fs = schema.fields@;
    if log.topics@.len() == 0 {
        Some(DecodeFailureReason::TopicCountMismatch)
    } else if log.topics@[0]@ != schema.signature@ {
        Some(DecodeFailureReason::SignatureMismatch)
    } else if log.topics@.len() != 1 + count_kind(fs, true) {
        Some(DecodeFailureReason::TopicCountMismatch)
    } else if log.data@.len() != 32 * count_kind(fs, false) {
        Some(DecodeFailureReason::DataLengthMismatch)
    } else if exists|i: int|
        0 <= i < fs.len() && !fits(#[trigger] field_word(log, fs, i), fs[i].semantic_type) {
        Some(DecodeFailureReason::ValueOutOfRange)
    } else {
        None
    }
}

/// Every field type has a width that a word can carry.
pub open spec fn fields_wf(fs: Seq<FieldSpec>) -> bool {
    forall|i: int| 0 <= i < fs.len() ==> type_wf(#[trigger] fs[i].semantic_type)
}

proof fn lemma_count_step(fs: Seq<FieldSpec>, i: int, indexed: bool)
    requires
        0 <= i < fs.len(),
    ensures
        count_kind(fs.take(i + 1), indexed) == count_kind(fs.take(i), indexed) + if fs[i].is_indexed
            == indexed {
            1nat
        } else {
            0nat
        },
{
    assert(fs.take(i + 1).drop_last() =~= fs.take(i));
}

proof fn lemma_count_prefix(fs: Seq<FieldSpec>, i: int, indexed: bool)
    requires
        0 <= i <= fs.len(),
    ensures
        count_kind(fs.take(i), indexed) <= count_kind(fs, indexed),
    decreases fs.len() - i,
{
    if i < fs.len() {
        lemma_count_step(fs, i, indexed);
        lemma_count_prefix(fs, i + 1, indexed);
    } else {
        assert(fs.take(i) =~= fs);
    }
}

/// Compares two words byte by byte.
pub fn word_eq(a: &Word, b: &Word) -> (r: bool)
    ensures
        r == (a@ == b@),
{
    let mut i: usize = 0;
    while i < 32
        invariant
            0 <= i <= 32,
            forall|j: int| 0 <= j < i ==> a@[j] == b@[j],
        decreases 32 - i,
    {
        if a.bytes[i] != b.bytes[i] {
            return false;
        }
        i = i + 1;
    }
    assert(a@ =~= b@);
    true
}

fn word_at(data: &Vec<u8>, start: usize) -> (r: Word)
    requires
        start + 32 <= data@.len(),
    ensures
        r@ == data@.subrange(start as int, start + 32),
{
    let mut bytes = [0u8; 32];
    let mut i: usize = 0;
    let len = data.len();
    while i < 32
        invariant
            0 <= i <= 32,
            len == data@.len(),
            start + 32 <= len,
            forall|j: int| 0 <= j < i ==> bytes@[j] == data@[start + j],
        decreases 32 - i,
    {
        bytes[i] = data[start + i];
        i = i + 1;
    }
    assert(bytes@ =~= data@.subrange(start as int, start + 32));
    Word { bytes }
}

/// The low 20 bytes of a word, as an address.
pub fn address_of(w: &Word) -> (r: Address)
    ensures
        r@ == w@.subrange(12, 32),
{
    let mut bytes = [0u8; 20];
    let mut i: usize = 0;
    while i < 20
        invariant
            0 <= i <= 20,
            forall|j: int| 0 <= j < i ==> bytes@[j] == w@[12 + j],
        decreases 20 - i,
    {
        bytes[i] = w.bytes[12 + i];
        i = i + 1;
    }
    assert(bytes@ =~= w@.subrange(12, 32));
    Address { bytes }
}

fn width_of(t: SemanticType) -> (r: usize)
    requires
        type_wf(t),
    ensures
        r as int == width_bytes(t),
        1 <= r <= 32,
{
    match t {
        SemanticType::Address => 20,
        SemanticType::Uint(b) => (b / 8) as usize,
        SemanticType::Int(b) => (b / 8) as usize,
    }
}

/// Whether the word holds a value of the type.
pub fn fits_type(w: &Word, t: SemanticType) -> (r: bool)
    requires
        type_wf(t),
    ensures
        r == fits(w@, t),
{
    let k: usize = 32 - width_of(t);
    assert(k as int == 32 - width_bytes(t));
    let fill: u8 = match t {
        SemanticType::Int(_) => if w.bytes[k] >= 128 {
            0xff
        } else {
            0
        },
        _ => 0,
    };
    let mut i: usize = 0;
    while i < k
        invariant
            0 <= i <= k < 32,
            k as int == 32 - width_bytes(t),
            fill == (match t {
                SemanticType::Int(_) => sign_fill(w@[k as int]),
                _ => 0u8,
            }),
            forall|j: int| 0 <= j < i ==> w@[j] == fill,
        decreases k - i,
    {
        if w.bytes[i] != fill {
            assert(w@[i as int] != fill);
            assert(!fits(w@, t)) by {
                match t {
                    SemanticType::Int(_) => {
                        assert(fill == sign_fill(w@[k as int]));
                    },
                    _ => {
                        assert(fill == 0);
                    },
                }
            }
            return false;
        }
        i = i + 1;
    }
    true
}

/// Reads the fields of `log` in declaration order, after checking its
/// signature, its topic count, its data length and the range of each value.
pub fn decode_fields(log: &RawLog, schema: &EventSchema) -> (r: Result<
    Vec<FieldValue>,
    DecodeFailureReason,
>)
    requires
        fields_wf(schema.fields@),
    ensures
        decode_error(*log, *schema) is Some ==> r == Err::<Vec<FieldValue>, DecodeFailureReason>(
            decode_error(*log, *schema)->Some_0,
        ),
        decode_error(*log, *schema) is None ==> r is Ok && r->Ok_0@.len() == schema.fields@.len()
            && forall|i: int|
            0 <= i < schema.fields@.len() ==> value_matches(
                #[trigger] r->Ok_0@[i],
                field_word(*log, schema.fields@, i),
                schema.fields@[i].semantic_type,
            ),
{
    let ghost fs = schema.fields@;
    if log.topics.len() == 0 {
        return Err(DecodeFailureReason::TopicCountMismatch);
    }
    if !word_eq(&log.topics[0], &schema.signature) {
        return Err(DecodeFailureReason::SignatureMismatch);
    }
    let n = schema.fields.len();
    let mut n_topics: usize = 0;
    let mut n_data: usize = 0;
    let mut i: usize = 0;
    while i < n
        invariant
            n == fs.len(),
            fs == schema.fields@,
            0 <= i <= n,
            n_topics == count_kind(fs.take(i as int), true),
            n_data == count_kind(fs.take(i as int), false),
            n_topics + n_data == i,
        decreases n - i,
    {
        proof {
            lemma_count_step(fs, i as int, true);
            lemma_count_step(fs, i as int, false);
        }
        if schema.fields[i].is_indexed {
            n_topics = n_topics + 1;
        } else {
            n_data = n_data + 1;
        }
        i = i + 1;
    }
    assert(fs.take(n as int) =~= fs);
    let n_topics_total = log.topics.len();
    let n_bytes = log.data.len();
    if n_topics_total - 1 != n_topics {
        return Err(DecodeFailureReason::TopicCountMismatch);
    }
    if n_data > n_bytes / 32 || n_bytes != 32 * n_data {
        return Err(DecodeFailureReason::DataLengthMismatch);
    }
    let mut vals: Vec<FieldValue> = Vec::new();
    let mut ti: usize = 1;
    let mut di: usize = 0;
    let mut i: usize = 0;
    while i < n
        invariant
            n == fs.len(),
            fs == schema.fields@,
            fields_wf(fs),
            0 <= i <= n,
            log.topics@.len() == 1 + count_kind(fs, true),
            log.data@.len() == 32 * count_kind(fs, false),
            n_topics_total == log.topics@.len(),
            log.topics@[0]@ == schema.signature@,
            n_bytes == log.data@.len(),
            ti == 1 + count_kind(fs.take(i as int), true),
            di == count_kind(fs.take(i as int), false),
            vals@.len() == i,
            forall|j: int|
                0 <= j < i ==> fits(#[trigger] field_word(*log, fs, j), fs[j].semantic_type),
            forall|j: int|
                0 <= j < i ==> value_matches(
                    #[trigger] vals@[j],
                    field_word(*log, fs, j),
                    fs[j].semantic_type,
                ),
        decreases n - i,
    {
        proof {
            lemma_count_step(fs, i as int, true);
            lemma_count_step(fs, i as int, false);
            lemma_count_prefix(fs, i + 1, true);
            lemma_count_prefix(fs, i + 1, false);
        }
        let spec_i = &schema.fields[i];
        let t = spec_i.semantic_type;
        assert(type_wf(fs[i as int].semantic_type));
        let w = if spec_i.is_indexed {
            let w = log.topics[ti];
            ti = ti + 1;
            w
        } else {
            let w = word_at(&log.data, 32 * di);
            di = di + 1;
            w
        };
        assert(w@ == field_word(*log, fs, i as int));
        if !fits_type(&w, t) {
            assert(!fits(field_word(*log, fs, i as int), fs[i as int].semantic_type));
            return Err(DecodeFailureReason::ValueOutOfRange);
        }
        let v = match t {
            SemanticType::Address => FieldValue::Address(address_of(&w)),
            SemanticType::Uint(_) => FieldValue::Uint(w),
            SemanticType::Int(_) => FieldValue::Int(w),
        };
        vals.push(v);
        i = i + 1;
    }
    Ok(vals)
}

/// A swap on a V2 pair.
#[derive(Clone, Copy, Debug, PartialEq, Eq)]
pub struct SwapV2 {
    pub sender: Address,
    pub amount0_in: Word,
    pub amount1_in: Word,
    pub amount0_out: Word,
    pub amount1_out: Word,
    pub to: Address,
}

/// A swap on a V3 pool. The amounts are two's-complement words (their sign
/// gives the direction of flow), the tick is widened to `i32`.
#[derive(Clone, Copy, Debug, PartialEq, Eq)]
pub struct SwapV3 {
    pub sender: Address,
    pub recipient: Address,
    pub amount0: Word,
    pub amount1: Word,
    pub sqrt_price_x96: Word,
    pub liquidity: u128,
    pub tick: i32,
}

/// A log that did not decode, with the reason and the log itself.
#[derive(Clone, Debug, PartialEq, Eq)]
pub struct DecodeFailure {
    pub reason: DecodeFailureReason,
    pub log: RawLog,
}

/// The outcome of decoding one log.
#[derive(Clone, Debug, PartialEq, Eq)]
pub enum DecodedEvent {
    V2(SwapV2),
    V3(SwapV3),
    Failure(DecodeFailure),
}

/// `r` holds the fields of `log` read as a V2 swap.
pub open spec fn v2_matches(r: SwapV2, log: RawLog, fs: Seq<FieldSpec>) -> bool {
    &&& r.sender@ == field_word(log, fs, 0).subrange(12, 32)
    &&& r.amount0_in@ == field_word(log, fs, 1)
    &&& r.amount1_in@ == field_word(log, fs, 2)
    &&& r.amount0_out@ == field_word(log, fs, 3)
    &&& r.amount1_out@ == field_word(log, fs, 4)
    &&& r.to@ == field_word(log, fs, 5).subrange(12, 32)
}

/// `r` holds the fields of `log` read as a V3 swap: the liquidity is the
/// unsigned value of its word, the tick the signed value of its low 3 bytes.
pub open spec fn v3_matches(r: SwapV3, log: RawLog, fs: Seq<FieldSpec>) -> bool {
    &&& r.sender@ == field_word(log, fs, 0).subrange(12, 32)
    &&& r.recipient@ == field_word(log, fs, 1).subrange(12, 32)
    &&& r.amount0@ == field_word(log, fs, 2)
    &&& r.amount1@ == field_word(log, fs, 3)
    &&& r.sqrt_price_x96@ == field_word(log, fs, 4)
    &&& r.liquidity as nat == be_nat(field_word(log, fs, 5))
    &&& r.tick as int == signed_of(field_word(log, fs, 6).subrange(29, 32))
}

/// `r` is what `log` decodes to under `schema`: the first failed check with
/// the log, or the record of the schema's variant.
pub open spec fn decodes_to(log: RawLog, schema: EventSchema, r: DecodedEvent) -> bool {
    match decode_error(log, schema) {
        Some(reason) => r == DecodedEvent::Failure(DecodeFailure { reason, log }),
        None => match schema.variant {
            SwapVariant::V2 => r is V2 && v2_matches(r->V2_0, log, schema.fields@),
            SwapVariant::V3 => r is V3 && v3_matches(r->V3_0, log, schema.fields@),
        },
    }
}

proof fn lemma_wf_fields(schema: EventSchema)
    requires
        schema.wf(),
    ensures
        fields_wf(schema.fields@),
{
}

/// The value of a word that holds a 128-bit unsigned integer.
pub fn word_to_u128(w: &Word) -> (r: u128)
    requires
        fits(w@, SemanticType::Uint(128)),
    ensures
        r as nat == be_nat(w@),
{
    let mut v: u128 = 0;
    let mut i: usize = 16;
    assert(w@.subrange(16, 16).len() == 0);
    while i < 32
        invariant
            16 <= i <= 32,
            v as nat == be_nat(w@.subrange(16, i as int)),
        decreases 32 - i,
    {
        proof {
            let s = w@.subrange(16, i + 1);
            assert(s.drop_last() =~= w@.subrange(16, i as int));
            lemma_be_nat_bound(s);
            lemma_pow256_mono((i + 1 - 16) as nat, 16);
            lemma_u128_bound(0);
            assert(be_nat(s) == v as nat * 256 + w@[i as int] as nat);
            assert(be_nat(s) < 0x1_0000_0000_0000_0000_0000_0000_0000_0000nat);
        }
        v = v * 256 + w.bytes[i] as u128;
        i = i + 1;
    }
    proof {
        lemma_be_nat_leading_zeros(w@, 16);
        assert(w@.subrange(16, 32) =~= w@.subrange(16, w@.len() as int));
    }
    v
}

proof fn lemma_pow256_mono(a: nat, b: nat)
    requires
        a <= b,
    ensures
        pow256(a) <= pow256(b),
    decreases b,
{
    if a < b {
        lemma_pow256_mono(a, (b - 1) as nat);
    }
}

/// The signed value of the low 3 bytes of a word.
pub fn word_to_i24(w: &Word) -> (r: i32)
    ensures
        r as int == signed_of(w@.subrange(29, 32)),
{
    let s = Ghost(w@.subrange(29, 32));
    let u: u32 = w.bytes[29] as u32 * 65536 + w.bytes[30] as u32 * 256 + w.bytes[31] as u32;
    proof {
        let s = s@;
        assert(s.drop_last().drop_last().drop_last().len() == 0);
        assert(be_nat(s) == be_nat(s.drop_last()) * 256 + s[2] as nat);
        assert(be_nat(s.drop_last()) == be_nat(s.drop_last().drop_last()) * 256 + s[1] as nat);
        let s1 = s.drop_last().drop_last();
        assert(be_nat(s1.drop_last()) == 0);
        assert(s1.last() == s[0]);
        assert(be_nat(s1) == be_nat(s1.drop_last()) * 256 + s1.last() as nat);
        assert(be_nat(s.drop_last().drop_last()) == s[0] as nat);
        reveal_with_fuel(pow256, 4);
        assert(pow256(3) == 16777216);
    }
    if w.bytes[29] >= 128 {
        u as i32 - 16777216
    } else {
        u as i32
    }
}

/// Decodes one log against a schema: a record of the schema's variant, or
/// the first check that the log fails, together with the log.
pub fn decode_log(log: RawLog, schema: &EventSchema) -> (r: DecodedEvent)
    requires
        schema.wf(),
    ensures
        decodes_to(log, *schema, r),
{
    proof {
        lemma_wf_fields(*schema);
    }
    match decode_fields(&log, schema) {
        Err(reason) => DecodedEvent::Failure(DecodeFailure { reason, log }),
        Ok(vals) => {
            let ghost fs = schema.fields@;
            assert(value_matches(vals@[0], field_word(log, fs, 0), fs[0].semantic_type));
            assert(value_matches(vals@[1], field_word(log, fs, 1), fs[1].semantic_type));
            assert(value_matches(vals@[2], field_word(log, fs, 2), fs[2].semantic_type));
            assert(value_matches(vals@[3], field_word(log, fs, 3), fs[3].semantic_type));
            assert(value_matches(vals@[4], field_word(log, fs, 4), fs[4].semantic_type));
            assert(value_matches(vals@[5], field_word(log, fs, 5), fs[5].semantic_type));
            match schema.variant {
                SwapVariant::V2 => {
                    if let (
                        FieldValue::Address(sender),
                        FieldValue::Uint(amount0_in),
                        FieldValue::Uint(amount1_in),
                        FieldValue::Uint(amount0_out),
                        FieldValue::Uint(amount1_out),
                        FieldValue::Address(to),
                    ) = (vals[0], vals[1], vals[2], vals[3], vals[4], vals[5]) {
                        DecodedEvent::V2(
                            SwapV2 { sender, amount0_in, amount1_in, amount0_out, amount1_out, to },
                        )
                    } else {
                        proof {
                            assert(false);
                        }
                        DecodedEvent::Failure(
                            DecodeFailure { reason: DecodeFailureReason::ValueOutOfRange, log },
                        )
                    }
                },
                SwapVariant::V3 => {
                    assert(value_matches(vals@[6], field_word(log, fs, 6), fs[6].semantic_type));
                    assert(!(decode_error(log, *schema) is Some));
                    assert(fits(field_word(log, fs, 5), fs[5].semantic_type));
                    if let (
                        FieldValue::Address(sender),
                        FieldValue::Address(recipient),
                        FieldValue::Int(amount0),
                        FieldValue::Int(amount1),
                        FieldValue::Uint(sqrt_price_x96),
                        FieldValue::Uint(liquidity),
                        FieldValue::Int(tick),
                    ) = (vals[0], vals[1], vals[2], vals[3], vals[4], vals[5], vals[6]) {
                        let liquidity = word_to_u128(&liquidity);
                        let tick = word_to_i24(&tick);
                        DecodedEvent::V3(
                            SwapV3 {
                                sender,
                                recipient,
                                amount0,
                                amount1,
                                sqrt_price_x96,
                                liquidity,
                                tick,
                            },
                        )
                    } else {
                        proof {
                            assert(false);
                        }
                        DecodedEvent::Failure(
                            DecodeFailure { reason: DecodeFailureReason::ValueOutOfRange, log },
                        )
                    }
                },
            }
        },
    }
}

/// The word that a field value is written back as: an address behind twelve
/// zero bytes, an integer as its word.
pub open spec fn encode_value(v: FieldValue) -> Seq<u8> {
    match v {
        FieldValue::Address(a) => Seq::new(12, |_j: int| 0u8) + a@,
        FieldValue::Uint(w) => w@,
        FieldValue::Int(w) => w@,
    }
}

/// Round trip: for a log laid out exactly as the schema asks, writing each
/// decoded field back as a word gives the word it was read from.
pub proof fn lemma_round_trip(log: RawLog, schema: EventSchema, vals: Seq<FieldValue>)
    requires
        fields_wf(schema.fields@),
        decode_error(log, schema) is None,
        vals.len() == schema.fields@.len(),
        forall|i: int|
            0 <= i < vals.len() ==> value_matches(
                #[trigger] vals[i],
                field_word(log, schema.fields@, i),
                schema.fields@[i].semantic_type,
            ),
    ensures
        forall|i: int|
            0 <= i < vals.len() ==> encode_value(#[trigger] vals[i]) == field_word(
                log,
                schema.fields@,
                i,
            ),
{
    let fs = schema.fields@;
    assert forall|i: int| 0 <= i < vals.len() implies encode_value(#[trigger] vals[i])
        == field_word(log, fs, i) by {
        let w = field_word(log, fs, i);
        assert(fits(w, fs[i].semantic_type));
        assert(type_wf(fs[i].semantic_type));
        if fs[i].is_indexed {
            lemma_count_step(fs, i, true);
            lemma_count_prefix(fs, i + 1, true);
        } else {
            lemma_count_step(fs, i, false);
            lemma_count_prefix(fs, i + 1, false);
        }
        assert(w.len() == 32);
        match vals[i] {
            FieldValue::Address(a) => {
                assert(encode_value(vals[i]) =~= w);
            },
            _ => {},
        }
    }
}

/// A log whose first topic is not the schema's signature decodes to a
/// signature mismatch, with no record.
pub proof fn lemma_signature_mismatch(log: RawLog, schema: EventSchema, r: DecodedEvent)
    requires
        log.topics@.len() > 0,
        log.topics@[0]@ != schema.signature@,
        decodes_to(log, schema, r),
    ensures
        r == DecodedEvent::Failure(
            DecodeFailure { reason: DecodeFailureReason::SignatureMismatch, log },
        ),
{
}

/// A log with the right signature but one topic too few, or whose data is
/// not one word per non-indexed field, decodes to a failure.
pub proof fn lemma_layout_mismatch(log: RawLog, schema: EventSchema, r: DecodedEvent)
    requires
        log.topics@.len() == count_kind(schema.fields@, true)
            || log.data@.len() != 32 * count_kind(schema.fields@, false),
        decodes_to(log, schema, r),
    ensures
        r is Failure,
{
}

/// Decoding has no hidden state: two results of decoding the same log with
/// the same schema are identical.
pub proof fn lemma_decode_deterministic(
    log: RawLog,
    schema: EventSchema,
    r1: DecodedEvent,
    r2: DecodedEvent,
)
    requires
        decodes_to(log, schema, r1),
        decodes_to(log, schema, r2),
    ensures
        r1 == r2,
{
    if decode_error(log, schema) is None {
        match schema.variant {
            SwapVariant::V2 => {
                let (a, b) = (r1->V2_0, r2->V2_0);
                assert(a.sender.bytes =~= b.sender.bytes);
                assert(a.amount0_in.bytes =~= b.amount0_in.bytes);
                assert(a.amount1_in.bytes =~= b.amount1_in.bytes);
                assert(a.amount0_out.bytes =~= b.amount0_out.bytes);
                assert(a.amount1_out.bytes =~= b.amount1_out.bytes);
                assert(a.to.bytes =~= b.to.bytes);
            },
            SwapVariant::V3 => {
                let (a, b) = (r1->V3_0, r2->V3_0);
                assert(a.sender.bytes =~= b.sender.bytes);
                assert(a.recipient.bytes =~= b.recipient.bytes);
                assert(a.amount0.bytes =~= b.amount0.bytes);
                assert(a.amount1.bytes =~= b.amount1.bytes);
                assert(a.sqrt_price_x96.bytes =~= b.sqrt_price_x96.bytes);
            },
        }
    }
}

/// Sign recovery: the tick of a decoded V3 swap is the two's-complement value
/// of the whole word that it was read from, negative ones included.
pub proof fn lemma_tick_sign_recovery(log: RawLog, schema: EventSchema, r: DecodedEvent)
    requires
        schema.wf(),
        schema.variant == SwapVariant::V3,
        decodes_to(log, schema, r),
        r is V3,
    ensures
        r->V3_0.tick as int == signed_of(field_word(log, schema.fields@, 6)),
{
    let fs = schema.fields@;
    let w = field_word(log, fs, 6);
    assert(decode_error(log, schema) is None);
    assert(fits(w, fs[6].semantic_type));
    lemma_count_step(fs, 6, false);
    lemma_count_prefix(fs, 7, false);
    assert(w.len() == 32);
    lemma_sign_extension(w, 29);
}

} // verus!
