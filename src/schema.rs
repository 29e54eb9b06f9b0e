use vstd::prelude::*;
use crate::word::Word;

verus! {

/// How the bits of a field are to be read.
#[derive(Clone, Copy, Debug, PartialEq, Eq, Structural)]
pub enum SemanticType {
    /// A 160-bit account address.
    Address,
    /// An unsigned integer of the given number of bits.
    Uint(u16),
    /// A two's-complement signed integer of the given number of bits.
    Int(u16),
}

/// The number of bytes that a value of this type occupies at the low end of
/// its word.
pub open spec fn width_bytes(t: SemanticType) -> int {
    match t {
        SemanticType::Address => 20,
        SemanticType::Uint(b) => b as int / 8,
        SemanticType::Int(b) => b as int / 8,
    }
}

/// A bit width that a word can carry: a whole number of bytes, 8 to 256 bits.
pub open spec fn type_wf(t: SemanticType) -> bool {
    match t {
        SemanticType::Address => true,
        SemanticType::Uint(b) => b % 8 == 0 && 8 <= b <= 256,
        SemanticType::Int(b) => b % 8 == 0 && 8 <= b <= 256,
    }
}

/// One field of an event, in declaration order.
#[derive(Clone, Debug)]
pub struct FieldSpec {
    pub name: String,
    /// Carried in a topic word rather than in the data payload.
    pub is_indexed: bool,
    pub semantic_type: SemanticType,
}

/// The record type that an event decodes into.
#[derive(Clone, Copy, Debug, PartialEq, Eq, Structural)]
pub enum SwapVariant {
    V2,
    V3,
}

/// The static description of one event: its name, its signature hash (the
/// first topic of every log of it) and its ordered fields.
#[derive(Clone, Debug)]
pub struct EventSchema {
    pub name: String,
    pub signature: Word,
    pub fields: Vec<FieldSpec>,
    pub variant: SwapVariant,
}

/// The number of fields in `fs` that are indexed (`indexed`) or that are not.
pub open spec fn count_kind(fs: Seq<FieldSpec>, indexed: bool) -> nat
    decreases fs.len(),
{
    if fs.len() == 0 {
        0
    } else {
        count_kind(fs.drop_last(), indexed) + if fs.last().is_indexed == indexed {
            1nat
        } else {
            0nat
        }
    }
}

/// Field `i` of `fs` has the given encoding and type.
pub open spec fn field_is(fs: Seq<FieldSpec>, i: int, indexed: bool, t: SemanticType) -> bool {
    fs[i].is_indexed == indexed && fs[i].semantic_type == t
}

/// The fields of a V2 swap: sender and recipient indexed, four unsigned
/// 256-bit amounts in the data.
pub open spec fn v2_layout(fs: Seq<FieldSpec>) -> bool {
    &&& fs.len() == 6
    &&& field_is(fs, 0, true, SemanticType::Address)
    &&& field_is(fs, 1, false, SemanticType::Uint(256))
    &&& field_is(fs, 2, false, SemanticType::Uint(256))
    &&& field_is(fs, 3, false, SemanticType::Uint(256))
    &&& field_is(fs, 4, false, SemanticType::Uint(256))
    &&& field_is(fs, 5, true, SemanticType::Address)
}

/// The fields of a V3 swap: sender and recipient indexed; two signed 256-bit
/// amounts, a 160-bit price, a 128-bit liquidity and a 24-bit tick in the data.
pub open spec fn v3_layout(fs: Seq<FieldSpec>) -> bool {
    &&& fs.len() == 7
    &&& field_is(fs, 0, true, SemanticType::Address)
    &&& field_is(fs, 1, true, SemanticType::Address)
    &&& field_is(fs, 2, false, SemanticType::Int(256))
    &&& field_is(fs, 3, false, SemanticType::Int(256))
    &&& field_is(fs, 4, false, SemanticType::Uint(160))
    &&& field_is(fs, 5, false, SemanticType::Uint(128))
    &&& field_is(fs, 6, false, SemanticType::Int(24))
}

/// Why a schema was refused.
#[derive(Clone, Copy, Debug, PartialEq, Eq)]
pub enum SchemaError {
    /// The fields do not have the encodings and types of the record variant.
    LayoutMismatch,
}

impl EventSchema {
    /// A schema from its parts, accepted exactly when the fields have the
    /// layout of the record variant; checked once, before any log is read.
    pub fn new(name: String, signature: Word, fields: Vec<FieldSpec>, variant: SwapVariant) -> (r:
        Result<EventSchema, SchemaError>)
        ensures
            r is Ok <==> (match variant {
                SwapVariant::V2 => v2_layout(fields@),
                SwapVariant::V3 => v3_layout(fields@),
            }),
            r is Ok ==> r->Ok_0.wf() && r->Ok_0 == (EventSchema { name, signature, fields, variant }),
            r is Err ==> r == Err::<EventSchema, SchemaError>(SchemaError::LayoutMismatch),
    {
        let ok = match variant {
            SwapVariant::V2 => {
                fields.len() == 6 && is(&fields[0], true, SemanticType::Address) && is(
                    &fields[1],
                    false,
                    SemanticType::Uint(256),
                ) && is(&fields[2], false, SemanticType::Uint(256)) && is(
                    &fields[3],
                    false,
                    SemanticType::Uint(256),
                ) && is(&fields[4], false, SemanticType::Uint(256)) && is(
                    &fields[5],
                    true,
                    SemanticType::Address,
                )
            },
            SwapVariant::V3 => {
                fields.len() == 7 && is(&fields[0], true, SemanticType::Address) && is(
                    &fields[1],
                    true,
                    SemanticType::Address,
                ) && is(&fields[2], false, SemanticType::Int(256)) && is(
                    &fields[3],
                    false,
                    SemanticType::Int(256),
                ) && is(&fields[4], false, SemanticType::Uint(160)) && is(
                    &fields[5],
                    false,
                    SemanticType::Uint(128),
                ) && is(&fields[6], false, SemanticType::Int(24))
            },
        };
        if ok {
            Ok(EventSchema { name, signature, fields, variant })
        } else {
            Err(SchemaError::LayoutMismatch)
        }
    }

    /// The fields agree with the record type that the schema decodes into.
    pub open spec fn wf(&self) -> bool {
        match self.variant {
            SwapVariant::V2 => v2_layout(self.fields@),
            SwapVariant::V3 => v3_layout(self.fields@),
        }
    }

    /// `Swap(address,uint256,uint256,uint256,uint256,address)` of a V2 pair.
    pub fn swap_v2() -> (r: EventSchema)
        ensures
            r.wf(),
            r.variant == SwapVariant::V2,
    {
        let fields = vec![
            FieldSpec::new("sender", true, SemanticType::Address),
            FieldSpec::new("amount0In", false, SemanticType::Uint(256)),
            FieldSpec::new("amount1In", false, SemanticType::Uint(256)),
            FieldSpec::new("amount0Out", false, SemanticType::Uint(256)),
            FieldSpec::new("amount1Out", false, SemanticType::Uint(256)),
            FieldSpec::new("to", true, SemanticType::Address),
        ];
        let signature = Word {
            bytes: [
                0xd7, 0x8a, 0xd9, 0x5f, 0xa4, 0x6c, 0x99, 0x4b, 0x65, 0x51, 0xd0, 0xda, 0x85, 0xfc,
                0x27, 0x5f, 0xe6, 0x13, 0xce, 0x37, 0x65, 0x7f, 0xb8, 0xd5, 0xe3, 0xd1, 0x30, 0x84,
                0x01, 0x59, 0xd8, 0x22,
            ],
        };
        EventSchema { name: "Swap".to_owned(), signature, fields, variant: SwapVariant::V2 }
    }

    /// `Swap(address,address,int256,int256,uint160,uint128,int24)` of a V3 pool.
    pub fn swap_v3() -> (r: EventSchema)
        ensures
            r.wf(),
            r.variant == SwapVariant::V3,
    {
        let fields = vec![
            FieldSpec::new("sender", true, SemanticType::Address),
            FieldSpec::new("recipient", true, SemanticType::Address),
            FieldSpec::new("amount0", false, SemanticType::Int(256)),
            FieldSpec::new("amount1", false, SemanticType::Int(256)),
            FieldSpec::new("sqrtPriceX96", false, SemanticType::Uint(160)),
            FieldSpec::new("liquidity", false, SemanticType::Uint(128)),
            FieldSpec::new("tick", false, SemanticType::Int(24)),
        ];
        let signature = Word {
            bytes: [
                0xc4, 0x20, 0x79, 0xf9, 0x4a, 0x63, 0x50, 0xd7, 0xe6, 0x23, 0x5f, 0x29, 0x17, 0x49,
                0x24, 0xf9, 0x28, 0xcc, 0x2a, 0xc8, 0x18, 0xeb, 0x64, 0xfe, 0xd8, 0x00, 0x4e, 0x11,
                0x5f, 0xbc, 0xca, 0x67,
            ],
        };
        EventSchema { name: "Swap".to_owned(), signature, fields, variant: SwapVariant::V3 }
    }
}

fn is(f: &FieldSpec, indexed: bool, t: SemanticType) -> (r: bool)
    ensures
        r == (f.is_indexed == indexed && f.semantic_type == t),
{
    f.is_indexed == indexed && f.semantic_type == t
}

impl FieldSpec {
    pub fn new(name: &str, is_indexed: bool, semantic_type: SemanticType) -> (r: FieldSpec)
        ensures
            r.name@ == name@,
            r.is_indexed == is_indexed,
            r.semantic_type == semantic_type,
    {
        FieldSpec { name: name.to_owned(), is_indexed, semantic_type }
    }
}

} // verus!
