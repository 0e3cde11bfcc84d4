//! Typed values: the integer encodings that a scan can look for, the items
//! that a scan records, and the conditions that a refinement applies.

use crate::bytes::{le_value, lemma_le_value_bound, lemma_pow256_values, load_le, pow256};
use vstd::prelude::*;

verus! {

/// An integer encoding. A value of a type is aligned to its size.
#[derive(Debug, Clone, Copy, PartialEq, Eq, Structural)]
pub enum ValueType {
    I8,
    I16,
    I32,
    I64,
    U8,
    U16,
    U32,
    U64,
}

impl ValueType {
    /// Number of bytes of a value.
    pub open spec fn size_spec(self) -> nat {
        match self {
            ValueType::I8 | ValueType::U8 => 1,
            ValueType::I16 | ValueType::U16 => 2,
            ValueType::I32 | ValueType::U32 => 4,
            ValueType::I64 | ValueType::U64 => 8,
        }
    }

    /// Whether the encoding is two's complement.
    pub open spec fn signed_spec(self) -> bool {
        match self {
            ValueType::I8 | ValueType::I16 | ValueType::I32 | ValueType::I64 => true,
            _ => false,
        }
    }

    /// The number under which the type is kept in a candidate set.
    pub open spec fn tag_spec(self) -> u8 {
        match self {
            ValueType::I8 => 0u8,
            ValueType::I16 => 1u8,
            ValueType::I32 => 2u8,
            ValueType::I64 => 3u8,
            ValueType::U8 => 4u8,
            ValueType::U16 => 5u8,
            ValueType::U32 => 6u8,
            ValueType::U64 => 7u8,
        }
    }

    /// The type kept under `tag`; a number that is no tag reads as `U64`.
    pub open spec fn of_tag_spec(tag: u8) -> ValueType {
        if tag == 0 {
            ValueType::I8
        } else if tag == 1 {
            ValueType::I16
        } else if tag == 2 {
            ValueType::I32
        } else if tag == 3 {
            ValueType::I64
        } else if tag == 4 {
            ValueType::U8
        } else if tag == 5 {
            ValueType::U16
        } else if tag == 6 {
            ValueType::U32
        } else {
            ValueType::U64
        }
    }

    /// Number of bytes of a value.
    pub fn size(self) -> (n: usize)
        ensures
            n == self.size_spec(),
            n == 1 || n == 2 || n == 4 || n == 8,
    {
        match self {
            ValueType::I8 | ValueType::U8 => 1,
            ValueType::I16 | ValueType::U16 => 2,
            ValueType::I32 | ValueType::U32 => 4,
            ValueType::I64 | ValueType::U64 => 8,
        }
    }

    /// Whether the encoding is two's complement.
    pub fn is_signed(self) -> (signed: bool)
        ensures
            signed == self.signed_spec(),
    {
        match self {
            ValueType::I8 | ValueType::I16 | ValueType::I32 | ValueType::I64 => true,
            _ => false,
        }
    }

    /// The number under which the type is kept in a candidate set.
    pub fn tag(self) -> (tag: u8)
        ensures
            tag == self.tag_spec(),
            ValueType::of_tag_spec(tag) == self,
    {
        match self {
            ValueType::I8 => 0,
            ValueType::I16 => 1,
            ValueType::I32 => 2,
            ValueType::I64 => 3,
            ValueType::U8 => 4,
            ValueType::U16 => 5,
            ValueType::U32 => 6,
            ValueType::U64 => 7,
        }
    }

    /// The type kept under `tag`.
    pub fn of_tag(tag: u8) -> (value_type: ValueType)
        ensures
            value_type == ValueType::of_tag_spec(tag),
    {
        match tag {
            0 => ValueType::I8,
            1 => ValueType::I16,
            2 => ValueType::I32,
            3 => ValueType::I64,
            4 => ValueType::U8,
            5 => ValueType::U16,
            6 => ValueType::U32,
            _ => ValueType::U64,
        }
    }
}

/// The integer that `bytes` spell in the encoding `value_type`, least
/// significant byte first.
pub open spec fn decode(bytes: Seq<u8>, value_type: ValueType) -> int {
    let raw = le_value(bytes) as int;
    let span = pow256(value_type.size_spec()) as int;
    if value_type.signed_spec() && 2 * raw >= span {
        raw - span
    } else {
        raw
    }
}

/// What a refinement asks of the value recorded earlier and the value read
/// now.
#[derive(Debug, Clone, Copy, PartialEq, Eq, Structural)]
pub enum FuzzyCondition {
    Unchanged,
    Changed,
    Increased,
    Decreased,
    IncreasedBy(i128),
    DecreasedBy(i128),
    GreaterThan(i128),
    LessThan(i128),
    InRange(i128, i128),
}

impl FuzzyCondition {
    /// Whether the condition holds of the value `before` and the value `now`.
    pub open spec fn holds(self, before: int, now: int) -> bool {
        match self {
            FuzzyCondition::Unchanged => now == before,
            FuzzyCondition::Changed => now != before,
            FuzzyCondition::Increased => now > before,
            FuzzyCondition::Decreased => now < before,
            FuzzyCondition::IncreasedBy(delta) => now - before == delta,
            FuzzyCondition::DecreasedBy(delta) => before - now == delta,
            FuzzyCondition::GreaterThan(bound) => now > bound,
            FuzzyCondition::LessThan(bound) => now < bound,
            FuzzyCondition::InRange(low, high) => low <= now <= high,
        }
    }
}

/// An address with the value that was read there.
#[derive(Debug, Clone, Copy, PartialEq, Eq, Structural)]
pub struct FuzzySearchResultItem {
    pub address: u64,
    pub value: i128,
    pub value_type: ValueType,
}

impl FuzzySearchResultItem {
    /// The item at `address` whose value `bytes` spell.
    pub open spec fn from_bytes_spec(address: u64, bytes: Seq<u8>, value_type: ValueType) -> FuzzySearchResultItem {
        FuzzySearchResultItem { address, value: decode(bytes, value_type) as i128, value_type }
    }

    /// Whether `condition` holds of this item's value and the value that
    /// `current` spells. Bytes of another length than the value's spell no
    /// value, and no condition holds of them.
    pub open spec fn matches_spec(self, current: Seq<u8>, condition: FuzzyCondition) -> bool {
        current.len() == self.value_type.size_spec() && condition.holds(
            self.value as int,
            decode(current, self.value_type),
        )
    }

    /// Decodes the item at `address` from the little-endian `bytes`.
    pub fn from_bytes(address: u64, bytes: &[u8], value_type: ValueType) -> (item: FuzzySearchResultItem)
        requires
            bytes.len() == value_type.size_spec(),
        ensures
            item == FuzzySearchResultItem::from_bytes_spec(address, bytes@, value_type),
            item.value == decode(bytes@, value_type),
    {
        let size: usize = value_type.size();
        let raw: u64 = load_le(bytes, 0, size);
        proof {
            assert(bytes@.subrange(0, size as int) =~= bytes@);
            lemma_le_value_bound(bytes@);
            lemma_pow256_values();
        }
        let wide: i128 = raw as i128;
        let value: i128 = match value_type {
            ValueType::I8 => if raw >= 0x80 {
                wide - 0x100
            } else {
                wide
            },
            ValueType::I16 => if raw >= 0x8000 {
                wide - 0x1_0000
            } else {
                wide
            },
            ValueType::I32 => if raw >= 0x8000_0000 {
                wide - 0x1_0000_0000
            } else {
                wide
            },
            ValueType::I64 => if raw >= 0x8000_0000_0000_0000 {
                wide - 0x1_0000_0000_0000_0000
            } else {
                wide
            },
            _ => wide,
        };
        FuzzySearchResultItem { address, value, value_type }
    }

    /// Whether `condition` holds of the recorded value and the value that
    /// `current` spells.
    pub fn matches_condition(&self, current: &[u8], condition: FuzzyCondition) -> (matched: bool)
        ensures
            matched == self.matches_spec(current@, condition),
    {
        if current.len() != self.value_type.size() {
            return false;
        }
        let now: i128 = FuzzySearchResultItem::from_bytes(self.address, current, self.value_type).value;
        proof {
            lemma_le_value_bound(current@);
            lemma_pow256_values();
        }
        let before: i128 = self.value;
        match condition {
            FuzzyCondition::Unchanged => now == before,
            FuzzyCondition::Changed => now != before,
            FuzzyCondition::Increased => now > before,
            FuzzyCondition::Decreased => now < before,
            FuzzyCondition::IncreasedBy(delta) => match now.checked_sub(before) {
                Some(diff) => diff == delta,
                None => false,
            },
            FuzzyCondition::DecreasedBy(delta) => match before.checked_sub(now) {
                Some(diff) => diff == delta,
                None => false,
            },
            FuzzyCondition::GreaterThan(bound) => now > bound,
            FuzzyCondition::LessThan(bound) => now < bound,
            FuzzyCondition::InRange(low, high) => low <= now && now <= high,
        }
    }
}

} // verus!
