//! The scalar value model: a `Datum` is one tagged fact value.

use vstd::prelude::*;

verus! {

/// A tagged scalar value held by one fact of a state.
///
/// Equality is structural. Ordering comparisons and arithmetic are defined
/// only between two values of the same numeric variant (`I64` with `I64`,
/// `U64` with `U64`).
#[derive(Clone, Copy, Debug, PartialEq, Eq, Hash, Structural)]
pub enum Datum {
    /// A boolean flag.
    Bool(bool),
    /// A signed integer quantity.
    I64(i64),
    /// An unsigned integer quantity.
    U64(u64),
    /// An enumerated tag, stored as its discriminating number.
    Enum(u64),
}

impl Datum {
    /// True of the two numeric variants, on which ordering and arithmetic
    /// are defined.
    pub open spec fn is_numeric(self) -> bool {
        match self {
            Datum::I64(_) => true,
            Datum::U64(_) => true,
            Datum::Bool(_) => false,
            Datum::Enum(_) => false,
        }
    }

    /// True when `self` and `other` are numeric values of the same variant,
    /// so that ordering and arithmetic between them are defined.
    pub open spec fn same_numeric(self, other: Datum) -> bool {
        match (self, other) {
            (Datum::I64(_), Datum::I64(_)) => true,
            (Datum::U64(_), Datum::U64(_)) => true,
            _ => false,
        }
    }

    /// The mathematical value of a numeric variant.
    pub open spec fn as_int(self) -> int {
        match self {
            Datum::I64(v) => v as int,
            Datum::U64(v) => v as int,
            Datum::Bool(_) => 0,
            Datum::Enum(v) => v as int,
        }
    }
}

} // verus!
