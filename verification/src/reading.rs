//! Measured quantities (temperatures, wind speeds) as ordered integer codes.
//!
//! A measurement arrives as the 64 bits of a binary64 number.  The library
//! never does arithmetic on measurements: it only compares them and hands
//! them back.  A `Reading` therefore keeps the sign and the magnitude bits as
//! one signed integer, whose order and equality are those of the numbers
//! themselves.  Both zeros share the code 0, and a bit pattern that is not a
//! number has no code.

use vstd::prelude::*;

verus! {

/// The magnitude bits of positive infinity: the largest magnitude of a number.
pub const MAX_MAGNITUDE: i64 = 0x7FF0_0000_0000_0000;

/// The sign bit of a binary64 pattern.
pub const SIGN_BIT: u64 = 0x8000_0000_0000_0000;

/// The magnitude (the pattern without its sign bit) of a binary64 pattern.
pub open spec fn magnitude_of(bits: u64) -> int {
    if bits >= SIGN_BIT {
        bits - SIGN_BIT
    } else {
        bits as int
    }
}

/// Whether a binary64 pattern stands for a number (finite or infinite).
pub open spec fn is_number(bits: u64) -> bool {
    magnitude_of(bits) <= MAX_MAGNITUDE
}

/// The signed code of a binary64 pattern that stands for a number.
pub open spec fn code_of(bits: u64) -> int {
    if bits >= SIGN_BIT {
        -magnitude_of(bits)
    } else {
        magnitude_of(bits)
    }
}

/// The binary64 pattern of a code; zero gets the pattern of positive zero.
pub open spec fn bits_of(code: int) -> int {
    if code >= 0 {
        code
    } else {
        SIGN_BIT - code
    }
}

/// A measurement, ordered and compared by its code.
#[derive(Clone, Copy, Debug, PartialEq, Eq, Structural)]
pub struct Reading {
    code: i64,
}

impl View for Reading {
    type V = int;

    closed spec fn view(&self) -> int {
        self.code as int
    }
}

impl Reading {
    /// Every reading that exists at run time stands for a number.
    #[verifier::type_invariant]
    spec fn in_range(&self) -> bool {
        -MAX_MAGNITUDE <= self.code <= MAX_MAGNITUDE
    }

    /// Whether the code of this reading is the code of a number.
    pub open spec fn wf(&self) -> bool {
        -MAX_MAGNITUDE <= self@ <= MAX_MAGNITUDE
    }

    /// The reading of zero, for contracts.
    pub closed spec fn nought() -> Reading {
        Reading { code: 0 }
    }

    /// The reading of zero.
    pub fn zero() -> (r: Reading)
        ensures
            r == Reading::nought(),
            r@ == 0,
    {
        Reading { code: 0 }
    }

    /// The reading of a binary64 pattern, or `None` where the pattern is not
    /// a number.
    pub fn from_bits(bits: u64) -> (r: Option<Reading>)
        ensures
            r is Some <==> is_number(bits),
            r matches Some(x) ==> x@ == code_of(bits) && x.wf(),
    {
        if bits >= SIGN_BIT {
            let magnitude: u64 = bits - SIGN_BIT;
            if magnitude <= MAX_MAGNITUDE as u64 {
                Some(Reading { code: -(magnitude as i64) })
            } else {
                None
            }
        } else if bits <= MAX_MAGNITUDE as u64 {
            Some(Reading { code: bits as i64 })
        } else {
            None
        }
    }

    /// The binary64 pattern of this reading.
    pub fn to_bits(&self) -> (bits: u64)
        ensures
            self.wf(),
            bits == bits_of(self@),
            is_number(bits),
            code_of(bits) == self@,
    {
        proof {
            use_type_invariant(self);
        }
        if self.code >= 0 {
            self.code as u64
        } else {
            SIGN_BIT + ((-self.code) as u64)
        }
    }

    /// The signed code itself.
    pub fn code(&self) -> (c: i64)
        ensures
            c == self@,
    {
        self.code
    }

    /// Whether this reading is lower than `other`.
    pub fn below(&self, other: &Reading) -> (b: bool)
        ensures
            b == (self@ < other@),
    {
        self.code < other.code
    }

    /// Whether the two readings are the same number.
    pub fn same(&self, other: &Reading) -> (b: bool)
        ensures
            b == (self@ == other@),
    {
        self.code == other.code
    }

    /// The lower of two readings.
    pub fn lower(self, other: Reading) -> (r: Reading)
        ensures
            r@ == lower_code(self@, other@),
            r == self || r == other,
    {
        if other.code < self.code {
            other
        } else {
            self
        }
    }

    /// The higher of two readings.
    pub fn higher(self, other: Reading) -> (r: Reading)
        ensures
            r@ == higher_code(self@, other@),
            r == self || r == other,
    {
        if other.code > self.code {
            other
        } else {
            self
        }
    }
}

/// The reading of zero has the code 0.
pub proof fn lemma_nought_code()
    ensures
        Reading::nought()@ == 0,
        Reading::nought().wf(),
{
}

/// A reading is its code: two readings with one code are one reading.
pub proof fn lemma_same_code(a: Reading, b: Reading)
    requires
        a@ == b@,
    ensures
        a == b,
{
}

/// The lower of two codes.
pub open spec fn lower_code(a: int, b: int) -> int {
    if b < a {
        b
    } else {
        a
    }
}

/// The higher of two codes.
pub open spec fn higher_code(a: int, b: int) -> int {
    if b > a {
        b
    } else {
        a
    }
}

/// A pattern that stands for a number survives the way through its code,
/// except that negative zero comes back as positive zero.
pub proof fn lemma_bits_round_trip(bits: u64)
    requires
        is_number(bits),
    ensures
        bits != SIGN_BIT ==> bits_of(code_of(bits)) == bits,
        bits == SIGN_BIT ==> bits_of(code_of(bits)) == 0,
{
}

/// Two patterns of numbers have the same code exactly when they are the same
/// pattern or the two zeros.
pub proof fn lemma_code_injective(a: u64, b: u64)
    requires
        is_number(a),
        is_number(b),
    ensures
        code_of(a) == code_of(b) <==> (a == b || (magnitude_of(a) == 0 && magnitude_of(b) == 0)),
{
}

/// Among patterns of one sign the code grows with the magnitude for
/// non-negative numbers and falls with it for negative ones, and every
/// negative number lies below every non-negative one.
pub proof fn lemma_code_order(a: u64, b: u64)
    requires
        is_number(a),
        is_number(b),
    ensures
        a < SIGN_BIT && b < SIGN_BIT ==> (code_of(a) < code_of(b) <==> a < b),
        a >= SIGN_BIT && b >= SIGN_BIT ==> (code_of(a) < code_of(b) <==> a > b),
        a >= SIGN_BIT && b < SIGN_BIT ==> code_of(a) <= code_of(b),
{
}

} // verus!
