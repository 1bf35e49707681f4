//! Column types and the rules that validate candidate values.
//!
//! Every column carries a [`SqlType`]. A candidate cell value arrives as
//! text; `validate` decides whether the text is admissible for the type:
//! numeric types reject unparsable text as a type mismatch and parsable
//! but too large magnitudes as out of range, character types reject text
//! longer than the declared length.

use vstd::prelude::*;

verus! {

/// A column's declared SQL type.
#[derive(Clone, Copy, Debug, PartialEq, Eq, Structural)]
pub enum SqlType {
    /// 16-bit signed integer.
    SmallInt,
    /// 32-bit signed integer.
    Integer,
    /// 64-bit signed integer.
    BigInt,
    /// Fixed-width character string of the given length; shorter values
    /// are right-padded with spaces when stored.
    Char(u64),
    /// Variable-width character string of at most the given length.
    VarChar(u64),
}

/// A column's type together with its nullability.
#[derive(Clone, Copy, Debug, PartialEq, Eq, Structural)]
pub struct ColumnType {
    pub nullable: bool,
    pub sql_type: SqlType,
}

/// Why a candidate value was rejected for a type.
#[derive(Debug)]
pub enum ConstraintError {
    /// Numeric text whose value exceeds the type's range.
    OutOfRange,
    /// Text that does not parse as the type at all; carries the text.
    TypeMismatch(String),
    /// Text longer than the declared character length; carries that length.
    ValueTooLong(u64),
}

/// The ghost image of a [`ConstraintError`].
pub enum ConstraintErrorV {
    OutOfRange,
    TypeMismatch(Seq<char>),
    ValueTooLong(int),
}

impl View for ConstraintError {
    type V = ConstraintErrorV;

    open spec fn view(&self) -> ConstraintErrorV {
        match self {
            ConstraintError::OutOfRange => ConstraintErrorV::OutOfRange,
            ConstraintError::TypeMismatch(t) => ConstraintErrorV::TypeMismatch(t@),
            ConstraintError::ValueTooLong(n) => ConstraintErrorV::ValueTooLong(*n as int),
        }
    }
}

pub open spec fn is_digit(c: char) -> bool {
    48 <= c as u32 <= 57
}

pub open spec fn digit_val(c: char) -> int {
    c as u32 - 48
}

pub open spec fn all_digits(s: Seq<char>) -> bool {
    forall|i: int| 0 <= i < s.len() ==> is_digit(#[trigger] s[i])
}

/// The value of a digit string, most significant digit first.
pub open spec fn digits_value(s: Seq<char>) -> int
    decreases s.len(),
{
    if s.len() == 0 {
        0
    } else {
        digits_value(s.drop_last()) * 10 + digit_val(s.last())
    }
}

/// Whether the text is an optionally signed decimal integer.
pub open spec fn is_int_text(s: Seq<char>) -> bool {
    if s.len() == 0 {
        false
    } else if s[0] == '-' || s[0] == '+' {
        s.len() > 1 && all_digits(s.drop_first())
    } else {
        all_digits(s)
    }
}

/// The value of integer text; meaningful only when `is_int_text` holds.
pub open spec fn int_value(s: Seq<char>) -> int {
    if s.len() == 0 {
        0
    } else if s[0] == '-' {
        -digits_value(s.drop_first())
    } else if s[0] == '+' {
        digits_value(s.drop_first())
    } else {
        digits_value(s)
    }
}

/// The inclusive range of each numeric type; character types hold none.
pub open spec fn in_numeric_range(t: SqlType, v: int) -> bool {
    match t {
        SqlType::SmallInt => -32768 <= v <= 32767,
        SqlType::Integer => -2147483648 <= v <= 2147483647,
        SqlType::BigInt => -9223372036854775808 <= v <= 9223372036854775807,
        SqlType::Char(_) => false,
        SqlType::VarChar(_) => false,
    }
}

pub open spec fn is_numeric(t: SqlType) -> bool {
    t is SmallInt || t is Integer || t is BigInt
}

/// What `validate` decides for a type and candidate text: `None` admits
/// the text, `Some` carries the constraint violation.
pub open spec fn spec_validate(t: SqlType, s: Seq<char>) -> Option<ConstraintErrorV> {
    match t {
        SqlType::Char(n) => if s.len() > n {
            Some(ConstraintErrorV::ValueTooLong(n as int))
        } else {
            None
        },
        SqlType::VarChar(n) => if s.len() > n {
            Some(ConstraintErrorV::ValueTooLong(n as int))
        } else {
            None
        },
        _ => if !is_int_text(s) {
            Some(ConstraintErrorV::TypeMismatch(s))
        } else if !in_numeric_range(t, int_value(s)) {
            Some(ConstraintErrorV::OutOfRange)
        } else {
            None
        },
    }
}

/// What scanning integer text found.
enum IntScan {
    /// The text is not an optionally signed digit string.
    NotNumeric,
    /// The exact magnitude, and whether a minus sign led the text.
    Magnitude { negative: bool, value: u64 },
    /// All digits, but the magnitude exceeds what a `u64` holds.
    Huge { negative: bool },
}

proof fn lemma_digits_value_step(s: Seq<char>, lo: int, i: int)
    requires
        0 <= lo <= i < s.len(),
    ensures
        digits_value(s.subrange(lo, i + 1)) == digits_value(s.subrange(lo, i)) * 10 + digit_val(
            s[i],
        ),
{
    assert(s.subrange(lo, i + 1).drop_last() =~= s.subrange(lo, i));
    assert(s.subrange(lo, i + 1).last() == s[i]);
}

proof fn lemma_digits_value_nonneg(s: Seq<char>)
    requires
        all_digits(s),
    ensures
        digits_value(s) >= 0,
    decreases s.len(),
{
    if s.len() > 0 {
        assert(all_digits(s.drop_last())) by {
            assert(forall|i: int|
                0 <= i < s.len() - 1 ==> is_digit(#[trigger] s.drop_last()[i]) == is_digit(s[i]));
        }
        lemma_digits_value_nonneg(s.drop_last());
        assert(digits_value(s.drop_last()) * 10 >= 0);
    }
}

/// Scans optionally signed decimal text, reporting the exact magnitude
/// where it fits in a `u64`.
fn scan_int(s: &str) -> (r: IntScan)
    ensures
        r is NotNumeric <==> !is_int_text(s@),
        r matches IntScan::Magnitude { negative, value } ==> int_value(s@) == if negative {
            -(value as int)
        } else {
            value as int
        },
        r matches IntScan::Huge { negative } ==> if negative {
            int_value(s@) < -18446744073709551615
        } else {
            int_value(s@) > 18446744073709551615
        },
{
    let n = s.unicode_len();
    if n == 0 {
        return IntScan::NotNumeric;
    }
    let first = s.get_char(0);
    let negative = first == '-';
    let signed = negative || first == '+';
    let start: usize = if signed {
        1
    } else {
        0
    };
    if n == start {
        assert(!is_int_text(s@));
        return IntScan::NotNumeric;
    }
    let ghost mag: Seq<char> = if signed {
        s@.drop_first()
    } else {
        s@
    };
    let mut acc: u64 = 0;
    let mut huge: bool = false;
    let mut i: usize = start;
    while i < n
        invariant
            start <= i <= n,
            n == s@.len(),
            n > 0,
            negative == (s@[0] == '-'),
            signed == (s@[0] == '-' || s@[0] == '+'),
            signed ==> n > 1,
            start == if signed {
                1int
            } else {
                0int
            },
            mag == if signed {
                s@.drop_first()
            } else {
                s@
            },
            all_digits(s@.subrange(start as int, i as int)),
            !huge ==> acc == digits_value(s@.subrange(start as int, i as int)),
            huge ==> digits_value(s@.subrange(start as int, i as int)) > 18446744073709551615,
        decreases n - i,
    {
        let c = s.get_char(i);
        let cu = c as u32;
        if cu < 48 || cu > 57 {
            assert(!all_digits(mag)) by {
                if signed {
                    assert(mag[i - 1] == s@[i as int]);
                } else {
                    assert(mag[i as int] == s@[i as int]);
                }
            }
            return IntScan::NotNumeric;
        }
        let d: u64 = (cu - 48) as u64;
        proof {
            lemma_digits_value_step(s@, start as int, i as int);
            assert(s@.subrange(start as int, i as int + 1).drop_last() =~= s@.subrange(
                start as int,
                i as int,
            ));
            assert(forall|j: int|
                0 <= j < i - start + 1 ==> #[trigger] s@.subrange(start as int, i as int + 1)[j]
                    == s@[start + j]);
        }
        if huge {
            proof {
                let prev = digits_value(s@.subrange(start as int, i as int));
                assert(prev * 10 >= prev + prev) by (nonlinear_arith)
                    requires
                        prev >= 0,
                ;
            }
        } else {
            let wide: u128 = (acc as u128) * 10 + (d as u128);
            if wide > 18446744073709551615 {
                huge = true;
            } else {
                acc = wide as u64;
            }
        }
        i = i + 1;
    }
    proof {
        assert(s@.subrange(start as int, n as int) =~= mag);
        if signed {
            assert(s@[0] == first);
        }
        assert(is_int_text(s@));
        lemma_digits_value_nonneg(mag);
    }
    if huge {
        IntScan::Huge { negative }
    } else {
        IntScan::Magnitude { negative, value: acc }
    }
}

impl SqlType {
    /// Decides whether candidate text is admissible for this type,
    /// reporting the exact constraint violation otherwise.
    pub fn validate(&self, text: &str) -> (r: Result<(), ConstraintError>)
        ensures
            match r {
                Ok(()) => spec_validate(*self, text@) is None,
                Err(e) => spec_validate(*self, text@) == Some(e@),
            },
    {
        match self {
            SqlType::Char(n) => {
                let len = text.unicode_len();
                if len as u64 > *n {
                    Err(ConstraintError::ValueTooLong(*n))
                } else {
                    Ok(())
                }
            },
            SqlType::VarChar(n) => {
                let len = text.unicode_len();
                if len as u64 > *n {
                    Err(ConstraintError::ValueTooLong(*n))
                } else {
                    Ok(())
                }
            },
            _ => {
                let (neg_limit, pos_limit): (u64, u64) = match self {
                    SqlType::SmallInt => (32768, 32767),
                    SqlType::Integer => (2147483648, 2147483647),
                    _ => (9223372036854775808, 9223372036854775807),
                };
                match scan_int(text) {
                    IntScan::NotNumeric => Err(
                        ConstraintError::TypeMismatch(String::from_str(text)),
                    ),
                    IntScan::Huge { negative: _ } => Err(ConstraintError::OutOfRange),
                    IntScan::Magnitude { negative, value } => {
                        if negative && value > neg_limit {
                            Err(ConstraintError::OutOfRange)
                        } else if !negative && value > pos_limit {
                            Err(ConstraintError::OutOfRange)
                        } else {
                            Ok(())
                        }
                    },
                }
            },
        }
    }
}

/// Parses integer text whose value is known to fit a 64-bit signed
/// integer.
pub fn parse_i64(text: &str) -> (r: i64)
    requires
        is_int_text(text@),
        -9223372036854775808 <= int_value(text@) <= 9223372036854775807,
    ensures
        r as int == int_value(text@),
{
    match scan_int(text) {
        IntScan::NotNumeric => {
            proof {
                assert(false);
            }
            0
        },
        IntScan::Huge { negative: _ } => {
            proof {
                assert(false);
            }
            0
        },
        IntScan::Magnitude { negative, value } => {
            if negative {
                if value == 9223372036854775808 {
                    i64::MIN
                } else {
                    -(value as i64)
                }
            } else {
                value as i64
            }
        },
    }
}

} // verus!
