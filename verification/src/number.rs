use vstd::prelude::*;
use crate::error::ErrorType;

verus! {

/// A self-contained numeric value, independent of the input buffer.
/// This core represents integers; floating-point lexing belongs to
/// the external number parser and stays outside the verified model.
#[derive(PartialEq, Eq, Structural, Clone, Copy, Debug)]
pub enum Number {
    I64(i64),
}

impl Number {
    /// The signed value, when it is one (it always is here).
    pub fn as_i64(&self) -> (r: Option<i64>)
        ensures
            r == Some(self->I64_0),
    {
        match self {
            Number::I64(v) => Some(*v),
        }
    }

    /// The value as unsigned, absent when it is negative.
    pub fn as_u64(&self) -> (r: Option<u64>)
        ensures
            self->I64_0 >= 0 ==> r == Some(self->I64_0 as u64),
            self->I64_0 < 0 ==> r is None,
    {
        match self {
            Number::I64(v) => {
                if *v >= 0 {
                    Some(*v as u64)
                } else {
                    None
                }
            },
        }
    }
}

/// An ASCII decimal digit.
pub open spec fn is_digit(b: u8) -> bool {
    48 <= b <= 57
}

/// A byte that would continue a non-integer numeric token.
pub open spec fn is_float_marker(b: u8) -> bool {
    b == 46 || b == 101 || b == 69 || b == 43 || b == 45
}

/// First index at or after `from` that does not hold a digit.
pub open spec fn digits_end(s: Seq<u8>, from: int) -> int
    decreases s.len() - from,
{
    if from < s.len() && is_digit(s[from]) {
        digits_end(s, from + 1)
    } else {
        from
    }
}

/// Value of the digit run `s[from..to]`, most significant first.
pub open spec fn digits_value(s: Seq<u8>, from: int, to: int) -> int
    decreases to - from,
{
    if from >= to {
        0
    } else {
        digits_value(s, from, to - 1) * 10 + (s[to - 1] - 48)
    }
}

pub proof fn lemma_digits_value_nonneg(s: Seq<u8>, from: int, to: int)
    requires
        forall|j: int| from <= j < to ==> 0 <= #[trigger] s[j] - 48,
    ensures
        digits_value(s, from, to) >= 0,
    decreases to - from,
{
    if from < to {
        lemma_digits_value_nonneg(s, from, to - 1);
    }
}

/// A longer digit run never has a smaller value: the digits after a
/// prefix only scale it up and add non-negative terms.
pub proof fn lemma_digits_value_mono(s: Seq<u8>, from: int, mid: int, to: int)
    requires
        from <= mid <= to,
        forall|j: int| from <= j < to ==> is_digit(#[trigger] s[j]),
    ensures
        digits_value(s, from, to) >= digits_value(s, from, mid),
    decreases to - mid,
{
    if mid < to {
        lemma_digits_value_mono(s, from, mid, to - 1);
        lemma_digits_value_nonneg(s, from, to - 1);
    }
}

/// The digit run ends inside the buffer, every position of it holds a
/// digit, and the position after it (if any) does not.
pub proof fn lemma_digits_end_props(s: Seq<u8>, from: int)
    requires
        0 <= from <= s.len(),
    ensures
        from <= digits_end(s, from) <= s.len(),
        forall|k: int| from <= k < digits_end(s, from) ==> is_digit(#[trigger] s[k]),
        digits_end(s, from) < s.len() ==> !is_digit(s[digits_end(s, from)]),
    decreases s.len() - from,
{
    if from < s.len() && is_digit(s[from]) {
        lemma_digits_end_props(s, from + 1);
    }
}

/// The integer value a numeric token denotes, sign included.
pub open spec fn token_value(s: Seq<u8>, start: int, negative: bool) -> int {
    if negative {
        -digits_value(s, start + 1, digits_end(s, start + 1))
    } else {
        digits_value(s, start, digits_end(s, start))
    }
}

/// True when the numeric token starting at `start` is an integer this
/// core accepts: at least one digit, not continued by a float marker,
/// and in range for a 64-bit signed value.
pub open spec fn token_ok(s: Seq<u8>, start: int, negative: bool) -> bool {
    let d0 = if negative {
        start + 1
    } else {
        start as int
    };
    let e = digits_end(s, d0);
    &&& e > d0
    &&& (e < s.len() ==> !is_float_marker(s[e]))
    &&& i64::MIN <= token_value(s, start, negative) <= i64::MAX
}

/// Parses the integer token that begins at `start`, where the dispatch
/// has already seen the optional leading minus. Returns the token's
/// value exactly when the token is an acceptable integer; any other
/// numeric token is refused as `InvalidNumber`.
pub fn parse_int(input: &[u8], start: usize, negative: bool) -> (r: Result<Number, ErrorType>)
    requires
        start < input@.len(),
    ensures
        token_ok(input@, start as int, negative) ==> r == Ok::<Number, ErrorType>(
            Number::I64(token_value(input@, start as int, negative) as i64),
        ),
        !token_ok(input@, start as int, negative) ==> r == Err::<Number, ErrorType>(
            ErrorType::InvalidNumber,
        ),
{
    let ghost s = input@;
    let n = input.len();
    let d0: usize = if negative {
        start + 1
    } else {
        start
    };
    let limit: u64 = if negative {
        9223372036854775808
    } else {
        9223372036854775807
    };
    proof {
        lemma_digits_end_props(s, d0 as int);
    }
    let ghost e = digits_end(s, d0 as int);
    let mut j: usize = d0;
    let mut acc: u64 = 0;
    while j < n
        invariant
            s == input@,
            d0 == if negative { start as int + 1 } else { start as int },
            limit == if negative { 9223372036854775808u64 } else { 9223372036854775807u64 },
            d0 <= j <= n,
            n == s.len(),
            e == digits_end(s, d0 as int),
            d0 <= e <= n,
            j <= e,
            forall|k: int| d0 <= k < e ==> is_digit(#[trigger] s[k]),
            e < n ==> !is_digit(s[e]),
            acc == digits_value(s, d0 as int, j as int),
            acc <= limit,
            limit >= 9223372036854775807,
        ensures
            j == e,
            acc == digits_value(s, d0 as int, e),
            acc <= limit,
        decreases n - j,
    {
        let b = *vstd::slice::slice_index_get(input, j);
        if b < 48 || b > 57 {
            proof {
                assert(!is_digit(s[j as int]));
                assert(j == e);
            }
            break;
        }
        proof {
            assert(is_digit(s[j as int]));
            assert(j < e);
        }
        let d = b - 48;
        let wide: u128 = acc as u128 * 10 + d as u128;
        if wide > limit as u128 {
            proof {
                assert(digits_value(s, d0 as int, j as int + 1) == acc * 10 + d);
                lemma_digits_value_mono(s, d0 as int, j as int + 1, e);
                assert(digits_value(s, d0 as int, e) > limit);
                assert(!token_ok(s, start as int, negative));
            }
            return Err(ErrorType::InvalidNumber);
        }
        acc = wide as u64;
        j += 1;
    }
    if j == d0 {
        return Err(ErrorType::InvalidNumber);
    }
    if j < n {
        let b = *vstd::slice::slice_index_get(input, j);
        if b == 46 || b == 101 || b == 69 || b == 43 || b == 45 {
            return Err(ErrorType::InvalidNumber);
        }
    }
    if negative {
        if acc == 9223372036854775808 {
            Ok(Number::I64(i64::MIN))
        } else {
            Ok(Number::I64(-(acc as i64)))
        }
    } else {
        Ok(Number::I64(acc as i64))
    }
}

} // verus!
