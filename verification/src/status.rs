//! The gRPC status that an upstream reports in its response trailers.

use vstd::prelude::*;
use vstd::utf8::*;
use crate::headers::{header_entries, header_values, lower_bytes, values_of};
use crate::text::{byte_strings, is_utf8};

verus! {

/// The trailer name `grpc-status`.
pub open spec fn status_header() -> Seq<u8> {
    seq![
        0x67u8, 0x72u8, 0x70u8, 0x63u8, 0x2du8, 0x73u8, 0x74u8, 0x61u8, 0x74u8, 0x75u8, 0x73u8,
    ]
}

/// The byte `+`, which may stand in front of a number.
pub const PLUS: u8 = 0x2b;

/// The byte `-`, which may stand in front of a number.
pub const MINUS: u8 = 0x2d;

/// Whether every byte of `s` is a decimal digit.
pub open spec fn all_digits(s: Seq<u8>) -> bool {
    forall|i: int| 0 <= i < s.len() ==> 0x30 <= #[trigger] s[i] <= 0x39
}

/// The number that the decimal digits `s` write.
pub open spec fn digits_value(s: Seq<u8>) -> nat
    decreases s.len(),
{
    if s.len() == 0 {
        0
    } else {
        (digits_value(s.drop_last()) * 10 + (s.last() - 0x30)) as nat
    }
}

/// Whether the text `s` begins with a sign that does not stand alone.
pub open spec fn has_sign(s: Seq<u8>) -> bool {
    s.len() > 1 && (s[0] == PLUS || s[0] == MINUS)
}

/// The digits of a number's text: the text itself, or what follows its
/// sign.
pub open spec fn digits_of(s: Seq<u8>) -> Seq<u8> {
    if has_sign(s) {
        s.drop_first()
    } else {
        s
    }
}

/// The status code that the text `s` writes: the integer written by one
/// or more decimal digits, with or without a `+` or a `-` in front. Any
/// other text writes none.
pub open spec fn status_code_of(s: Seq<u8>) -> Option<int> {
    let d = digits_of(s);
    if d.len() > 0 && all_digits(d) {
        if has_sign(s) && s[0] == MINUS {
            Some(-(digits_value(d) as int))
        } else {
            Some(digits_value(d) as int)
        }
    } else {
        None
    }
}

/// The greatest code that a status keeps as it is.
pub const MAX_CODE: i64 = 0x7fff_ffff_ffff_ffff;

/// The code as a status keeps it: the integer itself, or the nearest of
/// `MAX_CODE` and `-MAX_CODE` where the integer lies beyond them. A code
/// is kept as zero exactly if it is zero.
pub open spec fn kept_code(n: int) -> i64 {
    if n > MAX_CODE {
        MAX_CODE
    } else if n < -MAX_CODE {
        (-MAX_CODE) as i64
    } else {
        n as i64
    }
}

/// Why no status could be read from the trailers.
#[derive(Debug, PartialEq, Eq, Clone, Copy)]
pub enum ParseError {
    /// The trailers hold no `grpc-status`.
    NoStatusHeader,
    /// The value of `grpc-status` is not well-formed UTF-8.
    InvalidStatusHeaderText,
    /// The value of `grpc-status` is text, but writes no integer.
    InvalidStatusHeaderInt,
}

/// A gRPC status code.
#[derive(Debug, PartialEq, Eq, Clone, Copy)]
pub struct GrpcStatus {
    code: i64,
}

/// The number that the text `d` writes, if `d` is one or more decimal
/// digits that give a number of at most `limit`.
pub open spec fn number_of(d: Seq<u8>, limit: nat) -> Option<nat> {
    if d.len() > 0 && all_digits(d) && digits_value(d) <= limit {
        Some(digits_value(d))
    } else {
        None
    }
}

/// Reads the number that `text[from..to]` writes in decimal digits, if it
/// is at most `limit`.
pub fn parse_number(text: &[u8], from: usize, to: usize, limit: u32) -> (r: Option<u32>)
    requires
        from <= to <= text.len(),
        limit < 400_000_000,
    ensures
        match number_of(text@.subrange(from as int, to as int), limit as nat) {
            Some(n) => r == Some(n as u32),
            None => r is None,
        },
{
    let ghost d = text@.subrange(from as int, to as int);
    proof {
        assert(d.subrange(0, 0) =~= Seq::<u8>::empty());
    }
    if from >= to {
        return None;
    }
    let mut acc: u32 = 0;
    let mut i: usize = from;
    while i < to
        invariant
            from <= i <= to <= text.len(),
            limit < 400_000_000,
            d == text@.subrange(from as int, to as int),
            all_digits(d.subrange(0, i - from)),
            acc <= limit + 1,
            acc == if digits_value(d.subrange(0, i - from)) > limit {
                (limit + 1) as nat
            } else {
                digits_value(d.subrange(0, i - from))
            },
        decreases to - i,
    {
        let b = text[i];
        proof {
            assert(d[i - from] == b);
            assert(d.subrange(0, i + 1 - from).drop_last() =~= d.subrange(0, i - from));
        }
        if b < 0x30 || b > 0x39 {
            assert(!all_digits(d));
            return None;
        }
        let next: u32 = acc * 10 + (b - 0x30) as u32;
        acc = if next > limit {
            limit + 1
        } else {
            next
        };
        i += 1;
    }
    proof {
        assert(d.subrange(0, i - from) =~= d);
    }
    if acc > limit {
        None
    } else {
        Some(acc)
    }
}

/// Reads the number that `text[from..to]` writes in decimal digits, however
/// large; a number above `MAX_CODE` is given as `MAX_CODE`.
pub fn parse_magnitude(text: &[u8], from: usize, to: usize) -> (r: Option<i64>)
    requires
        from <= to <= text.len(),
    ensures
        ({
            let d = text@.subrange(from as int, to as int);
            if d.len() > 0 && all_digits(d) {
                r == Some(kept_code(digits_value(d) as int))
            } else {
                r is None
            }
        }),
{
    let ghost d = text@.subrange(from as int, to as int);
    proof {
        assert(d.subrange(0, 0) =~= Seq::<u8>::empty());
    }
    if from >= to {
        return None;
    }
    let mut acc: i64 = 0;
    let mut i: usize = from;
    while i < to
        invariant
            from <= i <= to <= text.len(),
            d == text@.subrange(from as int, to as int),
            all_digits(d.subrange(0, i - from)),
            0 <= acc <= MAX_CODE,
            acc == kept_code(digits_value(d.subrange(0, i - from)) as int),
        decreases to - i,
    {
        let b = text[i];
        proof {
            assert(d[i - from] == b);
            assert(d.subrange(0, i + 1 - from).drop_last() =~= d.subrange(0, i - from));
        }
        if b < 0x30 || b > 0x39 {
            assert(!all_digits(d));
            return None;
        }
        let next: i128 = acc as i128 * 10 + (b - 0x30) as i128;
        acc = if next > MAX_CODE as i128 {
            MAX_CODE
        } else {
            next as i64
        };
        i += 1;
    }
    proof {
        assert(d.subrange(0, i - from) =~= d);
    }
    Some(acc)
}

/// Reads a status code from its decimal text.
pub fn parse_status_code(text: &[u8]) -> (r: Option<i64>)
    ensures
        match status_code_of(text@) {
            Some(n) => r == Some(kept_code(n)),
            None => r is None,
        },
{
    let signed = text.len() > 1 && (text[0] == PLUS || text[0] == MINUS);
    let from: usize = if signed {
        1
    } else {
        0
    };
    proof {
        assert(digits_of(text@) =~= text@.subrange(from as int, text@.len() as int));
    }
    match parse_magnitude(text, from, text.len()) {
        Some(n) => if signed && text[0] == MINUS {
            Some(-n)
        } else {
            Some(n)
        },
        None => None,
    }
}

impl GrpcStatus {
    /// The status code, as it is kept.
    pub closed spec fn code_spec(&self) -> i64 {
        self.code
    }

    /// The status code, as it is kept.
    #[verifier::when_used_as_spec(code_spec)]
    pub fn code(&self) -> (c: i64)
        ensures
            c == self.code_spec(),
    {
        self.code
    }

    /// Reads the status from the first `grpc-status` value of the trailers.
    ///
    /// Trailers without `grpc-status` give no status; so does a value
    /// that is not UTF-8 or writes no integer. Every integer is a status:
    /// zero reports success, any other a failure.
    pub fn parse(trailers: &http::HeaderMap) -> (r: Result<GrpcStatus, ParseError>)
        ensures
            ({
                let values = values_of(header_entries(*trailers), status_header());
                match r {
                    Err(ParseError::NoStatusHeader) => values.len() == 0,
                    Err(ParseError::InvalidStatusHeaderText) => values.len() > 0 && !valid_utf8(
                        values[0],
                    ),
                    Err(ParseError::InvalidStatusHeaderInt) => values.len() > 0 && valid_utf8(
                        values[0],
                    ) && status_code_of(values[0]) is None,
                    Ok(status) => {
                        &&& values.len() > 0
                        &&& valid_utf8(values[0])
                        &&& status_code_of(values[0]) matches Some(n)
                        &&& status.code() == kept_code(n)
                        &&& status.code() == 0 <==> n == 0
                    },
                }
            }),
    {
        let name: Vec<u8> = vec![
            0x67u8, 0x72u8, 0x70u8, 0x63u8, 0x2du8, 0x73u8, 0x74u8, 0x61u8, 0x74u8, 0x75u8, 0x73u8,
        ];
        proof {
            assert(lower_bytes(name@) =~= status_header());
        }
        let values = header_values(trailers, name.as_slice());
        if values.len() == 0 {
            return Err(ParseError::NoStatusHeader);
        }
        assert(byte_strings(values@)[0] == values@[0]@);
        let first = values[0].as_slice();
        if !is_utf8(first) {
            return Err(ParseError::InvalidStatusHeaderText);
        }
        match parse_status_code(first) {
            Some(code) => Ok(GrpcStatus { code }),
            None => Err(ParseError::InvalidStatusHeaderInt),
        }
    }

    /// Whether the status reports success: code 0.
    pub fn is_ok(&self) -> (r: bool)
        ensures
            r == (self.code() == 0),
    {
        self.code == 0
    }
}

} // verus!
