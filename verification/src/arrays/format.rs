//! Formatting of values as text.

use vstd::prelude::*;
use vstd::string::StringExecFns;
use crate::arrays::scalar::BorrowedScalarValue;

verus! {

/// How binary data is written out.
#[derive(Debug, Clone, Copy, PartialEq, Eq, Structural)]
pub enum BinaryFormat {
    /// As `\x` followed by two lower-case hexadecimal digits for each byte.
    Hex,
}

/// Formatting options for arrays and scalars.
#[derive(Debug, Clone, PartialEq, Eq)]
pub struct FormatOptions<'a> {
    /// String to use for printing null values.
    pub null: &'a str,
    /// String to use when a string value is empty.
    pub empty_string: &'a str,
    /// Format to use when printing out binary data.
    pub binary_format: BinaryFormat,
}

impl<'a> FormatOptions<'a> {
    /// The options to start from: nulls as `NULL`, empty strings as they
    /// are, binary data in hexadecimal.
    pub fn new() -> (options: Self)
        ensures
            options.null@ == "NULL"@,
            options.empty_string@ == ""@,
            options.binary_format == BinaryFormat::Hex,
    {
        FormatOptions { null: "NULL", empty_string: "", binary_format: BinaryFormat::Hex }
    }
}

impl<'a> Default for FormatOptions<'a> {
    fn default() -> (options: Self)
        ensures
            options.null@ == "NULL"@,
            options.empty_string@ == ""@,
            options.binary_format == BinaryFormat::Hex,
    {
        Self::new()
    }
}

/// Formats values according to options.
#[derive(Debug, Clone)]
pub struct Formatter<'a> {
    pub options: FormatOptions<'a>,
}

/// A scalar value together with the options to format it with.
#[derive(Debug, Clone)]
pub struct FormattedScalarValue<'a, 'b> {
    pub options: &'a FormatOptions<'a>,
    pub scalar: BorrowedScalarValue<'b>,
}

impl<'a> Formatter<'a> {
    /// A formatter with the given options.
    pub fn new(options: FormatOptions<'a>) -> (formatter: Self)
        ensures
            formatter.options == options,
    {
        Formatter { options }
    }

    /// Create a formatted scalar value directly from a scalar value.
    pub fn format_scalar_value<'b>(&self, scalar: BorrowedScalarValue<'b>) -> (formatted:
        FormattedScalarValue<'_, 'b>)
        ensures
            *formatted.options == self.options,
            formatted.scalar == scalar,
            formatted.text() == formatted_text(self.options, scalar),
    {
        FormattedScalarValue { options: &self.options, scalar }
    }
}

/// The character for a digit below 16, in lower case.
pub open spec fn digit_char(d: int) -> char {
    if d == 0 {
        '0'
    } else if d == 1 {
        '1'
    } else if d == 2 {
        '2'
    } else if d == 3 {
        '3'
    } else if d == 4 {
        '4'
    } else if d == 5 {
        '5'
    } else if d == 6 {
        '6'
    } else if d == 7 {
        '7'
    } else if d == 8 {
        '8'
    } else if d == 9 {
        '9'
    } else if d == 10 {
        'a'
    } else if d == 11 {
        'b'
    } else if d == 12 {
        'c'
    } else if d == 13 {
        'd'
    } else if d == 14 {
        'e'
    } else {
        'f'
    }
}

/// The decimal digits of `n`, most significant first; `0` for zero.
pub open spec fn decimal(n: nat) -> Seq<char>
    decreases n,
{
    if n < 10 {
        seq![digit_char(n as int)]
    } else {
        decimal(n / 10).push(digit_char((n % 10) as int))
    }
}

/// The decimal text of an integer, with a minus sign if it is negative.
pub open spec fn integer_text(i: int) -> Seq<char> {
    if i < 0 {
        seq!['-'] + decimal((-i) as nat)
    } else {
        decimal(i as nat)
    }
}

/// Two hexadecimal digits for each of the first `n` bytes.
pub open spec fn hex_digits(bytes: Seq<u8>, n: nat) -> Seq<char>
    decreases n,
{
    if n == 0 || n > bytes.len() {
        Seq::empty()
    } else {
        hex_digits(bytes, (n - 1) as nat).push(digit_char(bytes[n - 1] as int / 16)).push(
            digit_char(bytes[n - 1] as int % 16),
        )
    }
}

/// The text of a scalar value under the given options.
///
/// Null is shown as the options say, as is an empty string. Binary data is
/// in hexadecimal after `\x`. Integers are in decimal, booleans `true` or
/// `false`, other strings as they are.
pub open spec fn formatted_text(options: FormatOptions, scalar: BorrowedScalarValue) -> Seq<char> {
    match scalar {
        BorrowedScalarValue::Null => options.null@,
        BorrowedScalarValue::Utf8(v) => if v@.len() == 0 {
            options.empty_string@
        } else {
            v@
        },
        BorrowedScalarValue::Binary(v) => seq!['\\', 'x'] + hex_digits(v@, v@.len()),
        BorrowedScalarValue::Boolean(v) => if v {
            seq!['t', 'r', 'u', 'e']
        } else {
            seq!['f', 'a', 'l', 's', 'e']
        },
        BorrowedScalarValue::Int8(v) => integer_text(v as int),
        BorrowedScalarValue::Int16(v) => integer_text(v as int),
        BorrowedScalarValue::Int32(v) => integer_text(v as int),
        BorrowedScalarValue::Int64(v) => integer_text(v as int),
        BorrowedScalarValue::UInt8(v) => integer_text(v as int),
        BorrowedScalarValue::UInt16(v) => integer_text(v as int),
        BorrowedScalarValue::UInt32(v) => integer_text(v as int),
        BorrowedScalarValue::UInt64(v) => integer_text(v as int),
    }
}

/// The text of a digit below 16.
fn digit_text(d: u8) -> (text: &'static str)
    requires
        d < 16,
    ensures
        text@ == seq![digit_char(d as int)],
{
    proof {
        reveal_strlit("0");
        reveal_strlit("1");
        reveal_strlit("2");
        reveal_strlit("3");
        reveal_strlit("4");
        reveal_strlit("5");
        reveal_strlit("6");
        reveal_strlit("7");
        reveal_strlit("8");
        reveal_strlit("9");
        reveal_strlit("a");
        reveal_strlit("b");
        reveal_strlit("c");
        reveal_strlit("d");
        reveal_strlit("e");
        reveal_strlit("f");
    }
    let text = if d == 0 {
        "0"
    } else if d == 1 {
        "1"
    } else if d == 2 {
        "2"
    } else if d == 3 {
        "3"
    } else if d == 4 {
        "4"
    } else if d == 5 {
        "5"
    } else if d == 6 {
        "6"
    } else if d == 7 {
        "7"
    } else if d == 8 {
        "8"
    } else if d == 9 {
        "9"
    } else if d == 10 {
        "a"
    } else if d == 11 {
        "b"
    } else if d == 12 {
        "c"
    } else if d == 13 {
        "d"
    } else if d == 14 {
        "e"
    } else {
        "f"
    };
    assert(text@ =~= seq![digit_char(d as int)]);
    text
}

/// Appends the decimal digits of `n` to `out`.
fn push_decimal(out: &mut String, n: u64)
    ensures
        final(out)@ == old(out)@ + decimal(n as nat),
    decreases n,
{
    if n >= 10 {
        push_decimal(out, n / 10);
    }
    let digit = (n % 10) as u8;
    out.append(digit_text(digit));
    proof {
        if n >= 10 {
            assert(old(out)@ + decimal((n / 10) as nat) + seq![digit_char((n % 10) as int)]
                =~= old(out)@ + decimal(n as nat));
        } else {
            assert(old(out)@ + seq![digit_char(n as int)] =~= old(out)@ + decimal(n as nat));
        }
    }
}

/// The decimal text of a signed integer.
fn signed_text(v: i64) -> (out: String)
    ensures
        out@ == integer_text(v as int),
{
    let mut out = String::new();
    if v < 0 {
        proof {
            reveal_strlit("-");
        }
        out.append("-");
        assert(out@ =~= seq!['-']);
        // The magnitude of the smallest value does not fit the signed type.
        let magnitude: u64 = if v == i64::MIN {
            9223372036854775808u64
        } else {
            (-v) as u64
        };
        push_decimal(&mut out, magnitude);
    } else {
        push_decimal(&mut out, v as u64);
        assert(Seq::<char>::empty() + decimal(v as nat) =~= decimal(v as nat));
    }
    out
}

/// The decimal text of an unsigned integer.
fn unsigned_text(v: u64) -> (out: String)
    ensures
        out@ == integer_text(v as int),
{
    let mut out = String::new();
    push_decimal(&mut out, v);
    assert(Seq::<char>::empty() + decimal(v as nat) =~= decimal(v as nat));
    out
}

/// The decimal text of a count.
pub fn usize_text(v: usize) -> (out: String)
    ensures
        out@ == integer_text(v as int),
{
    unsigned_text(v as u64)
}

/// The text of binary data: `\x`, then two hexadecimal digits for each byte.
fn hex_text(bytes: &[u8]) -> (out: String)
    ensures
        out@ == seq!['\\', 'x'] + hex_digits(bytes@, bytes@.len()),
{
    proof {
        reveal_strlit("\\x");
    }
    let mut out = String::from_str("\\x");
    assert(out@ =~= seq!['\\', 'x'] + hex_digits(bytes@, 0));
    let mut i: usize = 0;
    while i < bytes.len()
        invariant
            i <= bytes.len(),
            out@ == seq!['\\', 'x'] + hex_digits(bytes@, i as nat),
        decreases bytes.len() - i,
    {
        let byte = bytes[i];
        out.append(digit_text(byte / 16));
        out.append(digit_text(byte % 16));
        assert(out@ =~= seq!['\\', 'x'] + hex_digits(bytes@, (i + 1) as nat));
        i += 1;
    }
    out
}

impl<'a, 'b> FormattedScalarValue<'a, 'b> {
    /// The text of the value.
    pub open spec fn text(self) -> Seq<char> {
        formatted_text(*self.options, self.scalar)
    }

    /// The value as text.
    pub fn to_string(&self) -> (out: String)
        ensures
            out@ == self.text(),
    {
        match &self.scalar {
            BorrowedScalarValue::Null => String::from_str(self.options.null),
            BorrowedScalarValue::Utf8(v) => {
                if v.is_empty() {
                    String::from_str(self.options.empty_string)
                } else {
                    String::from_str(v)
                }
            },
            BorrowedScalarValue::Binary(v) => match self.options.binary_format {
                BinaryFormat::Hex => hex_text(v),
            },
            BorrowedScalarValue::Boolean(v) => {
                proof {
                    reveal_strlit("true");
                    reveal_strlit("false");
                }
                let text = if *v {
                    String::from_str("true")
                } else {
                    String::from_str("false")
                };
                assert(text@ =~= formatted_text(*self.options, self.scalar));
                text
            },
            BorrowedScalarValue::Int8(v) => signed_text(*v as i64),
            BorrowedScalarValue::Int16(v) => signed_text(*v as i64),
            BorrowedScalarValue::Int32(v) => signed_text(*v as i64),
            BorrowedScalarValue::Int64(v) => signed_text(*v),
            BorrowedScalarValue::UInt8(v) => unsigned_text(*v as u64),
            BorrowedScalarValue::UInt16(v) => unsigned_text(*v as u64),
            BorrowedScalarValue::UInt32(v) => unsigned_text(*v as u64),
            BorrowedScalarValue::UInt64(v) => unsigned_text(*v),
        }
    }
}

} // verus!
