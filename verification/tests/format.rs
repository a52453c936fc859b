use glaredb_core::arrays::format::{BinaryFormat, FormatOptions, Formatter};
use glaredb_core::arrays::scalar::BorrowedScalarValue;

#[test]
fn basic_scalar() {
    // Using the default options.

    // (input, formatted output)
    let test_cases = [
        (BorrowedScalarValue::Null, "NULL"),
        (BorrowedScalarValue::Int64(8), "8"),
        (BorrowedScalarValue::Utf8("hello".into()), "hello"),
        (
            BorrowedScalarValue::Binary([245, 255, 18].as_slice().into()),
            "\\xf5ff12",
        ),
    ];

    for (scalar, expected) in test_cases {
        let out = Formatter::new(FormatOptions::new())
            .format_scalar_value(scalar)
            .to_string();
        assert_eq!(expected, out);
    }
}

#[test]
fn null_formatting() {
    let opts = FormatOptions {
        null: "NuLl",
        ..Default::default()
    };

    let out = Formatter::new(opts)
        .format_scalar_value(BorrowedScalarValue::Null)
        .to_string();

    assert_eq!("NuLl", out);
}

#[test]
fn empty_string() {
    let opts = FormatOptions {
        empty_string: "(empty)",
        ..FormatOptions::new()
    };

    let formatter = Formatter::new(opts);

    let out = formatter
        .format_scalar_value(BorrowedScalarValue::Utf8("".into()))
        .to_string();
    assert_eq!("(empty)", out);
}

#[test]
fn default_options() {
    let opts = FormatOptions::new();
    assert_eq!(opts.null, "NULL");
    assert_eq!(opts.empty_string, "");
    assert_eq!(opts.binary_format, BinaryFormat::Hex);
    assert_eq!(FormatOptions::default(), opts);
}

#[test]
fn integers_in_decimal() {
    let formatter = Formatter::new(FormatOptions::new());
    let cases = [
        (BorrowedScalarValue::Int64(0), "0"),
        (BorrowedScalarValue::Int64(-1), "-1"),
        (BorrowedScalarValue::Int64(1234567890), "1234567890"),
        (BorrowedScalarValue::Int64(i64::MAX), "9223372036854775807"),
        (BorrowedScalarValue::Int64(i64::MIN), "-9223372036854775808"),
        (BorrowedScalarValue::Int8(-128), "-128"),
        (BorrowedScalarValue::Int16(-300), "-300"),
        (BorrowedScalarValue::Int32(70000), "70000"),
        (BorrowedScalarValue::UInt8(255), "255"),
        (BorrowedScalarValue::UInt16(65535), "65535"),
        (BorrowedScalarValue::UInt32(10), "10"),
        (BorrowedScalarValue::UInt64(u64::MAX), "18446744073709551615"),
    ];
    for (scalar, expected) in cases {
        assert_eq!(expected, formatter.format_scalar_value(scalar).to_string());
    }
}

#[test]
fn booleans_and_binary() {
    let formatter = Formatter::new(FormatOptions::new());
    assert_eq!(
        "true",
        formatter
            .format_scalar_value(BorrowedScalarValue::Boolean(true))
            .to_string()
    );
    assert_eq!(
        "false",
        formatter
            .format_scalar_value(BorrowedScalarValue::Boolean(false))
            .to_string()
    );
    // No bytes: only the escape.
    assert_eq!(
        "\\x",
        formatter
            .format_scalar_value(BorrowedScalarValue::Binary(&[]))
            .to_string()
    );
    assert_eq!(
        "\\x000a10ff",
        formatter
            .format_scalar_value(BorrowedScalarValue::Binary(&[0, 10, 16, 255]))
            .to_string()
    );
}

#[test]
fn non_empty_string_ignores_empty_option() {
    let opts = FormatOptions {
        empty_string: "(empty)",
        ..FormatOptions::new()
    };
    let out = Formatter::new(opts)
        .format_scalar_value(BorrowedScalarValue::Utf8("x"))
        .to_string();
    assert_eq!("x", out);
}
