use redis_decimal::codec::{render, round_decimal, validate_precision, PrecisionLimit};
use redis_decimal::engine::{
    check_arity, decrbydecimal, getdecimal, incrbydecimal, parse_decimal, setdecimal, DecimalError,
};

fn stored(text: &str) -> Option<&[u8]> {
    Some(text.as_bytes())
}

#[test]
fn scenario_balance() {
    let set = setdecimal("10.50").unwrap();
    assert_eq!(set, "10.500000000000000000");
    let incr = incrbydecimal(stored(&set), "2.25").unwrap();
    assert_eq!(incr, "12.750000000000000000");
    assert_eq!(getdecimal(stored(&incr)).unwrap(), Some("12.750000000000000000".to_string()));
    let decr = decrbydecimal(stored(&incr), "100").unwrap();
    assert_eq!(decr, "-87.250000000000000000");
    assert_eq!(getdecimal(None).unwrap(), None);
}

#[test]
fn render_of_parse_keeps_value() {
    for (text, shown) in [
        ("-0.0012", "-0.0012"),
        ("1e3", "1000"),
        ("007.50", "7.50"),
        ("1.5E-20", "0.000000000000000000015"),
        ("-0", "0"),
        ("42", "42"),
    ] {
        let d = parse_decimal(text).unwrap();
        assert_eq!(render(&d), shown);
        let again = parse_decimal(&render(&d)).unwrap();
        assert_eq!(round_decimal(&again), round_decimal(&d));
    }
}

#[test]
fn get_twice_gives_same_text() {
    let bytes = b"3.140000000000000000";
    let first = getdecimal(Some(bytes)).unwrap();
    let second = getdecimal(Some(bytes)).unwrap();
    assert_eq!(first, second);
    assert_eq!(first, Some("3.140000000000000000".to_string()));
}

#[test]
fn get_renders_stored_scale() {
    assert_eq!(getdecimal(stored("1.5")).unwrap(), Some("1.5".to_string()));
    assert_eq!(getdecimal(stored("1e-18")).unwrap(), Some("0.000000000000000001".to_string()));
}

#[test]
fn increment_by_zero_keeps_value() {
    assert_eq!(incrbydecimal(stored("1.5"), "0").unwrap(), "1.500000000000000000");
    assert_eq!(incrbydecimal(None, "0").unwrap(), "0.000000000000000000");
    assert_eq!(incrbydecimal(stored("-7.25"), "0.000").unwrap(), "-7.250000000000000000");
}

#[test]
fn increments_commute_from_absent() {
    let a = "19.99";
    let b = "-0.000000000000000007";
    let ab = incrbydecimal(stored(&incrbydecimal(None, a).unwrap()), b).unwrap();
    let ba = incrbydecimal(stored(&incrbydecimal(None, b).unwrap()), a).unwrap();
    assert_eq!(ab, ba);
    assert_eq!(ab, "19.989999999999999993");
}

#[test]
fn increment_then_decrement_restores() {
    let before = "123.456000000000000000";
    let up = incrbydecimal(stored(before), "98765.4321").unwrap();
    assert_eq!(up, "98888.888100000000000000");
    let down = decrbydecimal(stored(&up), "98765.4321").unwrap();
    assert_eq!(down, before);
}

#[test]
fn precision_boundary_52_digits_scale_18() {
    let ok = "1234567890123456789012345678901234.567890123456789012";
    assert_eq!(setdecimal(ok).unwrap(), ok);
    let too_many = "12345678901234567890123456789012345.567890123456789012";
    assert_eq!(
        setdecimal(too_many),
        Err(DecimalError::Precision { limit: PrecisionLimit::Digits { digits: 53 } })
    );
    let too_fine = "0.1234567890123456789";
    assert_eq!(
        setdecimal(too_fine),
        Err(DecimalError::Precision { limit: PrecisionLimit::Scale { scale: 19 } })
    );
}

#[test]
fn failed_increment_reports_precision() {
    let big = "9999999999999999999999999999999999.999999999999999999";
    assert_eq!(
        incrbydecimal(stored(big), "0.000000000000000001"),
        Err(DecimalError::Precision { limit: PrecisionLimit::Digits { digits: 53 } })
    );
    assert_eq!(
        incrbydecimal(stored("1"), "0.0000000000000000001"),
        Err(DecimalError::Precision { limit: PrecisionLimit::Scale { scale: 19 } })
    );
}

#[test]
fn parse_errors_name_the_text() {
    for bad in ["", "abc", "1.2.3", "1e", "--1", "1,5"] {
        assert_eq!(setdecimal(bad), Err(DecimalError::Parse { text: bad.to_string() }));
    }
    assert_eq!(
        incrbydecimal(stored("garbage"), "1"),
        Err(DecimalError::Parse { text: "garbage".to_string() })
    );
    assert_eq!(
        getdecimal(stored("x1")),
        Err(DecimalError::Parse { text: "x1".to_string() })
    );
}

#[test]
fn operand_is_read_before_current_value() {
    assert_eq!(
        decrbydecimal(stored("garbage"), "nope"),
        Err(DecimalError::Parse { text: "nope".to_string() })
    );
}

#[test]
fn invalid_utf8_is_encoding_error() {
    let bytes: &[u8] = &[0x31, 0xff, 0x32];
    assert_eq!(getdecimal(Some(bytes)), Err(DecimalError::Encoding));
    assert_eq!(incrbydecimal(Some(bytes), "1"), Err(DecimalError::Encoding));
}

#[test]
fn arity_is_checked() {
    assert_eq!(check_arity(2, 2), Ok(()));
    assert_eq!(check_arity(3, 2), Err(DecimalError::Arity { expected: 2, given: 3 }));
}

#[test]
fn validate_precision_limits() {
    let d = parse_decimal("1e-19").unwrap();
    assert_eq!(validate_precision(&d), Err(PrecisionLimit::Scale { scale: 19 }));
    let d = parse_decimal("1e2000000000000000000").unwrap();
    assert_eq!(
        validate_precision(&d),
        Err(PrecisionLimit::Digits { digits: 2000000000000000001 })
    );
    let d = parse_decimal("-1e40").unwrap();
    assert_eq!(validate_precision(&d), Ok(()));
    let d = parse_decimal("1e51").unwrap();
    assert_eq!(validate_precision(&d), Ok(()));
    let d = parse_decimal("1e52").unwrap();
    assert_eq!(validate_precision(&d), Err(PrecisionLimit::Digits { digits: 53 }));
    let d = parse_decimal("1000000000000000000e34").unwrap();
    assert_eq!(validate_precision(&d), Err(PrecisionLimit::Digits { digits: 53 }));
    let d = parse_decimal("0e40").unwrap();
    assert_eq!(validate_precision(&d), Ok(()));
    let d = parse_decimal("0e9000000000000000000").unwrap();
    assert_eq!(validate_precision(&d), Ok(()));
    assert_eq!(
        incrbydecimal(None, "1e100000000000"),
        Err(DecimalError::Precision { limit: PrecisionLimit::Digits { digits: 100000000001 } })
    );
}

#[test]
fn negative_exponent_is_written_out() {
    assert_eq!(getdecimal(stored("0e40")).unwrap(), Some("0".to_string()));
    assert_eq!(getdecimal(stored("-12e3")).unwrap(), Some("-12000".to_string()));
    assert_eq!(setdecimal("0e40").unwrap(), "0.000000000000000000");
    assert_eq!(incrbydecimal(stored("0e9000000000000000000"), "1").unwrap(), "1.000000000000000000");
    assert_eq!(
        setdecimal("1e33").unwrap(),
        "1000000000000000000000000000000000.000000000000000000"
    );
    assert_eq!(
        setdecimal("1e34"),
        Err(DecimalError::Precision { limit: PrecisionLimit::Digits { digits: 53 } })
    );
}

#[test]
fn grouping_underscores_are_refused() {
    for bad in ["1_000", "_1", "1.0_0", "1e1_0"] {
        assert_eq!(parse_decimal(bad), Err(DecimalError::Parse { text: bad.to_string() }));
        assert_eq!(setdecimal(bad), Err(DecimalError::Parse { text: bad.to_string() }));
    }
}

#[test]
fn round_decimal_pads_and_truncates() {
    let d = round_decimal(&parse_decimal("2.5").unwrap());
    assert_eq!(render(&d), "2.500000000000000000");
    let d = round_decimal(&parse_decimal("-1.00000000000000000099").unwrap());
    assert_eq!(render(&d), "-1.000000000000000000");
    let d = round_decimal(&parse_decimal("-1e-30").unwrap());
    assert_eq!(render(&d), "0.000000000000000000");
}

#[test]
fn negative_exponent_operands_are_exact() {
    assert_eq!(incrbydecimal(stored("0.5"), "1e1").unwrap(), "10.500000000000000000");
    assert_eq!(decrbydecimal(None, "2.5e-3").unwrap(), "-0.002500000000000000");
}
