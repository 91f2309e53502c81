use neo_replay::decimal::parse_decimal;

#[test]
fn numerals_are_read_as_hardware_reads_them() {
    let texts = [
        "0", "1", "27", "16.5", "0.1", "0.2", "0.3", ".5", "5.", "1e0", "1e5", "1E5", "1e-5", "1.5e3",
        "+7", "-7", "-0", "-0.0", "0.000001", "123456789", "18446744073709551615", "9007199254740993",
        "0.1234567890123456789", "3.141592653589793", "2.718281828459045", "1e19", "1e-19",
        "12345.6789e-3", "00012", "0.5e+1", "4.35", "1.005", "8.675", "255", "0.00392156862745098",
        "99999999999999999", "0.3e1", "7e-1", "123e+2", "0e999", "-1.25e-2",
    ];
    for t in texts {
        let want: f64 = t.parse().unwrap();
        let got = parse_decimal(t).unwrap_or_else(|| panic!("{:?} was not read", t));
        assert_eq!(got.bits, want.to_bits(), "{:?}", t);
    }
}

#[test]
fn every_short_numeral_matches() {
    for whole in 0..40u32 {
        for part in 0..100u32 {
            let t = format!("{}.{:02}", whole, part);
            let want: f64 = t.parse().unwrap();
            assert_eq!(parse_decimal(&t).unwrap().bits, want.to_bits(), "{:?}", t);
        }
    }
    for e in -19..=19i32 {
        for m in [1u64, 3, 7, 9, 12345, 999999999999, 18446744073709551615] {
            let t = format!("{}e{}", m, e);
            let want: f64 = t.parse().unwrap();
            assert_eq!(parse_decimal(&t).unwrap().bits, want.to_bits(), "{:?}", t);
        }
    }
}

#[test]
fn what_is_no_numeral_is_not_read() {
    for t in ["", " ", "+", "-", ".", "e5", "1e", "1e+", "abc", "1x", "1 ", " 1", "1..2", "1e5.5", "--1", "1_000", "0x10"] {
        assert!(parse_decimal(t).is_none(), "{:?}", t);
    }
}

#[test]
fn numerals_beyond_the_exact_range_are_not_read() {
    for t in ["18446744073709551616", "1e20", "1e-20", "123456789012345678901234567890", "1e400", "0.00000000000000000001"] {
        assert!(parse_decimal(t).is_none(), "{:?}", t);
    }
    // zero stays zero whatever its exponent
    assert_eq!(parse_decimal("0e400").unwrap().bits, 0);
    assert_eq!(parse_decimal("0.000000000000000000000000000000").unwrap().bits, 0);
    assert_eq!(parse_decimal("-0e-400").unwrap().bits, (-0.0f64).to_bits());
}
