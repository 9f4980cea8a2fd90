use seabun::literals::{float_text, parse_isize};

fn chars(s: &str) -> Vec<char> {
    s.chars().collect()
}

#[test]
fn integers_in_rust_syntax() {
    assert_eq!(parse_isize(&chars("0")), Some(0));
    assert_eq!(parse_isize(&chars("+5")), Some(5));
    assert_eq!(parse_isize(&chars("-12")), Some(-12));
    assert_eq!(parse_isize(&chars(&isize::MIN.to_string())), Some(isize::MIN));
    assert_eq!(parse_isize(&chars(&isize::MAX.to_string())), Some(isize::MAX));
    assert_eq!(parse_isize(&chars("99999999999999999999")), None);
    assert_eq!(parse_isize(&chars("")), None);
    assert_eq!(parse_isize(&chars("+")), None);
    assert_eq!(parse_isize(&chars("-")), None);
    assert_eq!(parse_isize(&chars("1a")), None);
    assert_eq!(parse_isize(&chars(" 1")), None);
}

#[test]
fn integers_agree_with_std() {
    for s in ["7", "-0", "+0", "00012", "1_0", "٣", "-9223372036854775809", "18446744073709551616"] {
        assert_eq!(parse_isize(&chars(s)), s.parse::<isize>().ok(), "{s}");
    }
}

#[test]
fn decimals_in_rust_syntax() {
    for s in ["1.", ".5", "1.5", "1e5", "1E+5", "2.5e-3", "inf", "-Infinity", "NaN", "+nan", "007"] {
        assert!(float_text(&chars(s)), "{s}");
    }
    for s in ["", ".", "e5", "1e", "1e+", "1.2.3", "1d5", "infinit", "--1", " 1", "1 "] {
        assert!(!float_text(&chars(s)), "{s}");
    }
}

#[test]
fn decimals_agree_with_std() {
    for s in ["1.", ".5", "1e5", "+.e1", "-.5E-7", "inF", "nAn", "x", "1e+5", "١.٥", "0x10"] {
        assert_eq!(float_text(&chars(s)), s.parse::<f64>().is_ok(), "{s}");
    }
}
