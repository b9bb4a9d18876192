use rdf_rust::text::{parse_fixed, parse_int, tokenize};

fn tok(s: &str) -> Vec<u8> {
    s.as_bytes().to_vec()
}

#[test]
fn tokens_split_on_whitespace() {
    let t = tokenize("  T 2\tX 10.0  10.0 10.0\n");
    let words: Vec<&[u8]> = t.iter().map(|v| v.as_slice()).collect();
    assert_eq!(words, vec![&b"T"[..], b"2", b"X", b"10.0", b"10.0", b"10.0"]);
    assert!(tokenize("").is_empty());
    assert!(tokenize(" \t \r\n").is_empty());
    assert_eq!(tokenize("ab").len(), 1);
}

#[test]
fn integers() {
    assert_eq!(parse_int(&tok("42")), Some(42));
    assert_eq!(parse_int(&tok("-7")), Some(-7));
    assert_eq!(parse_int(&tok("+007")), Some(7));
    assert_eq!(parse_int(&tok("1000000000000000000")), Some(1_000_000_000_000_000_000));
    assert_eq!(parse_int(&tok("1000000000000000001")), None);
    assert_eq!(parse_int(&tok("99999999999999999999999")), None);
    assert_eq!(parse_int(&tok("")), None);
    assert_eq!(parse_int(&tok("-")), None);
    assert_eq!(parse_int(&tok("1.0")), None);
    assert_eq!(parse_int(&tok("x1")), None);
}

#[test]
fn decimals_to_fixed_point() {
    assert_eq!(parse_fixed(&tok("10.0")), Some(10_000_000));
    assert_eq!(parse_fixed(&tok("-1.5")), Some(-1_500_000));
    assert_eq!(parse_fixed(&tok("+2")), Some(2_000_000));
    assert_eq!(parse_fixed(&tok(".25")), Some(250_000));
    assert_eq!(parse_fixed(&tok("3.")), Some(3_000_000));
    assert_eq!(parse_fixed(&tok("0.000001")), Some(1));
    assert_eq!(parse_fixed(&tok("1.23456789")), Some(1_234_567));
    assert_eq!(parse_fixed(&tok("-0.0000009")), Some(0));
    assert_eq!(parse_fixed(&tok("1000000000")), Some(1_000_000_000_000_000));
    assert_eq!(parse_fixed(&tok("1000000000.000001")), None);
    assert_eq!(parse_fixed(&tok("123456789012345678901234")), None);
}

#[test]
fn malformed_decimals() {
    for s in ["", "-", ".", "-.", "1.2.3", "e3", ".e1", "1e", "1e+", "1e1.5", "1e2e3", "abc", "1,5", "--1", "nan", "inf"] {
        assert_eq!(parse_fixed(&tok(s)), None, "{}", s);
    }
}

#[test]
fn decimals_with_exponents() {
    assert_eq!(parse_fixed(&tok("1e3")), Some(1_000_000_000));
    assert_eq!(parse_fixed(&tok("0.1000000000E+02")), Some(10_000_000));
    assert_eq!(parse_fixed(&tok("-2.5E-03")), Some(-2_500));
    assert_eq!(parse_fixed(&tok("1.5e-7")), Some(0));
    assert_eq!(parse_fixed(&tok("123456789e-14")), Some(1));
    assert_eq!(parse_fixed(&tok("7E+0")), Some(7_000_000));
    assert_eq!(parse_fixed(&tok("0e999999")), Some(0));
    assert_eq!(parse_fixed(&tok("1e9")), Some(1_000_000_000_000_000));
    assert_eq!(parse_fixed(&tok("1e10")), None);
    assert_eq!(parse_fixed(&tok("1e99999999999999999999")), None);
    assert_eq!(parse_fixed(&tok("5e-99999")), Some(0));
}
