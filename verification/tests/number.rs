use appian_parser::number::{is_float_literal, parse_integer};

/// Every string over `alphabet` of at most `max_len` characters.
fn strings(alphabet: &[char], max_len: usize) -> Vec<String> {
    let mut all = vec![String::new()];
    let mut last = vec![String::new()];
    for _ in 0..max_len {
        let mut next = Vec::new();
        for prefix in &last {
            for c in alphabet {
                let mut s = prefix.clone();
                s.push(*c);
                next.push(s);
            }
        }
        all.extend(next.iter().cloned());
        last = next;
    }
    all
}

#[test]
fn integers_are_read_in_base_ten() {
    assert_eq!(parse_integer("0"), Some(0));
    assert_eq!(parse_integer("12"), Some(12));
    assert_eq!(parse_integer("+12"), Some(12));
    assert_eq!(parse_integer("-12"), Some(-12));
    assert_eq!(parse_integer("007"), Some(7));
    assert_eq!(parse_integer("-0"), Some(0));
    assert_eq!(parse_integer("1234567890123"), Some(1234567890123));
}

#[test]
fn integers_at_the_limits_of_64_bits() {
    assert_eq!(parse_integer("9223372036854775807"), Some(i64::MAX));
    assert_eq!(parse_integer("+9223372036854775807"), Some(i64::MAX));
    assert_eq!(parse_integer("-9223372036854775808"), Some(i64::MIN));
    assert_eq!(parse_integer("-9223372036854775807"), Some(i64::MIN + 1));
    assert_eq!(parse_integer("9223372036854775808"), None);
    assert_eq!(parse_integer("-9223372036854775809"), None);
    assert_eq!(parse_integer("18446744073709551616"), None);
    assert_eq!(parse_integer("99999999999999999999999999"), None);
    assert_eq!(parse_integer("000000000000000000000000001"), Some(1));
}

#[test]
fn malformed_integers_are_not_read() {
    for text in [
        "", "+", "-", "+-1", "--1", "1+", "1 ", " 1", "1_000", "0x10", "1e3", "12a", "a", "١٢",
        "１２", "1.0",
    ] {
        assert_eq!(parse_integer(text), None, "{:?}", text);
    }
}

#[test]
fn integers_are_read_as_the_standard_library_reads_them() {
    for text in strings(&['0', '1', '9', '+', '-', ' ', 'a'], 6) {
        assert_eq!(parse_integer(&text), text.parse::<i64>().ok(), "{:?}", text);
    }
    for digits in strings(&['0', '2', '7', '9'], 4) {
        for text in [
            format!("922337203685477{}", digits),
            format!("-922337203685477{}", digits),
            format!("+92233720368547758{}", digits),
            format!("-92233720368547758{}", digits),
        ] {
            assert_eq!(parse_integer(&text), text.parse::<i64>().ok(), "{:?}", text);
        }
    }
}

#[test]
fn floating_point_literals_are_recognised() {
    for text in [
        "12.24", "22.2", "0.0", "1.", ".5", "+1.5", "-1.5", "-.5", "1.e5", "1.5e10", "1.5E-3",
        "1.5e+3", "12", "+12", "1e5", "inf", "+inf", "-inf", "infinity", "-INFINITY", "nan",
        "NaN", "+nan", "iNf", "00.00", "1.0e00012",
    ] {
        assert!(is_float_literal(text), "{:?}", text);
    }
}

#[test]
fn malformed_floating_point_literals_are_not_recognised() {
    for text in [
        "", ".", "+", "-", "+.", "-.", ".e5", "1.5e", "1.5e+", "1.5e-", "1..5", "1.5.5", "1.5f",
        " 1.5", "1.5 ", "1,5", "1_0.0", "e5", ".e", "1.5e5.0", "1.5ee5", "++1.5", "in", "infinit",
        "infinityy", "na", "nann", "i.nf", "0x1.8p3", "１.５",
    ] {
        assert!(!is_float_literal(text), "{:?}", text);
    }
}

#[test]
fn floating_point_literals_are_what_the_standard_library_reads() {
    for text in strings(&['1', '0', '.', 'e', 'E', '+', '-', 'n', 'a', 'i', 'f', ' '], 5) {
        assert_eq!(
            is_float_literal(&text),
            text.parse::<f64>().is_ok(),
            "{:?}",
            text
        );
    }
    for text in strings(&['i', 'n', 'f', 't', 'y', 'I', 'N', 'F', 'T', 'Y'], 3) {
        let longer = format!("infin{}", text);
        assert_eq!(
            is_float_literal(&longer),
            longer.parse::<f64>().is_ok(),
            "{:?}",
            longer
        );
    }
}
