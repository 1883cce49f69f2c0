use graphviz_core::numeric::{is_mostly_strings, is_number};

#[test]
fn plain_numbers_read_as_numbers() {
    for s in ["0", "42", "-7", "+3", "1.5", "-0.25", ".5", "5.", "1e10", "1E-3", "2.5e+7", "-.5e2"] {
        assert!(is_number(s), "{} should read as a number", s);
    }
}

#[test]
fn special_words_read_as_numbers() {
    for s in ["inf", "-inf", "+Infinity", "INFINITY", "nan", "NaN", "-nan"] {
        assert!(is_number(s), "{} should read as a number", s);
    }
}

#[test]
fn malformed_text_is_not_a_number() {
    for s in ["", ".", "+", "-", "e5", "1e", "1e+", "1.2.3", "abc", "1a", " 1", "1 ", "infin", "nann", "--1", "1..", "0x10"] {
        assert!(!is_number(s), "{:?} should not read as a number", s);
    }
}

#[test]
fn parse_agrees_with_std() {
    for s in ["12", "-3.5", "abc", "", "1e3", ".", "inf", "x1", "+.7", "7e-", "NaN"] {
        assert_eq!(is_number(s), s.parse::<f64>().is_ok(), "disagreement on {:?}", s);
    }
}

#[test]
fn mostly_strings_counts_non_numeric_values() {
    let v = |xs: &[&str]| xs.iter().map(|s| s.to_string()).collect::<Vec<String>>();
    assert!(is_mostly_strings(&v(&["a", "b", "1"])));
    assert!(!is_mostly_strings(&v(&["a", "1", "2"])));
    // two of four: not more than half
    assert!(!is_mostly_strings(&v(&["a", "b", "1", "2"])));
    // empty strings count as neither
    assert!(!is_mostly_strings(&v(&["a", "", "", "1"])));
    assert!(!is_mostly_strings(&v(&[])));
    assert!(is_mostly_strings(&v(&["x"])));
}
