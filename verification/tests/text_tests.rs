use mal::frac::{ArithOp, Frac, Relation};
use mal::text::{escape_str, text_contains, unescape_str};

#[test]
fn _escape_str() {
    assert_eq!(escape_str(""), "\"\""); // add quotations
    assert_eq!(escape_str("\\"), "\"\\\\\""); // escape "\"
    assert_eq!(escape_str("\n"), "\"\\n\""); // escape "\n"
    assert_eq!(escape_str("\""), "\"\\\"\""); // escape "\""
}

#[test]
fn _unescape_str() {
    assert_eq!(unescape_str("\"\""), ""); // remove quotations
    assert_eq!(unescape_str("\"a\""), "a"); // remove quotations
    assert_eq!(unescape_str("\"\\\\\""), "\\"); // unescape "\"
    assert_eq!(unescape_str("\"\\n\""), "\n"); // unescape "\n"
    assert_eq!(unescape_str("\"\\\"\""), "\""); // unescape "\""
}

#[test]
fn escape_then_unescape_is_identity() {
    for s in ["", "plain", "a\\nb", "\\n", "\\\\n", "tab\there", "cr\rlf\n", "q\"q", "\\", "\\\"", "x\\y\\"] {
        assert_eq!(unescape_str(&escape_str(s)), s);
    }
}

#[test]
fn unescape_edge_cases() {
    assert_eq!(unescape_str(""), "");
    assert_eq!(unescape_str("\""), "");
    assert_eq!(unescape_str("\"\\x\""), "\\x");
    assert_eq!(unescape_str("\"\\t\\r\""), "\t\r");
    assert_eq!(escape_str("\t\r"), "\"\\t\\r\"");
}

#[test]
fn substring_search() {
    assert!(text_contains("hello", ""));
    assert!(text_contains("hello", "ell"));
    assert!(text_contains("hello", "hello"));
    assert!(text_contains("hello", "o"));
    assert!(!text_contains("hello", "hellos"));
    assert!(!text_contains("hello", "lol"));
    assert!(!text_contains("", "a"));
    assert!(text_contains("", ""));
}

fn frac(s: &str) -> Frac {
    Frac::from_str(s).unwrap()
}

fn pair(f: Frac) -> (isize, usize) {
    (f.get_num(), f.get_den())
}

#[test]
fn numbers_from_text() {
    assert_eq!(pair(frac("0")), (0, 1));
    assert_eq!(pair(frac("-12")), (-12, 1));
    assert_eq!(pair(frac("4/6")), (2, 3));
    assert_eq!(pair(frac("-4/6")), (-2, 3));
    assert_eq!(pair(frac("0/5")), (0, 1));
    assert_eq!(pair(frac("007")), (7, 1));
    assert_eq!(pair(frac("9223372036854775807")), (isize::MAX, 1));
    assert_eq!(pair(frac("-9223372036854775808")), (isize::MIN, 1));
    for bad in ["", "-", "+1", "1/", "/2", "1/0", "1/2/3", "a", "1a", "--1", "1/-2", " 1", "9223372036854775808", "1/18446744073709551616"] {
        assert!(Frac::from_str(bad).is_none(), "{}", bad);
    }
    assert!(Frac::is_shaped("9223372036854775808"));
    assert!(Frac::is_shaped("1/0"));
    assert!(!Frac::is_shaped("1/"));
}

#[test]
fn numbers_to_text() {
    assert_eq!(frac("0").to_text(), "0");
    assert_eq!(frac("-12").to_text(), "-12");
    assert_eq!(frac("4/6").to_text(), "2/3");
    assert_eq!(frac("-3/9").to_text(), "-1/3");
    assert_eq!(frac("6/3").to_text(), "2");
    assert_eq!(Frac::num(isize::MIN).to_text(), "-9223372036854775808");
}

#[test]
fn exact_arithmetic() {
    let a = frac("1/2");
    let b = frac("1/3");
    assert_eq!(pair(a.checked_add(&b).unwrap()), (5, 6));
    assert_eq!(pair(a.checked_sub(&b).unwrap()), (1, 6));
    assert_eq!(pair(b.checked_sub(&a).unwrap()), (-1, 6));
    assert_eq!(pair(a.checked_mul(&b).unwrap()), (1, 6));
    assert_eq!(pair(a.checked_div(&b).unwrap()), (3, 2));
    assert_eq!(pair(a.checked_div(&frac("-1/3")).unwrap()), (-3, 2));
    assert_eq!(pair(frac("-1/2").checked_add(&a).unwrap()), (0, 1));
    assert_eq!(pair(frac("4").checked_div(&frac("6")).unwrap()), (2, 3));
    assert!(a.checked_div(&frac("0")).is_none());
    assert_eq!(pair(a.apply(ArithOp::Mul, &frac("4")).unwrap()), (2, 1));
    assert_eq!(pair(a.simplify()), (1, 2));
}

#[test]
fn arithmetic_that_does_not_fit() {
    let big = Frac::num(isize::MAX);
    assert!(big.checked_add(&Frac::num(1)).is_none());
    assert!(big.checked_mul(&Frac::num(2)).is_none());
    assert!(Frac::num(isize::MIN).checked_sub(&Frac::num(1)).is_none());
    assert_eq!(pair(big.checked_sub(&big).unwrap()), (0, 1));
    assert_eq!(pair(Frac::num(isize::MIN).checked_add(&big).unwrap()), (-1, 1));
    assert_eq!(pair(Frac::num(isize::MIN).checked_div(&Frac::num(-1)).unwrap_or(Frac::num(0))), (0, 1));
    assert_eq!(pair(big.checked_mul(&frac("1/9223372036854775807")).unwrap()), (1, 1));
}

#[test]
fn floor_and_comparisons() {
    assert_eq!(frac("7/2").to_int(), 3);
    assert_eq!(frac("-7/2").to_int(), -4);
    assert_eq!(frac("-4/2").to_int(), -2);
    assert_eq!(frac("0").to_int(), 0);
    assert_eq!(Frac::num(isize::MIN).to_int(), isize::MIN);
    assert!(frac("1/2").same(&frac("2/4")));
    assert!(!frac("1/2").same(&frac("-1/2")));
    assert!(frac("1/3").holds(Relation::Less, &frac("1/2")));
    assert!(frac("-1/2").holds(Relation::Less, &frac("1/3")));
    assert!(frac("1/2").holds(Relation::LessEq, &frac("1/2")));
    assert!(frac("1/2").holds(Relation::GreaterEq, &frac("1/2")));
    assert!(!frac("1/2").holds(Relation::Greater, &frac("1/2")));
    assert!(frac("0").exact_zero());
    assert!(!frac("1/7").exact_zero());
}
