use lib::number::{convert, number_fn, number_lines, pfract, unit, NumberError, NumberStop};

fn spell(line: &str, lflag: bool) -> String {
    convert(line, lflag).expect("a number")
}

#[test]
fn three_digits() {
    assert_eq!(spell("123", false), "one hundred twenty-three.\n");
    assert_eq!(spell("123", true), "one hundred twenty-three\n");
}

#[test]
fn zero_is_spelled() {
    assert_eq!(spell("0", false), "zero.\n");
    assert_eq!(spell("0", true), "zero\n");
    assert_eq!(spell("000.000", false), "zero.\n");
}

#[test]
fn empty_number_is_zero() {
    assert_eq!(spell("   \n", false), "zero.\n");
}

#[test]
fn powers_of_a_thousand() {
    assert_eq!(spell("1000000", true), "one million \n");
    assert_eq!(spell("1000000", false), "one million.\n");
    assert_eq!(spell("1234", false), "one thousand.\ntwo hundred thirty-four.\n");
}

#[test]
fn tens_and_teens() {
    assert_eq!(spell("21", false), "twenty-one.\n");
    assert_eq!(spell("13", false), "thirteen.\n");
    assert_eq!(spell("40", false), "forty.\n");
    // The table of tens words has "nineteen" where ninety would be.
    assert_eq!(spell("90", false), "nineteen.\n");
}

#[test]
fn negative_numbers() {
    assert_eq!(spell("-5", false), "minus.\nfive.\n");
    assert_eq!(spell("-5", true), "minus five\n");
    assert_eq!(spell("-0", false), "minus.\nzero.\n");
}

#[test]
fn fractions() {
    assert_eq!(spell("1.5", false), "one.\nand.\nfive.\ntenths.\n");
    assert_eq!(spell("1.5", true), "oneand five tenths.\n\n");
    assert_eq!(spell("0.05", false), "five.\nhundredths.\n");
    assert_eq!(spell("0.001", false), "one.\nthousandths.\n");
    assert_eq!(spell("0.0001", false), "one.\nten-thousandths.\n");
    assert_eq!(spell("2.50", false), "two.\nand.\nfifty.\nhundredths.\n");
}

#[test]
fn leading_blanks_and_newline() {
    assert_eq!(spell(" \t42\n", false), "forty-two.\n");
    assert_eq!(spell("7\nrest", false), "seven.\n");
}

#[test]
fn illegal_numbers() {
    assert_eq!(convert("1x", false), Err(NumberError::IllegalNumber));
    assert_eq!(convert("1.2.3", false), Err(NumberError::IllegalNumber));
    assert_eq!(convert("5-", false), Err(NumberError::IllegalNumber));
    assert_eq!(convert("1 2", false), Err(NumberError::IllegalNumber));
}

#[test]
fn too_large_numbers() {
    let big = "1".repeat(66);
    assert_eq!(convert(&big, false), Err(NumberError::TooLarge));
    let frac = format!("0.{}", "1".repeat(66));
    assert_eq!(convert(&frac, false), Err(NumberError::TooLarge));
    let signed = format!("-{}", "1".repeat(65));
    assert_eq!(convert(&signed, false), Err(NumberError::TooLarge));
    let fits = "1".repeat(65);
    assert!(convert(&fits, true).is_ok());
}

#[test]
fn largest_scale() {
    let mut s = String::from("1");
    s.push_str(&"0".repeat(63));
    assert_eq!(spell(&s, true), "one vigintillion \n");
}

#[test]
fn minus_sign_only_at_the_very_start() {
    for line in ["--5", "-1-2", "-1.-5", "-1.0-", "1x-", "5-", " \t-3-\n"] {
        assert_eq!(convert(line, false), Err(NumberError::IllegalNumber));
        assert_eq!(convert(line, true), Err(NumberError::IllegalNumber));
    }
    assert_eq!(spell("-1.00", false), "minus.\none.\n");
    assert_eq!(spell("  -3\n", true), "minus three\n");
}

#[test]
fn digit_groups() {
    let mut out = String::new();
    assert!(number_fn(b"305", 3, &mut out));
    assert_eq!(out, "three hundred five");
    let mut out = String::new();
    assert!(!number_fn(b"000", 3, &mut out));
    assert_eq!(out, "");
    let mut out = String::new();
    assert!(!number_fn(b"1234", 4, &mut out));
    assert_eq!(out, "");
    let mut out = String::new();
    assert!(unit(5, b"12000", false, &mut out));
    assert_eq!(out, "twelve thousand.\n");
    let mut out = String::new();
    pfract(6, &mut out);
    assert_eq!(out, "millionths.\n");
}

fn strings(v: &[&str]) -> Vec<String> {
    v.iter().map(|s| s.to_string()).collect()
}

#[test]
fn runs_of_numbers() {
    let (out, stop) = number_lines(&strings(&["1", "2"]), false, false);
    assert_eq!(out, "one.\n...\ntwo.\n");
    assert_eq!(stop, None);
    let (out, stop) = number_lines(&strings(&["1", "x", "3"]), true, false);
    assert_eq!(out, "one\n...\n");
    assert_eq!(stop, Some(NumberStop::Refused(1, NumberError::IllegalNumber)));
    let long = format!("{}\n", "1".repeat(256));
    let (out, stop) = number_lines(&vec!["5\n".to_string(), long.clone()], false, true);
    assert_eq!(out, "five.\n");
    assert_eq!(stop, Some(NumberStop::LineTooLong(1)));
    let (_, stop) = number_lines(&vec![long], false, false);
    assert_eq!(stop, Some(NumberStop::Refused(0, NumberError::TooLarge)));
    let (out, stop) = number_lines(&strings(&["7", "-1-2"]), false, false);
    assert_eq!(out, "seven.\n...\n");
    assert_eq!(stop, Some(NumberStop::Refused(1, NumberError::IllegalNumber)));
    let (out, stop) = number_lines(&Vec::new(), false, true);
    assert_eq!(out, "");
    assert_eq!(stop, None);
}

#[test]
fn minus_in_front() {
    for s in ["12", "0.5", "1000001", "7.25"] {
        let plain = spell(s, false);
        let signed = spell(&format!("-{}", s), false);
        assert_eq!(signed, format!("minus.\n{}", plain));
    }
}

#[test]
fn blanks_and_what_follows_a_newline_are_ignored() {
    for (padded, plain) in [
        ("  \t-12.5\nanything at all", "-12.5"),
        ("\t\t7\n\n", "7"),
        ("   1x\n2", "1x"),
        (" 3..1", "3..1"),
    ] {
        assert_eq!(convert(padded, false), convert(plain, false));
        assert_eq!(convert(padded, true), convert(plain, true));
    }
    assert_eq!(convert("   1x\n2", false), Err(NumberError::IllegalNumber));
}

#[test]
fn zero_fractions_change_nothing() {
    for (with_fraction, plain) in [("12.000", "12"), ("-7.", "-7"), ("-.00", "-"), (".0", ""), ("1000.0", "1000")] {
        assert_eq!(convert(with_fraction, false), convert(plain, false));
        assert_eq!(convert(with_fraction, true), convert(plain, true));
    }
    assert_eq!(spell("-.00", false), "minus.\nzero.\n");
}

#[test]
fn fractions_are_spelled_after_the_integer_part() {
    assert_eq!(
        spell("3.25", false),
        format!("{}and.\n{}hundredths.\n", spell("3", false), spell("25", false))
    );
    assert_eq!(spell("3.25", false), "three.\nand.\ntwenty-five.\nhundredths.\n");
    assert_eq!(spell("0.5", false), format!("{}tenths.\n", spell("5", false)));
    assert_eq!(spell(".5", false), "five.\ntenths.\n");
    assert_eq!(spell("000.050", false), "fifty.\nthousandths.\n");
}
