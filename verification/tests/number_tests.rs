use json_formatter::number::is_decimal_text;
use json_formatter::unicode::decode_char;
use json_formatter::unicode::same_text;

#[test]
fn decimal_numbers() {
    for text in [
        "0", "12345", "123.45", "-123.45", "+123.45e6", "-123.45E-3", "1.", ".5", "-.5", "+1.",
        "1e5", "1E5", "1e+5", "1e-5", "1.e5", ".5e5", "007", "0.000", "1e0005",
    ] {
        assert!(is_decimal_text(text), "{}", text);
        assert!(text.parse::<f64>().is_ok(), "{}", text);
    }
}

#[test]
fn texts_that_are_no_decimal_number() {
    for text in [
        "", ".", "+", "-", "e", "E", "e5", "+e5", "1e", "1e+", "1e-", "1e5.", "1e5e5", "1.2.3",
        "--1", "+-1", "1-", "1+1", "..1", "-.", ".e1", "1 ", " 1", "1,", "0x10", "1_000", "inf",
        "nan", "1.5f", "\u{661}", "1\u{e9}",
    ] {
        assert!(!is_decimal_text(text), "{}", text);
    }
}

#[test]
fn decimal_number_is_what_the_float_conversion_accepts() {
    // every text of up to six number characters
    let alphabet = ['0', '7', '.', '+', '-', 'e', 'E'];
    let mut texts: Vec<String> = vec![String::new()];
    let mut from = 0;
    for _ in 0..6 {
        let until = texts.len();
        for i in from..until {
            for c in alphabet {
                let mut text = texts[i].clone();
                text.push(c);
                texts.push(text);
            }
        }
        from = until;
    }
    assert_eq!(texts.len(), 1 + 7 + 49 + 343 + 2401 + 16807 + 117649);
    let mut accepted = 0;
    for text in &texts {
        let expected = text.parse::<f64>().is_ok();
        assert_eq!(is_decimal_text(text), expected, "{}", text);
        if expected {
            accepted += 1;
        }
    }
    assert!(accepted > 0);
}

#[test]
fn same_text_compares_characters() {
    assert!(same_text("", ""));
    assert!(same_text("true", "true"));
    assert!(same_text("\u{4eac}\u{e9}", "\u{4eac}\u{e9}"));
    assert!(!same_text("true", "tru"));
    assert!(!same_text("true", "trua"));
    assert!(!same_text("", "a"));
    assert!(!same_text("\u{e9}", "\u{e8}"));
}

#[test]
fn decode_char_of_each_width() {
    let text = "a\u{e9}\u{4eac}\u{1f49d}\u{7f}\u{80}\u{7ff}\u{800}\u{ffff}\u{10000}\u{10ffff}";
    let bytes = text.as_bytes();
    let mut at = 0;
    for expected in text.chars() {
        let (c, width) = decode_char(bytes, at);
        assert_eq!(c, expected);
        assert_eq!(width, expected.len_utf8());
        at += width;
    }
    assert_eq!(at, bytes.len());
    assert_eq!(decode_char("\u{4eac}".as_bytes(), 0), ('\u{4eac}', 3));
}
