use scale::scanner::{parse_i32, parse_usize, ScanError, Scanner, Span};

fn bytes(text: &str) -> Vec<u8> {
    text.as_bytes().to_vec()
}

fn whole(text: &Vec<u8>) -> Span {
    Span { start: 0, end: text.len() }
}

fn as_usize(text: &str) -> Option<usize> {
    let text = bytes(text);
    parse_usize(&text, whole(&text))
}

fn as_i32(text: &str) -> Option<i32> {
    let text = bytes(text);
    parse_i32(&text, whole(&text))
}

#[test]
fn fields_are_set_apart_by_white_space() {
    let text = bytes("  12\t-7 \r\n\n abc\x0b\x0c+4");
    let mut scanner = Scanner::new(&text);
    assert_eq!(scanner.count(), 0);
    assert_eq!(scanner.next(), Some(Span { start: 2, end: 4 }));
    assert_eq!(scanner.count(), 1);
    assert_eq!(scanner.next(), Some(Span { start: 5, end: 7 }));
    let word = scanner.next().unwrap();
    assert_eq!(scanner.bytes(word), b"abc");
    let last = scanner.next().unwrap();
    assert_eq!(scanner.bytes(last), b"+4");
    assert_eq!(last.end, text.len());
    assert_eq!(scanner.count(), 4);
    assert_eq!(scanner.next(), None);
    assert_eq!(scanner.next(), None);
    assert_eq!(scanner.count(), 4);
}

#[test]
fn text_without_fields() {
    for text in ["", " ", "\n\t \r"] {
        let text = bytes(text);
        let mut scanner = Scanner::new(&text);
        assert_eq!(scanner.next(), None);
        assert_eq!(scanner.next_usize(), Err(ScanError::Truncated { field: 0 }));
        assert_eq!(scanner.next_i32(), Err(ScanError::Truncated { field: 0 }));
        assert_eq!(scanner.count(), 0);
    }
}

#[test]
fn other_bytes_do_not_set_fields_apart() {
    let text = bytes("1,2;3\x004\u{200b}5\u{feff}6\u{e9}7");
    let mut scanner = Scanner::new(&text);
    assert_eq!(scanner.next(), Some(Span { start: 0, end: text.len() }));
    assert_eq!(scanner.next(), None);
}

fn fields(text: &str) -> Vec<String> {
    let text = bytes(text);
    let mut scanner = Scanner::new(&text);
    let mut found = vec![];
    while let Some(span) = scanner.next() {
        found.push(String::from_utf8(text[span.start..span.end].to_vec()).unwrap());
    }
    found
}

#[test]
fn white_space_of_any_width_sets_fields_apart() {
    for code in 0..=0x3100u32 {
        let c = char::from_u32(code).unwrap();
        let text = format!("ab{}cd{}{}ef{}", c, c, c, c);
        let expected: Vec<String> = text.split_whitespace().map(String::from).collect();
        assert_eq!(fields(&text), expected, "U+{:04X}", code);
        assert_eq!(expected.len() == 3, c.is_whitespace());
    }
    let mixed = "\u{3000}1\u{a0}\u{85}22 \u{2003}\u{1680}\t333\u{2028}\u{2029}4\u{202f}5\u{205f}";
    assert_eq!(fields(mixed), vec!["1", "22", "333", "4", "5"]);
}

#[test]
fn white_space_cut_short_is_part_of_a_field() {
    // The first bytes of a wide space, without the last.
    let text: Vec<u8> = vec![b'1', 0xE2, 0x80];
    let mut scanner = Scanner::new(&text);
    assert_eq!(scanner.next(), Some(Span { start: 0, end: 3 }));
    let text: Vec<u8> = vec![0xC2];
    let mut scanner = Scanner::new(&text);
    assert_eq!(scanner.next(), Some(Span { start: 0, end: 1 }));
    assert_eq!(scanner.next(), None);
}

#[test]
fn unsigned_numbers() {
    assert_eq!(as_usize("0"), Some(0));
    assert_eq!(as_usize("007"), Some(7));
    assert_eq!(as_usize("+15"), Some(15));
    assert_eq!(as_usize("54000"), Some(54000));
    assert_eq!(as_usize(&usize::MAX.to_string()), Some(usize::MAX));
    assert_eq!(as_usize(&format!("000{}", usize::MAX)), Some(usize::MAX));
}

#[test]
fn what_spells_no_unsigned_number() {
    for text in ["", "+", "-", "-0", "-5", "1.5", "1e3", "12a", "a12", "++1", "1+", " 1", "0x10"] {
        assert_eq!(as_usize(text), None, "{:?}", text);
        assert_eq!(as_usize(text), text.parse::<usize>().ok(), "{:?}", text);
    }
    let too_large = format!("{}0", usize::MAX);
    assert_eq!(as_usize(&too_large), None);
    assert_eq!(as_usize(&(usize::MAX as u128 + 1).to_string()), None);
    assert_eq!(as_usize("99999999999999999999999999999999999999999999"), None);
    assert_eq!(as_usize("99999999999999999999999999999999999999999999x"), None);
}

#[test]
fn signed_numbers() {
    assert_eq!(as_i32("0"), Some(0));
    assert_eq!(as_i32("-0"), Some(0));
    assert_eq!(as_i32("+0"), Some(0));
    assert_eq!(as_i32("-12"), Some(-12));
    assert_eq!(as_i32("+12"), Some(12));
    assert_eq!(as_i32("2147483647"), Some(i32::MAX));
    assert_eq!(as_i32("-2147483648"), Some(i32::MIN));
    assert_eq!(as_i32("-0002147483648"), Some(i32::MIN));
}

#[test]
fn what_spells_no_signed_number() {
    for text in
        ["", "+", "-", "--1", "+-1", "-+1", "1-", "1.0", "2147483648", "-2147483649", "- 1", "٣"]
    {
        assert_eq!(as_i32(text), None, "{:?}", text);
        assert_eq!(as_i32(text), text.parse::<i32>().ok(), "{:?}", text);
    }
}

#[test]
fn numbers_agree_with_the_standard_library() {
    for value in [0usize, 1, 9, 10, 99, 100, 12345, 4294967295, usize::MAX - 1, usize::MAX] {
        assert_eq!(as_usize(&value.to_string()), Some(value));
    }
    for value in [i32::MIN, i32::MIN + 1, -1000, -1, 0, 1, 1000, i32::MAX - 1, i32::MAX] {
        assert_eq!(as_i32(&value.to_string()), Some(value));
    }
}

#[test]
fn scanner_reads_numbers_field_by_field() {
    let text = bytes("3 -4 x 18446744073709551616 5");
    let mut scanner = Scanner::new(&text);
    assert_eq!(scanner.next_usize(), Ok(3));
    assert_eq!(scanner.next_i32(), Ok(-4));
    assert_eq!(scanner.next_i32(), Err(ScanError::BadNumber { field: 2 }));
    assert_eq!(scanner.next_usize(), Err(ScanError::BadNumber { field: 3 }));
    assert_eq!(scanner.next_usize(), Ok(5));
    assert_eq!(scanner.next_usize(), Err(ScanError::Truncated { field: 5 }));
    assert_eq!(scanner.count(), 5);
}

#[test]
fn a_field_inside_a_span_is_parsed_alone() {
    let text = bytes("ab123cd");
    assert_eq!(parse_usize(&text, Span { start: 2, end: 5 }), Some(123));
    assert_eq!(parse_usize(&text, Span { start: 2, end: 6 }), None);
    assert_eq!(parse_usize(&text, Span { start: 3, end: 3 }), None);
    assert_eq!(parse_i32(&text, Span { start: 4, end: 5 }), Some(3));
}
