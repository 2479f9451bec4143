use cutr::extract::{extract, extract_bytes, extract_chars, extract_fields, Extract};
use cutr::selector::{format_pos, parse_pos, ParseError};

#[test]
fn test_parse_pos() {
    // The empty string is an error
    assert!(parse_pos("").is_err());

    // Zero is an error
    let res = parse_pos("0");
    assert!(res.is_err());
    assert_eq!(res.unwrap_err().to_string(), "illegal list value: \"0\"",);

    // A bad half of a range reports the whole token
    let res = parse_pos("0-1");
    assert!(res.is_err());
    assert_eq!(res.unwrap_err().to_string(), "illegal list value: \"0-1\"",);

    // A leading "+" is an error
    let res = parse_pos("+1");
    assert!(res.is_err());
    assert_eq!(res.unwrap_err().to_string(), "illegal list value: \"+1\"",);

    let res = parse_pos("+1-2");
    assert!(res.is_err());
    assert_eq!(
        res.unwrap_err().to_string(),
        "illegal list value: \"+1-2\"",
    );

    let res = parse_pos("1-+2");
    assert!(res.is_err());
    assert_eq!(
        res.unwrap_err().to_string(),
        "illegal list value: \"1-+2\"",
    );

    // Any non-number is an error
    let res = parse_pos("a");
    assert!(res.is_err());
    assert_eq!(res.unwrap_err().to_string(), "illegal list value: \"a\"",);

    let res = parse_pos("1,a");
    assert!(res.is_err());
    assert_eq!(res.unwrap_err().to_string(), "illegal list value: \"a\"",);

    let res = parse_pos("1-a");
    assert!(res.is_err());
    assert_eq!(
        res.unwrap_err().to_string(),
        "illegal list value: \"1-a\"",
    );

    let res = parse_pos("a-1");
    assert!(res.is_err());
    assert_eq!(
        res.unwrap_err().to_string(),
        "illegal list value: \"a-1\"",
    );

    // Wonky ranges
    let res = parse_pos("-");
    assert!(res.is_err());

    let res = parse_pos(",");
    assert!(res.is_err());

    let res = parse_pos("1,");
    assert!(res.is_err());

    let res = parse_pos("1-");
    assert!(res.is_err());

    let res = parse_pos("1-1-1");
    assert!(res.is_err());

    let res = parse_pos("1-1-a");
    assert!(res.is_err());

    // First number must be less than second
    let res = parse_pos("1-1");
    assert!(res.is_err());
    assert_eq!(
        res.unwrap_err().to_string(),
        "First number in range (1) must be lower than second number (1)"
    );

    let res = parse_pos("2-1");
    assert!(res.is_err());
    assert_eq!(
        res.unwrap_err().to_string(),
        "First number in range (2) must be lower than second number (1)"
    );

    // All the following are acceptable
    let res = parse_pos("1");
    assert!(res.is_ok());
    assert_eq!(res.unwrap(), vec![0..1]);

    let res = parse_pos("01");
    assert!(res.is_ok());
    assert_eq!(res.unwrap(), vec![0..1]);

    let res = parse_pos("1,3");
    assert!(res.is_ok());
    assert_eq!(res.unwrap(), vec![0..1, 2..3]);

    let res = parse_pos("001,0003");
    assert!(res.is_ok());
    assert_eq!(res.unwrap(), vec![0..1, 2..3]);

    let res = parse_pos("1-3");
    assert!(res.is_ok());
    assert_eq!(res.unwrap(), vec![0..3]);

    let res = parse_pos("0001-03");
    assert!(res.is_ok());
    assert_eq!(res.unwrap(), vec![0..3]);

    let res = parse_pos("1,7,3-5");
    assert!(res.is_ok());
    assert_eq!(res.unwrap(), vec![0..1, 6..7, 2..5]);

    let res = parse_pos("15,19-20");
    assert!(res.is_ok());
    assert_eq!(res.unwrap(), vec![14..15, 18..20]);
}

#[test]
fn parse_errors_are_structured() {
    assert!(matches!(parse_pos("2-1"), Err(ParseError::RangeOrder(2, 1))));
    assert!(matches!(parse_pos("1-1"), Err(ParseError::RangeOrder(1, 1))));
    match parse_pos("3,x-2") {
        Err(ParseError::InvalidValue(t)) => assert_eq!(t, "x-2"),
        _ => panic!("expected an invalid value"),
    }
    match parse_pos("") {
        Err(ParseError::InvalidValue(t)) => assert_eq!(t, ""),
        _ => panic!("expected an invalid value"),
    }
}

#[test]
fn parse_rejects_numbers_past_usize() {
    assert!(parse_pos("99999999999999999999999").is_err());
    assert!(parse_pos("1-99999999999999999999999").is_err());
    assert_eq!(parse_pos("1,1,1").unwrap(), vec![0..1, 0..1, 0..1]);
}

#[test]
fn parsed_ranges_are_non_empty() {
    for s in ["1", "3-9", "1,7,3-5", "15,19-20", "2,2,1-4"] {
        for r in parse_pos(s).unwrap() {
            assert!(r.start < r.end);
        }
    }
}

#[test]
fn format_then_parse_round_trips() {
    let list = vec![0..1, 6..7, 2..5, 2..5];
    let text = format_pos(&list);
    assert_eq!(text, "1,7,3-5,3-5");
    assert_eq!(parse_pos(&text).unwrap(), list);
    let parsed = parse_pos("15,19-20").unwrap();
    assert_eq!(format_pos(&parsed), "15,19-20");
}

#[test]
fn fields_without_delimiter_pass_through() {
    let pos = parse_pos("2-3").unwrap();
    assert_eq!(extract_fields("no commas here", &pos, b','), "no commas here");
    assert_eq!(extract_fields("", &pos, b','), "");
}

#[test]
fn fields_select_in_order() {
    let pos = parse_pos("1,3-4").unwrap();
    assert_eq!(extract_fields("a,b,c,d", &pos, b','), "a,c,d");
    let pos = parse_pos("3,1,1").unwrap();
    assert_eq!(extract_fields("a,b,c", &pos, b','), "c,a,a");
    let pos = parse_pos("2-9").unwrap();
    assert_eq!(extract_fields("a\tb\tc", &pos, b'\t'), "b\tc");
    let pos = parse_pos("5").unwrap();
    assert_eq!(extract_fields("a,b", &pos, b','), "");
}

#[test]
fn bytes_select_and_clamp() {
    let pos = parse_pos("1-3").unwrap();
    assert_eq!(extract_bytes("hello", &pos), "hel");
    let pos = parse_pos("4-10,1").unwrap();
    assert_eq!(extract_bytes("hello", &pos), "loh");
    let pos = parse_pos("1").unwrap();
    assert_eq!(extract_bytes("éa", &pos), "\u{FFFD}");
}

#[test]
fn chars_select_scalar_values() {
    let pos = parse_pos("1").unwrap();
    assert_eq!(extract_chars("éa", &pos), "é");
    let pos = parse_pos("2-3,1-2").unwrap();
    assert_eq!(extract_chars("ábcd", &pos), "bcáb");
    let pos = parse_pos("9").unwrap();
    assert_eq!(extract_chars("abc", &pos), "");
}

#[test]
fn extract_dispatches_on_mode() {
    let pos = parse_pos("1,3-4").unwrap();
    assert_eq!(extract("a,b,c,d", &Extract::Fields(pos.clone()), b','), "a,c,d");
    assert_eq!(extract("a,b,c,d", &Extract::Bytes(pos.clone()), b','), "ab,");
    assert_eq!(extract("a,b,c,d", &Extract::Chars(pos), b','), "ab,");
}
