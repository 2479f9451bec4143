use cutr::cat::{number_line, Config as CatConfig};
use cutr::extract::{choose_mode, parse_delimiter, Extract};
use cutr::find::{is_selected, name_matches, parse_entry_type, type_matches, Config as FindConfig, EntryKind, EntryType, NamePattern};
use cutr::head::parse_positive_int;
use cutr::text::{pad_left, to_decimal};
use cutr::uniq::{format_group, same_line, Uniq};
use cutr::wc::{count, is_whitespace, print_data, total, Config as WcConfig};

#[test]
fn test_parse_positive_int() {
    // 3 should work
    let res = parse_positive_int("3");
    assert!(res.is_ok());
    assert_eq!(res.unwrap(), 3);

    // String should error
    let res = parse_positive_int("foo");
    assert!(res.is_err());
    assert_eq!(res.unwrap_err().to_string(), "foo".to_string());

    // 0 should error
    let res = parse_positive_int("0");
    assert!(res.is_err());
    assert_eq!(res.unwrap_err().to_string(), "0".to_string());
}

#[test]
fn positive_int_follows_usize_parsing() {
    assert_eq!(parse_positive_int("+7"), Ok(7));
    assert_eq!(parse_positive_int("007"), Ok(7));
    assert_eq!(parse_positive_int("+"), Err("+".to_string()));
    assert_eq!(parse_positive_int(""), Err("".to_string()));
    assert_eq!(parse_positive_int("-1"), Err("-1".to_string()));
    assert_eq!(parse_positive_int("99999999999999999999999"), Err("99999999999999999999999".to_string()));
}

#[test]
fn decimal_and_padding() {
    assert_eq!(to_decimal(0), "0");
    assert_eq!(to_decimal(1234), "1234");
    assert_eq!(pad_left("42", 8), "      42");
    assert_eq!(pad_left("123456789", 8), "123456789");
}

#[test]
fn count_lines_words_chars_bytes() {
    let d = count("hello world\nsecond  line é\n", "f.txt");
    assert_eq!(d.filename, "f.txt");
    assert_eq!(d.lines, 2);
    assert_eq!(d.words, 5);
    assert_eq!(d.chars, 27);
    assert_eq!(d.bytes, 28);
    let d = count("no newline", "-");
    assert_eq!((d.lines, d.words, d.chars, d.bytes), (1, 2, 10, 10));
    let d = count("", "-");
    assert_eq!((d.lines, d.words, d.chars, d.bytes), (0, 0, 0, 0));
    assert!(is_whitespace('\u{3000}'));
    assert!(!is_whitespace('x'));
}

#[test]
fn report_and_total() {
    let config = WcConfig::new(vec!["a".to_string()], false, false, false, false);
    assert!(config.lines && config.words && config.bytes && !config.chars);
    let a = count("one two\n", "a");
    let b = count("three\nfour\n", "b");
    assert_eq!(print_data(&config, &a), "       1       2       8 a");
    let t = total(&vec![a, b]).unwrap();
    assert_eq!(t.filename, "total");
    assert_eq!((t.lines, t.words, t.bytes), (3, 4, 19));
    let only_chars = WcConfig::new(vec![], false, false, false, true);
    assert!(!only_chars.lines && only_chars.chars);
    let stdin = count("x", "-");
    assert_eq!(print_data(&only_chars, &stdin), "       1");
}

#[test]
fn total_reports_overflow() {
    let mut a = count("x", "a");
    a.bytes = usize::MAX;
    let b = count("y", "b");
    assert!(total(&vec![a, b]).is_none());
}

#[test]
fn uniq_groups_adjacent_lines() {
    assert!(same_line("a  \n", "a"));
    assert!(!same_line("a", "b"));
    let mut u = Uniq::new();
    assert_eq!(u.push("a\n"), None);
    assert_eq!(u.push("a \n"), None);
    assert_eq!(u.push("b\n"), Some((2, "a\n".to_string())));
    assert_eq!(u.finish(), Some((1, "b\n".to_string())));
    assert_eq!(format_group(2, "a\n", true), "   2 a\n");
    assert_eq!(format_group(2, "a\n", false), "a\n");
}

#[test]
fn cat_numbers_lines() {
    let config = CatConfig { files: vec![], number: false, number_nonblank: true };
    let mut next = 1;
    assert_eq!(number_line(&config, "first", &mut next), "     1\tfirst");
    assert_eq!(number_line(&config, "", &mut next), "");
    assert_eq!(number_line(&config, "third", &mut next), "     2\tthird");
    assert_eq!(next, 3);
    let plain = CatConfig { files: vec![], number: false, number_nonblank: false };
    assert_eq!(number_line(&plain, "x", &mut next), "x");
    assert_eq!(next, 3);
}

#[test]
fn find_filters_entries() {
    assert_eq!(parse_entry_type("d"), Some(EntryType::Dir));
    assert_eq!(parse_entry_type("l"), Some(EntryType::Link));
    assert_eq!(parse_entry_type("x"), None);
    let file = EntryKind { is_dir: false, is_file: true, is_symlink: false };
    assert!(type_matches(&vec![], file));
    assert!(type_matches(&vec![EntryType::Dir, EntryType::File], file));
    assert!(!type_matches(&vec![EntryType::Link], file));
    let names = vec![NamePattern::new(r"\.csv$").ok().unwrap()];
    assert!(name_matches(&names, "a.csv"));
    assert!(!name_matches(&names, "a.txt"));
    assert_eq!(NamePattern::new("(").err().unwrap(), "Invalid --name \"(\"");
    let config = FindConfig { paths: vec![".".to_string()], names, entry_types: vec![EntryType::File] };
    assert!(is_selected(&config, "b.csv", file));
    let dir = EntryKind { is_dir: true, is_file: false, is_symlink: false };
    assert!(!is_selected(&config, "b.csv", dir));
}

#[test]
fn cut_options() {
    assert_eq!(parse_delimiter(","), Ok(b','));
    assert_eq!(parse_delimiter(",,"), Err("--delim \",,\" must be a single byte".to_string()));
    assert!(matches!(choose_mode(None, Some("1-2"), None), Ok(Extract::Bytes(p)) if p == vec![0..2]));
    assert!(matches!(choose_mode(Some("3"), None, None), Ok(Extract::Fields(p)) if p == vec![2..3]));
    assert!(matches!(choose_mode(None, None, Some("1")), Ok(Extract::Chars(_))));
    assert_eq!(choose_mode(None, None, None).err().unwrap(), "Must have --fields, --bytes, or --chars");
    assert_eq!(choose_mode(Some("0"), None, None).err().unwrap(), "illegal list value: \"0\"");
}
