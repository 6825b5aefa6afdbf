use bencode::render::quoted_or_placeholder;
use bencode::{decode, render, BencodeObj};

#[test]
fn integer_is_one_line() {
    assert_eq!(render(&BencodeObj::Num(42), 0), "42\n");
    assert_eq!(render(&BencodeObj::Num(0), 0), "0\n");
    assert_eq!(render(&BencodeObj::Num(-3), 0), "-3\n");
    assert_eq!(render(&BencodeObj::Num(1000), 0), "1000\n");
}

#[test]
fn integer_at_the_limits() {
    assert_eq!(render(&BencodeObj::Num(i64::MAX), 0), "9223372036854775807\n");
    assert_eq!(render(&BencodeObj::Num(i64::MIN), 0), "-9223372036854775808\n");
}

#[test]
fn indent_stands_in_front() {
    assert_eq!(render(&BencodeObj::Num(7), 3), "   7\n");
    assert_eq!(render(&BencodeObj::Str(b"a".to_vec()), 2), "  \"a\"\n");
}

#[test]
fn text_is_quoted() {
    assert_eq!(render(&BencodeObj::Str(b"hello".to_vec()), 0), "\"hello\"\n");
    assert_eq!(render(&BencodeObj::Str(vec![]), 0), "\"\"\n");
}

#[test]
fn text_is_escaped() {
    assert_eq!(render(&BencodeObj::Str(b"a\"b\\c\nd".to_vec()), 0), "\"a\\\"b\\\\c\\nd\"\n");
    assert_eq!(
        render(&BencodeObj::Str("gr\u{fc}n".as_bytes().to_vec()), 0),
        "\"gr\u{fc}n\"\n"
    );
}

#[test]
fn bytes_that_are_no_text_get_the_placeholder() {
    assert_eq!(render(&BencodeObj::Str(vec![0xff, 0xfe]), 0), "\"...bytes...\"\n");
    assert_eq!(render(&BencodeObj::Str(vec![b'a', 0x80]), 1), " \"...bytes...\"\n");
    assert_eq!(render(&BencodeObj::Str(vec![0xed, 0xa0, 0x80]), 0), "\"...bytes...\"\n");
}

#[test]
fn list_indents_its_items() {
    let list = BencodeObj::List(vec![BencodeObj::Num(1), BencodeObj::Str(b"a".to_vec())]);
    assert_eq!(render(&list, 0), "[\n  1\n  \"a\"\n]\n");
    assert_eq!(render(&list, 2), "  [\n    1\n    \"a\"\n  ]\n");
    assert_eq!(render(&BencodeObj::List(vec![]), 0), "[\n]\n");
}

#[test]
fn dictionary_shows_key_and_value_below() {
    let dict = BencodeObj::Dict(vec![
        (b"k".to_vec(), BencodeObj::Num(1)),
        (b"l".to_vec(), BencodeObj::List(vec![BencodeObj::Num(2)])),
    ]);
    assert_eq!(render(&dict, 0), "{\n  \"k\"\n  1\n  \"l\"\n  [\n    2\n  ]\n}\n");
    assert_eq!(render(&BencodeObj::Dict(vec![]), 1), " {\n }\n");
}

#[test]
fn key_that_is_no_text_gets_the_placeholder() {
    let dict = BencodeObj::Dict(vec![(vec![0xc0], BencodeObj::Num(1))]);
    assert_eq!(render(&dict, 0), "{\n  \"...bytes...\"\n  1\n}\n");
}

#[test]
fn nested_value_is_rendered_level_by_level() {
    let (value, _) = decode(b"d4:listl3:oned5:inneri7eeee");
    let text = render(&value.unwrap(), 0);
    let expected = "{\n  \"list\"\n  [\n    \"one\"\n    {\n      \"inner\"\n      7\n    }\n  ]\n}\n";
    assert_eq!(text, expected);
}

#[test]
fn rendering_leaves_the_value_as_it_was() {
    let value = BencodeObj::List(vec![BencodeObj::Num(1)]);
    let first = render(&value, 0);
    let second = render(&value, 0);
    assert_eq!(first, second);
    assert_eq!(value, BencodeObj::List(vec![BencodeObj::Num(1)]));
}

#[test]
fn quoted_text_is_shown_as_it_is_and_none_as_the_placeholder() {
    assert_eq!(quoted_or_placeholder(Some(String::from("\"hi\""))), "\"hi\"");
    assert_eq!(quoted_or_placeholder(Some(String::new())), "");
    assert_eq!(quoted_or_placeholder(None), "\"...bytes...\"");
}

#[test]
fn text_that_reads_like_the_placeholder_is_quoted_too() {
    assert_eq!(render(&BencodeObj::Str(b"...bytes...".to_vec()), 0), "\"...bytes...\"\n");
}
