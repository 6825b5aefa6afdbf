use bencode::{decode, decode_with_depth, BencodeObj, DecodeError, DEFAULT_MAX_DEPTH};

fn text(s: &str) -> Vec<u8> {
    s.as_bytes().to_vec()
}

#[test]
fn integer_is_decoded() {
    let (value, rest) = decode(b"i42e");
    assert_eq!(value, Ok(BencodeObj::Num(42)));
    assert!(rest.is_empty());
}

#[test]
fn negative_integer_is_decoded() {
    let (value, rest) = decode(b"i-3e");
    assert_eq!(value, Ok(BencodeObj::Num(-3)));
    assert!(rest.is_empty());
}

#[test]
fn integer_without_digits_is_invalid() {
    let (value, rest) = decode(b"ie");
    assert_eq!(value, Err(DecodeError::InvalidInteger));
    assert_eq!(rest, b"e");
}

#[test]
fn lone_minus_is_invalid() {
    let (value, rest) = decode(b"i-e");
    assert_eq!(value, Err(DecodeError::InvalidInteger));
    assert_eq!(rest, b"-e");
}

#[test]
fn stray_byte_in_integer_is_unexpected() {
    let (value, rest) = decode(b"i4x2e");
    assert_eq!(value, Err(DecodeError::UnexpectedToken));
    assert_eq!(rest, b"x2e");
}

#[test]
fn sign_is_only_accepted_in_front() {
    assert_eq!(decode(b"i1-2e").0, Err(DecodeError::UnexpectedToken));
    assert_eq!(decode(b"i--2e").0, Err(DecodeError::UnexpectedToken));
    assert_eq!(decode(b"i+3e").0, Err(DecodeError::UnexpectedToken));
}

#[test]
fn unexpected_byte_wins_over_invalid_number() {
    let (value, rest) = decode(b"i99999999999999999999999x");
    assert_eq!(value, Err(DecodeError::UnexpectedToken));
    assert_eq!(rest, b"x");
}

#[test]
fn integer_without_end_is_truncated() {
    for input in [&b"i"[..], &b"i-"[..], &b"i12"[..]] {
        let (value, rest) = decode(input);
        assert_eq!(value, Err(DecodeError::TruncatedInput));
        assert!(rest.is_empty());
    }
}

#[test]
fn leading_zeros_and_negative_zero_are_accepted() {
    assert_eq!(decode(b"i007e").0, Ok(BencodeObj::Num(7)));
    assert_eq!(decode(b"i-0e").0, Ok(BencodeObj::Num(0)));
    assert_eq!(decode(b"i0e").0, Ok(BencodeObj::Num(0)));
    assert_eq!(decode(b"i-012e").0, Ok(BencodeObj::Num(-12)));
}

#[test]
fn integers_up_to_64_bits_are_decoded() {
    assert_eq!(decode(b"i9223372036854775807e").0, Ok(BencodeObj::Num(i64::MAX)));
    assert_eq!(decode(b"i-9223372036854775808e").0, Ok(BencodeObj::Num(i64::MIN)));
    assert_eq!(decode(b"i-9223372036854775807e").0, Ok(BencodeObj::Num(-i64::MAX)));
    assert_eq!(
        decode(b"i0000000000000000000000009223372036854775807e").0,
        Ok(BencodeObj::Num(i64::MAX))
    );
}

#[test]
fn integers_beyond_64_bits_are_invalid() {
    let (value, rest) = decode(b"i9223372036854775808e");
    assert_eq!(value, Err(DecodeError::InvalidInteger));
    assert_eq!(rest, b"9223372036854775808e");
    assert_eq!(decode(b"i-9223372036854775809e").0, Err(DecodeError::InvalidInteger));
    assert_eq!(decode(b"i18446744073709551616e").0, Err(DecodeError::InvalidInteger));
    assert_eq!(
        decode(b"i99999999999999999999999999999999999999999e").0,
        Err(DecodeError::InvalidInteger)
    );
}

#[test]
fn string_is_decoded() {
    let (value, rest) = decode(b"5:hello");
    assert_eq!(value, Ok(BencodeObj::Str(text("hello"))));
    assert!(rest.is_empty());
}

#[test]
fn empty_string_is_decoded() {
    let (value, rest) = decode(b"0:");
    assert_eq!(value, Ok(BencodeObj::Str(vec![])));
    assert!(rest.is_empty());
}

#[test]
fn short_string_is_truncated() {
    let (value, rest) = decode(b"5:hi");
    assert_eq!(value, Err(DecodeError::TruncatedInput));
    assert!(rest.is_empty());
}

#[test]
fn string_takes_exactly_its_length() {
    let (value, rest) = decode(b"2:hello");
    assert_eq!(value, Ok(BencodeObj::Str(text("he"))));
    assert_eq!(rest, b"llo");
}

#[test]
fn string_content_is_not_interpreted() {
    let (value, rest) = decode(b"4:e:\xff\x00i1e");
    assert_eq!(value, Ok(BencodeObj::Str(vec![b'e', b':', 0xff, 0x00])));
    assert_eq!(rest, b"i1e");
}

#[test]
fn length_with_leading_zeros_is_accepted() {
    assert_eq!(decode(b"05:hello").0, Ok(BencodeObj::Str(text("hello"))));
    assert_eq!(decode(b"00:").0, Ok(BencodeObj::Str(vec![])));
}

#[test]
fn length_without_colon_is_truncated() {
    let (value, rest) = decode(b"5");
    assert_eq!(value, Err(DecodeError::TruncatedInput));
    assert!(rest.is_empty());
}

#[test]
fn stray_byte_in_length_is_unexpected() {
    let (value, rest) = decode(b"5x:hello");
    assert_eq!(value, Err(DecodeError::UnexpectedToken));
    assert_eq!(rest, b"x:hello");
}

#[test]
fn length_beyond_usize_is_invalid() {
    let (value, rest) = decode(b"99999999999999999999999999:abc");
    assert_eq!(value, Err(DecodeError::InvalidLength));
    assert_eq!(rest, b"99999999999999999999999999:abc");
}

#[test]
fn length_of_usize_max_is_truncated_not_invalid() {
    let input = format!("{}:abc", usize::MAX);
    assert_eq!(decode(input.as_bytes()).0, Err(DecodeError::TruncatedInput));
}

#[test]
fn empty_list_is_decoded() {
    let (value, rest) = decode(b"le");
    assert_eq!(value, Ok(BencodeObj::List(vec![])));
    assert!(rest.is_empty());
}

#[test]
fn list_keeps_the_order_of_its_items() {
    let (value, rest) = decode(b"li1ei2ee");
    assert_eq!(value, Ok(BencodeObj::List(vec![BencodeObj::Num(1), BencodeObj::Num(2)])));
    assert!(rest.is_empty());
}

#[test]
fn list_of_mixed_items_is_decoded() {
    let (value, rest) = decode(b"li32ei64e5:helloe");
    assert_eq!(
        value,
        Ok(BencodeObj::List(vec![
            BencodeObj::Num(32),
            BencodeObj::Num(64),
            BencodeObj::Str(text("hello")),
        ]))
    );
    assert!(rest.is_empty());
}

#[test]
fn list_without_end_is_truncated() {
    for input in [&b"l"[..], &b"li1e"[..], &b"li1e3:abc"[..]] {
        let (value, rest) = decode(input);
        assert_eq!(value, Err(DecodeError::TruncatedInput));
        assert!(rest.is_empty());
    }
}

#[test]
fn failure_of_an_item_is_the_failure_of_the_list() {
    let (value, rest) = decode(b"li1exe");
    assert_eq!(value, Err(DecodeError::UnexpectedToken));
    assert_eq!(rest, b"xe");
    assert_eq!(decode(b"li1eiee").0, Err(DecodeError::InvalidInteger));
    assert_eq!(decode(b"l9:shorte").0, Err(DecodeError::TruncatedInput));
}

#[test]
fn dictionary_is_decoded() {
    let (value, rest) = decode(b"d3:keyi1ee");
    assert_eq!(value, Ok(BencodeObj::Dict(vec![(text("key"), BencodeObj::Num(1))])));
    assert!(rest.is_empty());
}

#[test]
fn empty_dictionary_is_decoded() {
    let (value, rest) = decode(b"de");
    assert_eq!(value, Ok(BencodeObj::Dict(vec![])));
    assert!(rest.is_empty());
}

#[test]
fn dictionary_keeps_the_order_of_the_input() {
    let (value, _) = decode(b"d1:bi1e1:ai2e1:ci3ee");
    assert_eq!(
        value,
        Ok(BencodeObj::Dict(vec![
            (text("b"), BencodeObj::Num(1)),
            (text("a"), BencodeObj::Num(2)),
            (text("c"), BencodeObj::Num(3)),
        ]))
    );
}

#[test]
fn key_that_is_no_string_is_refused() {
    let (value, rest) = decode(b"di1ei2ee");
    assert_eq!(value, Err(DecodeError::InvalidKeyType));
    assert_eq!(rest, b"i1ei2ee");
    assert_eq!(decode(b"dlei2ee").0, Err(DecodeError::InvalidKeyType));
    assert_eq!(decode(b"ddei2ee").0, Err(DecodeError::InvalidKeyType));
}

#[test]
fn failure_of_a_key_or_value_is_the_failure_of_the_dictionary() {
    assert_eq!(decode(b"dixei2ee").0, Err(DecodeError::UnexpectedToken));
    assert_eq!(decode(b"d1:aiee").0, Err(DecodeError::InvalidInteger));
    let (value, rest) = decode(b"d1:ae");
    assert_eq!(value, Err(DecodeError::UnexpectedToken));
    assert_eq!(rest, b"e");
}

#[test]
fn dictionary_without_end_is_truncated() {
    for input in [&b"d"[..], &b"d3:key"[..], &b"d3:keyi1e"[..]] {
        let (value, rest) = decode(input);
        assert_eq!(value, Err(DecodeError::TruncatedInput));
        assert!(rest.is_empty());
    }
}

#[test]
fn duplicate_key_keeps_the_last_value() {
    let (value, rest) = decode(b"d1:ai1e1:ai2ee");
    assert_eq!(value, Ok(BencodeObj::Dict(vec![(text("a"), BencodeObj::Num(2))])));
    assert!(rest.is_empty());
}

#[test]
fn duplicate_key_keeps_its_first_place() {
    let (value, _) = decode(b"d1:ai1e1:bi2e1:a3:newe");
    assert_eq!(
        value,
        Ok(BencodeObj::Dict(vec![
            (text("a"), BencodeObj::Str(text("new"))),
            (text("b"), BencodeObj::Num(2)),
        ]))
    );
}

#[test]
fn remainder_begins_behind_the_value() {
    let (first, rest) = decode(b"i1ei2e");
    assert_eq!(first, Ok(BencodeObj::Num(1)));
    assert_eq!(rest, b"i2e");
    let (second, rest) = decode(rest);
    assert_eq!(second, Ok(BencodeObj::Num(2)));
    assert!(rest.is_empty());
}

#[test]
fn trailing_bytes_are_left_unread() {
    let (value, rest) = decode(b"lei1e");
    assert_eq!(value, Ok(BencodeObj::List(vec![])));
    assert_eq!(rest, b"i1e");
    let (value, rest) = decode(b"dexyz");
    assert_eq!(value, Ok(BencodeObj::Dict(vec![])));
    assert_eq!(rest, b"xyz");
}

#[test]
fn nested_values_are_decoded() {
    let (value, rest) = decode(b"d4:listl3:one d5:inneri7eeeetail");
    assert_eq!(value, Err(DecodeError::UnexpectedToken));
    assert_eq!(rest, b" d5:inneri7eeeetail");

    let (value, rest) = decode(b"d4:listl3:oned5:inneri7eeeetail");
    assert_eq!(
        value,
        Ok(BencodeObj::Dict(vec![(
            text("list"),
            BencodeObj::List(vec![
                BencodeObj::Str(text("one")),
                BencodeObj::Dict(vec![(text("inner"), BencodeObj::Num(7))]),
            ]),
        )]))
    );
    assert_eq!(rest, b"tail");
}

#[test]
fn nested_lists_close_level_by_level() {
    let (value, rest) = decode(b"llleeei5e");
    assert_eq!(
        value,
        Ok(BencodeObj::List(vec![BencodeObj::List(vec![BencodeObj::List(vec![])])]))
    );
    assert_eq!(rest, b"i5e");
    let (value, rest) = decode(b"llleei5e");
    assert_eq!(value, Err(DecodeError::TruncatedInput));
    assert!(rest.is_empty());
}

#[test]
fn sample_metainfo_is_decoded() {
    let input = b"d5:item1l12:hellohellobbi32eli32ei32ei32e5:helloi32eee3:key5:valuee";
    let (value, rest) = decode(input);
    assert_eq!(
        value,
        Ok(BencodeObj::Dict(vec![
            (
                text("item1"),
                BencodeObj::List(vec![
                    BencodeObj::Str(text("hellohellobb")),
                    BencodeObj::Num(32),
                    BencodeObj::List(vec![
                        BencodeObj::Num(32),
                        BencodeObj::Num(32),
                        BencodeObj::Num(32),
                        BencodeObj::Str(text("hello")),
                        BencodeObj::Num(32),
                    ]),
                ]),
            ),
            (text("key"), BencodeObj::Str(text("value"))),
        ]))
    );
    assert!(rest.is_empty());
}

#[test]
fn unknown_first_byte_is_unexpected() {
    let (value, rest) = decode(b"x");
    assert_eq!(value, Err(DecodeError::UnexpectedToken));
    assert_eq!(rest, b"x");
    assert_eq!(decode(b"e").0, Err(DecodeError::UnexpectedToken));
    assert_eq!(decode(b"-1e").0, Err(DecodeError::UnexpectedToken));
    assert_eq!(decode(b":").0, Err(DecodeError::UnexpectedToken));
}

#[test]
fn empty_input_is_an_error_of_its_own() {
    let (value, rest) = decode(b"");
    assert_eq!(value, Err(DecodeError::EmptyInput));
    assert!(rest.is_empty());
}

#[test]
fn depth_limit_counts_nested_lists_and_dictionaries() {
    assert_eq!(decode_with_depth(b"i1e", 0).0, Ok(BencodeObj::Num(1)));
    assert_eq!(decode_with_depth(b"1:a", 0).0, Ok(BencodeObj::Str(text("a"))));
    let (value, rest) = decode_with_depth(b"le", 0);
    assert_eq!(value, Err(DecodeError::NestingTooDeep));
    assert_eq!(rest, b"le");
    assert_eq!(decode_with_depth(b"de", 0).0, Err(DecodeError::NestingTooDeep));
    assert_eq!(decode_with_depth(b"le", 1).0, Ok(BencodeObj::List(vec![])));
    let (value, rest) = decode_with_depth(b"li1edee", 1);
    assert_eq!(value, Err(DecodeError::NestingTooDeep));
    assert_eq!(rest, b"dee");
    assert_eq!(
        decode_with_depth(b"li1edee", 2).0,
        Ok(BencodeObj::List(vec![BencodeObj::Num(1), BencodeObj::Dict(vec![])]))
    );
}

#[test]
fn default_depth_limit_holds() {
    assert_eq!(DEFAULT_MAX_DEPTH, 128);
    let mut input = vec![b'l'; DEFAULT_MAX_DEPTH];
    input.extend(vec![b'e'; DEFAULT_MAX_DEPTH]);
    let (value, rest) = decode(&input);
    assert!(value.is_ok());
    assert!(rest.is_empty());

    let mut input = vec![b'l'; DEFAULT_MAX_DEPTH + 1];
    input.extend(vec![b'e'; DEFAULT_MAX_DEPTH + 1]);
    let (value, rest) = decode(&input);
    assert_eq!(value, Err(DecodeError::NestingTooDeep));
    assert_eq!(rest.len(), DEFAULT_MAX_DEPTH + 2);
}

#[test]
fn very_deep_input_is_refused_without_deep_recursion() {
    let input = vec![b'l'; 1_000_000];
    assert_eq!(decode(&input).0, Err(DecodeError::NestingTooDeep));
    let input = vec![b'd'; 1_000_000];
    assert_eq!(decode(&input).0, Err(DecodeError::NestingTooDeep));
}
