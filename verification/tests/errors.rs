use bittorrent::bdecode::{
    parse, parse_bytes, parse_dict, parse_length, parse_list, parse_number, parse_with_depth,
    BValue, DEFAULT_MAX_DEPTH,
};
use bittorrent::error::{ParseError, ParseErrorKind};

fn failed(kind: ParseErrorKind, offset: usize) -> ParseError {
    ParseError { kind, offset }
}

#[test]
fn integer_one_past_the_maximum_overflows() {
    assert_eq!(
        parse(b"i9223372036854775808e"),
        Err(failed(ParseErrorKind::IntegerOverflow, 1))
    );
}

#[test]
fn integer_bounds_are_accepted() {
    assert_eq!(
        parse(b"i9223372036854775807e"),
        Ok((&b""[..], BValue::BNumber(i64::MAX)))
    );
    assert_eq!(
        parse(b"i-9223372036854775808e"),
        Ok((&b""[..], BValue::BNumber(i64::MIN)))
    );
}

#[test]
fn integer_one_below_the_minimum_overflows() {
    assert_eq!(
        parse(b"i-9223372036854775809e"),
        Err(failed(ParseErrorKind::IntegerOverflow, 1))
    );
}

#[test]
fn long_digit_runs_overflow() {
    assert_eq!(
        parse(b"i99999999999999999999999999999999999999999999e"),
        Err(failed(ParseErrorKind::IntegerOverflow, 1))
    );
    assert_eq!(
        parse(b"i18446744073709551616e"),
        Err(failed(ParseErrorKind::IntegerOverflow, 1))
    );
    assert_eq!(
        parse(b"i-18446744073709551617e"),
        Err(failed(ParseErrorKind::IntegerOverflow, 1))
    );
}

#[test]
fn overflow_is_found_before_the_missing_end() {
    assert_eq!(
        parse(b"i9223372036854775808"),
        Err(failed(ParseErrorKind::IntegerOverflow, 1))
    );
}

#[test]
fn integer_without_digits_is_malformed() {
    assert_eq!(parse(b"ie"), Err(failed(ParseErrorKind::MalformedInteger, 1)));
    assert_eq!(parse(b"i"), Err(failed(ParseErrorKind::MalformedInteger, 1)));
    assert_eq!(parse(b"i-e"), Err(failed(ParseErrorKind::MalformedInteger, 2)));
    assert_eq!(parse(b"i-"), Err(failed(ParseErrorKind::MalformedInteger, 2)));
    assert_eq!(parse(b"i--1e"), Err(failed(ParseErrorKind::MalformedInteger, 2)));
    assert_eq!(parse(b"i+3e"), Err(failed(ParseErrorKind::MalformedInteger, 1)));
    assert_eq!(parse(b"i 3e"), Err(failed(ParseErrorKind::MalformedInteger, 1)));
    assert_eq!(parse(b"iabce"), Err(failed(ParseErrorKind::MalformedInteger, 1)));
}

#[test]
fn integer_without_its_end_is_malformed() {
    assert_eq!(parse(b"i12"), Err(failed(ParseErrorKind::MalformedInteger, 3)));
    assert_eq!(parse(b"i12x"), Err(failed(ParseErrorKind::MalformedInteger, 3)));
    assert_eq!(parse(b"i1-2e"), Err(failed(ParseErrorKind::MalformedInteger, 2)));
    assert_eq!(parse(b"i-12:"), Err(failed(ParseErrorKind::MalformedInteger, 4)));
}

#[test]
fn integer_without_its_start_is_malformed() {
    assert_eq!(parse_number(b"12e"), Err(failed(ParseErrorKind::MalformedInteger, 0)));
    assert_eq!(parse_number(b""), Err(failed(ParseErrorKind::MalformedInteger, 0)));
    assert_eq!(parse_number(b"l"), Err(failed(ParseErrorKind::MalformedInteger, 0)));
}

#[test]
fn length_without_colon_is_malformed() {
    assert_eq!(parse(b"4spam"), Err(failed(ParseErrorKind::MalformedLength, 1)));
    assert_eq!(parse(b"4"), Err(failed(ParseErrorKind::MalformedLength, 1)));
    assert_eq!(parse(b"12"), Err(failed(ParseErrorKind::MalformedLength, 2)));
    assert_eq!(parse_length(b"12;ab"), Err(failed(ParseErrorKind::MalformedLength, 2)));
}

#[test]
fn length_without_digits_is_malformed() {
    assert_eq!(parse_length(b":abc"), Err(failed(ParseErrorKind::MalformedLength, 0)));
    assert_eq!(parse_length(b""), Err(failed(ParseErrorKind::MalformedLength, 0)));
    assert_eq!(parse_bytes(b"x"), Err(failed(ParseErrorKind::MalformedLength, 0)));
    assert_eq!(parse_bytes(b"-1:a"), Err(failed(ParseErrorKind::MalformedLength, 0)));
}

#[test]
fn length_alone_does_not_look_at_the_bytes() {
    assert_eq!(parse_length(b"15:Hello"), Ok((&b"Hello"[..], 15)));
    assert_eq!(parse_length(b"0:"), Ok((&b""[..], 0)));
    assert_eq!(parse_length(b"007:x"), Ok((&b"x"[..], 7)));
}

#[test]
fn declared_length_beyond_the_input_is_truncated() {
    assert_eq!(
        parse(b"15:Hello World!"),
        Err(failed(ParseErrorKind::TruncatedInput, 3))
    );
    assert_eq!(parse(b"1:"), Err(failed(ParseErrorKind::TruncatedInput, 2)));
    assert_eq!(parse(b"5:spam"), Err(failed(ParseErrorKind::TruncatedInput, 2)));
}

#[test]
fn declared_length_beyond_any_slice_is_truncated() {
    assert_eq!(
        parse(b"99999999999999999999999999:a"),
        Err(failed(ParseErrorKind::TruncatedInput, 27))
    );
    assert_eq!(
        parse(b"18446744073709551615:a"),
        Err(failed(ParseErrorKind::TruncatedInput, 21))
    );
    assert_eq!(
        parse_length(b"340282366920938463463374607431768211456:"),
        Err(failed(ParseErrorKind::TruncatedInput, 40))
    );
}

#[test]
fn container_cut_short_is_unterminated() {
    assert_eq!(parse(b"l"), Err(failed(ParseErrorKind::UnterminatedContainer, 1)));
    assert_eq!(parse(b"li3e"), Err(failed(ParseErrorKind::UnterminatedContainer, 4)));
    assert_eq!(parse(b"ll"), Err(failed(ParseErrorKind::UnterminatedContainer, 2)));
    assert_eq!(parse(b"d"), Err(failed(ParseErrorKind::UnterminatedContainer, 1)));
    assert_eq!(parse(b"d3:cow"), Err(failed(ParseErrorKind::UnterminatedContainer, 6)));
    assert_eq!(
        parse(b"d3:cow3:moo"),
        Err(failed(ParseErrorKind::UnterminatedContainer, 11))
    );
    assert_eq!(
        parse(b"d3:cowl3:moo"),
        Err(failed(ParseErrorKind::UnterminatedContainer, 12))
    );
}

#[test]
fn unknown_first_byte_matches_no_variant() {
    assert_eq!(parse(b""), Err(failed(ParseErrorKind::NoMatchingVariant, 0)));
    assert_eq!(parse(b"x"), Err(failed(ParseErrorKind::NoMatchingVariant, 0)));
    assert_eq!(parse(b"e"), Err(failed(ParseErrorKind::NoMatchingVariant, 0)));
    assert_eq!(parse(b"-3"), Err(failed(ParseErrorKind::NoMatchingVariant, 0)));
    assert_eq!(parse(b"li3ex"), Err(failed(ParseErrorKind::NoMatchingVariant, 4)));
    assert_eq!(parse(b"d3:cowe"), Err(failed(ParseErrorKind::NoMatchingVariant, 6)));
    assert_eq!(parse_list(b"i3e"), Err(failed(ParseErrorKind::NoMatchingVariant, 0)));
    assert_eq!(parse_list(b""), Err(failed(ParseErrorKind::NoMatchingVariant, 0)));
    assert_eq!(parse_dict(b"li3ee"), Err(failed(ParseErrorKind::NoMatchingVariant, 0)));
}

#[test]
fn empty_list_is_rejected() {
    assert_eq!(parse(b"le"), Err(failed(ParseErrorKind::NoMatchingVariant, 1)));
    assert_eq!(parse_list(b"le"), Err(failed(ParseErrorKind::NoMatchingVariant, 1)));
    assert_eq!(parse(b"li1elee"), Err(failed(ParseErrorKind::NoMatchingVariant, 5)));
}

#[test]
fn empty_dict_is_rejected() {
    assert_eq!(parse(b"de"), Err(failed(ParseErrorKind::MalformedLength, 1)));
    assert_eq!(parse_dict(b"de"), Err(failed(ParseErrorKind::MalformedLength, 1)));
}

#[test]
fn dict_key_must_be_a_byte_string() {
    assert_eq!(parse(b"di3ei4ee"), Err(failed(ParseErrorKind::MalformedLength, 1)));
    assert_eq!(
        parse(b"d1:ai1eli2eei3ee"),
        Err(failed(ParseErrorKind::MalformedLength, 7))
    );
}

#[test]
fn deeply_nested_lists_are_refused() {
    let input = vec![b'l'; 10_000];
    assert_eq!(
        parse(&input),
        Err(failed(ParseErrorKind::NestingTooDeep, DEFAULT_MAX_DEPTH))
    );
    assert_eq!(
        parse_with_depth(&input, 100),
        Err(failed(ParseErrorKind::NestingTooDeep, 100))
    );
    assert_eq!(
        parse_with_depth(&input, 0),
        Err(failed(ParseErrorKind::NestingTooDeep, 0))
    );
    assert_eq!(
        parse_with_depth(&input, 500),
        Err(failed(ParseErrorKind::NestingTooDeep, 500))
    );
}

#[test]
fn nesting_bound_is_exact() {
    assert_eq!(
        parse_with_depth(b"li1ee", 0),
        Err(failed(ParseErrorKind::NestingTooDeep, 0))
    );
    assert_eq!(
        parse_with_depth(b"li1ee", 1),
        Ok((&b""[..], BValue::BList(vec![BValue::BNumber(1)])))
    );
    assert!(parse_with_depth(b"llli1eeee", 3).is_ok());
    assert_eq!(
        parse_with_depth(b"llli1eeee", 2),
        Err(failed(ParseErrorKind::NestingTooDeep, 2))
    );
    assert!(parse_with_depth(b"d1:ad1:bi1eee", 2).is_ok());
    assert_eq!(
        parse_with_depth(b"d1:ad1:bi1eee", 1),
        Err(failed(ParseErrorKind::NestingTooDeep, 4))
    );
    assert_eq!(parse_with_depth(b"i1e", 0), Ok((&b""[..], BValue::BNumber(1))));
    assert_eq!(
        parse_with_depth(b"1:a", 0),
        Ok((&b""[..], BValue::BBytes(b"a".to_vec())))
    );
}

#[test]
fn default_nesting_bound_is_exact() {
    let mut fits = vec![b'l'; DEFAULT_MAX_DEPTH];
    fits.extend_from_slice(b"i1e");
    fits.extend(vec![b'e'; DEFAULT_MAX_DEPTH]);
    let (rest, mut value) = parse(&fits).unwrap();
    assert_eq!(rest, &b""[..]);
    let mut levels = 0;
    while let BValue::BList(mut items) = value {
        assert_eq!(items.len(), 1);
        value = items.pop().unwrap();
        levels += 1;
    }
    assert_eq!(levels, DEFAULT_MAX_DEPTH);
    assert_eq!(value, BValue::BNumber(1));

    let mut too_deep = vec![b'l'; DEFAULT_MAX_DEPTH + 1];
    too_deep.extend_from_slice(b"i1e");
    too_deep.extend(vec![b'e'; DEFAULT_MAX_DEPTH + 1]);
    assert_eq!(
        parse(&too_deep),
        Err(failed(ParseErrorKind::NestingTooDeep, DEFAULT_MAX_DEPTH))
    );
}

#[test]
fn failure_inside_a_container_comes_out_unchanged() {
    assert_eq!(
        parse(b"l4:spami99999999999999999999ee"),
        Err(failed(ParseErrorKind::IntegerOverflow, 8))
    );
    assert_eq!(
        parse(b"d3:cowl4:spam9:eggsee"),
        Err(failed(ParseErrorKind::TruncatedInput, 15))
    );
    assert_eq!(
        parse(b"lli1ei2eei-ee"),
        Err(failed(ParseErrorKind::MalformedInteger, 11))
    );
}
