use detect_asn1::{
    asn1_parse_rule, detect_asn1_parse, parse_max_frames, Asn1ParseError, Clause,
    DetectAsn1Data, ASN1_DEFAULT_MAX_FRAMES,
};

fn parse_ok(input: &str) -> DetectAsn1Data {
    match asn1_parse_rule(input) {
        Ok(d) => d,
        Err(e) => panic!("{:?} rejected: {:?}", input, e),
    }
}

/// The text that could not be read, for an `UnrecognizedOption` error.
fn unrecognized_rest(input: &str) -> &str {
    match asn1_parse_rule(input) {
        Err(Asn1ParseError::UnrecognizedOption { offset }) => &input[offset..],
        other => panic!("{:?} gave {:?}", input, other),
    }
}

#[test]
fn default_values() {
    let d = DetectAsn1Data::default();
    assert!(!d.bitstring_overflow);
    assert!(!d.double_overflow);
    assert_eq!(d.oversize_length, None);
    assert_eq!(d.absolute_offset, None);
    assert_eq!(d.relative_offset, None);
    assert_eq!(d.max_frames, 30);
    assert_eq!(ASN1_DEFAULT_MAX_FRAMES, 30);
}

#[test]
fn apply_overwrites_one_field() {
    let mut d = DetectAsn1Data::default();
    d.apply(Clause::OversizeLength(5));
    d.apply(Clause::OversizeLength(7));
    d.apply(Clause::DoubleOverflow);
    assert_eq!(
        d,
        DetectAsn1Data { oversize_length: Some(7), double_overflow: true, ..Default::default() }
    );
}

#[test]
fn oversize_length_parses() {
    assert_eq!(
        parse_ok("oversize_length 1024"),
        DetectAsn1Data { oversize_length: Some(1024), ..Default::default() }
    );
}

#[test]
fn oversize_length_needs_argument() {
    assert_eq!(unrecognized_rest("oversize_length"), "oversize_length");
}

#[test]
fn absolute_offset_parses() {
    assert_eq!(
        parse_ok("absolute_offset 1024"),
        DetectAsn1Data { absolute_offset: Some(1024), ..Default::default() }
    );
}

#[test]
fn absolute_offset_needs_argument() {
    assert_eq!(unrecognized_rest("absolute_offset"), "absolute_offset");
}

#[test]
fn relative_offset_parses() {
    assert_eq!(
        parse_ok("relative_offset 1024"),
        DetectAsn1Data { relative_offset: Some(1024), ..Default::default() }
    );
}

#[test]
fn relative_offset_needs_argument() {
    assert_eq!(unrecognized_rest("relative_offset"), "relative_offset");
}

#[test]
fn bitstring_overflow_parses() {
    assert_eq!(
        parse_ok("bitstring_overflow"),
        DetectAsn1Data { bitstring_overflow: true, ..Default::default() }
    );
}

#[test]
fn double_overflow_parses() {
    assert_eq!(
        parse_ok("double_overflow"),
        DetectAsn1Data { double_overflow: true, ..Default::default() }
    );
}

#[test]
fn combination_comma_separated() {
    assert_eq!(
        parse_ok("oversize_length 1024, relative_offset 10"),
        DetectAsn1Data {
            oversize_length: Some(1024),
            relative_offset: Some(10),
            ..Default::default()
        }
    );
}

#[test]
fn combination_space_separated() {
    assert_eq!(
        parse_ok("oversize_length 1024 absolute_offset 10"),
        DetectAsn1Data {
            oversize_length: Some(1024),
            absolute_offset: Some(10),
            ..Default::default()
        }
    );
}

#[test]
fn combination_space_and_comma() {
    assert_eq!(
        parse_ok("oversize_length 1024 absolute_offset 10, bitstring_overflow"),
        DetectAsn1Data {
            bitstring_overflow: true,
            oversize_length: Some(1024),
            absolute_offset: Some(10),
            ..Default::default()
        }
    );
}

#[test]
fn combination_with_newlines() {
    assert_eq!(
        parse_ok("double_overflow, oversize_length 1024 absolute_offset 10,\n bitstring_overflow"),
        DetectAsn1Data {
            double_overflow: true,
            bitstring_overflow: true,
            oversize_length: Some(1024),
            absolute_offset: Some(10),
            ..Default::default()
        }
    );
}

#[test]
fn combination_with_leading_whitespace() {
    assert_eq!(
        parse_ok("\n\t double_overflow, oversize_length 1024 relative_offset 10,\n bitstring_overflow"),
        DetectAsn1Data {
            double_overflow: true,
            bitstring_overflow: true,
            oversize_length: Some(1024),
            relative_offset: Some(10),
            ..Default::default()
        }
    );
}

#[test]
fn empty_input_fails() {
    assert_eq!(asn1_parse_rule(""), Err(Asn1ParseError::EmptyInput));
}

#[test]
fn unknown_option_fails() {
    let input = "oversize_length 1024, some_other_param 360";
    assert_eq!(asn1_parse_rule(input), Err(Asn1ParseError::UnrecognizedOption { offset: 21 }));
    assert_eq!(unrecognized_rest(input), " some_other_param 360");
    assert_eq!(unrecognized_rest(input).trim_start(), "some_other_param 360");
}

#[test]
fn missing_option_between_commas_fails() {
    assert_eq!(unrecognized_rest("oversize_length 1024,,"), ",");
}

#[test]
fn missing_separator_before_argument_keyword_fails() {
    assert_eq!(unrecognized_rest("bitstring_overflowabsolute_offset"), "absolute_offset");
}

#[test]
fn abutting_flags_are_both_read() {
    assert_eq!(
        parse_ok("bitstring_overflowdouble_overflow"),
        DetectAsn1Data { bitstring_overflow: true, double_overflow: true, ..Default::default() }
    );
}

#[test]
fn parsing_twice_gives_the_same_result() {
    let input = "double_overflow, oversize_length 1024 absolute_offset 10,\n bitstring_overflow";
    assert_eq!(asn1_parse_rule(input), asn1_parse_rule(input));
    assert_eq!(asn1_parse_rule("bogus"), asn1_parse_rule("bogus"));
}

#[test]
fn clause_order_does_not_matter() {
    let a = parse_ok("oversize_length 1024 absolute_offset 10");
    let b = parse_ok("absolute_offset 10 oversize_length 1024");
    assert_eq!(a, b);
    assert_eq!(
        a,
        DetectAsn1Data {
            oversize_length: Some(1024),
            absolute_offset: Some(10),
            ..Default::default()
        }
    );
}

#[test]
fn separator_forms_are_equivalent() {
    let canonical = parse_ok("relative_offset -5 bitstring_overflow");
    for sep in [" ", ",", ", ", "\n\t", ",\n ", "   "] {
        let input = format!("relative_offset -5{}bitstring_overflow", sep);
        assert_eq!(parse_ok(&input), canonical, "separator {:?}", sep);
    }
    assert_eq!(
        canonical,
        DetectAsn1Data { relative_offset: Some(-5), bitstring_overflow: true, ..Default::default() }
    );
}

#[test]
fn duplicate_keyword_last_wins() {
    assert_eq!(
        parse_ok("oversize_length 1, oversize_length 2"),
        DetectAsn1Data { oversize_length: Some(2), ..Default::default() }
    );
}

#[test]
fn trailing_whitespace_and_comma_are_accepted() {
    assert_eq!(parse_ok("bitstring_overflow \t"), parse_ok("bitstring_overflow"));
    assert_eq!(parse_ok("bitstring_overflow,"), parse_ok("bitstring_overflow"));
}

#[test]
fn comma_then_trailing_space_fails() {
    assert_eq!(unrecognized_rest("bitstring_overflow, "), " ");
}

#[test]
fn keywords_are_case_sensitive() {
    assert_eq!(unrecognized_rest("Bitstring_overflow"), "Bitstring_overflow");
}

#[test]
fn unsigned_limits() {
    assert_eq!(parse_ok("oversize_length 4294967295").oversize_length, Some(u32::MAX));
    assert_eq!(parse_ok("absolute_offset 0007").absolute_offset, Some(7));
    assert_eq!(
        asn1_parse_rule("oversize_length 4294967296"),
        Err(Asn1ParseError::NumericOverflow)
    );
    assert_eq!(
        asn1_parse_rule("absolute_offset 99999999999999999999"),
        Err(Asn1ParseError::NumericOverflow)
    );
}

#[test]
fn signed_limits() {
    assert_eq!(parse_ok("relative_offset -2147483648").relative_offset, Some(i32::MIN));
    assert_eq!(parse_ok("relative_offset 2147483647").relative_offset, Some(i32::MAX));
    assert_eq!(parse_ok("relative_offset -0").relative_offset, Some(0));
    assert_eq!(
        asn1_parse_rule("relative_offset 2147483648"),
        Err(Asn1ParseError::NumericOverflow)
    );
    assert_eq!(
        asn1_parse_rule("relative_offset -2147483649"),
        Err(Asn1ParseError::NumericOverflow)
    );
    assert_eq!(
        asn1_parse_rule("relative_offset -4294967296"),
        Err(Asn1ParseError::NumericOverflow)
    );
}

#[test]
fn unsigned_argument_rejects_sign() {
    assert_eq!(unrecognized_rest("oversize_length -1"), "oversize_length -1");
}

#[test]
fn argument_needs_whitespace() {
    assert_eq!(unrecognized_rest("oversize_length1"), "oversize_length1");
}

#[test]
fn max_frames_values() {
    assert_eq!(parse_max_frames("100"), Some(100));
    assert_eq!(parse_max_frames("0"), Some(0));
    assert_eq!(parse_max_frames("65535"), Some(65535));
    assert_eq!(parse_max_frames("+7"), Some(7));
    assert_eq!(parse_max_frames("65536"), None);
    assert_eq!(parse_max_frames(""), None);
    assert_eq!(parse_max_frames("+"), None);
    assert_eq!(parse_max_frames("-1"), None);
    assert_eq!(parse_max_frames("12a"), None);
    assert_eq!(parse_max_frames(" 12"), None);
    assert_eq!(parse_max_frames("99999999999"), None);
}

#[test]
fn detect_parse_applies_configured_frames() {
    let d = detect_asn1_parse(b"bitstring_overflow", Some("12")).unwrap();
    assert_eq!(
        d,
        DetectAsn1Data { bitstring_overflow: true, max_frames: 12, ..Default::default() }
    );
}

#[test]
fn detect_parse_ignores_bad_configured_frames() {
    let d = detect_asn1_parse(b"double_overflow", Some("lots")).unwrap();
    assert_eq!(d.max_frames, 30);
    let d = detect_asn1_parse(b"double_overflow", None).unwrap();
    assert_eq!(d, DetectAsn1Data { double_overflow: true, ..Default::default() });
}

#[test]
fn detect_parse_rejects_malformed_utf8() {
    assert_eq!(
        detect_asn1_parse(&[0x62, 0xff, 0xfe], None),
        Err(Asn1ParseError::InvalidEncoding)
    );
    assert_eq!(
        detect_asn1_parse(&[0xed, 0xa0, 0x80], None),
        Err(Asn1ParseError::InvalidEncoding)
    );
}

#[test]
fn detect_parse_reports_parse_errors() {
    assert_eq!(detect_asn1_parse(b"", Some("5")), Err(Asn1ParseError::EmptyInput));
    assert_eq!(
        detect_asn1_parse("bitstring_overflow é".as_bytes(), None),
        Err(Asn1ParseError::UnrecognizedOption { offset: 19 })
    );
}
