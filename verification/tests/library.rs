//! Behaviour on concrete values: the stated laws, the error variants, the
//! extended key format and the conversions that go through the standard
//! library.

use rnp_sexp::output::PrintMode as OutMode;
use rnp_sexp::{
    parse_advanced, parse_canonical, parse_extended, DepthManager, Severity, Sexp, SexpError,
    SexpInputStream, SexpList, SexpOutputStream, SexpString,
};

fn atom(s: &[u8]) -> Sexp {
    Sexp::string(s.to_vec())
}

#[test]
fn canonical_bytes_read_back() {
    let obj = Sexp::list(vec![
        atom(b"private-key"),
        Sexp::list(vec![atom(b"rsa"), Sexp::list(vec![atom(b"n"), atom(&[0, 0xab, 0xff])])]),
        atom(b""),
        Sexp::list(vec![]),
    ]);
    let bytes = obj.to_canonical();
    assert_eq!(bytes, b"(11:private-key(3:rsa(1:n3:\x00\xab\xff))0:())".to_vec());
    assert_eq!(parse_canonical(&bytes).unwrap(), obj);
}

#[test]
fn canonical_bytes_leave_out_hints() {
    let s = SexpString { data: b"data".to_vec(), presentation_hint: Some(b"hint".to_vec()) };
    let obj = Sexp::list(vec![Sexp::String(s)]);
    assert_eq!(obj.to_canonical(), b"(4:data)".to_vec());
    assert_eq!(
        obj.to_string_with_mode(rnp_sexp::PrintMode::Canonical),
        "([4:hint]4:data)"
    );
}

#[test]
fn parser_nesting_limit() {
    let ok: String = "(".repeat(1024) + &")".repeat(1024);
    let parsed = parse_advanced(&ok).unwrap();
    assert!(parsed.is_list());
    let too_deep: String = "(".repeat(1025) + &")".repeat(1025);
    let e = parse_advanced(&too_deep).unwrap_err();
    assert_eq!(e, SexpError::MaxDepthExceeded { max: 1024, pos: 1025 });
    assert_eq!(e.message(), "maximum nesting depth 1024 exceeded at position 1025");
}

#[test]
fn printer_nesting_limit() {
    let deep3 = Sexp::list(vec![Sexp::list(vec![Sexp::list(vec![atom(b"a")])])]);
    let deep2 = Sexp::list(vec![Sexp::list(vec![atom(b"a")])]);
    let mut os = SexpOutputStream::new_with_max_depth(2);
    os.print_canonical(&deep2).unwrap();
    assert_eq!(os.depth.depth, 0);
    assert_eq!(os.as_bytes(), b"((1:a))");
    let mut os = SexpOutputStream::new_with_max_depth(2);
    let e = os.print_canonical(&deep3).unwrap_err();
    assert_eq!(e.message(), "SEXP ERROR: Maximum allowed SEXP list depth (2) is exceeded");
    let mut os = SexpOutputStream::new_with_max_depth(0);
    os.print_canonical(&deep3).unwrap();
    assert_eq!(os.as_bytes(), b"(((1:a)))");
}

#[test]
fn depth_counter_increase_then_decrease() {
    let mut d = DepthManager::new(3);
    d.increase(7).unwrap();
    d.increase(8).unwrap();
    assert_eq!(d.depth, 2);
    d.decrease();
    assert_eq!(d.depth, 1);
    d.increase(9).unwrap();
    d.increase(10).unwrap();
    let e = d.increase(11).unwrap_err();
    assert_eq!(e.message(), "SEXP ERROR: Maximum allowed SEXP list depth (3) is exceeded at position 11");
}

#[test]
fn streaming_reader_reads_printed_canonical() {
    let obj = Sexp::list(vec![
        atom(b"URL"),
        Sexp::String(SexpString { data: b"www.ribose.com".to_vec(), presentation_hint: Some(b"URI".to_vec()) }),
        Sexp::list(vec![atom(&[1, 2, 3])]),
    ]);
    let mut os = SexpOutputStream::new();
    os.print_canonical(&obj).unwrap();
    let bytes = os.into_bytes();
    let mut is = SexpInputStream::new(&bytes);
    is.set_byte_size(8);
    is.get_char().unwrap();
    assert_eq!(is.scan_object().unwrap(), obj);
}

#[test]
fn base64_print() {
    let obj = parse_advanced("(abc)").unwrap();
    let mut os = SexpOutputStream::new();
    os.print_base64(&obj).unwrap();
    assert_eq!(os.as_bytes(), b"{KDM6YWJjKQ==}");
    let mut is = SexpInputStream::new(os.as_bytes());
    is.set_byte_size(8);
    is.get_char().unwrap();
    assert_eq!(is.scan_object().unwrap(), obj);
}

#[test]
fn base64_wrapped_form_reads_back() {
    for extra in 0..3usize {
        let mut big = vec![0u8, 0xff, b'}', b'|', b'='];
        big.extend(std::iter::repeat(0x5a).take(60 + extra));
        let obj = Sexp::list(vec![
            Sexp::String(SexpString { data: big, presentation_hint: Some(b"bin".to_vec()) }),
            Sexp::list(vec![atom(b"x"), atom(b"")]),
        ]);
        let mut os = SexpOutputStream::new();
        os.print_base64(&obj).unwrap();
        let bytes = os.into_bytes();
        assert!(bytes.contains(&b'\n'));
        assert_eq!(bytes[0], b'{');
        assert_eq!(*bytes.last().unwrap(), b'}');
        let mut is = SexpInputStream::new(&bytes);
        assert_eq!(is.scan_object().unwrap(), obj);
    }
}

#[test]
fn advanced_text_reads_back() {
    let mut elems = vec![
        atom(b"a:b"),
        atom(b":x"),
        atom(b"say \"hi\"\n\tback\\slash"),
        atom("caf\u{e9}".as_bytes()),
        atom(b"0123"),
        atom(b""),
        Sexp::String(SexpString { data: b"v".to_vec(), presentation_hint: Some("t\u{fc}p".as_bytes().to_vec()) }),
    ];
    for i in 0..30u8 {
        elems.push(Sexp::list(vec![atom(b"element"), atom(&[b'k', b'a' + i])]));
    }
    let obj = Sexp::list(elems);
    let text = obj.to_advanced();
    assert!(text.contains('\n'));
    assert_eq!(parse_advanced(&text).unwrap(), obj);
}

#[test]
fn advanced_text_loses_invalid_utf8() {
    let obj = Sexp::list(vec![atom(&[0xff, 0x01])]);
    let text = obj.to_advanced();
    assert_eq!(text, "(2:\u{fffd}\u{1})");
    assert!(parse_advanced(&text).map(|o| o != obj).unwrap_or(true));
}

#[test]
fn advanced_print_reads_back() {
    let long_quoted = "a quoted string with spaces that is long enough to need a continuation line".as_bytes();
    let mut elems = vec![
        atom(b"token"),
        atom(long_quoted),
        atom(&[0x00, 0x7f]),
        atom(&[0x00, 0x01, 0x02, 0x03, 0x04, 0xfe, 0xff, 0x80]),
        atom(b""),
        atom(b"0123"),
        Sexp::String(SexpString { data: vec![0xde, 0xad], presentation_hint: Some(b"bin".to_vec()) }),
    ];
    for i in 0..8u8 {
        elems.push(Sexp::list(vec![atom(b"element"), atom(&[b'k', b'a' + i]), atom(&[i, 200, i])]));
    }
    let obj = Sexp::list(elems);
    for width in [0u32, 20, 75] {
        let mut os = SexpOutputStream::new();
        os.set_max_column(width);
        os.print_advanced(&obj).unwrap();
        let bytes = os.into_bytes();
        if width > 0 {
            assert!(bytes.contains(&b'\n'));
        }
        let mut is = SexpInputStream::new(&bytes);
        assert_eq!(is.scan_object().unwrap(), obj);
    }
}

#[test]
fn flush_pads_to_whole_groups() {
    let mut os = SexpOutputStream::new();
    os.change_output_byte_size(6, OutMode::Base64).unwrap();
    os.var_put_char(b'a').unwrap();
    os.flush().unwrap();
    assert_eq!(os.as_bytes(), b"YQ==");
    assert_eq!(os.base64_count % 4, 0);
}

#[test]
fn advanced_length_of_a_list() {
    let obj = parse_advanced("(abc \"a b\" #00#)").unwrap();
    let os = SexpOutputStream::new();
    // "(" + "abc" + "\"a b\"" + "#00#" + ")": 1 + 3 + 5 + 4 + 1
    assert_eq!(os.advanced_length(&obj), 14);
}

#[test]
fn advanced_form_of_the_readme_example() {
    let sexp = Sexp::parse_advanced("(8:test-key (1:a 3:bcd))").unwrap();
    assert_eq!(sexp.to_advanced(), "(test-key (a bcd))");
}

#[test]
fn advanced_form_escapes_and_verbatim() {
    let obj = Sexp::list(vec![atom(b"123"), atom(b"a\"b\\c\td"), atom(&[0xff, 0x01])]);
    assert_eq!(obj.to_advanced(), "(\"123\" \"a\\\"b\\\\c\\td\" 2:\u{fffd}\u{1})");
}

#[test]
fn one_pass_parser_errors() {
    let cases: Vec<(&str, SexpError, &str)> = vec![
        ("(3:abc", SexpError::UnexpectedEof { pos: 6 }, "unexpected end of input at position 6"),
        (
            "(3:abc) garbage",
            SexpError::IllegalChar { ch: b'g', pos: 8 },
            "illegal character 103 (0x67) at position 8",
        ),
        (
            "([4:hint)",
            SexpError::CharMismatch { expected: b']', found: b')', pos: 8 },
            "expected ']' but found ')' at position 8",
        ),
        (
            "(4\"ABC\")",
            SexpError::LengthMismatch { declared: 4, actual: 3, pos: 7 },
            "declared length 4 but actual length 3 at position 7",
        ),
        (
            "(\"\\q\")",
            SexpError::UnknownEscape { ch: b'q', pos: 4 },
            "unknown escape sequence \\q at position 4",
        ),
        (
            "(2000000:",
            SexpError::VerbatimTooLong { len: 2000000 },
            "verbatim string too long: 2000000 bytes",
        ),
        (
            "(1234567890:",
            SexpError::DecimalTooLong { pos: 11 },
            "decimal number too long at position 11",
        ),
        ("(\"\\777\")", SexpError::OctalTooBig { val: 511 }, "octal character too big: 511"),
        ("(#616#)", SexpError::IllegalChar { ch: 0, pos: 6 }, "illegal character 0 (0x00) at position 6"),
    ];
    for (input, err, msg) in cases {
        let e = parse_advanced(input).unwrap_err();
        assert_eq!(e, err, "input {input:?}");
        assert_eq!(e.message(), msg, "input {input:?}");
    }
}

#[test]
fn one_pass_parser_encodings() {
    let obj = parse_advanced("(|YWJj| |YQ==| #61 62# \"\\x41\\102\" [h]t {MzphYmM=})").unwrap();
    let l = obj.as_list().unwrap();
    assert_eq!(l.sexp_string_at(0).unwrap().as_bytes(), b"abc");
    assert_eq!(l.sexp_string_at(1).unwrap().as_bytes(), b"a");
    assert_eq!(l.sexp_string_at(2).unwrap().as_bytes(), b"ab");
    assert_eq!(l.sexp_string_at(3).unwrap().as_bytes(), b"AB");
    let hinted = l.sexp_string_at(4).unwrap();
    assert_eq!(hinted.presentation_hint.as_ref().unwrap(), b"h");
    assert_eq!(hinted.as_bytes(), b"t");
    assert!(l.get(5).unwrap().equals_str("abc"));
}

#[test]
fn parse_canonical_reads_only_the_first_object() {
    let obj = parse_canonical(b"(1:a)trailing").unwrap();
    assert_eq!(obj, Sexp::list(vec![atom(b"a")]));
    assert_eq!(
        rnp_sexp::parse::parse_extended(b"(1:a)").unwrap(),
        Sexp::list(vec![Sexp::list(vec![atom(b"Key"), obj])])
    );
}

#[test]
fn parse_extended_gives_the_raw_fields() {
    let fields = rnp_sexp::parse::parse_extended(b"Created: 20221130T160847\nKey: (3:abc)\n").unwrap();
    assert_eq!(
        fields,
        Sexp::list(vec![
            Sexp::list(vec![atom(b"Created"), atom(b"20221130T160847")]),
            Sexp::list(vec![atom(b"Key"), Sexp::list(vec![atom(b"abc")])]),
        ])
    );
    assert!(rnp_sexp::parse::parse_extended(b"Created: 1\n").is_err());
}

#[test]
fn extended_key_fields() {
    let key = parse_extended(
        b"Created: 20221130T160847\nLabel: abc\n def\nDescription: one\nDescription: two\nKey: (private-key (rsa (n #00AB#) (e #010001#)))\n",
    )
    .unwrap();
    assert_eq!(key.fields.len(), 4);
    assert_eq!(key.fields_count("creaTed"), 1);
    assert_eq!(key.fields_count("DESCRIPTION"), 2);
    assert_eq!(key.fields_count("something"), 0);
    assert_eq!(key.find("CREATED"), Some("20221130T160847"));
    assert_eq!(key.find("label"), Some("abcdef"));
    assert_eq!(key.find("Description"), Some("one"));
    assert_eq!(key.find("missing"), None);
    assert!(key.key.get(0).unwrap().equals_str("private-key"));
}

#[test]
fn extended_key_blank_continuation_is_a_line_break() {
    let key = parse_extended(b"A: x\n \n y\nKey: (a)\n").unwrap();
    assert_eq!(key.find("A"), Some("x\ny"));
    assert_eq!(key.key.len(), 1);
    assert!(key.key.get(0).unwrap().equals_str("a"));
}

#[test]
fn extended_key_errors() {
    let e = parse_extended(b"Created: 1\n").unwrap_err();
    assert_eq!(e.message(), "EXTENDED KEY FORMAT ERROR: missing mandatory 'key' field at position 11");
    let e = parse_extended(b"1abc: x\n").unwrap_err();
    assert_eq!(
        e.message(),
        "EXTENDED KEY FORMAT ERROR: unexpected character '1' (0x31) found starting a name field at position 0"
    );
    let e = parse_extended(b"Key: (a)\nkey: (b)\n").unwrap_err();
    assert_eq!(e.message(), "EXTENDED KEY FORMAT ERROR: 'key' field must occur only once at position 12");
}

#[test]
fn bare_key_list() {
    let key = parse_extended(b"(private-key (ecc))").unwrap();
    assert_eq!(key.fields.len(), 0);
    assert_eq!(key.key.len(), 2);
}

#[test]
fn string_conversions() {
    let s = SexpString::from_string("héllo");
    assert_eq!(s.as_bytes(), "héllo".as_bytes());
    assert_eq!(s.as_str().unwrap(), "héllo");
    let bad = SexpString::from_bytes(vec![0x66, 0xff]);
    assert!(bad.as_str().is_err());
    assert_eq!(SexpString::from_bytes(b"4294967295".to_vec()).as_unsigned(), u32::MAX);
    assert_eq!(SexpString::from_bytes(b"+17".to_vec()).as_unsigned(), 17);
    assert_eq!(SexpString::from_bytes(b"4294967296".to_vec()).as_unsigned(), u32::MAX);
    assert_eq!(SexpString::from_bytes(b"12a".to_vec()).as_unsigned(), u32::MAX);
    assert_eq!(SexpString::new().as_unsigned(), u32::MAX);
}

#[test]
fn lossy_output() {
    let mut os = SexpOutputStream::new();
    os.put_char(b'a');
    os.put_char(0xff);
    assert_eq!(os.into_string_lossy(), "a\u{fffd}");
    let obj = Sexp::list(vec![atom(&[0xff])]);
    assert_eq!(obj.to_string_with_mode(rnp_sexp::PrintMode::Canonical), "(1:\u{fffd})");
}

#[test]
fn list_building() {
    let mut l = SexpList::new();
    assert!(l.is_empty());
    l.push(atom(b"a"));
    l.push(Sexp::list(vec![]));
    assert_eq!(l.len(), 2);
    assert!(l.get(2).is_none());
    assert_eq!(l.iter().count(), 2);
    assert!(l.sexp_list_at(1).is_some());
    let copy = l.clone();
    assert_eq!(copy, l);
}

#[test]
fn warnings_stop_only_under_warning_verbosity() {
    let r = rnp_sexp::error::sexp_report("w".to_string(), Severity::Warning, 3, Severity::Error);
    assert!(r.is_ok());
    let e = rnp_sexp::error::sexp_report("w".to_string(), Severity::Warning, 3, Severity::Warning).unwrap_err();
    assert_eq!(e.message(), "SEXP WARNING: w at position 3");
    let e = rnp_sexp::error::ext_key_report("bad".to_string(), Severity::Error, -1, Severity::Error).unwrap_err();
    assert_eq!(e.message(), "EXTENDED KEY FORMAT ERROR: bad");
}

#[test]
fn reader_char_mismatch_at_end() {
    let mut is = SexpInputStream::new(b"(a");
    is.set_byte_size(8);
    is.get_char().unwrap();
    let e = is.scan_object().unwrap_err();
    assert_eq!(e.message(), "SEXP ERROR: unexpected end of file at position 2");
    let mut is = SexpInputStream::new(b"");
    is.get_char().unwrap();
    let e = is.skip_char(b')').unwrap_err();
    assert_eq!(e.message(), "SEXP ERROR: character EOF found where ')' was expected at position 0");
}

#[test]
fn extended_key_name_errors() {
    let e = parse_extended(b"Cre@ted: x\nKey: (a)\n").unwrap_err();
    assert_eq!(
        e.message(),
        "EXTENDED KEY FORMAT ERROR: unexpected character '@' (0x40) found in a name field at position 3"
    );
    let e = parse_extended(b"Created\nKey: (a)\n").unwrap_err();
    assert_eq!(e.message(), "EXTENDED KEY FORMAT ERROR: unexpected end of line at position 7");
    let e = parse_extended(b"Key: abc\n").unwrap_err();
    assert_eq!(e.message(), "EXTENDED KEY FORMAT ERROR: expected Key field to be a list at position 8");
}

#[test]
fn braces_hold_a_base64_canonical_object() {
    assert_eq!(parse_advanced("{MzphYmM=}").unwrap(), atom(b"abc"));
    assert_eq!(parse_advanced("( x {KDE6YSk=} )").unwrap(), Sexp::list(vec![atom(b"x"), Sexp::list(vec![atom(b"a")])]));
    assert_eq!(parse_advanced("{Mzph\n YmM=}").unwrap(), atom(b"abc"));
    assert!(matches!(parse_advanced("{MzphYmNk}"), Err(SexpError::IllegalChar { ch: b'd', .. })));
    assert!(matches!(parse_advanced("{MzphYmM=*}"), Err(SexpError::IllegalChar { ch: b'*', .. })));
    assert!(matches!(parse_advanced("{MzphYmM="), Err(SexpError::UnexpectedEof { .. })));
}

#[test]
fn base64_output_reads_back_through_braces() {
    let obj = Sexp::list(vec![atom(b"abc"), Sexp::list(vec![atom(&[1, 2, 3])])]);
    let mut os = SexpOutputStream::new();
    os.print_base64(&obj).unwrap();
    let text = String::from_utf8(os.into_bytes()).unwrap();
    assert!(text.starts_with('{'));
    assert_eq!(parse_advanced(&text).unwrap(), obj);
}

#[test]
fn advanced_form_wraps_at_75_columns() {
    let obj = Sexp::list(vec![atom(b"abcdefghij"); 10]);
    let text = obj.to_advanced();
    assert!(text.contains('\n'));
    for line in text.lines() {
        assert!(line.chars().count() <= 75, "line too long: {:?}", line);
    }
    assert_eq!(
        text,
        "(abcdefghij abcdefghij abcdefghij abcdefghij abcdefghij abcdefghij\n abcdefghij abcdefghij abcdefghij abcdefghij)"
    );
    assert_eq!(parse_advanced(&text).unwrap(), obj);
}

#[test]
fn advanced_form_keeps_short_lists_on_one_line() {
    let obj = Sexp::list(vec![atom(b"a"), Sexp::list(vec![atom(b"b"), atom(b"c")])]);
    assert_eq!(obj.to_advanced(), "(a (b c))");
}

#[test]
fn list_index_gives_the_element() {
    let l = parse_advanced("(a (b) c)").unwrap();
    let list = l.as_list().unwrap();
    assert!(list[0].equals_str("a"));
    assert!(list[2].equals_str("c"));
    assert_eq!(list[1], Sexp::list(vec![atom(b"b")]));
}

#[test]
fn byte_size_and_lookahead_take_any_value() {
    let mut is = SexpInputStream::new(b"x");
    is.set_byte_size(12);
    assert_eq!(is.get_byte_size(), 12);
    is.set_next_char(1000);
    assert_eq!(is.get_next_char(), 1000);
    is.skip_white_space().unwrap();
    assert_eq!(is.get_next_char(), 1000);
    assert!(is.get_char().is_err());
    assert_eq!(is.n_bits, 12);
}

#[test]
fn skipping_whitespace_twice_changes_nothing_more() {
    let mut is = SexpInputStream::new(b"   \t\n x");
    is.skip_white_space().unwrap();
    assert_eq!(is.get_next_char(), b'x' as i32);
    is.skip_white_space().unwrap();
    assert_eq!(is.get_next_char(), b'x' as i32);
}

#[test]
fn coding_region_error_keeps_the_shifted_bits() {
    let mut is = SexpInputStream::new(b"Q*");
    is.set_byte_size(6);
    assert!(is.get_char().is_err());
    assert_eq!(is.n_bits, 12);
    assert_eq!(is.bits, 16 << 6);
    assert_eq!(is.get_byte_size(), 6);
}

#[test]
fn canonical_text_and_bytes_agree() {
    let obj = Sexp::list(vec![atom(b"abc"), Sexp::list(vec![atom("h\u{e9}".as_bytes()), atom(b"")])]);
    let text = rnp_sexp::ser::serialize(&obj, rnp_sexp::PrintMode::Canonical);
    assert_eq!(text.into_bytes(), rnp_sexp::ser::serialize_canonical_bytes(&obj));
    assert_eq!(rnp_sexp::ser::serialize_canonical_bytes(&atom(&[0xff])), vec![b'1', b':', 0xff]);
}

#[test]
fn advanced_form_reads_back_valid_utf8() {
    let obj = Sexp::list(vec![
        atom("gr\u{fc}n\u{0}".as_bytes()),
        Sexp::String(SexpString { data: b"x".to_vec(), presentation_hint: Some("t\u{e9}xt".as_bytes().to_vec()) }),
    ]);
    let text = obj.to_advanced();
    assert_eq!(parse_advanced(&text).unwrap(), obj);
}

#[test]
fn advanced_length_of_a_token_or_quoted_string_is_what_is_written() {
    for data in [&b"abc"[..], &b"a b"[..], &b"x-y.z"[..]] {
        let obj = atom(data);
        let mut os = SexpOutputStream::new();
        let n = os.advanced_length(&obj);
        os.print_advanced(&obj).unwrap();
        assert_eq!(os.into_bytes().len(), n);
    }
}
