use sketchybar_ipc::codec::format_mach_message;
use sketchybar_ipc::codec::read_double_nul_terminated_string;
use sketchybar_ipc::codec::try_read_double_nul_terminated_string;

#[test]
fn encode_empty_is_two_nul_bytes() {
    let wire = format_mach_message("");
    assert_eq!(wire, vec![0u8, 0u8]);
}

#[test]
fn encode_query_bar() {
    let wire = format_mach_message("--query bar");
    assert_eq!(wire, b"--query\0bar\0\0".to_vec());
}

#[test]
fn encode_quoted_span_keeps_interior_space() {
    let wire = format_mach_message("say \"hello world\"");
    assert_eq!(wire, b"say\0hello world\0\0".to_vec());
}

#[test]
fn encode_quoted_span_decodes_to_two_tokens() {
    let wire = format_mach_message("say \"hello world\"");
    let text = read_double_nul_terminated_string(&wire, 0);
    assert_eq!(text, "say\nhello world");
    let tokens: Vec<&str> = text.lines().collect();
    assert_eq!(tokens, vec!["say", "hello world"]);
}

#[test]
fn encode_single_quotes_strip_too() {
    let wire = format_mach_message("set 'a b' c");
    assert_eq!(wire, b"set\0a b\0c\0\0".to_vec());
}

#[test]
fn encode_unbalanced_quote_stays_open() {
    let wire = format_mach_message("say \"a b");
    assert_eq!(wire, b"say\0a b\0\0".to_vec());
}

#[test]
fn encode_trailing_space_drops_duplicate_nul() {
    let wire = format_mach_message("reload ");
    assert_eq!(wire, b"reload\0\0".to_vec());
}

#[test]
fn encode_length_bound() {
    for input in ["", "a", "a b c", "say \"x y\"", "trailing  "] {
        let wire = format_mach_message(input);
        assert!(wire.len() <= input.chars().count() + 2);
        assert!(wire.len() >= 2);
    }
}

#[test]
fn round_trip_gives_tokens() {
    for (input, tokens) in [
        ("--query bar", vec!["--query", "bar"]),
        ("say \"hello world\"", vec!["say", "hello world"]),
        ("one", vec!["one"]),
        ("a b c", vec!["a", "b", "c"]),
    ] {
        let wire = format_mach_message(input);
        let text = read_double_nul_terminated_string(&wire, 0);
        let got: Vec<&str> = text.lines().collect();
        assert_eq!(got, tokens, "round trip of {:?}", input);
    }
}

#[test]
fn decode_renders_nul_as_line_break() {
    let bytes = b"NAME\0felix\0\0".to_vec();
    let text = read_double_nul_terminated_string(&bytes, 0);
    assert_eq!(text, "NAME\nfelix");
}

#[test]
fn decode_starts_at_offset() {
    let bytes = b"xxNAME\0felix\0\0".to_vec();
    let text = read_double_nul_terminated_string(&bytes, 2);
    assert_eq!(text, "NAME\nfelix");
}

#[test]
fn decode_stops_at_first_double_nul() {
    let bytes = b"a\0\0b\0\0".to_vec();
    let text = read_double_nul_terminated_string(&bytes, 0);
    assert_eq!(text, "a");
}

#[test]
fn try_decode_without_terminator_is_none() {
    let bytes = b"abc\0def".to_vec();
    assert_eq!(try_read_double_nul_terminated_string(&bytes, 0), None);
    let empty: Vec<u8> = Vec::new();
    assert_eq!(try_read_double_nul_terminated_string(&empty, 0), None);
}

#[test]
fn try_decode_with_terminator_is_some() {
    let bytes = b"ab\0cd\0\0".to_vec();
    assert_eq!(
        try_read_double_nul_terminated_string(&bytes, 0),
        Some(String::from("ab\ncd"))
    );
}
