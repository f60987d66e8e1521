use rbe::config::RemoteBuildConfig;
use rbe::console::{emit_lines, lines, printed_lines, Line};
use rbe::error::Error;
use rbe::metadata::request_metadata;

fn config(api_key: Option<&str>, headers: &[(&str, &str)]) -> RemoteBuildConfig {
    RemoteBuildConfig {
        endpoint: String::new(),
        instance_name: String::new(),
        remote_cache: false,
        api_key: api_key.map(str::to_owned),
        headers: headers
            .iter()
            .map(|(name, value)| (name.to_string(), value.to_string()))
            .collect(),
        exec_properties: Vec::new(),
        fallback_local: false,
    }
}

fn invalid_value(message: &str) -> Error {
    Error {
        message: message.to_owned(),
        causes: vec!["failed to parse metadata value".to_owned()],
    }
}

fn invalid_name(message: &str) -> Error {
    Error {
        message: message.to_owned(),
        causes: vec!["invalid gRPC metadata key name".to_owned()],
    }
}

fn pairs(expected: &[(&str, &str)]) -> Vec<(String, String)> {
    expected.iter().map(|(name, value)| (name.to_string(), value.to_string())).collect()
}

#[test]
fn requests_carry_key_and_headers() {
    assert_eq!(
        request_metadata(&config(Some("secret"), &[("X-Team", "a b\tc"), ("a", "")])),
        Ok(pairs(&[("a", ""), ("x-buildbuddy-api-key", "secret"), ("x-team", "a b\tc")]))
    );
    assert_eq!(request_metadata(&config(None, &[])), Ok(Vec::new()));
}

#[test]
fn later_headers_replace_earlier_ones() {
    assert_eq!(
        request_metadata(&config(
            Some("secret"),
            &[("A", "1"), ("a", "2"), ("X-BuildBuddy-Api-Key", "other")]
        )),
        Ok(pairs(&[("a", "2"), ("x-buildbuddy-api-key", "other")]))
    );
}

#[test]
fn invalid_entries_are_refused() {
    assert_eq!(
        request_metadata(&config(Some("line\nfeed"), &[])),
        Err(invalid_value("invalid `build.rbe.api-key` value"))
    );
    assert_eq!(
        request_metadata(&config(None, &[("bad name", "x")])),
        Err(invalid_name("invalid `build.rbe.headers` name `bad name`"))
    );
    assert_eq!(
        request_metadata(&config(None, &[("", "x")])),
        Err(invalid_name("invalid `build.rbe.headers` name ``"))
    );
    assert_eq!(
        request_metadata(&config(None, &[("data-BIN", "x")])),
        Err(invalid_name("invalid `build.rbe.headers` name `data-BIN`"))
    );
    assert_eq!(
        request_metadata(&config(None, &[("fine", "\u{7f}")])),
        Err(invalid_value("invalid `build.rbe.headers` value for `fine`"))
    );
}

#[test]
fn every_character_is_judged_as_stated() {
    let allowed = "!#$%&'*+-.^_`|~";
    for code in 0u32..256 {
        let c = char::from_u32(code).unwrap();
        let name = c.to_string();
        let good = c.is_ascii_alphanumeric() || allowed.contains(c);
        let expected = if good {
            Ok(vec![(name.to_ascii_lowercase(), "v".to_owned())])
        } else {
            Err(invalid_name(&format!("invalid `build.rbe.headers` name `{name}`")))
        };
        assert_eq!(request_metadata(&config(None, &[(&name, "v")])), expected);
        let valid = (code >= 32 && code != 127) || code == 9;
        assert_eq!(request_metadata(&config(Some(&name), &[])).is_ok(), valid);
    }
}

#[test]
fn names_have_a_longest_length() {
    let longest = "a".repeat(65535);
    assert!(request_metadata(&config(None, &[(&longest, "v")])).is_ok());
    let longer = "a".repeat(65536);
    assert!(request_metadata(&config(None, &[(&longer, "v")])).is_err());
    let upper = "A".repeat(100);
    assert_eq!(
        request_metadata(&config(None, &[(&upper, "v")])),
        Ok(vec![("a".repeat(100), "v".to_owned())])
    );
}

#[test]
fn lines_end_at_line_feeds() {
    assert_eq!(lines("a\nb\r\nc"), vec!["a", "b", "c"]);
    assert_eq!(lines("a\n"), vec!["a"]);
    assert_eq!(lines("a\n\n"), vec!["a", ""]);
    assert_eq!(lines("a\r"), vec!["a\r"]);
    assert_eq!(lines("\r\n\r"), vec!["", "\r"]);
    assert!(lines("").is_empty());
    let text = "x\r\r\ny\n\nz\r";
    assert_eq!(lines(text), text.lines().collect::<Vec<_>>());
}

#[test]
fn printed_bytes_need_not_be_utf8() {
    assert_eq!(emit_lines(&vec![b'a', 0xff, b'\n', b'b']), vec!["a\u{fffd}", "b"]);
    assert!(emit_lines(&Vec::new()).is_empty());
}

#[test]
fn standard_output_is_passed_on_first() {
    assert_eq!(
        printed_lines(&b"a\nb".to_vec(), &b"x\r\n\ny".to_vec()),
        vec![
            Line::Stdout("a".to_owned()),
            Line::Stdout("b".to_owned()),
            Line::Stderr("x".to_owned()),
            Line::Stderr(String::new()),
            Line::Stderr("y".to_owned()),
        ]
    );
    assert!(printed_lines(&Vec::new(), &Vec::new()).is_empty());
}
