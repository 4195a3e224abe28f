//! Errors, and what the reader does after them.
use asyncjsonstream::reader::{cut_object_result, number_result, object_result};
use asyncjsonstream::{AsyncJsonStreamReader, AsyncJsonStreamReaderError, JsonToken, Progress};
use serde_json::Value;

/// Drives a reader over a stream that arrives in the given chunks.
struct Stream {
    reader: AsyncJsonStreamReader,
    chunks: Vec<Vec<u8>>,
    next: usize,
}

type Outcome<T> = Result<T, AsyncJsonStreamReaderError>;

#[allow(dead_code)]
impl Stream {
    fn of_chunks(chunks: Vec<Vec<u8>>) -> Self {
        Stream {
            reader: AsyncJsonStreamReader::new(),
            chunks,
            next: 0,
        }
    }

    fn of_bytes(bytes: &[u8], size: usize) -> Self {
        Stream::of_chunks(bytes.chunks(size).map(|c| c.to_vec()).collect())
    }

    fn fill(&mut self) -> Outcome<bool> {
        let chunk = if self.next < self.chunks.len() {
            self.next += 1;
            self.chunks[self.next - 1].clone()
        } else {
            Vec::new()
        };
        assert!(self.reader.can_hold(chunk.len()));
        self.reader.fill_buffer(&chunk)
    }

    fn drive<T>(
        &mut self,
        op: impl Fn(&mut AsyncJsonStreamReader) -> Progress<T>,
    ) -> Outcome<T> {
        loop {
            assert!(self.reader.has_room());
            match op(&mut self.reader) {
                Progress::Ready(result) => return result,
                Progress::NeedData => {
                    self.fill()?;
                }
            }
        }
    }

    fn next_token(&mut self) -> Outcome<Option<JsonToken>> {
        self.drive(|r| r.next_token())
    }

    fn peek_token(&mut self) -> Outcome<Option<JsonToken>> {
        self.drive(|r| r.peek_token())
    }

    fn next_object_entry(&mut self) -> Outcome<Option<String>> {
        self.drive(|r| r.next_object_entry())
    }

    fn skip_value(&mut self) -> Outcome<()> {
        self.drive(|r| r.skip_value())
    }

    fn skip_to_key(&mut self, key: &str) -> Outcome<()> {
        self.drive(|r| r.skip_to_key(key))
    }

    fn skip_object(&mut self) -> Outcome<()> {
        self.drive(|r| r.skip_object())
    }

    fn start_array_item(&mut self) -> Outcome<bool> {
        self.drive(|r| r.start_array_item())
    }

    fn start_object(&mut self) -> Outcome<()> {
        self.drive(|r| r.start_object())
    }

    fn read_string(&mut self) -> Outcome<String> {
        self.drive(|r| r.read_string())
    }

    fn read_nullable_string(&mut self) -> Outcome<Option<String>> {
        self.drive(|r| r.read_nullable_string())
    }

    fn read_boolean(&mut self) -> Outcome<bool> {
        self.drive(|r| r.read_boolean())
    }

    fn read_key(&mut self) -> Outcome<Option<String>> {
        self.drive(|r| r.read_key())
    }

    fn read_number<T>(&mut self) -> Outcome<T>
    where
        T: std::str::FromStr,
        <T as std::str::FromStr>::Err: std::fmt::Debug,
    {
        self.drive(|r| r.read_number(|n: &str| n.parse::<T>().map_err(|e| format!("{e:#?}"))))
    }

    fn deserialize_object(&mut self) -> Outcome<serde_json::Map<String, Value>> {
        self.drive(|r| r.deserialize_object())
    }
}

fn at_once(json: &str) -> Stream {
    Stream::of_bytes(json.as_bytes(), 8 * 1024)
}

fn json_error<T>(outcome: Outcome<T>) -> (String, usize) {
    match outcome {
        Err(AsyncJsonStreamReaderError::JsonError { error, position }) => (error, position),
        Err(other) => panic!("another error: {}", other.message()),
        Ok(_) => panic!("no error"),
    }
}

fn unexpected<T>(outcome: Outcome<T>) -> (&'static str, String) {
    match outcome {
        Err(AsyncJsonStreamReaderError::UnexpectedToken { expected, found }) => (expected, found),
        Err(other) => panic!("another error: {}", other.message()),
        Ok(_) => panic!("no error"),
    }
}

fn flaw(json: &str) -> (String, usize) {
    json_error(at_once(json).next_token())
}

#[test]
fn messages_tell_of_each_error() {
    let io = AsyncJsonStreamReaderError::Io("broken pipe".to_string());
    assert_eq!(io.message(), "IO error: broken pipe");
    let json = AsyncJsonStreamReaderError::JsonError {
        error: "bad".to_string(),
        position: 1207,
    };
    assert_eq!(json.message(), "JSON error: bad, position: 1207");
    let token = AsyncJsonStreamReaderError::UnexpectedToken {
        expected: "string",
        found: "None".to_string(),
    };
    assert_eq!(
        token.message(),
        "Unexpected token: expected string, found None"
    );
    let state = AsyncJsonStreamReaderError::InternalState {
        message: "odd".to_string(),
    };
    assert_eq!(state.message(), "Internal state error: odd");
}

#[test]
fn unknown_character_is_named_and_not_used_up() {
    let mut stream = at_once("  ?");
    for _ in 0..2 {
        assert_eq!(
            json_error(stream.next_token()),
            ("Unexpected JSON character: ?".to_string(), 2)
        );
    }
    assert_eq!(flaw("\u{e9}").0, "Unexpected JSON character: \u{c3}");
}

#[test]
fn closing_bracket_without_an_open_one_is_malformed() {
    assert_eq!(flaw("]"), ("Unexpected JSON character: ]".to_string(), 0));
    let mut stream = at_once("{}}");
    stream.skip_object().unwrap();
    assert_eq!(
        json_error(stream.next_token()),
        ("Unexpected JSON character: }".to_string(), 2)
    );
}

#[test]
fn literals_must_be_spelled_out() {
    assert_eq!(
        unexpected(at_once("nulx").next_token()),
        ("null", "x".to_string())
    );
    assert_eq!(
        unexpected(at_once("trap").next_token()),
        ("true", "a".to_string())
    );
    assert_eq!(
        unexpected(at_once("fals?").next_token()),
        ("false", "?".to_string())
    );
    assert_eq!(
        flaw("tr"),
        (
            "Unexpected EOF while requesting to fill buffer".to_string(),
            0
        )
    );
}

#[test]
fn numbers_must_be_complete() {
    assert_eq!(flaw("-x"), ("InvalidNumber: -".to_string(), 1));
    assert_eq!(
        flaw("1.x"),
        ("Invalid character after decimal point: x".to_string(), 2)
    );
    assert_eq!(
        flaw("1e?"),
        ("Invalid character after exponent: ?".to_string(), 2)
    );
    assert_eq!(
        flaw("1e+,"),
        ("Invalid character after exponent: ,".to_string(), 3)
    );
    assert_eq!(
        flaw("-012,"),
        (
            "Invalid number: leading zeros are not allowed".to_string(),
            4
        )
    );
    assert_eq!(
        flaw("1."),
        (
            "InvalidNumber: unexpected EOF after decimal point".to_string(),
            0
        )
    );
    assert_eq!(
        flaw("1e"),
        (
            "InvalidNumber: unexpected EOF after exponent".to_string(),
            0
        )
    );
}

#[test]
fn strings_must_end() {
    assert_eq!(
        flaw("\"abc"),
        ("Unexpected EOF while parsing string".to_string(), 0)
    );
    assert_eq!(
        flaw("\"abc\\"),
        (
            "Unexpected EOF while requesting to fill buffer".to_string(),
            0
        )
    );
}

#[test]
fn escapes_must_be_known() {
    assert_eq!(
        flaw(r#""\x""#),
        ("Invalid JSON escape sequence: \\x".to_string(), 3)
    );
    assert_eq!(
        flaw(r#""\u12G4""#),
        (
            "Invalid hex value in unicode escape sequence: 12G4".to_string(),
            3
        )
    );
    let mut stream = Stream::of_bytes(b"\"\\u12\xff4\"", 100);
    assert_eq!(
        json_error(stream.next_token()),
        ("Invalid UTF-8 in unicode escape sequence".to_string(), 3)
    );
}

#[test]
fn plus_sign_is_no_hexadecimal_digit() {
    assert_eq!(
        flaw(r#""\u+041""#),
        (
            "Invalid hex value in unicode escape sequence: +041".to_string(),
            3
        )
    );
    assert_eq!(
        flaw(r#""\u0+41""#).0,
        "Invalid hex value in unicode escape sequence: 0+41"
    );
}

#[test]
fn surrogates_must_come_in_pairs() {
    assert_eq!(
        flaw(r#""\uD83D""#),
        (
            "Unmatched high surrogate in Unicode escape sequence".to_string(),
            7
        )
    );
    assert_eq!(
        flaw(r#""\uD83D\n""#),
        (
            "Unmatched high surrogate in Unicode escape sequence".to_string(),
            8
        )
    );
    assert_eq!(
        flaw(r#""\uDE00""#),
        (
            "Unmatched low surrogate in Unicode escape sequence".to_string(),
            3
        )
    );
    assert_eq!(
        flaw(r#""\uD83D\uD83D""#),
        (
            "High surrogate not followed by low surrogate. Got d83d".to_string(),
            7
        )
    );
    assert_eq!(
        flaw(r#""\uD83D\u0041""#).0,
        "High surrogate not followed by low surrogate. Got 41"
    );
}

#[test]
fn position_of_a_bad_escape_stays_in_the_buffer() {
    let json = br#""\uZZZZ""#;
    for size in 1..json.len() {
        let mut stream = Stream::of_bytes(json, size);
        let (error, position) = json_error(stream.next_token());
        assert_eq!(error, "Invalid hex value in unicode escape sequence: ZZZZ");
        assert!(position <= size);
    }
}

#[test]
fn strings_must_be_utf8() {
    let complaint = String::from_utf8(b"ab\xff".to_vec()).unwrap_err().to_string();
    let mut stream = Stream::of_bytes(b"\"ab\xff\"", 100);
    assert_eq!(
        json_error(stream.next_token()),
        (format!("Invalid UTF-8 in string: {complaint}"), 5)
    );
}

#[test]
fn found_tokens_are_shown() {
    assert_eq!(
        unexpected(at_once("1").read_string()),
        ("string", "Some(Number(\"1\"))".to_string())
    );
    assert_eq!(
        unexpected(at_once("null").read_boolean()),
        ("boolean", "Some(Null)".to_string())
    );
    assert_eq!(
        unexpected(at_once("\"a\\\"\\n\"").read_number::<i32>()),
        ("number", "Some(String(\"a\\\"\\n\"))".to_string())
    );
    assert_eq!(
        unexpected(at_once("false").read_nullable_string()),
        ("string", "Some(Boolean(false))".to_string())
    );
    assert_eq!(
        unexpected(at_once("").start_object()),
        ("{", "None".to_string())
    );
    assert_eq!(
        unexpected(at_once("{\"k\":1}").start_array_item()),
        ("[ or , or ]", "Some(StartObject)".to_string())
    );
    assert_eq!(
        unexpected(at_once("[1]").read_key()),
        ("key or end of object", "Some(StartArray)".to_string())
    );
    assert_eq!(
        unexpected(at_once("\"k\":1").skip_value()),
        ("a value", "Key(\"k\")".to_string())
    );
    assert_eq!(
        unexpected(at_once(",").skip_object()),
        ("{", "Some(EndObjectOrListItem)".to_string())
    );
}

#[test]
fn missing_value_is_the_end_of_the_stream() {
    assert_eq!(
        json_error(at_once("").skip_value()),
        ("Unexpected EOF while skipping value".to_string(), 0)
    );
}

#[test]
fn object_cut_short_is_not_skipped() {
    let mut stream = at_once(r#"{"a":[1,2"#);
    assert_eq!(
        json_error(stream.skip_object()).0,
        "Unexpected EOF while skipping value"
    );
}

#[test]
fn object_cut_short_is_not_deserialized() {
    let cut = br#" {"a":[1,2"#;
    let reason =
        serde_json::from_slice::<serde_json::Map<String, Value>>(cut).unwrap_err();
    let mut stream = Stream::of_bytes(cut, 3);
    assert_eq!(
        json_error(stream.deserialize_object()),
        (format!("deserialize_object error: {reason:?}"), 0)
    );
}

#[test]
fn object_cut_anywhere_is_refused() {
    let whole = r#"{"a":[1,{"b":"c"}],"d":null}"#;
    for len in 1..whole.len() {
        for size in [1, 4, 100] {
            let mut stream = Stream::of_bytes(&whole.as_bytes()[..len], size);
            assert!(matches!(
                stream.deserialize_object(),
                Err(AsyncJsonStreamReaderError::JsonError { .. })
            ));
            let mut stream = Stream::of_bytes(&whole.as_bytes()[..len], size);
            assert!(matches!(
                stream.skip_object(),
                Err(AsyncJsonStreamReaderError::JsonError { .. })
            ));
        }
    }
}

#[test]
fn object_cut_short_is_refused_whatever_the_parser_says() {
    let parsed = serde_json::from_slice::<serde_json::Map<String, Value>>(br#"{"a":1}"#);
    assert_eq!(
        json_error(cut_object_result(parsed, 2, 9)),
        ("Unexpected EOF while reading object".to_string(), 9)
    );
    let parsed = serde_json::from_slice::<serde_json::Map<String, Value>>(b"{");
    let reason = serde_json::from_slice::<serde_json::Map<String, Value>>(b"{").unwrap_err();
    assert_eq!(
        json_error(cut_object_result(parsed, 2, 9)),
        (format!("deserialize_object error: {reason:?}"), 2)
    );
}

/// Where the next read of `x` is found at fault; a buffer that is kept still holds what
/// came before it.
fn fault_after(reader: &mut AsyncJsonStreamReader) -> usize {
    loop {
        match reader.next_token() {
            Progress::Ready(_) => {}
            Progress::NeedData => break,
        }
    }
    assert!(reader.fill_buffer(b"x").unwrap());
    match reader.next_token() {
        Progress::Ready(Err(AsyncJsonStreamReaderError::JsonError { position, .. })) => position,
        _ => panic!("expected an error"),
    }
}

#[test]
fn refused_object_is_not_kept() {
    for bytes in [&b"[1,"[..], &br#"{"a":"\q1,"#[..]] {
        let mut reader = AsyncJsonStreamReader::new();
        assert!(matches!(reader.deserialize_object(), Progress::NeedData));
        assert!(reader.fill_buffer(bytes).unwrap());
        assert!(matches!(reader.deserialize_object(), Progress::Ready(Err(_))));
        assert_eq!(fault_after(&mut reader), 0);
    }
}

#[test]
fn object_given_up_is_not_kept() {
    let mut reader = AsyncJsonStreamReader::new();
    assert!(matches!(reader.deserialize_object(), Progress::NeedData));
    assert!(reader.fill_buffer(br#"{"a":1,"#).unwrap());
    assert!(matches!(reader.deserialize_object(), Progress::NeedData));
    reader.cancel();
    assert_eq!(fault_after(&mut reader), 0);

    let mut reader = AsyncJsonStreamReader::new();
    assert!(matches!(reader.deserialize_object(), Progress::NeedData));
    assert!(reader.fill_buffer(br#"{"a":1,"#).unwrap());
    assert!(matches!(reader.deserialize_object(), Progress::NeedData));
    reader.read_failed("broken".to_string());
    assert_eq!(fault_after(&mut reader), 0);
}

#[test]
fn malformed_object_is_refused_by_the_parser() {
    let json = br#"{"a" "b"}"#;
    let reason =
        serde_json::from_slice::<serde_json::Map<String, Value>>(json).unwrap_err();
    let mut stream = Stream::of_bytes(json, 100);
    assert_eq!(
        json_error(stream.deserialize_object()),
        (format!("deserialize_object error: {reason:?}"), 0)
    );
    assert_eq!(stream.next_token().unwrap(), None);
}

#[test]
fn parsers_result_is_handed_on() {
    let parsed = serde_json::from_slice::<serde_json::Map<String, Value>>(br#"{"a":1}"#);
    assert_eq!(object_result(parsed, 0).unwrap()["a"], Value::from(1));
    let parsed = serde_json::from_slice::<serde_json::Map<String, Value>>(b"[");
    let shown = format!("{:?}", parsed.as_ref().unwrap_err());
    assert_eq!(
        json_error(object_result(parsed, 17)),
        (format!("deserialize_object error: {shown}"), 17)
    );
}

#[test]
fn key_not_found_in_its_object() {
    let mut stream = at_once(r#"{"a":{"wanted":1}} {"wanted":2}"#);
    assert_eq!(
        json_error(stream.skip_to_key("wanted")),
        ("key not found".to_string(), 18)
    );
    let mut stream = at_once(r#"{"a":1"#);
    assert_eq!(json_error(stream.skip_to_key("wanted")).0, "key not found");
}

#[test]
fn number_that_does_not_fit_is_refused_and_passed() {
    let mut stream = at_once(r#"{"a":1.5,"b":2}"#);
    stream.next_object_entry().unwrap();
    let reason = format!("{:#?}", "1.5".parse::<i32>().unwrap_err());
    assert_eq!(
        json_error(stream.read_number::<i32>()),
        (format!("Can't parse number 1.5: {reason}"), 8)
    );
    assert_eq!(stream.next_object_entry().unwrap(), Some("b".to_string()));
    assert_eq!(stream.read_number::<i32>().unwrap(), 2);
}

#[test]
fn parsed_number_is_handed_on() {
    assert_eq!(number_result("7", Ok(7), 1).unwrap(), 7);
    assert_eq!(
        json_error(number_result::<u8>("777", Err("too large".to_string()), 3)),
        ("Can't parse number 777: too large".to_string(), 3)
    );
}

#[test]
fn refused_read_changes_nothing() {
    let mut reader = AsyncJsonStreamReader::new();
    reader.fill_buffer(b"[]").unwrap();
    assert!(matches!(
        reader.next_token(),
        Progress::Ready(Ok(Some(JsonToken::StartArray)))
    ));
    match reader.fill_buffer(b"x").unwrap_err() {
        AsyncJsonStreamReaderError::InternalState { message } => assert_eq!(
            message,
            "fill_buffer called with an unconsumed buffer: position=1, buffer.len=2"
        ),
        other => panic!("another error: {}", other.message()),
    }
    assert!(matches!(
        reader.next_token(),
        Progress::Ready(Ok(Some(JsonToken::EndArray)))
    ));
}

#[test]
fn failed_read_ends_the_operation() {
    let mut reader = AsyncJsonStreamReader::new();
    reader.fill_buffer(b"{\"a").unwrap();
    assert!(matches!(
        reader.next_token(),
        Progress::Ready(Ok(Some(JsonToken::StartObject)))
    ));
    assert!(matches!(reader.next_token(), Progress::NeedData));
    let error = reader.read_failed("connection reset".to_string());
    assert_eq!(error.message(), "IO error: connection reset");
    reader.fill_buffer(b"}").unwrap();
    assert!(matches!(
        reader.next_token(),
        Progress::Ready(Ok(Some(JsonToken::EndObject)))
    ));
}

#[test]
fn failed_read_puts_a_peek_back() {
    let mut reader = AsyncJsonStreamReader::new();
    reader.fill_buffer(b"tr").unwrap();
    assert!(matches!(reader.peek_token(), Progress::NeedData));
    let error = reader.read_failed("later".to_string());
    assert!(matches!(error, AsyncJsonStreamReaderError::Io(m) if m == "later"));
    assert!(matches!(reader.next_token(), Progress::NeedData));
    reader.fill_buffer(b"ue").unwrap();
    assert!(matches!(
        reader.next_token(),
        Progress::Ready(Ok(Some(JsonToken::Boolean(true))))
    ));
}

#[test]
fn cancelled_operation_drops_its_token() {
    let mut reader = AsyncJsonStreamReader::new();
    reader.fill_buffer(b"[\"ab").unwrap();
    assert!(matches!(reader.skip_value(), Progress::NeedData));
    reader.cancel();
    reader.fill_buffer(b"1,").unwrap();
    assert!(matches!(
        reader.next_token(),
        Progress::Ready(Ok(Some(JsonToken::Number(n)))) if n == "1"
    ));
}

#[test]
fn peek_puts_an_error_back_too() {
    let mut stream = at_once("[\"\\q\"]");
    stream.next_token().unwrap();
    assert_eq!(
        json_error(stream.peek_token()),
        ("Invalid JSON escape sequence: \\q".to_string(), 4)
    );
    assert_eq!(
        json_error(stream.next_token()),
        ("Invalid JSON escape sequence: \\q".to_string(), 4)
    );
}

#[test]
fn documents_may_follow_each_other() {
    let mut stream = at_once("{\"id\":1}\n{\"id\":2}\n");
    assert_eq!(stream.deserialize_object().unwrap()["id"], Value::from(1));
    assert_eq!(stream.deserialize_object().unwrap()["id"], Value::from(2));
    assert_eq!(stream.next_token().unwrap(), None);
}
