//! The laws, on concrete values.
use asyncjsonstream::{AsyncJsonStreamReader, AsyncJsonStreamReaderError, JsonToken, Progress};
use serde_json::Value;

/// Drives a reader over a stream that arrives in the given chunks.
struct Stream {
    reader: AsyncJsonStreamReader,
    chunks: Vec<Vec<u8>>,
    next: usize,
}

type Outcome<T> = Result<T, AsyncJsonStreamReaderError>;

#[allow(dead_code)]
impl Stream {
    fn of_chunks(chunks: Vec<Vec<u8>>) -> Self {
        Stream {
            reader: AsyncJsonStreamReader::new(),
            chunks,
            next: 0,
        }
    }

    fn of_bytes(bytes: &[u8], size: usize) -> Self {
        Stream::of_chunks(bytes.chunks(size).map(|c| c.to_vec()).collect())
    }

    fn fill(&mut self) -> Outcome<bool> {
        let chunk = if self.next < self.chunks.len() {
            self.next += 1;
            self.chunks[self.next - 1].clone()
        } else {
            Vec::new()
        };
        assert!(self.reader.can_hold(chunk.len()));
        self.reader.fill_buffer(&chunk)
    }

    fn drive<T>(
        &mut self,
        op: impl Fn(&mut AsyncJsonStreamReader) -> Progress<T>,
    ) -> Outcome<T> {
        loop {
            assert!(self.reader.has_room());
            match op(&mut self.reader) {
                Progress::Ready(result) => return result,
                Progress::NeedData => {
                    self.fill()?;
                }
            }
        }
    }

    fn next_token(&mut self) -> Outcome<Option<JsonToken>> {
        self.drive(|r| r.next_token())
    }

    fn peek_token(&mut self) -> Outcome<Option<JsonToken>> {
        self.drive(|r| r.peek_token())
    }

    fn next_object_entry(&mut self) -> Outcome<Option<String>> {
        self.drive(|r| r.next_object_entry())
    }

    fn skip_value(&mut self) -> Outcome<()> {
        self.drive(|r| r.skip_value())
    }

    fn skip_to_key(&mut self, key: &str) -> Outcome<()> {
        self.drive(|r| r.skip_to_key(key))
    }

    fn skip_object(&mut self) -> Outcome<()> {
        self.drive(|r| r.skip_object())
    }

    fn start_array_item(&mut self) -> Outcome<bool> {
        self.drive(|r| r.start_array_item())
    }

    fn start_object(&mut self) -> Outcome<()> {
        self.drive(|r| r.start_object())
    }

    fn read_string(&mut self) -> Outcome<String> {
        self.drive(|r| r.read_string())
    }

    fn read_nullable_string(&mut self) -> Outcome<Option<String>> {
        self.drive(|r| r.read_nullable_string())
    }

    fn read_boolean(&mut self) -> Outcome<bool> {
        self.drive(|r| r.read_boolean())
    }

    fn read_key(&mut self) -> Outcome<Option<String>> {
        self.drive(|r| r.read_key())
    }

    fn read_number<T>(&mut self) -> Outcome<T>
    where
        T: std::str::FromStr,
        <T as std::str::FromStr>::Err: std::fmt::Debug,
    {
        self.drive(|r| r.read_number(|n: &str| n.parse::<T>().map_err(|e| format!("{e:#?}"))))
    }

    fn deserialize_object(&mut self) -> Outcome<serde_json::Map<String, Value>> {
        self.drive(|r| r.deserialize_object())
    }
}

const DOCUMENT: &str = "{\"a\\n\\u0041\" \n : [1, -2.50e+3 , \"x\\\"\\uD83D\\uDE00y\\/\" ,true,false,\
null, {} ,[ ] ],\"k\": {\"deep\" : {\"z\":0}} , \"end\":\"\u{e9}\u{4e2d}\u{1f600}\"}";

fn tokens(mut stream: Stream) -> Vec<JsonToken> {
    let mut found = Vec::new();
    while let Some(token) = stream.next_token().unwrap() {
        found.push(token);
    }
    found
}

fn text(s: &str) -> String {
    s.to_string()
}

#[test]
fn tokens_are_the_same_for_every_chunk_size() {
    let expected = vec![
        JsonToken::StartObject,
        JsonToken::Key(text("a\nA")),
        JsonToken::StartArray,
        JsonToken::Number(text("1")),
        JsonToken::EndObjectOrListItem,
        JsonToken::Number(text("-2.50e+3")),
        JsonToken::EndObjectOrListItem,
        JsonToken::String(text("x\"\u{1f600}y/")),
        JsonToken::EndObjectOrListItem,
        JsonToken::Boolean(true),
        JsonToken::EndObjectOrListItem,
        JsonToken::Boolean(false),
        JsonToken::EndObjectOrListItem,
        JsonToken::Null,
        JsonToken::EndObjectOrListItem,
        JsonToken::StartObject,
        JsonToken::EndObject,
        JsonToken::EndObjectOrListItem,
        JsonToken::StartArray,
        JsonToken::EndArray,
        JsonToken::EndArray,
        JsonToken::EndObjectOrListItem,
        JsonToken::Key(text("k")),
        JsonToken::StartObject,
        JsonToken::Key(text("deep")),
        JsonToken::StartObject,
        JsonToken::Key(text("z")),
        JsonToken::Number(text("0")),
        JsonToken::EndObject,
        JsonToken::EndObject,
        JsonToken::EndObjectOrListItem,
        JsonToken::Key(text("end")),
        JsonToken::String(text("\u{e9}\u{4e2d}\u{1f600}")),
        JsonToken::EndObject,
    ];
    for size in 1..DOCUMENT.len() + 1 {
        assert_eq!(tokens(Stream::of_bytes(DOCUMENT.as_bytes(), size)), expected);
    }
}

#[test]
fn tokens_are_the_same_for_every_split_in_two() {
    let whole = tokens(Stream::of_bytes(DOCUMENT.as_bytes(), DOCUMENT.len()));
    for at in 1..DOCUMENT.len() {
        let (a, b) = DOCUMENT.as_bytes().split_at(at);
        assert_eq!(tokens(Stream::of_chunks(vec![a.to_vec(), b.to_vec()])), whole);
    }
}

#[test]
fn objects_are_parsed_the_same_for_every_chunk_size() {
    let expected: Value = serde_json::from_str(DOCUMENT).unwrap();
    for size in 1..DOCUMENT.len() + 1 {
        let mut stream = Stream::of_bytes(DOCUMENT.as_bytes(), size);
        assert_eq!(&stream.deserialize_object().unwrap(), expected.as_object().unwrap());
        assert_eq!(stream.next_token().unwrap(), None);
    }
}

#[test]
fn keys_are_found_the_same_for_every_chunk_size() {
    for size in 1..DOCUMENT.len() + 1 {
        let mut stream = Stream::of_bytes(DOCUMENT.as_bytes(), size);
        stream.skip_to_key("k").unwrap();
        assert_eq!(stream.next_object_entry().unwrap(), Some(text("end")));
        assert_eq!(stream.read_string().unwrap(), "\u{e9}\u{4e2d}\u{1f600}");
        assert_eq!(stream.next_object_entry().unwrap(), None);
    }
}

#[test]
fn values_are_skipped_the_same_for_every_chunk_size() {
    for size in 1..DOCUMENT.len() + 1 {
        let mut stream = Stream::of_bytes(DOCUMENT.as_bytes(), size);
        assert_eq!(stream.next_object_entry().unwrap(), Some(text("a\nA")));
        assert_eq!(stream.next_object_entry().unwrap(), Some(text("k")));
        stream.skip_object().unwrap();
        assert_eq!(stream.next_object_entry().unwrap(), Some(text("end")));
        stream.skip_value().unwrap();
        assert_eq!(stream.next_object_entry().unwrap(), None);
    }
}

#[test]
fn items_are_found_the_same_for_every_chunk_size() {
    let json = r#"{"rows": [ {"id":1} , {"id":2} ], "none": [ ], "last": 7}"#;
    for size in 1..json.len() + 1 {
        let mut stream = Stream::of_bytes(json.as_bytes(), size);
        let mut ids = Vec::new();
        let mut last = None;
        while let Some(key) = stream.next_object_entry().unwrap() {
            if key == "last" {
                last = Some(stream.read_number::<u8>().unwrap());
            } else {
                while stream.start_array_item().unwrap() {
                    ids.push(stream.deserialize_object().unwrap()["id"].as_u64().unwrap());
                }
            }
        }
        assert_eq!(ids, vec![1, 2]);
        assert_eq!(last, Some(7));
    }
}

#[test]
fn peeked_token_is_next_for_every_chunk_size() {
    for size in 1..DOCUMENT.len() + 1 {
        let mut stream = Stream::of_bytes(DOCUMENT.as_bytes(), size);
        loop {
            let first = stream.peek_token().unwrap();
            let second = stream.peek_token().unwrap();
            let taken = stream.next_token().unwrap();
            assert_eq!(first, second);
            assert_eq!(first, taken);
            if taken.is_none() {
                break;
            }
        }
    }
}

#[test]
fn found_token_does_not_depend_on_what_follows() {
    for tail in ["", "}", " \"x\"", "\u{0}", "]]]"] {
        let json = format!("[true,{tail}");
        let mut stream = Stream::of_bytes(json.as_bytes(), 100);
        assert_eq!(stream.next_token().unwrap(), Some(JsonToken::StartArray));
        assert_eq!(stream.next_token().unwrap(), Some(JsonToken::Boolean(true)));
        assert_eq!(
            stream.next_token().unwrap(),
            Some(JsonToken::EndObjectOrListItem)
        );
    }
}

#[test]
fn leading_whitespace_does_not_matter() {
    let mut stream = Stream::of_bytes(b" \t\r\n 42 ", 2);
    assert_eq!(
        stream.next_token().unwrap(),
        Some(JsonToken::Number(text("42")))
    );
}

#[test]
fn every_spelling_of_a_character_is_read() {
    let cases = [
        (r#""A""#, "A"),
        (r#""\u0041""#, "A"),
        (r#""\b\f\n\r\t""#, "\u{8}\u{c}\n\r\t"),
        (r#""\"\\\/""#, "\"\\/"),
        (r#""\u00e9\u00E9""#, "\u{e9}\u{e9}"),
        (r#""\uFFFD""#, "\u{fffd}"),
        (r#""\uD83D\uDE00""#, "\u{1f600}"),
        (r#""\ud800\udc00\udbff\udfff""#, "\u{10000}\u{10ffff}"),
        ("\"\u{1f600}\"", "\u{1f600}"),
        (r#""""#, ""),
    ];
    for (json, expected) in cases {
        for size in 1..json.len() + 1 {
            let mut stream = Stream::of_bytes(json.as_bytes(), size);
            assert_eq!(stream.read_string().unwrap(), expected);
        }
    }
}

#[test]
fn colon_makes_a_key_even_after_whitespace() {
    for json in [r#"{"k":1}"#, "{\"k\" \t\r\n :1}"] {
        for size in 1..json.len() + 1 {
            let mut stream = Stream::of_bytes(json.as_bytes(), size);
            stream.start_object().unwrap();
            assert_eq!(
                stream.next_token().unwrap(),
                Some(JsonToken::Key(text("k")))
            );
            assert_eq!(stream.read_number::<i32>().unwrap(), 1);
        }
    }
}

#[test]
fn number_is_followed_by_a_byte_or_the_end() {
    for number in ["0", "-0", "10", "0.5", "-1.25E-7", "3e0"] {
        for tail in ["", " ", ",", "]", "}"] {
            let json = format!("[{number}{tail}");
            let mut stream = Stream::of_bytes(json.as_bytes(), 3);
            stream.next_token().unwrap();
            assert_eq!(
                stream.next_token().unwrap(),
                Some(JsonToken::Number(text(number)))
            );
        }
    }
}

#[test]
fn end_of_stream_is_asked_after_for_each_part_of_a_number() {
    let mut reader = AsyncJsonStreamReader::new();
    reader.fill_buffer(b"1").unwrap();
    assert!(matches!(reader.next_token(), Progress::NeedData));
    assert!(!reader.fill_buffer(b"").unwrap());
    assert!(matches!(reader.next_token(), Progress::NeedData));
    assert!(!reader.fill_buffer(b"").unwrap());
    assert!(matches!(reader.next_token(), Progress::NeedData));
    assert!(!reader.fill_buffer(b"").unwrap());
    assert!(matches!(
        reader.next_token(),
        Progress::Ready(Ok(Some(JsonToken::Number(n)))) if n == "1"
    ));
}

#[test]
fn skipping_keeps_the_brackets_balanced() {
    let json = r#"[[1,[2,{"a":[]}]],{"b":{}},3]"#;
    let mut stream = Stream::of_bytes(json.as_bytes(), 4);
    assert!(stream.start_array_item().unwrap());
    stream.skip_value().unwrap();
    assert!(stream.start_array_item().unwrap());
    stream.skip_object().unwrap();
    assert!(stream.start_array_item().unwrap());
    stream.skip_value().unwrap();
    assert!(!stream.start_array_item().unwrap());
    assert_eq!(stream.next_token().unwrap(), None);
}

#[test]
fn skip_value_resets_the_state() {
    let mut stream = Stream::of_bytes(br#"{"a":{"x":1},"b":2}"#, 100);
    assert_eq!(stream.next_object_entry().unwrap(), Some(text("a")));
    stream.skip_value().unwrap();
    assert_eq!(stream.next_object_entry().unwrap(), Some(text("b")));
    assert_eq!(stream.read_number::<i32>().unwrap(), 2);
}

#[test]
fn unread_value_is_skipped_as_skip_value_would() {
    let json = r#"{"a":{"x":[1,2]},"b":2}"#;
    let mut one = Stream::of_bytes(json.as_bytes(), 100);
    let mut two = Stream::of_bytes(json.as_bytes(), 100);
    one.next_object_entry().unwrap();
    two.next_object_entry().unwrap();
    two.skip_value().unwrap();
    assert_eq!(one.next_object_entry().unwrap(), two.next_object_entry().unwrap());
    assert_eq!(one.read_number::<i32>().unwrap(), two.read_number::<i32>().unwrap());
}

#[test]
fn key_search_stays_in_its_object() {
    let json = r#"{"a":{"wanted":1,"b":{"wanted":2}},"c":[{"wanted":3}],"wanted":4}"#;
    let mut stream = Stream::of_bytes(json.as_bytes(), 5);
    stream.skip_to_key("wanted").unwrap();
    assert_eq!(stream.read_number::<i32>().unwrap(), 4);
    assert_eq!(stream.next_object_entry().unwrap(), None);
}

#[test]
fn key_search_goes_on_from_an_unread_value() {
    let json = r#"{"a":{"wanted":1},"wanted":2}"#;
    let mut stream = Stream::of_bytes(json.as_bytes(), 100);
    assert_eq!(stream.next_object_entry().unwrap(), Some(text("a")));
    stream.skip_to_key("wanted").unwrap();
    assert_eq!(stream.read_number::<i32>().unwrap(), 2);
}

#[test]
fn read_may_be_split_anywhere_in_a_peek() {
    let mut reader = AsyncJsonStreamReader::new();
    assert!(matches!(reader.peek_token(), Progress::NeedData));
    for chunk in ["\"ab", "cd", "\" "] {
        assert!(reader.fill_buffer(chunk.as_bytes()).unwrap());
        assert!(matches!(reader.peek_token(), Progress::NeedData));
    }
    assert!(reader.fill_buffer(b",").unwrap());
    assert!(matches!(
        reader.peek_token(),
        Progress::Ready(Ok(Some(JsonToken::String(s)))) if s == "abcd"
    ));
    assert!(matches!(
        reader.next_token(),
        Progress::Ready(Ok(Some(JsonToken::String(s)))) if s == "abcd"
    ));
    assert!(matches!(
        reader.next_token(),
        Progress::Ready(Ok(Some(JsonToken::EndObjectOrListItem)))
    ));
}

#[test]
fn waiting_reader_can_be_filled() {
    let mut reader = AsyncJsonStreamReader::new();
    assert!(matches!(reader.skip_value(), Progress::NeedData));
    for chunk in ["[", "\"a", "\",{", "\"k\":", "nul", "l}"] {
        assert!(reader.fill_buffer(chunk.as_bytes()).unwrap());
        assert!(matches!(reader.skip_value(), Progress::NeedData));
    }
    assert!(reader.fill_buffer(b"]").unwrap());
    assert!(matches!(reader.skip_value(), Progress::Ready(Ok(()))));
}

#[test]
fn large_objects_leave_a_small_buffer_behind() {
    let long = "a".repeat(40_000);
    let json = format!(r#"[{{"k":"{long}"}},{{"k":"b"}}]"#);
    let mut stream = Stream::of_bytes(json.as_bytes(), 1000);
    assert!(stream.start_array_item().unwrap());
    assert_eq!(stream.deserialize_object().unwrap()["k"], Value::from(long));
    assert!(stream.start_array_item().unwrap());
    assert_eq!(stream.deserialize_object().unwrap()["k"], Value::from("b"));
    assert!(!stream.start_array_item().unwrap());
}

#[test]
fn peeked_last_token_is_next() {
    for (json, token) in [
        ("17", JsonToken::Number(text("17"))),
        ("\"x\" ", JsonToken::String(text("x"))),
        ("null", JsonToken::Null),
    ] {
        for size in 1..json.len() + 1 {
            let mut stream = Stream::of_bytes(json.as_bytes(), size);
            assert_eq!(stream.peek_token().unwrap(), Some(token.clone()));
            assert_eq!(stream.next_token().unwrap(), Some(token.clone()));
            assert_eq!(stream.peek_token().unwrap(), None);
            assert_eq!(stream.next_token().unwrap(), None);
        }
    }
}
