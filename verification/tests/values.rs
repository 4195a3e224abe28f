//! Well-formed values, read in every way, on concrete values.
use asyncjsonstream::{AsyncJsonStreamReader, AsyncJsonStreamReaderError, JsonToken, Progress};
use serde_json::Value;

type Outcome<T> = Result<T, AsyncJsonStreamReaderError>;

/// A reader over a stream that arrives in chunks of one size.
struct Stream {
    reader: AsyncJsonStreamReader,
    bytes: Vec<u8>,
    size: usize,
    read: usize,
}

impl Stream {
    fn of(text: &str, size: usize) -> Self {
        Stream {
            reader: AsyncJsonStreamReader::new(),
            bytes: text.as_bytes().to_vec(),
            size,
            read: 0,
        }
    }

    fn drive<T>(
        &mut self,
        op: impl Fn(&mut AsyncJsonStreamReader) -> Progress<T>,
    ) -> Outcome<T> {
        loop {
            assert!(self.reader.has_room());
            match op(&mut self.reader) {
                Progress::Ready(result) => return result,
                Progress::NeedData => {
                    let end = std::cmp::min(self.read + self.size, self.bytes.len());
                    let chunk = self.bytes[self.read..end].to_vec();
                    self.read = end;
                    assert!(self.reader.can_hold(chunk.len()));
                    self.reader.fill_buffer(&chunk)?;
                }
            }
        }
    }

    fn token(&mut self) -> Option<JsonToken> {
        self.drive(|r| r.next_token()).unwrap()
    }

    fn peek(&mut self) -> Option<JsonToken> {
        self.drive(|r| r.peek_token()).unwrap()
    }

    fn entry(&mut self) -> Option<String> {
        self.drive(|r| r.next_object_entry()).unwrap()
    }

    fn item(&mut self) -> bool {
        self.drive(|r| r.start_array_item()).unwrap()
    }

    fn skip_value(&mut self) {
        self.drive(|r| r.skip_value()).unwrap()
    }

    fn skip_object(&mut self) {
        self.drive(|r| r.skip_object()).unwrap()
    }

    fn object(&mut self) -> serde_json::Map<String, Value> {
        self.drive(|r| r.deserialize_object()).unwrap()
    }

    fn seek(&mut self, key: &str) -> Outcome<()> {
        self.drive(|r| r.skip_to_key(key))
    }

    /// All that is left, as tokens.
    fn rest(&mut self) -> Vec<JsonToken> {
        let mut found = Vec::new();
        while let Some(token) = self.token() {
            found.push(token);
        }
        found
    }
}

fn number(text: &str) -> JsonToken {
    JsonToken::Number(String::from(text))
}

fn string(text: &str) -> JsonToken {
    JsonToken::String(String::from(text))
}

const SIZES: [usize; 4] = [1, 2, 7, 1000];

const OBJECT: &str =
    r#"{ "a" : {"b": [1, {"a": 2}]}, "c": "}]" , "a": [[], {}], "d": null, "e": -1.5e3 } true "#;

#[test]
fn value_is_skipped_and_nothing_else() {
    for value in ["null", "false", "12.5", r#""{[""#, "[]", "{}", r#"[{"a": [1, "]"]}, [[2]]]"#] {
        for size in SIZES {
            let mut stream = Stream::of(&format!(" {value} \"next\""), size);
            stream.skip_value();
            assert_eq!(stream.rest(), vec![string("next")]);
        }
    }
}

#[test]
fn object_is_skipped_and_nothing_else() {
    for size in SIZES {
        let mut stream = Stream::of(OBJECT, size);
        stream.skip_object();
        assert_eq!(stream.rest(), vec![JsonToken::Boolean(true)]);
    }
}

#[test]
fn object_is_deserialized_and_nothing_else() {
    for size in SIZES {
        let mut stream = Stream::of(OBJECT, size);
        let found = stream.object();
        let whole: Value = serde_json::from_str(&OBJECT[..OBJECT.len() - 6]).unwrap();
        assert_eq!(Value::Object(found), whole);
        assert_eq!(stream.rest(), vec![JsonToken::Boolean(true)]);
    }
}

#[test]
fn objects_in_a_row_are_skipped_and_deserialized_alike() {
    let text = r#"{"a": {"x": 1}} {"b": [2]} {"c": "3"}"#;
    for size in SIZES {
        for skipped in 0..8 {
            let mut stream = Stream::of(text, size);
            for k in 0..3 {
                if skipped >> k & 1 == 1 {
                    stream.skip_object();
                } else {
                    let found = stream.object();
                    assert_eq!(found.len(), 1);
                    assert!(found.contains_key(["a", "b", "c"][k]));
                }
            }
            assert_eq!(stream.token(), None);
        }
    }
}

#[test]
fn entries_come_in_order_whatever_becomes_of_the_values() {
    for size in SIZES {
        // Which of the five values are skipped by hand; the others are left alone.
        for skipped in 0..32 {
            let mut stream = Stream::of(OBJECT, size);
            for (k, key) in ["a", "c", "a", "d", "e"].iter().enumerate() {
                assert_eq!(stream.entry().as_deref(), Some(*key));
                if skipped >> k & 1 == 1 {
                    stream.skip_value();
                }
            }
            assert_eq!(stream.entry(), None);
            assert_eq!(stream.rest(), vec![JsonToken::Boolean(true)]);
        }
    }
}

#[test]
fn empty_object_has_no_entries() {
    for size in SIZES {
        let mut stream = Stream::of("{ } 1", size);
        assert_eq!(stream.entry(), None);
        assert_eq!(stream.rest(), vec![number("1")]);
    }
}

#[test]
fn nested_object_is_walked_in_its_place() {
    for size in SIZES {
        let mut stream = Stream::of(r#"{"a": {"x": 1, "y": [2]}, "b": 3}"#, size);
        assert_eq!(stream.entry().as_deref(), Some("a"));
        stream.drive(|r| r.start_object()).unwrap();
        assert_eq!(stream.entry().as_deref(), Some("x"));
        assert_eq!(stream.entry().as_deref(), Some("y"));
        assert_eq!(stream.entry(), None);
        assert_eq!(stream.entry().as_deref(), Some("b"));
        assert_eq!(stream.peek(), Some(number("3")));
        assert_eq!(stream.entry(), None);
    }
}

#[test]
fn items_come_in_order_and_no_more() {
    let items = ["1", r#""[""#, "[2, [3]]", "{}", r#"{"a": [4]}"#, "null"];
    for size in SIZES {
        for n in 0..items.len() {
            let mut stream = Stream::of(&format!(" [{}] \"next\"", items[..n].join(" , ")), size);
            for item in &items[..n] {
                assert!(stream.item());
                let mut alone = Stream::of(item, 1000);
                assert_eq!(stream.peek(), alone.peek());
                stream.skip_value();
            }
            assert!(!stream.item());
            assert_eq!(stream.rest(), vec![string("next")]);
        }
    }
}

#[test]
fn key_is_found_where_it_first_comes() {
    for size in SIZES {
        let mut stream = Stream::of(OBJECT, size);
        stream.seek("a").unwrap();
        assert_eq!(stream.token(), Some(JsonToken::StartObject));
        let mut stream = Stream::of(OBJECT, size);
        stream.seek("c").unwrap();
        assert_eq!(stream.peek(), Some(string("}]")));
        // Past the first "a" it is the second.
        stream.seek("a").unwrap();
        assert_eq!(stream.token(), Some(JsonToken::StartArray));
    }
}

#[test]
fn missing_key_leaves_the_object() {
    for size in SIZES {
        // "b" is the key of an inner object only.
        let mut stream = Stream::of(OBJECT, size);
        let error = stream.seek("b").unwrap_err();
        assert!(matches!(
            error,
            AsyncJsonStreamReaderError::JsonError { error, .. } if error == "key not found"
        ));
        assert_eq!(stream.rest(), vec![JsonToken::Boolean(true)]);
    }
}

#[test]
fn passed_key_is_not_found_again() {
    for size in SIZES {
        let mut stream = Stream::of(OBJECT, size);
        stream.seek("c").unwrap();
        assert!(stream.seek("c").is_err());
        assert_eq!(stream.rest(), vec![JsonToken::Boolean(true)]);
    }
}

#[test]
fn end_comes_after_whitespace_and_stays() {
    for text in ["", " ", "\n\t \r ", "1", "1 ", "[ ] \n"] {
        for size in SIZES {
            let mut stream = Stream::of(text, size);
            stream.rest();
            for _ in 0..3 {
                assert_eq!(stream.token(), None);
            }
        }
    }
}

#[test]
fn string_is_read_whatever_whitespace_follows() {
    for space in ["", " ", "\n \t"] {
        for next in ["", ",", "]", "\"x\""] {
            for size in SIZES {
                let mut stream = Stream::of(&format!("\"a\\u00e9\"{space}{next}"), size);
                assert_eq!(stream.token(), Some(string("a\u{e9}")));
            }
        }
    }
}

#[test]
fn two_looks_and_a_token_are_the_same() {
    for size in SIZES {
        let mut stream = Stream::of(OBJECT, size);
        let mut alone = Stream::of(OBJECT, 1000);
        loop {
            let one = stream.peek();
            let two = stream.peek();
            let token = stream.token();
            assert_eq!(one, two);
            assert_eq!(one, token);
            assert_eq!(token, alone.token());
            if token.is_none() {
                break;
            }
        }
    }
}

#[test]
fn tokens_end_in_the_same_error_however_the_bytes_are_cut() {
    for text in ["[1, 2, x]", r#"{"a": tru}"#, r#"["\q"]"#, r#"["\u12g4"]"#, "[-]"] {
        let mut found: Vec<(Vec<JsonToken>, String)> = Vec::new();
        for size in [1, 2, 3, 1000] {
            let mut stream = Stream::of(text, size);
            let mut tokens = Vec::new();
            let message = loop {
                match stream.drive(|r| r.next_token()) {
                    Ok(Some(token)) => tokens.push(token),
                    Ok(None) => panic!("no error in {text}"),
                    // The position is one in the buffer, which depends on the reads.
                    Err(AsyncJsonStreamReaderError::JsonError { error, .. }) => break error,
                    Err(other) => break format!("{other:?}"),
                }
            };
            found.push((tokens, message));
        }
        for other in &found {
            assert_eq!(other, &found[0]);
        }
    }
}

#[test]
fn failed_object_leaves_a_reader_that_goes_on() {
    let mut stream = Stream::of(r#"[1] {"a": 2} {"b": 3}"#, 1000);
    // The token is used up, and then it is no object that begins.
    assert!(stream.drive(|r| r.deserialize_object()).is_err());
    assert_eq!(stream.token(), Some(number("1")));
    assert_eq!(stream.token(), Some(JsonToken::EndArray));
    assert_eq!(stream.object().len(), 1);
    assert!(stream.object().contains_key("b"));
    assert_eq!(stream.token(), None);
}

/// One session of several operations, with all that they reply.
fn session(text: &str, size: usize) -> Vec<String> {
    let mut stream = Stream::of(text, size);
    let mut replies = vec![
        format!("{:?}", stream.drive(|r| r.peek_token())),
        format!("{:?}", stream.drive(|r| r.next_object_entry())),
        format!("{:?}", stream.drive(|r| r.start_array_item())),
        format!("{:?}", stream.drive(|r| r.deserialize_object())),
        format!("{:?}", stream.drive(|r| r.start_array_item())),
        format!("{:?}", stream.drive(|r| r.skip_value())),
        format!("{:?}", stream.drive(|r| r.start_array_item())),
        format!("{:?}", stream.drive(|r| r.skip_to_key("wanted"))),
        format!("{:?}", stream.drive(|r| r.read_nullable_string())),
        format!("{:?}", stream.drive(|r| r.next_object_entry())),
        format!("{:?}", stream.drive(|r| r.read_boolean())),
        format!("{:?}", stream.drive(|r| r.next_object_entry())),
        format!("{:?}", stream.drive(|r| r.next_token())),
    ];
    replies.push(format!("{:?}", stream.drive(|r| r.next_token())));
    replies
}

#[test]
fn session_is_the_same_however_the_bytes_are_cut() {
    let text = r#" {"list": [ {"x": "\u0041"} , [1, {"wanted": 2}] ], "other": {"wanted": 3},
        "wanted" : "yes", "last": true } 7 "#;
    let whole = session(text, 1000);
    assert_eq!(whole[1], r#"Ok(Some("list"))"#);
    assert_eq!(whole[2], "Ok(true)");
    assert_eq!(whole[3], r#"Ok({"x": String("A")})"#);
    assert_eq!(whole[4], "Ok(true)");
    assert_eq!(whole[6], "Ok(false)");
    assert_eq!(whole[7], "Ok(())");
    assert_eq!(whole[8], r#"Ok(Some("yes"))"#);
    assert_eq!(whole[9], r#"Ok(Some("last"))"#);
    assert_eq!(whole[10], "Ok(true)");
    assert_eq!(whole[11], "Ok(None)");
    assert_eq!(whole[12], r#"Ok(Some(Number("7")))"#);
    assert_eq!(whole[13], "Ok(None)");
    for size in 1..text.len() {
        assert_eq!(session(text, size), whole);
    }
}

#[test]
fn object_is_deserialized_however_it_is_written() {
    let plain = r#"{"a\n":[1,-0.5e+2,true,false,null,"\"\\"],"b":{}}"#;
    let spaced = " {\n\"\\u0061\\n\" :\t[ 1 , -0.5e+2,true , false,null , \"\\u0022\\u005C\" ] ,\r\n\
        \"b\": { } }";
    let expected: serde_json::Map<String, Value> = serde_json::from_str(plain).unwrap();
    for text in [plain, spaced] {
        for size in 1..text.len() {
            let mut stream = Stream::of(&format!("{text}  null"), size);
            assert_eq!(stream.object(), expected);
            assert_eq!(stream.rest(), vec![JsonToken::Null]);
        }
    }
}
