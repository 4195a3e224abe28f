//! The reader's operations, driven over streams that arrive in chunks.
use asyncjsonstream::{AsyncJsonStreamReader, AsyncJsonStreamReaderError, JsonToken, Progress};
use serde_json::Value;

/// Drives a reader over a stream that arrives in the given chunks.
struct Stream {
    reader: AsyncJsonStreamReader,
    chunks: Vec<Vec<u8>>,
    next: usize,
}

type Outcome<T> = Result<T, AsyncJsonStreamReaderError>;

#[allow(dead_code)]
impl Stream {
    fn of_chunks(chunks: Vec<Vec<u8>>) -> Self {
        Stream {
            reader: AsyncJsonStreamReader::new(),
            chunks,
            next: 0,
        }
    }

    fn of_bytes(bytes: &[u8], size: usize) -> Self {
        Stream::of_chunks(bytes.chunks(size).map(|c| c.to_vec()).collect())
    }

    fn fill(&mut self) -> Outcome<bool> {
        let chunk = if self.next < self.chunks.len() {
            self.next += 1;
            self.chunks[self.next - 1].clone()
        } else {
            Vec::new()
        };
        assert!(self.reader.can_hold(chunk.len()));
        self.reader.fill_buffer(&chunk)
    }

    fn drive<T>(
        &mut self,
        op: impl Fn(&mut AsyncJsonStreamReader) -> Progress<T>,
    ) -> Outcome<T> {
        loop {
            assert!(self.reader.has_room());
            match op(&mut self.reader) {
                Progress::Ready(result) => return result,
                Progress::NeedData => {
                    self.fill()?;
                }
            }
        }
    }

    fn next_token(&mut self) -> Outcome<Option<JsonToken>> {
        self.drive(|r| r.next_token())
    }

    fn peek_token(&mut self) -> Outcome<Option<JsonToken>> {
        self.drive(|r| r.peek_token())
    }

    fn next_object_entry(&mut self) -> Outcome<Option<String>> {
        self.drive(|r| r.next_object_entry())
    }

    fn skip_value(&mut self) -> Outcome<()> {
        self.drive(|r| r.skip_value())
    }

    fn skip_to_key(&mut self, key: &str) -> Outcome<()> {
        self.drive(|r| r.skip_to_key(key))
    }

    fn skip_object(&mut self) -> Outcome<()> {
        self.drive(|r| r.skip_object())
    }

    fn start_array_item(&mut self) -> Outcome<bool> {
        self.drive(|r| r.start_array_item())
    }

    fn start_object(&mut self) -> Outcome<()> {
        self.drive(|r| r.start_object())
    }

    fn read_string(&mut self) -> Outcome<String> {
        self.drive(|r| r.read_string())
    }

    fn read_nullable_string(&mut self) -> Outcome<Option<String>> {
        self.drive(|r| r.read_nullable_string())
    }

    fn read_boolean(&mut self) -> Outcome<bool> {
        self.drive(|r| r.read_boolean())
    }

    fn read_key(&mut self) -> Outcome<Option<String>> {
        self.drive(|r| r.read_key())
    }

    fn read_number<T>(&mut self) -> Outcome<T>
    where
        T: std::str::FromStr,
        <T as std::str::FromStr>::Err: std::fmt::Debug,
    {
        self.drive(|r| r.read_number(|n: &str| n.parse::<T>().map_err(|e| format!("{e:#?}"))))
    }

    fn deserialize_object(&mut self) -> Outcome<serde_json::Map<String, Value>> {
        self.drive(|r| r.deserialize_object())
    }
}

// Helper to create a reader from a JSON string
fn create_reader(json: &str) -> Stream {
    Stream::of_bytes(json.as_bytes(), 8 * 1024)
}

#[test]
fn test_empty_json_object() {
    let mut reader = create_reader("{}");

    assert_eq!(
        reader.next_token().unwrap(),
        Some(JsonToken::StartObject)
    );
    assert_eq!(
        reader.next_token().unwrap(),
        Some(JsonToken::EndObject)
    );
    assert_eq!(reader.next_token().unwrap(), None);
}

#[test]
fn test_empty_json_array() {
    let mut reader = create_reader("[]");

    assert_eq!(
        reader.next_token().unwrap(),
        Some(JsonToken::StartArray)
    );
    assert_eq!(
        reader.next_token().unwrap(),
        Some(JsonToken::EndArray)
    );
    assert_eq!(reader.next_token().unwrap(), None);
}

#[test]
fn test_simple_key_value_pair() {
    let mut reader = create_reader(r#"{"name": "test"}"#);

    let key = reader.next_object_entry().unwrap().unwrap();
    assert_eq!(key, "name");
    assert_eq!(reader.read_string().unwrap(), "test");

    assert!(reader.next_object_entry().unwrap().is_none());
}

#[test]
fn test_nested_objects() {
    let mut reader = create_reader(r#"{"outer": {"inner": 42}}"#);

    let key = reader.next_object_entry().unwrap().unwrap();
    assert_eq!(key, "outer");

    // The value for 'outer' is a JSON object. We can deserialize it entirely.
    let inner_obj = reader.deserialize_object().unwrap();
    assert_eq!(inner_obj.get("inner").unwrap().as_i64().unwrap(), 42);

    // After deserializing, the next entry should be None (end of outer object).
    assert!(reader.next_object_entry().unwrap().is_none());
}

#[test]
fn test_array_with_values() {
    let mut reader = create_reader(r#"[1, "text", true, null]"#);

    assert_eq!(
        reader.next_token().unwrap(),
        Some(JsonToken::StartArray)
    );
    assert_eq!(
        reader.next_token().unwrap(),
        Some(JsonToken::Number("1".to_string()))
    );
    assert_eq!(
        reader.next_token().unwrap(),
        Some(JsonToken::EndObjectOrListItem)
    );
    assert_eq!(
        reader.next_token().unwrap(),
        Some(JsonToken::String("text".to_string()))
    );
    assert_eq!(
        reader.next_token().unwrap(),
        Some(JsonToken::EndObjectOrListItem)
    );
    assert_eq!(
        reader.next_token().unwrap(),
        Some(JsonToken::Boolean(true))
    );
    assert_eq!(
        reader.next_token().unwrap(),
        Some(JsonToken::EndObjectOrListItem)
    );
    assert_eq!(reader.next_token().unwrap(), Some(JsonToken::Null));
    assert_eq!(
        reader.next_token().unwrap(),
        Some(JsonToken::EndArray)
    );
    assert_eq!(reader.next_token().unwrap(), None);
}

#[test]
fn test_next_object_entry_skip_value() {
    let mut reader = create_reader(r#"{"a": 1, "b": {"foo": "bar"}, "c": 3}"#);

    // Read a
    let key = reader.next_object_entry().unwrap().unwrap();
    assert_eq!(key, "a");
    assert_eq!(reader.read_number::<i32>().unwrap(), 1);

    // Skip b by not reading it and just calling next_entry again
    let key = reader.next_object_entry().unwrap().unwrap();
    assert_eq!(key, "b");
    // We don't read the value of "b", next_entry() will skip it.

    // Read c
    let key = reader.next_object_entry().unwrap().unwrap();
    assert_eq!(key, "c");
    assert_eq!(reader.read_number::<i32>().unwrap(), 3);

    assert!(reader.next_object_entry().unwrap().is_none());
}

#[test]
fn test_skip_value_object() {
    let mut reader = create_reader(r#"{"name": {"first": "John", "last": "Doe"}, "age": 30}"#);

    let key = reader.next_object_entry().unwrap().unwrap();
    assert_eq!(key, "name");

    // Skip the entire nested object for "name" by calling skip_object
    reader.skip_object().unwrap();

    let key = reader.next_object_entry().unwrap().unwrap();
    assert_eq!(key, "age");
    assert_eq!(reader.read_number::<i32>().unwrap(), 30);
}

#[test]
fn test_read_methods() {
    let mut reader = create_reader(
        r#"{"str": "hello", "num": 42, "float": 1.337, "exp": -1.24e+10, "bool": true}"#,
    );

    let key = reader.next_object_entry().unwrap().unwrap();
    assert_eq!(key, "str");
    assert_eq!(reader.read_string().unwrap(), "hello");

    let key = reader.next_object_entry().unwrap().unwrap();
    assert_eq!(key, "num");
    assert_eq!(reader.read_number::<i64>().unwrap(), 42);

    let key = reader.next_object_entry().unwrap().unwrap();
    assert_eq!(key, "float");
    assert_eq!(reader.read_number::<f64>().unwrap(), 1.337_f64);

    let key = reader.next_object_entry().unwrap().unwrap();
    assert_eq!(key, "exp");
    assert_eq!(reader.read_number::<f64>().unwrap(), -1.24e+10);

    let key = reader.next_object_entry().unwrap().unwrap();
    assert_eq!(key, "bool");
    assert!(reader.read_boolean().unwrap());

    // No more keys
    assert!(reader.next_object_entry().unwrap().is_none());
}

#[test]
fn test_read_nullable_string_null_resets_state() {
    let mut reader = create_reader(r#"{"a": null, "b": "ok"}"#);

    let key = reader.next_object_entry().unwrap().unwrap();
    assert_eq!(key, "a");
    assert!(reader.read_nullable_string().unwrap().is_none());

    let key = reader.next_object_entry().unwrap().unwrap();
    assert_eq!(key, "b");
    assert_eq!(reader.read_string().unwrap(), "ok");

    assert!(reader.next_object_entry().unwrap().is_none());
}

#[test]
fn test_skip_to_key_ignores_nested_keys() {
    let mut reader = create_reader(r#"{"outer":{"id":1},"id":2,"tail":3}"#);

    reader.skip_to_key("id").unwrap();
    assert_eq!(reader.read_number::<i32>().unwrap(), 2);

    let key = reader.next_object_entry().unwrap().unwrap();
    assert_eq!(key, "tail");
    assert_eq!(reader.read_number::<i32>().unwrap(), 3);
}

#[test]
fn test_skip_value_errors_on_unexpected_eof() {
    let mut reader = create_reader(r#"{"a":{"b":1"#);

    let key = reader.next_object_entry().unwrap().unwrap();
    assert_eq!(key, "a");

    let err = reader.next_object_entry().unwrap_err();
    match err {
        AsyncJsonStreamReaderError::JsonError { error, .. } => {
            assert!(error.contains("Unexpected EOF while skipping value"));
        }
        _ => panic!("Expected JsonError for unexpected EOF"),
    }
}

#[test]
fn test_fill_buffer_invariant_error() {
    let mut reader = AsyncJsonStreamReader::new();
    assert!(reader.fill_buffer(b"{}").unwrap());

    let err = reader.fill_buffer(b"{}").unwrap_err();
    match err {
        AsyncJsonStreamReaderError::InternalState { message } => {
            assert!(message.contains("unconsumed buffer"));
        }
        _ => panic!("Expected InternalState error"),
    }
}

#[test]
fn test_error_handling() {
    // Test invalid JSON
    let mut reader = create_reader(r#"{"missing_quote: 42}"#);
    assert!(reader.next_token().is_ok());
    assert!(reader.next_token().is_err());
}

#[test]
fn test_user_example_scenario() {
    let json = r#"{"status":"success","blah":1234,"results":[{"name":"John","age":30},{"name":"Jane","age":25}]}"#;
    let mut reader = create_reader(json);

    let mut status = None;
    let mut results = Vec::new();

    while let Some(key) = reader.next_object_entry().unwrap() {
        match key.as_str() {
            "status" => {
                status = Some(reader.read_string().unwrap());
            }
            "results" => {
                while reader.start_array_item().unwrap() {
                    let obj = reader.deserialize_object().unwrap();
                    results.push(obj);
                }
            }
            "blah" => {
                // By not reading the value, we are testing that `next_entry` will
                // correctly skip it before reading the next key.
            }
            _ => panic!("Unexpected key"),
        }
    }

    assert_eq!(status, Some("success".to_string()));
    assert_eq!(results.len(), 2);

    let john = &results[0];
    assert_eq!(john.get("name").unwrap().as_str().unwrap(), "John");
    assert_eq!(john.get("age").unwrap().as_i64().unwrap(), 30);

    let jane = &results[1];
    assert_eq!(jane.get("name").unwrap().as_str().unwrap(), "Jane");
    assert_eq!(jane.get("age").unwrap().as_i64().unwrap(), 25);
}

#[test]
fn test_empty_array_in_object() {
    let json = r#"{"status":"success","data":[],"count":0}"#;
    let mut reader = create_reader(json);

    let mut status = None;
    let mut data_items_count = 0;
    let mut count = None;

    while let Some(key) = reader.next_object_entry().unwrap() {
        match key.as_str() {
            "status" => {
                status = Some(reader.read_string().unwrap());
            }
            "data" => {
                while reader.start_array_item().unwrap() {
                    data_items_count += 1;
                    let _ = reader.deserialize_object().unwrap();
                }
            }
            "count" => {
                count = Some(reader.read_number::<i32>().unwrap());
            }
            _ => panic!("Unexpected key"),
        }
    }

    assert_eq!(status, Some("success".to_string()));
    assert_eq!(data_items_count, 0); // Empty array should not iterate
    assert_eq!(count, Some(0));
}

#[test]
fn test_deserialize_large_object() {
    // This test confirms that deserialize_object can now handle objects
    // larger than the internal buffer thanks to the buffer growth logic.
    let long_string = "a".repeat(8 * 1024);
    let key_string = "long_key";
    let large_object_json =
        format!(r#"{{"key": "value", "{}": "{}"}}"#, key_string, long_string);
    let full_json = format!(r#"{{"results": [{}]}}"#, large_object_json);

    let mut reader = create_reader(&full_json);

    let key = reader.next_object_entry().unwrap().unwrap();
    assert_eq!(key, "results");

    // --- First object ---
    assert!(reader.start_array_item().unwrap());
    let obj1 = reader.deserialize_object().unwrap();
    assert_eq!(obj1.get("key").unwrap().as_str().unwrap(), "value");
    assert_eq!(obj1.get(key_string).unwrap().as_str().unwrap(), long_string);

    // End of array
    assert!(!reader.start_array_item().unwrap());

    // End of main object
    assert!(reader.next_object_entry().unwrap().is_none());
}

#[test]
fn test_key_crosses_chunk_boundary() {
    // Simulate the key ending at the very end of one chunk with the ':' in the next chunk.
    let part1 = b"{\"foo\"".to_vec();
    let part2 = b": \"bar\"}".to_vec();

    let mut reader = Stream::of_chunks(vec![part1, part2]);

    let key = reader.next_object_entry().unwrap().unwrap();
    assert_eq!(key, "foo");
    let value = reader.read_string().unwrap();
    assert_eq!(value, "bar");

    assert!(reader.next_object_entry().unwrap().is_none());
}

fn generate_large_json(num_entries: usize) -> String {
    let mut results = Vec::with_capacity(num_entries);
    for i in 0..num_entries {
        results.push(format!(
            r#"{{"id": {}, "name": "name_{}", "extra_data": "some_long_string_to_ignore_{}", "value": {}, "is_active": {}}}"#,
            i,
            i,
            "x".repeat(100), // Filler data to be skipped
            i as f64 * 1.1,
            if i % 2 == 0 { "true" } else { "false" }
        ));
    }
    format!(
        r#"{{"status":"success","useless_data": "{}","results":[{}]}}"#,
        "y".repeat(1024), // More filler data
        results.join(",")
    )
}

#[test]
fn performance_test_very_large_json_selective_parsing() {
    let num_entries: usize = 500_000; // ~112MB JSON
    let json_data = generate_large_json(num_entries);

    let mut reader = create_reader(&json_data);
    let mut found_ids = Vec::with_capacity(num_entries);

    while let Some(key) = reader.next_object_entry().unwrap() {
        if key == "results" {
            while reader.start_array_item().unwrap() {
                reader.start_object().unwrap();
                let mut id = None;
                while let Some(inner_key) = reader.read_key().unwrap() {
                    if inner_key == "id" {
                        id = Some(reader.read_number::<u64>().unwrap());
                    } else {
                        reader.skip_value().unwrap();
                    }
                }
                if let Some(id_val) = id {
                    found_ids.push(id_val);
                }
            }
        }
    }
    assert_eq!(found_ids.len(), num_entries);
    assert!(found_ids.iter().enumerate().all(|(i, id)| i as u64 == *id));
}

#[test]
fn test_string_with_escapes() {
    let json = r#"{"key": "hello\nworld\t\"escaped quote\\final backslash\u0041BC"}"#;
    let mut reader = create_reader(json);

    let key = reader.next_object_entry().unwrap().unwrap();
    assert_eq!(key, "key");

    let expected_string = "hello\nworld\t\"escaped quote\\final backslashABC";
    let parsed_string = reader.read_string().unwrap();

    assert_eq!(parsed_string, expected_string);
}

#[test]
fn test_complex_json_correctness_vs_serde() {
    let complex_json = r#"
    {
        "string_key": "value",
        "int_key": 123,
        "float_key": -45.67,
        "scientific_notation": 1.23e-4,
        "bool_true": true,
        "bool_false": false,
        "null_key": null,
        "empty_string": "",
        "whitespace_string": "   \n\t   ",
        "escaped_string": "line1\nline2\tline3\"quote\\slash/",
        "unicode_string": "Alpha: \u03b1, Smiley: \uD83D\uDE00",
        "empty_object": {},
        "empty_array": [],
        "nested_object": {
            "a": 1,
            "b": "two",
            "c": [true, false, null]
        },
        "array_of_objects": [
            {"id": 1, "tags": ["A", "B"]},
            {"id": 2, "tags": ["C"]},
            {}
        ],
        "array_with_mixed_types": [
            "string",
            100,
            -1.1,
            true,
            null,
            {},
            []
        ],
        "key with spaces and symbols!@#$%^&*()": "value for complex key"
    }
    "#;

    // Use our stream reader. Note that deserialize_object itself uses next_token()
    // repeatedly, so this is an excellent integration test for the tokenizing logic.
    let mut reader = create_reader(complex_json);
    let our_result = reader.deserialize_object().unwrap();

    // Use serde_json as the ground truth
    let serde_result: Value = serde_json::from_str(complex_json).unwrap();
    let serde_map = serde_result.as_object().unwrap();

    assert_eq!(our_result, *serde_map);
}

#[test]
fn test_deeply_nested_object() {
    let mut json = "{\"key\": ".to_string();
    let depth = 50;
    for _ in 0..depth {
        json.push_str("{\"a\":");
    }
    json.push_str("42");
    for _ in 0..depth {
        json.push('}');
    }
    json.push('}');

    let mut reader = create_reader(&json);

    let key = reader.next_object_entry().unwrap().unwrap();
    assert_eq!(key, "key");

    // Deserialize the deeply nested object
    let obj = reader.deserialize_object().unwrap();

    // Verify some part of it
    let mut current = obj.get("a").unwrap();
    for _ in 0..depth - 1 {
        current = current.as_object().unwrap().get("a").unwrap();
    }
    assert_eq!(current.as_i64().unwrap(), 42);

    // Ensure we are at the end of the stream
    assert!(reader.next_object_entry().unwrap().is_none());
}

#[test]
fn test_invalid_unicode_hex_error() {
    let json = r#"{"key": "\u123G"}"#; // 'G' is not a valid hex digit
    let mut reader = create_reader(json);

    let key = reader.next_object_entry().unwrap().unwrap();
    assert_eq!(key, "key");

    let result = reader.read_string();

    assert!(matches!(
        result,
        Err(AsyncJsonStreamReaderError::JsonError { error, .. }) if error.contains("Invalid hex value in unicode escape sequence")
    ));
}

#[test]
fn test_number_parsing() {
    // Helper to check for a successfully parsed number
    fn expect_number(json: &str, expected_num_str: &str) {
        let mut reader = create_reader(json);
        assert!(matches!(
            reader.next_token().unwrap(),
            Some(JsonToken::Number(s)) if s == expected_num_str
        ));
        // Ensure no trailing tokens
        assert!(matches!(reader.next_token().unwrap(), None));
    }

    // Helper to check for a parse failure on the first token
    fn expect_error_on_first_token(json: &str, expected_error_part: &str) {
        let mut reader = create_reader(json);
        let result = reader.next_token();
        assert!(matches!(
            result,
            Err(e) if format!("{:?}", e).contains(expected_error_part)
        ));
    }

    // --- Valid integers ---
    expect_number("0", "0");
    expect_number("123", "123");
    expect_number("-123", "-123");
    expect_number("-0", "-0"); // Allowed by JSON spec, often read as 0.

    // --- Valid floats ---
    expect_number("0.123", "0.123");
    expect_number("-0.123", "-0.123");
    expect_number("123.456", "123.456");

    // --- Valid scientific notation ---
    expect_number("1e10", "1e10");
    expect_number("1E10", "1E10");
    expect_number("1e+10", "1e+10");
    expect_number("1e-10", "1e-10");
    expect_number("1.23e+10", "1.23e+10");
    expect_number("-1.23e-10", "-1.23e-10");
    expect_number("0e0", "0e0");

    // --- Invalid numbers (spec violations) ---
    expect_error_on_first_token("01", "leading zeros are not allowed");
    expect_error_on_first_token("-01", "leading zeros are not allowed");
    expect_error_on_first_token("1.", "unexpected EOF after decimal point");
    expect_error_on_first_token("1.e10", "Invalid character after decimal point");
    expect_error_on_first_token("1e", "unexpected EOF after exponent");
    expect_error_on_first_token("1E+", "unexpected EOF after exponent");
    expect_error_on_first_token("-", "InvalidNumber");
    expect_error_on_first_token("--1", "InvalidNumber"); // Parses first '-', then errors.
}

#[test]
fn test_invalid_number_sequence() {
    let mut reader = create_reader("1.2.3");
    assert!(matches!(reader.next_token().unwrap(), Some(JsonToken::Number(s)) if s == "1.2"));
    assert!(matches!(reader.next_token(), Err(AsyncJsonStreamReaderError::JsonError { error, .. }) if error.contains("Unexpected JSON character: .")));

    let mut reader = create_reader("1a");
    assert!(matches!(reader.next_token().unwrap(), Some(JsonToken::Number(s)) if s == "1"));
    assert!(matches!(reader.next_token(), Err(AsyncJsonStreamReaderError::JsonError { error, .. }) if error.contains("Unexpected JSON character: a")));
}

#[test]
fn test_number_crosses_chunk_boundary() {
    fn check_number_boundary(part1: &str, part2: &str, expected: &str) {
        let mut reader = Stream::of_chunks(vec![
            part1.as_bytes().to_vec(),
            part2.as_bytes().to_vec(),
        ]);

        assert!(matches!(
            reader.next_token().unwrap(),
            Some(JsonToken::Number(s)) if s == expected
        ));
    }

    check_number_boundary("-", "123", "-123");
    check_number_boundary("123", ".456", "123.456");
    check_number_boundary("123.", "456", "123.456");
    check_number_boundary("123.456", "e10", "123.456e10");
    check_number_boundary("123.456e", "+10", "123.456e+10");
    check_number_boundary("123.456e+", "10", "123.456e+10");
}
