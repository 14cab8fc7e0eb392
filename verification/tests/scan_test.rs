#![allow(unused_mut, dead_code, unused_variables)]
use scan_json::io::{SliceReader, VecWriter};
use scan_json::matcher::{iter_match, StreamOp, StructuralPseudoname};
use scan_json::rjiter::RJiter;
use scan_json::scan::{scan, Options, ScanActions, ScanChoices, ScanEvent};
use scan_json::scan_error::Error as ScanError;
use scan_json::stack::ContextIter;
use scan_json::tokenizer::{NumberInt, Peeked};
use scan_json::U8Pool;

type FindFn = Box<dyn Fn(StructuralPseudoname, ContextIter<'_>) -> Option<usize>>;
type BeginFn<'r, S> = Box<dyn Fn(&mut RJiter<'_, SliceReader<'r>>, &mut S) -> StreamOp>;
type EndFn<S> = Box<dyn Fn(&mut S) -> Result<(), &'static str>>;

/// Actions given as closures: `find` and `find_end` choose a closure by its index.
struct Actions<'r, S> {
    state: S,
    find: FindFn,
    find_end: FindFn,
    begin: Vec<BeginFn<'r, S>>,
    end: Vec<EndFn<S>>,
}

impl<'r, S> Actions<'r, S> {
    fn new(state: S) -> Self {
        Actions {
            state,
            find: Box::new(|_, _| None),
            find_end: Box::new(|_, _| None),
            begin: Vec::new(),
            end: Vec::new(),
        }
    }
}

impl<'r, S> ScanChoices for Actions<'r, S> {
    type Action = usize;
    type EndAction = usize;

    // The record of calls exists only for the verifier; the tests never read it.
    fn log(&self) -> vstd::seq::Seq<ScanEvent> {
        unreachable!()
    }

    fn find_action(&mut self, kind: StructuralPseudoname, context: ContextIter<'_>) -> Option<usize> {
        (self.find)(kind, context)
    }

    fn find_end_action(
        &mut self,
        kind: StructuralPseudoname,
        context: ContextIter<'_>,
    ) -> Option<usize> {
        (self.find_end)(kind, context)
    }

    fn call_end_action(&mut self, action: usize) -> Result<(), &'static str> {
        (self.end[action])(&mut self.state)
    }
}

impl<'r, S> ScanActions<SliceReader<'r>> for Actions<'r, S> {
    fn call_action(&mut self, action: usize, rjiter: &mut RJiter<'_, SliceReader<'r>>) -> StreamOp {
        (self.begin[action])(rjiter, &mut self.state)
    }
}

/// Whether the innermost context name is `name`, for a key event.
fn key_is(kind: StructuralPseudoname, context: ContextIter<'_>, name: &[u8]) -> bool {
    if kind == StructuralPseudoname::Key {
        let mut context = context;
        match context.next() {
            Some(key) => key == name,
            None => false,
        }
    } else {
        false
    }
}

/// The tokenizer's name for a peeked byte.
fn peek_name(peek: Peeked) -> String {
    if peek == Peeked::null() {
        "Null".to_string()
    } else if peek == Peeked::true_value() {
        "True".to_string()
    } else if peek == Peeked::false_value() {
        "False".to_string()
    } else if peek == Peeked::string() {
        "String".to_string()
    } else if peek == Peeked::array() {
        "Array".to_string()
    } else if peek == Peeked::object() {
        "Object".to_string()
    } else {
        format!("Peek({:?})", peek.into_inner() as char)
    }
}

fn write_matched<'r>(rjiter: &mut RJiter<'_, SliceReader<'r>>, writer: &mut VecWriter) -> StreamOp {
    let peek = rjiter.peek().unwrap();
    writer
        .bytes
        .extend_from_slice(format!("(matched {})", peek_name(peek)).as_bytes());
    StreamOp::Continue
}

fn scan_without_actions(json: &[u8], buffer_len: usize) {
    let mut reader = SliceReader::new(json);
    let mut buffer = vec![0u8; buffer_len];
    let mut rjiter = RJiter::new(&mut reader, &mut buffer);
    let mut scan_buffer = [0u8; 512];
    let mut scan_stack = U8Pool::new(&mut scan_buffer, 20).unwrap();

    let mut actions = Actions::new(());
    scan(&mut actions, &mut rjiter, &mut scan_stack, &Options::new()).unwrap();
}

#[test]
fn test_scan_json_empty_input() {
    scan_without_actions(b"", 16);
}

#[test]
fn test_scan_json_top_level_types() {
    let json = r#"null true false 42 3.14 "hello" [] {}"#;
    scan_without_actions(json.as_bytes(), 16);
}

#[test]
fn test_scan_json_simple_object() {
    let json = r#"{"null": null, "bool": true, "num": 42, "float": 3.14, "str": "hello"}"#;
    scan_without_actions(json.as_bytes(), 16);
}

#[test]
fn test_scan_json_simple_array() {
    let json = r#"[null, true, false, 42, 3.14, "hello"]"#;
    scan_without_actions(json.as_bytes(), 16);
}

#[test]
fn test_scan_json_nested_complex() {
    let json = r#"{
        "array_of_objects": [
            {"name": "obj1", "values": [1, 2, 3]},
            {"name": "obj2", "nested": {"x": 10, "y": 20}}
        ],
        "object_with_arrays": {
            "nums": [1, 2, [3, 4, [5, 6]], 7],
            "mixed": [
                {"a": 1},
                [true, false],
                {"b": ["hello", "world"]},
                42
            ]
        },
        "deep_nesting": {
            "level1": {
                "level2": [
                    {"level3": {"value": [1, {"final": "deepest"}]}}
                ]
            }
        }
    }"#;
    scan_without_actions(json.as_bytes(), 64);
}

#[test]
fn skip_long_string() {
    let json = format!(r#"{{"foo": "{}", "bar": "baz"}}"#, "a".repeat(100));
    scan_without_actions(json.as_bytes(), 8);
}

#[test]
fn test_skip_sse_tokens() {
    let json = r#"data: {"foo": "bar"} [DONE] "#;
    let mut reader = SliceReader::new(json.as_bytes());
    let mut buffer = vec![0u8; 16];
    let mut rjiter = RJiter::new(&mut reader, &mut buffer);
    let mut scan_buffer = [0u8; 512];
    let mut scan_stack = U8Pool::new(&mut scan_buffer, 20).unwrap();

    let sse_tokens: &[&[u8]] = &[b"data:", b"DONE"];
    let options = Options::with_sse_tokens(sse_tokens);

    let mut actions = Actions::new(());
    scan(&mut actions, &mut rjiter, &mut scan_stack, &options).unwrap();
}

#[test]
fn test_call_begin_dont_touch_value() {
    let json = r#"{"foo": "bar", "baz": "qux"}"#;
    let mut reader = SliceReader::new(json.as_bytes());
    let mut buffer = vec![0u8; 16];
    let mut rjiter = RJiter::new(&mut reader, &mut buffer);
    let mut scan_buffer = [0u8; 512];
    let mut scan_stack = U8Pool::new(&mut scan_buffer, 20).unwrap();

    let mut actions = Actions::new(false);
    actions.begin.push(Box::new(|_, state: &mut bool| {
        *state = true;
        StreamOp::Continue
    }));
    actions.find = Box::new(|kind, context| if key_is(kind, context, b"foo") { Some(0) } else { None });

    scan(&mut actions, &mut rjiter, &mut scan_stack, &Options::new()).unwrap();
    assert!(actions.state, "Trigger should have been called for 'foo'");
}

#[test]
fn test_call_begin_consume_value() {
    let json = r#"{"foo": "bar", "baz": "qux"}"#;
    let mut reader = SliceReader::new(json.as_bytes());
    let mut buffer = vec![0u8; 16];
    let mut rjiter = RJiter::new(&mut reader, &mut buffer);
    let mut scan_buffer = [0u8; 512];
    let mut scan_stack = U8Pool::new(&mut scan_buffer, 20).unwrap();

    let mut actions = Actions::new(false);
    actions.begin.push(Box::new(|rjiter, state: &mut bool| {
        rjiter.next_skip().unwrap();
        *state = true;
        StreamOp::ValueIsConsumed
    }));
    actions.find = Box::new(|kind, context| if key_is(kind, context, b"foo") { Some(0) } else { None });

    scan(&mut actions, &mut rjiter, &mut scan_stack, &Options::new()).unwrap();
    assert!(actions.state, "Trigger should have been called for 'foo'");
}

#[test]
fn test_call_end() {
    let json = r#"{"aa": "bb",
        "foo": {"foo is an object": true, "foo": "nested foo, string"},
        "foo": "string",
        "foo": ["foo is an array"],
        "foo": 42,
        "foo": true,
        "foo": null
    }"#;
    let mut reader = SliceReader::new(json.as_bytes());
    let mut buffer = vec![0u8; 32];
    let mut rjiter = RJiter::new(&mut reader, &mut buffer);
    let mut scan_buffer = [0u8; 512];
    let mut scan_stack = U8Pool::new(&mut scan_buffer, 20).unwrap();

    let mut actions = Actions::new(0i32);
    actions.end.push(Box::new(|state: &mut i32| {
        *state += 1;
        Ok(())
    }));
    actions.find_end =
        Box::new(|kind, context| if key_is(kind, context, b"foo") { Some(0) } else { None });

    scan(&mut actions, &mut rjiter, &mut scan_stack, &Options::new()).unwrap();
    assert_eq!(
        actions.state, 7,
        "Trigger should have been called for end-of-'foo' 7 times"
    );
}

#[test]
fn notify_for_top_level_object() {
    let json = r#"{}"#;
    let mut reader = SliceReader::new(json.as_bytes());
    let mut buffer = vec![0u8; 16];
    let mut rjiter = RJiter::new(&mut reader, &mut buffer);
    let mut scan_buffer = [0u8; 512];
    let mut scan_stack = U8Pool::new(&mut scan_buffer, 20).unwrap();

    let mut actions = Actions::new((false, false)); // (begin_called, end_called)
    actions.begin.push(Box::new(|_, state: &mut (bool, bool)| {
        state.0 = true;
        StreamOp::Continue
    }));
    actions.end.push(Box::new(|state: &mut (bool, bool)| {
        state.1 = true;
        Ok(())
    }));
    actions.find = Box::new(|kind, context| {
        if iter_match(&[b"#object", b"#top"], kind, context) { Some(0) } else { None }
    });
    actions.find_end = Box::new(|kind, context| {
        if iter_match(&[b"#object", b"#top"], kind, context) { Some(0) } else { None }
    });

    scan(&mut actions, &mut rjiter, &mut scan_stack, &Options::new()).unwrap();

    let final_state = actions.state;
    assert!(final_state.0, "Begin trigger should have been called");
    assert!(final_state.1, "End trigger should have been called");
}

#[test]
fn notify_for_object_in_array() {
    let json = r#"[{}, {}, {}]"#;
    let mut reader = SliceReader::new(json.as_bytes());
    let mut buffer = vec![0u8; 16];
    let mut rjiter = RJiter::new(&mut reader, &mut buffer);
    let mut scan_buffer = [0u8; 512];
    let mut scan_stack = U8Pool::new(&mut scan_buffer, 20).unwrap();

    let mut actions = Actions::new((0i32, 0i32)); // (begin_called, end_called)
    actions.begin.push(Box::new(|_, state: &mut (i32, i32)| {
        state.0 += 1;
        StreamOp::Continue
    }));
    actions.end.push(Box::new(|state: &mut (i32, i32)| {
        state.1 += 1;
        Ok(())
    }));
    actions.find = Box::new(|kind, context| {
        if iter_match(&[b"#object", b"#array", b"#top"], kind, context) { Some(0) } else { None }
    });
    actions.find_end = Box::new(|kind, context| {
        if iter_match(&[b"#object", b"#array", b"#top"], kind, context) { Some(0) } else { None }
    });

    scan(&mut actions, &mut rjiter, &mut scan_stack, &Options::new()).unwrap();

    let final_state = actions.state;
    assert_eq!(final_state.0, 3, "Begin trigger should have been called 3 times");
    assert_eq!(final_state.1, 3, "End trigger should have been called 3 times");
}

#[test]
fn notify_for_array() {
    let json = r#"{"items": [1, 2, 3]}"#;
    let mut reader = SliceReader::new(json.as_bytes());
    let mut buffer = vec![0u8; 16];
    let mut rjiter = RJiter::new(&mut reader, &mut buffer);
    let mut scan_buffer = [0u8; 512];
    let mut scan_stack = U8Pool::new(&mut scan_buffer, 20).unwrap();

    let mut actions = Actions::new((false, false)); // (begin_called, end_called)
    actions.begin.push(Box::new(|_, state: &mut (bool, bool)| {
        state.0 = true;
        StreamOp::Continue
    }));
    actions.end.push(Box::new(|state: &mut (bool, bool)| {
        state.1 = true;
        Ok(())
    }));
    actions.find = Box::new(|kind, context| {
        if iter_match(&[b"#array", b"items", b"#top"], kind, context) { Some(0) } else { None }
    });
    actions.find_end = Box::new(|kind, context| {
        if iter_match(&[b"#array", b"items", b"#top"], kind, context) { Some(0) } else { None }
    });

    scan(&mut actions, &mut rjiter, &mut scan_stack, &Options::new()).unwrap();

    let final_state = actions.state;
    assert!(final_state.0, "Begin trigger should have been called");
    assert!(final_state.1, "End trigger should have been called");
}

#[test]
fn several_arrays_top_level() {
    let json = r#"[1,2,3]  [4,5,6]  [7,8,9]"#;
    let mut reader = SliceReader::new(json.as_bytes());
    let mut buffer = vec![0u8; 16];
    let mut rjiter = RJiter::new(&mut reader, &mut buffer);
    let mut scan_buffer = [0u8; 512];
    let mut scan_stack = U8Pool::new(&mut scan_buffer, 20).unwrap();

    let mut actions = Actions::new(VecWriter::new());
    actions.begin.push(Box::new(|_, writer: &mut VecWriter| {
        writer.bytes.extend_from_slice(b"<array>");
        StreamOp::Continue
    }));
    actions.end.push(Box::new(|writer: &mut VecWriter| {
        writer.bytes.extend_from_slice(b"</array>");
        Ok(())
    }));
    actions.find = Box::new(|kind, context| {
        if iter_match(&[b"#array", b"#top"], kind, context) { Some(0) } else { None }
    });
    actions.find_end = Box::new(|kind, context| {
        if iter_match(&[b"#array", b"#top"], kind, context) { Some(0) } else { None }
    });

    scan(&mut actions, &mut rjiter, &mut scan_stack, &Options::new()).unwrap();

    assert_eq!(
        String::from_utf8(actions.state.bytes).unwrap(),
        "<array></array><array></array><array></array>"
    );
}

#[test]
fn max_nesting_array() {
    let json = "[".repeat(10); // Smaller depth for the test
    let mut reader = SliceReader::new(json.as_bytes());
    let mut buffer = vec![0u8; 16];
    let mut rjiter = RJiter::new(&mut reader, &mut buffer);
    let mut scan_buffer = [0u8; 64];
    let mut scan_stack = U8Pool::new(&mut scan_buffer, 3).unwrap();

    let mut actions = Actions::new(());
    let result = scan(&mut actions, &mut rjiter, &mut scan_stack, &Options::new());
    let e = result.unwrap_err();
    assert_eq!(e, ScanError::MaxNestingExceeded { position: 2, level: 3 });
}

#[test]
fn max_nesting_object() {
    let json = "{\"a\":".repeat(10);
    let mut reader = SliceReader::new(json.as_bytes());
    let mut buffer = vec![0u8; 16];
    let mut rjiter = RJiter::new(&mut reader, &mut buffer);
    let mut scan_buffer = [0u8; 64];
    let mut scan_stack = U8Pool::new(&mut scan_buffer, 3).unwrap();

    let mut actions = Actions::new(());
    let result = scan(&mut actions, &mut rjiter, &mut scan_stack, &Options::new());
    let e = result.unwrap_err();
    assert_eq!(e, ScanError::MaxNestingExceeded { position: 15, level: 3 });
}

#[test]
fn error_in_begin_action() {
    let json = r#"{"foo": 123}"#;
    let mut reader = SliceReader::new(json.as_bytes());
    let mut buffer = vec![0u8; 16];
    let mut rjiter = RJiter::new(&mut reader, &mut buffer);
    let mut scan_buffer = [0u8; 64];
    let mut scan_stack = U8Pool::new(&mut scan_buffer, 3).unwrap();

    let mut actions = Actions::new(());
    actions
        .begin
        .push(Box::new(|_, _: &mut ()| StreamOp::Error("Test error in begin-action")));
    actions.find = Box::new(|kind, context| {
        if iter_match(&[b"foo", b"#top"], kind, context) { Some(0) } else { None }
    });

    let result = scan(&mut actions, &mut rjiter, &mut scan_stack, &Options::new());

    let err = result.unwrap_err();
    assert_eq!(
        err,
        ScanError::ActionError { message: "Test error in begin-action", position: 7 }
    );
}

#[test]
fn error_in_end_action() {
    let json = r#"{"foo": 123}"#;
    let mut reader = SliceReader::new(json.as_bytes());
    let mut buffer = vec![0u8; 16];
    let mut rjiter = RJiter::new(&mut reader, &mut buffer);
    let mut scan_buffer = [0u8; 512];
    let mut scan_stack = U8Pool::new(&mut scan_buffer, 20).unwrap();

    let mut actions = Actions::new(());
    actions.end.push(Box::new(|_: &mut ()| Err("Test error in end-action")));
    actions.find_end = Box::new(|kind, context| {
        if iter_match(&[b"foo", b"#top"], kind, context) { Some(0) } else { None }
    });

    let result = scan(&mut actions, &mut rjiter, &mut scan_stack, &Options::new());

    let err = result.unwrap_err();
    assert_eq!(
        err,
        ScanError::ActionError { message: "Test error in end-action", position: 11 }
    );
}

#[test]
fn several_objects_top_level() {
    let json = r#"{"foo":1}  {"foo":2}  {"foo":3}"#;
    let mut reader = SliceReader::new(json.as_bytes());
    let mut buffer = vec![0u8; 16];
    let mut rjiter = RJiter::new(&mut reader, &mut buffer);
    let mut scan_buffer = [0u8; 512];
    let mut scan_stack = U8Pool::new(&mut scan_buffer, 20).unwrap();

    let mut actions = Actions::new(VecWriter::new());
    actions.begin.push(Box::new(|_, writer: &mut VecWriter| {
        writer.bytes.extend_from_slice(b"<foo>");
        StreamOp::Continue
    }));
    actions.end.push(Box::new(|writer: &mut VecWriter| {
        writer.bytes.extend_from_slice(b"</foo>");
        Ok(())
    }));
    actions.find = Box::new(|kind, context| {
        if iter_match(&[b"foo", b"#top"], kind, context) { Some(0) } else { None }
    });
    actions.find_end = Box::new(|kind, context| {
        if iter_match(&[b"foo", b"#top"], kind, context) { Some(0) } else { None }
    });

    scan(&mut actions, &mut rjiter, &mut scan_stack, &Options::new()).unwrap();

    assert_eq!(actions.state.bytes, b"<foo></foo><foo></foo><foo></foo>");
}

#[test]
fn match_in_array_context() {
    let json = r#"{"items": [{"name": "first"}, {"name": "second"}]}"#;
    let mut reader = SliceReader::new(json.as_bytes());
    let mut buffer = vec![0u8; 16];
    let mut rjiter = RJiter::new(&mut reader, &mut buffer);
    let mut scan_buffer = [0u8; 512];
    let mut scan_stack = U8Pool::new(&mut scan_buffer, 20).unwrap();

    let mut actions = Actions::new(VecWriter::new());
    actions.begin.push(Box::new(|rjiter, writer: &mut VecWriter| {
        let result = rjiter.peek().and_then(|_| rjiter.write_long_bytes(writer));
        match result {
            Ok(_) => StreamOp::ValueIsConsumed,
            Err(_) => StreamOp::Error("write_long_bytes failed"),
        }
    }));
    actions.find = Box::new(|kind, context| {
        if iter_match(&[b"name", b"#array", b"items", b"#top"], kind, context) {
            Some(0)
        } else {
            None
        }
    });

    scan(&mut actions, &mut rjiter, &mut scan_stack, &Options::new()).unwrap();

    assert_eq!(actions.state.bytes, b"firstsecond");
}

#[test]
fn atoms_on_top_level() {
    let json = r#"null true false 42 3.14 "hello""#;
    let mut reader = SliceReader::new(json.as_bytes());
    let mut buffer = vec![0u8; 16];
    let mut rjiter = RJiter::new(&mut reader, &mut buffer);
    let mut scan_buffer = [0u8; 512];
    let mut scan_stack = U8Pool::new(&mut scan_buffer, 20).unwrap();

    let mut actions = Actions::new(VecWriter::new());
    actions.begin.push(Box::new(|rjiter, writer: &mut VecWriter| write_matched(rjiter, writer)));
    actions.find = Box::new(|kind, context| {
        if iter_match(&[b"#atom", b"#top"], kind, context) { Some(0) } else { None }
    });

    let result = scan(&mut actions, &mut rjiter, &mut scan_stack, &Options::new());
    assert!(result.is_ok());

    let message = String::from_utf8(actions.state.bytes).unwrap();
    assert_eq!(
        message,
        "(matched Null)(matched True)(matched False)(matched Peek('4'))(matched Peek('3'))(matched String)"
    );
}

#[test]
fn atoms_in_array() {
    let json = r#"[null, true, false, 42, 3.14, "hello"]"#;
    let mut reader = SliceReader::new(json.as_bytes());
    let mut buffer = vec![0u8; 16];
    let mut rjiter = RJiter::new(&mut reader, &mut buffer);
    let mut scan_buffer = [0u8; 512];
    let mut scan_stack = U8Pool::new(&mut scan_buffer, 20).unwrap();

    let mut actions = Actions::new(VecWriter::new());
    actions.begin.push(Box::new(|rjiter, writer: &mut VecWriter| write_matched(rjiter, writer)));
    actions.find = Box::new(|kind, context| {
        if iter_match(&[b"#atom", b"#array", b"#top"], kind, context) { Some(0) } else { None }
    });

    let result = scan(&mut actions, &mut rjiter, &mut scan_stack, &Options::new());
    assert!(result.is_ok());

    let message = String::from_utf8(actions.state.bytes).unwrap();
    assert_eq!(
        message,
        "(matched Null)(matched True)(matched False)(matched Peek('4'))(matched Peek('3'))(matched String)"
    );
}

#[test]
fn atoms_in_object() {
    let json = r#"{"a": null, "b": true, "c": false, "d": 42, "e": 3.14, "f": "hello"}"#;
    let mut reader = SliceReader::new(json.as_bytes());
    let mut buffer = vec![0u8; 16];
    let mut rjiter = RJiter::new(&mut reader, &mut buffer);
    let mut scan_buffer = [0u8; 512];
    let mut scan_stack = U8Pool::new(&mut scan_buffer, 20).unwrap();

    let mut actions = Actions::new(VecWriter::new());
    actions.begin.push(Box::new(|rjiter, writer: &mut VecWriter| write_matched(rjiter, writer)));
    let fields = vec!['a', 'b', 'c', 'd', 'e', 'f'];
    actions.find = Box::new(move |kind, context| {
        for field in &fields {
            let field_str = field.to_string();
            if iter_match(&[b"#atom", field_str.as_bytes(), b"#top"], kind, context.clone()) {
                return Some(0);
            }
        }
        None
    });

    let result = scan(&mut actions, &mut rjiter, &mut scan_stack, &Options::new());
    assert!(result.is_ok());

    let message = String::from_utf8(actions.state.bytes).unwrap();
    assert_eq!(
        message,
        "(matched Null)(matched True)(matched False)(matched Peek('4'))(matched Peek('3'))(matched String)"
    );
}

#[test]
fn atoms_stream_op_return_values() {
    let json = r#"true false 42 777"#;
    let mut reader = SliceReader::new(json.as_bytes());
    let mut buffer = vec![0u8; 16];
    let mut rjiter = RJiter::new(&mut reader, &mut buffer);
    let mut scan_buffer = [0u8; 512];
    let mut scan_stack = U8Pool::new(&mut scan_buffer, 20).unwrap();

    let mut actions = Actions::new(VecWriter::new());
    actions.begin.push(Box::new(|rjiter, writer: &mut VecWriter| {
        let peeked = rjiter.peek().unwrap();
        if peeked == Peeked::true_value() {
            rjiter.next_bool().unwrap();
            writer.bytes.extend_from_slice(b"consumed,");
            StreamOp::ValueIsConsumed
        } else if peeked == Peeked::false_value() {
            writer.bytes.extend_from_slice(b"not consumed,");
            StreamOp::Continue
        } else {
            writer.bytes.extend_from_slice(b"unexpected,");
            StreamOp::Error("Expected error for the test")
        }
    }));
    actions.find = Box::new(|kind, context| {
        if iter_match(&[b"#atom", b"#top"], kind, context) { Some(0) } else { None }
    });

    let result = scan(&mut actions, &mut rjiter, &mut scan_stack, &Options::new());

    // Check the output
    let message = String::from_utf8(actions.state.bytes.clone()).unwrap();
    assert_eq!(message, "consumed,not consumed,unexpected,");
    assert!(result.is_err());

    // Check that the next value is still 42
    let num = rjiter.next_int().unwrap();
    assert!(matches!(num, NumberInt::Int(42)));
}

fn scan_llm_output(json: &str) -> Vec<u8> {
    let mut reader = SliceReader::new(json.as_bytes());
    let mut buffer = vec![0u8; 32];
    let mut rjiter = RJiter::new(&mut reader, &mut buffer);
    let mut scan_buffer = [0u8; 512];
    let mut scan_stack = U8Pool::new(&mut scan_buffer, 20).unwrap();

    let mut actions = Actions::new(VecWriter::new());
    actions.begin.push(Box::new(|_, writer: &mut VecWriter| {
        writer.bytes.extend_from_slice(b"(new message)\n");
        StreamOp::Continue
    }));
    actions.begin.push(Box::new(|rjiter, writer: &mut VecWriter| {
        let result = rjiter.peek().and_then(|_| rjiter.write_long_bytes(writer));
        match result {
            Ok(_) => StreamOp::ValueIsConsumed,
            Err(_) => StreamOp::Error("write_long_bytes failed"),
        }
    }));
    actions.end.push(Box::new(|writer: &mut VecWriter| {
        writer.bytes.extend_from_slice(b"\n");
        Ok(())
    }));
    actions.find = Box::new(|kind, context| {
        if iter_match(&[b"message"], kind, context.clone()) {
            Some(0)
        } else if iter_match(&[b"content"], kind, context) {
            Some(1)
        } else {
            None
        }
    });
    actions.find_end = Box::new(|kind, context| {
        if iter_match(&[b"message"], kind, context) { Some(0) } else { None }
    });

    let sse_tokens: &[&[u8]] = &[b"data:", b"DONE"];
    scan(
        &mut actions,
        &mut rjiter,
        &mut scan_stack,
        &Options::with_sse_tokens(sse_tokens),
    )
    .unwrap();

    actions.state.bytes
}

#[test]
fn scan_basic_llm_output() {
    let json = r#"{
  "id": "chatcmpl-Ahpq4nZeP9mESaKsCVdmZdK96IrUH",
  "object": "chat.completion",
  "created": 1735010736,
  "model": "gpt-4o-mini-2024-07-18",
  "choices": [
    {
      "index": 0,
      "message": {
        "role": "assistant",
        "content": "Hello! How can I assist you today?",
        "refusal": null
      },
      "logprobs": null,
      "finish_reason": "stop"
    }
  ],
  "usage": {
    "prompt_tokens": 9,
    "completion_tokens": 10,
    "total_tokens": 19,
    "prompt_tokens_details": {
      "cached_tokens": 0,
      "audio_tokens": 0
    },
    "completion_tokens_details": {
      "reasoning_tokens": 0,
      "audio_tokens": 0,
      "accepted_prediction_tokens": 0,
      "rejected_prediction_tokens": 0
    }
  },
  "system_fingerprint": "fp_0aa8d3e20b"
}"#;
    let output = scan_llm_output(json);
    let message = String::from_utf8(output).unwrap();
    assert_eq!(message, "(new message)\nHello! How can I assist you today?\n");
}

#[test]
fn scan_streaming_llm_output() {
    let json = r#"
data: {"choices":[{"index":0,"delta":{"role":"assistant","content":"","refusal":null},"logprobs":null,"finish_reason":null}],"id":"chatcmpl-AgMB1khICnwswjgqIl2X2jr587Nep","object":"chat.completion.chunk","created":1734658387,"model":"gpt-4o-mini-2024-07-18","system_fingerprint":"fp_d02d531b47"}

data: {"choices":[{"index":0,"delta":{"content":"Hello"},"logprobs":null,"finish_reason":null}],"id":"chatcmpl-AgMB1khICnwswjgqIl2X2jr587Nep","object":"chat.completion.chunk","created":1734658387,"model":"gpt-4o-mini-2024-07-18","system_fingerprint":"fp_d02d531b47"}

data: {"choices":[{"index":0,"delta":{"content":"!"},"logprobs":null,"finish_reason":null}],"id":"chatcmpl-AgMB1khICnwswjgqIl2X2jr587Nep","object":"chat.completion.chunk","created":1734658387,"model":"gpt-4o-mini-2024-07-18","system_fingerprint":"fp_d02d531b47"}

data: {"choices":[{"index":0,"delta":{"content":" How"},"logprobs":null,"finish_reason":null}],"id":"chatcmpl-AgMB1khICnwswjgqIl2X2jr587Nep","object":"chat.completion.chunk","created":1734658387,"model":"gpt-4o-mini-2024-07-18","system_fingerprint":"fp_d02d531b47"}

data: {"choices":[{"index":0,"delta":{"content":" can"},"logprobs":null,"finish_reason":null}],"id":"chatcmpl-AgMB1khICnwswjgqIl2X2jr587Nep","object":"chat.completion.chunk","created":1734658387,"model":"gpt-4o-mini-2024-07-18","system_fingerprint":"fp_d02d531b47"}

data: {"choices":[{"index":0,"delta":{"content":" I"},"logprobs":null,"finish_reason":null}],"id":"chatcmpl-AgMB1khICnwswjgqIl2X2jr587Nep","object":"chat.completion.chunk","created":1734658387,"model":"gpt-4o-mini-2024-07-18","system_fingerprint":"fp_d02d531b47"}

data: {"choices":[{"index":0,"delta":{"content":" assist"},"logprobs":null,"finish_reason":null}],"id":"chatcmpl-AgMB1khICnwswjgqIl2X2jr587Nep","object":"chat.completion.chunk","created":1734658387,"model":"gpt-4o-mini-2024-07-18","system_fingerprint":"fp_d02d531b47"}

data: {"choices":[{"index":0,"delta":{"content":" you"},"logprobs":null,"finish_reason":null}],"id":"chatcmpl-AgMB1khICnwswjgqIl2X2jr587Nep","object":"chat.completion.chunk","created":1734658387,"model":"gpt-4o-mini-2024-07-18","system_fingerprint":"fp_d02d531b47"}

data: {"choices":[{"index":0,"delta":{"content":" today"},"logprobs":null,"finish_reason":null}],"id":"chatcmpl-AgMB1khICnwswjgqIl2X2jr587Nep","object":"chat.completion.chunk","created":1734658387,"model":"gpt-4o-mini-2024-07-18","system_fingerprint":"fp_d02d531b47"}

data: {"choices":[{"index":0,"delta":{"content":"?"},"logprobs":null,"finish_reason":null}],"id":"chatcmpl-AgMB1khICnwswjgqIl2X2jr587Nep","object":"chat.completion.chunk","created":1734658387,"model":"gpt-4o-mini-2024-07-18","system_fingerprint":"fp_d02d531b47"}

data: {"choices":[{"index":0,"delta":{},"logprobs":null,"finish_reason":"stop"}],"id":"chatcmpl-AgMB1khICnwswjgqIl2X2jr587Nep","object":"chat.completion.chunk","created":1734658387,"model":"gpt-4o-mini-2024-07-18","system_fingerprint":"fp_d02d531b47"}

data: [DONE]
"#;
    let output = scan_llm_output(json);
    let message = String::from_utf8(output).unwrap();
    assert_eq!(message, "Hello! How can I assist you today?");
}

#[test]
fn stop_early() {
    let input = r#"{} [] {"foo": "bar"} [{}, []] 777 true"#;
    let mut buffer = vec![0u8; 16];

    // Part 1: Process all items when stop_early is false
    {
        let mut reader = SliceReader::new(input.as_bytes());
        let mut rjiter = RJiter::new(&mut reader, &mut buffer);
        let mut scan_buffer = [0u8; 512];
        let mut scan_stack = U8Pool::new(&mut scan_buffer, 20).unwrap();

        let mut actions = Actions::new(());
        scan(&mut actions, &mut rjiter, &mut scan_stack, &Options::new()).unwrap();

        // Verify everything was processed
        rjiter.finish().unwrap();
    }

    // Part 2: Process only first item when stop_early is true
    let mut reader = SliceReader::new(input.as_bytes());
    let mut rjiter = RJiter::new(&mut reader, &mut buffer);
    let mut scan_buffer = [0u8; 512];
    let mut scan_stack = U8Pool::new(&mut scan_buffer, 20).unwrap();

    let mut actions = Actions::new(());
    for _ in 0..4 {
        scan(
            &mut actions,
            &mut rjiter,
            &mut scan_stack,
            &Options { sse_tokens: &[], stop_early: true },
        )
        .unwrap();
    }

    // Verify we can still read the next item, which is 777
    assert_eq!(rjiter.next_int().unwrap(), NumberInt::Int(777));
}
