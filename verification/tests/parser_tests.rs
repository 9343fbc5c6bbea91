use perflite_wasm::frameworks::FrameworkTable;
use perflite_wasm::parser::ErrorParser;
use perflite_wasm::rules::{frame_from_at_sign, frame_from_bracketed};
use perflite_wasm::StackFrame;

fn fields(frame: &StackFrame) -> (String, String, u32, u32) {
    (frame.function_name(), frame.file_name(), frame.line_number(), frame.column_number())
}

fn expect(name: &str, file: &str, line: u32, column: u32) -> (String, String, u32, u32) {
    (name.to_string(), file.to_string(), line, column)
}

fn some(text: &str) -> Option<String> {
    Some(text.to_string())
}

#[test]
fn test_stack_parse() {
    let parser = ErrorParser::new();
    let test_stack = r#"Error: Test error
            at Component (/src/App.js:10:15)
            at Router (/node_modules/react-router/index.js:20:10)"#;

    let result = parser.parse(test_stack);
    assert!(result.contains("App.js:10"));
}

#[test]
fn test_multi_line_stack() {
    let parser = ErrorParser::new();
    let test_stack = r#"Error: Complex error
            at Component (/src/App.js:10:15)
            at Router (/node_modules/react-router/index.js:20:10)
            at Provider (/node_modules/redux/index.js:30:5)"#;

    let result = parser.parse(test_stack);
    assert!(result.contains("App.js:10"));
    assert!(result.contains("react-router/index.js:20"));
    assert!(result.contains("redux/index.js:30"));
}

#[test]
fn test_invalid_stack() {
    let parser = ErrorParser::new();
    let test_stack = "Invalid stack trace format";
    let result = parser.parse(test_stack);
    assert_eq!(result, "");
}

#[test]
fn test_parse() {
    let parser = ErrorParser::new();
    let stack = "Error: test\n at Component (/src/App.js:10:20)";
    let result = parser.parse(stack);
    assert!(result.contains("App.js:10:20"));
}

#[test]
fn test_parse_simd() {
    let parser = ErrorParser::new();
    let stack = "Error: test\n at Component (/src/App.js:10:20)";
    let frames = parser.parse_simd(stack);
    assert!(!frames.is_empty());
    assert_eq!(frames[0].line_number(), 10);
    assert_eq!(frames[0].column_number(), 20);
}

#[test]
fn try_new_gives_a_parser() {
    let parser = ErrorParser::try_new();
    assert!(parser.is_some());
    let frames = parser.unwrap().parse_frames("at f (/a/b.js:1:2)");
    assert_eq!(frames.len(), 1);
}

#[test]
fn bracketed_line_gives_one_frame() {
    let parser = ErrorParser::new();
    let frames = parser.parse_frames("Error: e\n    at f (/a/b.js:10:15)");
    assert_eq!(frames.len(), 1);
    assert_eq!(fields(&frames[0]), expect("f", "/a/b.js", 10, 15));
}

#[test]
fn at_sign_line_gives_one_frame() {
    let parser = ErrorParser::new();
    let frames = parser.parse_frames("f@/a/b.js:20:5");
    assert_eq!(frames.len(), 1);
    assert_eq!(fields(&frames[0]), expect("f", "/a/b.js", 20, 5));
}

#[test]
fn text_without_frames_gives_none() {
    let parser = ErrorParser::new();
    assert!(parser.parse_frames("not a stack trace").is_empty());
    assert!(parser.parse_simd("not a stack trace").is_empty());
    assert_eq!(parser.parse("not a stack trace"), "");
}

#[test]
fn empty_text_gives_nothing() {
    let parser = ErrorParser::new();
    assert!(parser.parse_frames("").is_empty());
    assert!(parser.parse_simd("").is_empty());
    assert_eq!(parser.parse(""), "");
    assert!(parser.match_line("").is_none());
}

#[test]
fn three_conventions_between_garbage_keep_their_order() {
    let parser = ErrorParser::new();
    let trace = "    at f (/a/b.js:10:15)\ngarbage line\ng@http://host/c.js:20:5\nmore garbage\nh@d.js:30:7";
    let frames = parser.parse_frames(trace);
    assert_eq!(frames.len(), 3);
    assert_eq!(fields(&frames[0]), expect("f", "/a/b.js", 10, 15));
    assert_eq!(fields(&frames[1]), expect("g", "http://host/c.js", 20, 5));
    assert_eq!(fields(&frames[2]), expect("h", "d.js", 30, 7));
}

#[test]
fn frames_follow_the_lines_and_are_not_merged() {
    let parser = ErrorParser::new();
    let trace = "at b (y.js:2:2)\nat a (x.js:1:1)\nat b (y.js:2:2)";
    let frames = parser.parse_frames(trace);
    assert_eq!(frames.len(), 3);
    assert_eq!(fields(&frames[0]), expect("b", "y.js", 2, 2));
    assert_eq!(fields(&frames[1]), expect("a", "x.js", 1, 1));
    assert_eq!(fields(&frames[2]), expect("b", "y.js", 2, 2));
}

#[test]
fn parse_frames_is_the_lines_one_by_one() {
    let parser = ErrorParser::new();
    let lines = ["at a (x.js:1:1)", "nothing here", "f@/p/q.js:3:4", "", "at (z.js:7:8)"];
    let mut expected = Vec::new();
    for line in lines {
        if let Some(frame) = parser.match_line(line) {
            expected.push(fields(&frame));
        }
    }
    let frames = parser.parse_frames(&lines.join("\n"));
    let found: Vec<_> = frames.iter().map(fields).collect();
    assert_eq!(found, expected);
    assert_eq!(found.len(), 3);
}

#[test]
fn file_path_may_hold_colons() {
    let parser = ErrorParser::new();
    let frames = parser.parse_frames("at load (http://localhost:8080/app.js:12:34)");
    assert_eq!(frames.len(), 1);
    assert_eq!(fields(&frames[0]), expect("load", "http://localhost:8080/app.js", 12, 34));
}

#[test]
fn missing_name_is_anonymous() {
    let parser = ErrorParser::new();
    let frames = parser.parse_frames("at (/a/b.js:1:2)");
    assert_eq!(frames.len(), 1);
    assert_eq!(fields(&frames[0]), expect("<anonymous>", "/a/b.js", 1, 2));
}

#[test]
fn unreadable_numbers_are_zero() {
    let parser = ErrorParser::new();
    let frames = parser.parse_frames("at f (/a/b.js:x:99999999999)");
    assert_eq!(frames.len(), 1);
    assert_eq!(fields(&frames[0]), expect("f", "/a/b.js", 0, 0));
    let frames = parser.parse_frames("f@/a/b.js:4294967295:4294967296");
    assert_eq!(frames.len(), 1);
    assert_eq!(fields(&frames[0]), expect("f", "/a/b.js", 4294967295, 0));
}

#[test]
fn bracketed_match_without_location_ends_the_line() {
    let parser = ErrorParser::new();
    assert!(parser.parse_frames("at f").is_empty());
    assert!(parser.parse_frames("at f (nocolons)").is_empty());
    assert!(parser.parse_frames("at f (one:colon)").is_empty());
    assert!(parser.parse_frames("look at g@/a/b.js:1:2").is_empty());
}

#[test]
fn parse_writes_one_line_per_frame() {
    let parser = ErrorParser::new();
    let text = parser.parse("Error: e\n    at f (/a/b.js:10:15)\nnoise\ng@/c/d.js:20:5");
    assert_eq!(text, "/a/b.js:10:15|f\n/c/d.js:20:5|g\n");
}

#[test]
fn a_parser_serves_many_traces() {
    let parser = ErrorParser::new();
    for _ in 0..3 {
        let frames = parser.parse_frames("at f (/a/b.js:10:15)");
        assert_eq!(frames.len(), 1);
        assert_eq!(fields(&frames[0]), expect("f", "/a/b.js", 10, 15));
    }
}

#[test]
fn frame_from_bracketed_groups() {
    let groups = vec![some("at f (/a/b.js:10:15)"), some("f"), some("(/a/b.js:10:15)"), some("/a/b.js:10:15")];
    let frame = frame_from_bracketed(&groups).unwrap();
    assert_eq!(fields(&frame), expect("f", "/a/b.js", 10, 15));

    let groups = vec![some("at (a:b:1:+2)"), None, some("(a:b:1:+2)"), some("a:b:1:+2")];
    let frame = frame_from_bracketed(&groups).unwrap();
    assert_eq!(fields(&frame), expect("<anonymous>", "a:b", 1, 2));

    let groups = vec![some("at f"), some("f"), None, None];
    assert!(frame_from_bracketed(&groups).is_none());
    let groups = vec![some("at f (a:1)"), some("f"), some("(a:1)"), some("a:1")];
    assert!(frame_from_bracketed(&groups).is_none());
    let groups = vec![some("at f")];
    assert!(frame_from_bracketed(&groups).is_none());
    let groups = vec![some("x"), some("f"), some("(::)"), some("::")];
    let frame = frame_from_bracketed(&groups).unwrap();
    assert_eq!(fields(&frame), expect("f", "", 0, 0));
}

#[test]
fn frame_from_at_sign_groups() {
    let groups = vec![some("f@/a/b.js:20:5"), some("f"), some("/a/b.js"), some("20"), some("5")];
    assert_eq!(fields(&frame_from_at_sign(&groups)), expect("f", "/a/b.js", 20, 5));

    let groups = vec![some("@x:1:2"), some(""), some("x"), some("1"), some("2")];
    assert_eq!(fields(&frame_from_at_sign(&groups)), expect("<anonymous>", "x", 1, 2));

    let groups = vec![some("whole"), None, None, some("7")];
    assert_eq!(fields(&frame_from_at_sign(&groups)), expect("<anonymous>", "", 7, 0));

    let groups = vec![some("whole"), some("f"), some("x"), some("99999999999"), some("١٢")];
    assert_eq!(fields(&frame_from_at_sign(&groups)), expect("f", "x", 0, 0));
}

#[test]
fn frame_keeps_what_it_was_made_of() {
    let frame = StackFrame::new("f".to_string(), "/a/b.js".to_string(), 10, 15);
    assert_eq!(frame.function_name(), "f");
    assert_eq!(frame.file_name(), "/a/b.js");
    assert_eq!(frame.line_number(), 10);
    assert_eq!(frame.column_number(), 15);
    let copy = frame.clone();
    assert_eq!(fields(&copy), fields(&frame));
}

#[test]
fn framework_is_told_by_the_path() {
    let parser = ErrorParser::new();
    let frames = parser.parse_frames(
        "at a (/node_modules/react-dom/index.js:1:2)\nat b (/src/app.js:3:4)\nat c (/x/node_modules/vue/dist/vue.js:5:6)\nat d (/node_modules/angular/core.js:7:8)",
    );
    assert_eq!(frames.len(), 4);
    assert_eq!(parser.framework_of(&frames[0]), Some("React".to_string()));
    assert_eq!(parser.framework_of(&frames[1]), None);
    assert_eq!(parser.framework_of(&frames[2]), Some("Vue".to_string()));
    assert_eq!(parser.framework_of(&frames[3]), Some("Angular".to_string()));
}

#[test]
fn framework_table_takes_the_first_fragment_that_occurs() {
    let table = FrameworkTable::new();
    assert_eq!(table.label_for("/node_modules/vue/node_modules/react/x.js"), Some("React".to_string()));
    assert_eq!(table.label_for("node_modules/angular"), Some("Angular".to_string()));
    assert_eq!(table.label_for("node_modules/reac"), None);
    assert_eq!(table.label_for(""), None);
}

#[test]
fn any_text_is_parsed() {
    let parser = ErrorParser::new();
    let long = "at f (".repeat(500);
    let texts = [
        "\n\n\n",
        "\r\n",
        "@",
        "@:1:2",
        "@@@@:::",
        "at",
        "at ",
        "at ()",
        "at (:::)",
        "at f (a:-1:-2)",
        "f@a:99999999999999999999:1",
        "f@\u{4e2d}\u{6587}.js:\u{0661}:\u{0662}",
        "\u{0}\u{1}\u{7f}",
        "\u{1f600}@\u{1f600}:1:1",
        long.as_str(),
    ];
    for text in texts {
        let frames = parser.parse_frames(text);
        assert!(frames.len() <= text.split('\n').count());
        let written = parser.parse(text);
        assert_eq!(written.matches('\n').count() >= frames.len(), true);
        parser.parse_simd(text);
    }
    let frames = parser.parse_frames("f@a:99999999999999999999:1");
    assert_eq!(frames.len(), 1);
    assert_eq!(fields(&frames[0]), expect("f", "a", 0, 1));
    let frames = parser.parse_frames("at f (a:-1:-2)");
    assert_eq!(frames.len(), 1);
    assert_eq!(fields(&frames[0]), expect("f", "a", 0, 0));
}

#[test]
fn sample_trace_of_a_runtime() {
    let parser = ErrorParser::new();
    let trace = r#"Error: Something went wrong
    at Object.method (/path/to/file.js:10:15)
    at processTicksAndRejections (internal/process/task_queues.js:95:5)
    at async Promise.all (index 0)
    at async HTMLFormElement.submitForm (app.js:20:30)"#;
    let frames = parser.parse_frames(trace);
    assert_eq!(frames.len(), 2);
    assert_eq!(fields(&frames[0]), expect("Object.method", "/path/to/file.js", 10, 15));
    assert_eq!(
        fields(&frames[1]),
        expect("processTicksAndRejections", "internal/process/task_queues.js", 95, 5)
    );
}

#[test]
fn parse_simd_gives_the_frames_of_parse_frames() {
    let parser = ErrorParser::new();
    let frames = parser.parse_simd("f@/a/b.js:20:5");
    assert_eq!(frames.len(), 1);
    assert_eq!(fields(&frames[0]), expect("f", "/a/b.js", 20, 5));

    let traces = [
        "",
        "not a stack trace",
        "at a (x.js:1:2)\nf@/a/b.js:20:5\nat b (y.js:3:4)",
        "    at f (/a/b.js:10:15)\ngarbage line\ng@http://host/c.js:20:5\nmore garbage\nh@d.js:30:7",
        "Error at startup\n@/a/b.js:1:2",
    ];
    for trace in traces {
        let fast: Vec<_> = parser.parse_simd(trace).iter().map(fields).collect();
        let full: Vec<_> = parser.parse_frames(trace).iter().map(fields).collect();
        assert_eq!(fast, full);
    }
    let frames = parser.parse_simd("at a (x.js:1:2)\nf@/a/b.js:20:5\nat b (y.js:3:4)");
    assert_eq!(frames.len(), 3);
    assert_eq!(fields(&frames[1]), expect("f", "/a/b.js", 20, 5));
}

#[test]
fn at_sign_line_without_name_is_anonymous() {
    let parser = ErrorParser::new();
    let frames = parser.parse_frames("@/a/b.js:1:2");
    assert_eq!(frames.len(), 1);
    assert_eq!(fields(&frames[0]), expect("<anonymous>", "/a/b.js", 1, 2));
    assert_eq!(parser.parse("@/a/b.js:1:2"), "/a/b.js:1:2|<anonymous>\n");
    let frames = parser.parse_frames("@d.js:3:4\nf@d.js:5:6");
    assert_eq!(frames.len(), 2);
    assert_eq!(fields(&frames[0]), expect("<anonymous>", "d.js", 3, 4));
    assert_eq!(fields(&frames[1]), expect("f", "d.js", 5, 6));
}

#[test]
fn conventions_are_ready() {
    assert!(ErrorParser::conventions_ready());
}
