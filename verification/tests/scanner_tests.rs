use perflite_wasm::scanner::{
    digit_mask, extract_numbers, extract_numbers_batch, extract_numbers_scalar, ScanStrategy,
};
use perflite_wasm::{ErrorParser, SimdParser, StackFrame};

fn fields(frame: &StackFrame) -> (String, String, u32, u32) {
    (frame.function_name(), frame.file_name(), frame.line_number(), frame.column_number())
}

fn expect(name: &str, file: &str, line: u32, column: u32) -> (String, String, u32, u32) {
    (name.to_string(), file.to_string(), line, column)
}

fn both(text: &str) -> Vec<u32> {
    let batch = extract_numbers_batch(text.as_bytes());
    let scalar = extract_numbers_scalar(text.as_bytes());
    assert_eq!(batch, scalar);
    batch
}

#[test]
fn numbers_come_out_left_to_right() {
    assert_eq!(both("a1b22c333"), vec![1, 22, 333]);
    assert_eq!(both("at f (/a/b.js:10:15)"), vec![10, 15]);
    assert_eq!(both("007"), vec![7]);
    assert_eq!(both("12 12"), vec![12, 12]);
}

#[test]
fn empty_input_has_no_numbers() {
    assert!(both("").is_empty());
    assert!(both("no digits at all, not even one").is_empty());
    assert!(SimdParser::new().parse_numbers("").is_empty());
}

#[test]
fn run_across_a_chunk_boundary_is_one_number() {
    let text = "xx000000000000123456 tail";
    assert_eq!(text.len() > 16, true);
    assert_eq!(both(text), vec![123456]);

    let text = "0123456789ab123456789zz";
    assert_eq!(both(text), vec![123456789, 123456789]);

    let text = "aaaaaaaaaaaaaaa1234567890123456789012345678901b";
    assert!(both(text).is_empty());

    let text = "aaaaaaaaaaaaaaa12bbbbbbbbbbbbbb34ccccccccccccccc5";
    assert_eq!(both(text), vec![12, 34, 5]);
}

#[test]
fn run_at_every_offset_is_one_number() {
    for offset in 0..40 {
        for length in 1..10 {
            let mut text = "x".repeat(offset);
            text.push_str(&"7".repeat(length));
            text.push_str(" 42 ");
            text.push_str(&"y".repeat(20));
            let expected: u32 = "7".repeat(length).parse().unwrap();
            assert_eq!(both(&text), vec![expected, 42]);
        }
    }
}

#[test]
fn strategies_agree() {
    let inputs = [
        "",
        "1",
        "abc",
        "4294967295",
        "4294967296",
        "1234567890123456",
        "12345678901234567",
        "a1b2c3d4e5f6g7h8i9j10k11l12m13n14o15p16q17r18",
        "                15                               16",
        "0000000000000000000000000000000000000000000000001",
        "at Module.callback (/node_modules/webpack/lib/Module.js:499:34)",
        "caf\u{e9} 12 \u{4e2d}\u{6587} 34 \u{1f600}56",
    ];
    for input in inputs {
        let batch = extract_numbers(ScanStrategy::Batch, input.as_bytes());
        let scalar = extract_numbers(ScanStrategy::Scalar, input.as_bytes());
        assert_eq!(batch, scalar);
        let expected: Vec<u32> = input
            .split(|c: char| !c.is_ascii_digit())
            .filter(|run| !run.is_empty())
            .filter_map(|run| run.parse::<u32>().ok())
            .collect();
        assert_eq!(batch, expected);
        assert_eq!(SimdParser::with_strategy(ScanStrategy::Batch).parse_numbers(input), expected);
        assert_eq!(SimdParser::with_strategy(ScanStrategy::Scalar).parse_numbers(input), expected);
    }
}

#[test]
fn number_too_large_is_passed_over() {
    assert_eq!(both("1 4294967295 2"), vec![1, 4294967295, 2]);
    assert_eq!(both("1 4294967296 2"), vec![1, 2]);
    assert_eq!(both("1 99999999999999999999 2"), vec![1, 2]);
    assert_eq!(both("00000000004294967295"), vec![4294967295]);
}

#[test]
fn non_utf8_bytes_are_no_digits() {
    let bytes = [0xffu8, b'1', b'2', 0x80, 0x2f, b'3', 0x3a, b'4'];
    assert_eq!(extract_numbers_batch(&bytes), vec![12, 3, 4]);
    assert_eq!(extract_numbers_scalar(&bytes), vec![12, 3, 4]);
}

#[test]
fn mask_has_a_bit_for_every_digit() {
    let bytes = b"0a1b2c3d4e5f6g7h trailing";
    assert_eq!(digit_mask(bytes, 0), 0b0101_0101_0101_0101);
    assert_eq!(digit_mask(bytes, 1), 0b0010_1010_1010_1010);
    assert_eq!(digit_mask(b"no digit in here", 0), 0);
    assert_eq!(digit_mask(b"0123456789012345", 0), 0xffff);
    assert_eq!(digit_mask(b"/:/:/:/:/:/:/:/:", 0), 0);
}

#[test]
fn scanner_is_made_with_its_strategy() {
    assert_eq!(SimdParser::new().strategy(), ScanStrategy::Batch);
    assert_eq!(SimdParser::with_strategy(ScanStrategy::Scalar).strategy(), ScanStrategy::Scalar);
    assert_eq!(SimdParser::try_new().unwrap().strategy(), ScanStrategy::Batch);
    let scalar = SimdParser::try_with_strategy(ScanStrategy::Scalar).unwrap();
    assert_eq!(scalar.strategy(), ScanStrategy::Scalar);
    assert_eq!(scalar.parse_numbers("a1b22"), vec![1, 22]);
}

#[test]
fn line_column_pairs() {
    let parser = SimdParser::new();
    assert_eq!(parser.extract_line_column_pairs("x:10:20"), vec![(10, 20)]);
    assert_eq!(parser.extract_line_column_pairs("x:10:20 y:30"), vec![(10, 20), (20, 30)]);
    assert!(parser.extract_line_column_pairs("x:10").is_empty());
    assert!(parser.extract_line_column_pairs("").is_empty());
    let scalar = SimdParser::with_strategy(ScanStrategy::Scalar);
    assert_eq!(scalar.extract_line_column_pairs("x:10:20 y:30"), vec![(10, 20), (20, 30)]);
}

#[test]
fn line_column_numbers_written_out() {
    let parser = SimdParser::new();
    assert_eq!(parser.parse_line_column("x:10:20"), vec![10, 20]);
    assert_eq!(parser.parse_line_column("1 2 3 4"), vec![1, 2, 2, 3, 3, 4]);
    assert!(parser.parse_line_column("only 1").is_empty());
    assert!(parser.parse_line_column("").is_empty());
}

#[test]
fn short_form_of_a_trace() {
    let parser = SimdParser::new();
    assert_eq!(parser.simd_parse_stack("    at f (/a/b.js:10:15)"), "b.js:10|");
    assert_eq!(
        parser.simd_parse_stack("Error: e\n    at f (/a/b.js:10:15)\r\nnoise\n    at (c.js:7)\n"),
        "b.js:10|c.js:7)|"
    );
    assert_eq!(parser.simd_parse_stack("x at plain"), "plain:");
    assert_eq!(parser.simd_parse_stack("x at  (/p/q/r.js:1:2) at y"), "r.js:1|");
    assert_eq!(parser.simd_parse_stack("x at a/b:c/d:e"), "b:c/d|");
    assert_eq!(parser.simd_parse_stack("x at ((a:1))"), "a:1))|");
    assert_eq!(parser.simd_parse_stack("x at f (a:1))"), "f (a:1))|");
    assert_eq!(parser.simd_parse_stack("x at "), ":");
    assert_eq!(parser.simd_parse_stack("no marker here"), "");
    assert_eq!(parser.simd_parse_stack(""), "");
}

#[test]
fn fast_parse_gives_the_frames_of_the_conventions() {
    let parser = SimdParser::new();
    let frames = parser.parse_stack_simd(" at f (http://x.y/a.js:7:9)");
    assert_eq!(frames.len(), 1);
    assert_eq!(fields(&frames[0]), expect("f", "http://x.y/a.js", 7, 9));

    assert!(parser.parse_stack_simd("Error at startup").is_empty());
    assert!(parser.parse_stack_simd("x at plain").is_empty());
    assert!(parser.parse_stack_simd("not a stack trace").is_empty());
    assert!(parser.parse_stack_simd("").is_empty());

    let frames = parser.parse_stack_simd("Error: e\n    at f (/a/b.js:10:15)");
    assert_eq!(frames.len(), 1);
    assert_eq!(fields(&frames[0]), expect("f", "/a/b.js", 10, 15));

    let frames = parser.parse_stack_simd("f@/a/b.js:20:5");
    assert_eq!(frames.len(), 1);
    assert_eq!(fields(&frames[0]), expect("f", "/a/b.js", 20, 5));
}

#[test]
fn fast_parse_and_full_parse_agree() {
    let full = ErrorParser::new();
    let traces = [
        "    at f (/a/b.js:10:15)\ngarbage line\ng@http://host/c.js:20:5\nmore garbage\nh@d.js:30:7",
        "Error at startup\n at f (http://x.y/a.js:7:9)\r\n@/a/b.js:1:2\n",
        "at a (x.js:1:2)\nat b (one:colon)\nat c\nat (y.js:3:4)",
    ];
    for strategy in [ScanStrategy::Batch, ScanStrategy::Scalar] {
        let fast = SimdParser::with_strategy(strategy);
        for trace in traces {
            let found: Vec<_> = fast.parse_stack_simd(trace).iter().map(fields).collect();
            let expected: Vec<_> = full.parse_frames(trace).iter().map(fields).collect();
            assert_eq!(found, expected);
        }
    }
    let frames = SimdParser::new().parse_stack_simd(traces[0]);
    assert_eq!(frames.len(), 3);
    assert_eq!(fields(&frames[0]), expect("f", "/a/b.js", 10, 15));
    assert_eq!(fields(&frames[1]), expect("g", "http://host/c.js", 20, 5));
    assert_eq!(fields(&frames[2]), expect("h", "d.js", 30, 7));
}
