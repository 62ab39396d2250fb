use tenths_agg::pipeline::run;
use tenths_agg::scan::scan_chunk;
use tenths_agg::table::LocalAgg;
use tenths_agg::AggError;

fn run_str(input: &[u8], max: usize) -> Result<String, AggError> {
    run(input, max).map(|out| String::from_utf8(out).unwrap())
}

#[test]
fn two_names_three_records() {
    let out = run_str(b"A;1.0\nB;2.0\nA;3.0\n", 1_000_000).unwrap();
    assert_eq!(out, "A=1.0/2.0/3.0, B=2.0/2.0/2.0");
}

#[test]
fn one_name_signed_values() {
    let out = run_str(b"X;-5.5\nX;0.0\nX;5.5\n", 1_000_000).unwrap();
    assert_eq!(out, "X=-5.5/0.0/5.5");
}

#[test]
fn missing_trailing_newline_is_malformed() {
    assert_eq!(run_str(b"A;1.0\nB;2.0", 1_000_000), Err(AggError::MalformedInput));
}

#[test]
fn malformed_value_is_malformed() {
    assert_eq!(run_str(b"A;abc\n", 1_000_000), Err(AggError::MalformedInput));
}

#[test]
fn oversized_name_is_record_too_large() {
    let mut input = vec![b'N'; 101];
    input.extend_from_slice(b";1.0\n");
    assert_eq!(run_str(&input, 1_000_000), Err(AggError::RecordTooLarge));
}

#[test]
fn oversized_value_is_record_too_large() {
    assert_eq!(run_str(b"A;123.456\n", 1_000_000), Err(AggError::RecordTooLarge));
}

#[test]
fn empty_input_gives_empty_output() {
    assert_eq!(run_str(b"", 1_000_000), Ok(String::new()));
}

#[test]
fn output_is_sorted_by_name_without_duplicates() {
    let out = run_str(b"b;1.0\na;1.0\nb;2.0\n", 1_000_000).unwrap();
    assert_eq!(out, "a=1.0/1.0/1.0, b=1.0/1.5/2.0");
}

#[test]
fn chunk_size_does_not_change_the_output() {
    let input: &[u8] = b"A;1.0\nB;2.0\nA;3.0\nC;-0.5\nB;2.0\nA;-9.9\n";
    let reference = run_str(input, 1_000_000).unwrap();
    for max in [0usize, 1, 2, 5, 6, 11, 17] {
        assert_eq!(run_str(input, max).unwrap(), reference);
    }
}

#[test]
fn merge_order_does_not_change_the_output() {
    // two line-aligned pieces of one stream, scanned by separate workers
    let part_a: &[u8] = b"A;1.0\nB;2.0\n";
    let part_b: &[u8] = b"A;3.0\nC;-0.5\n";
    let whole: &[u8] = b"A;1.0\nB;2.0\nA;3.0\nC;-0.5\n";
    let reference = run_str(whole, 1_000_000).unwrap();

    for order in 0..2 {
        let mut local_a = LocalAgg::new();
        scan_chunk(&mut local_a, part_a).unwrap();
        let mut local_b = LocalAgg::new();
        scan_chunk(&mut local_b, part_b).unwrap();

        let mut global = LocalAgg::new();
        if order == 0 {
            global.merge_from(local_a);
            global.merge_from(local_b);
        } else {
            global.merge_from(local_b);
            global.merge_from(local_a);
        }
        assert_eq!(global.record_count(), 4);
        let out = String::from_utf8(tenths_agg::render::render(global)).unwrap();
        assert_eq!(out, reference);
    }
}

#[test]
fn scan_chunk_reports_bytes_scanned() {
    let mut agg = LocalAgg::new();
    let chunk: &[u8] = b"A;1.0\nB;-2.5\n";
    assert_eq!(scan_chunk(&mut agg, chunk), Ok(chunk.len()));
    assert_eq!(agg.record_count(), 2);
}

#[test]
fn name_of_exactly_100_bytes_is_accepted() {
    let mut input = vec![b'N'; 100];
    input.extend_from_slice(b";1.0\n");
    let out = run_str(&input, 1_000_000).unwrap();
    let mut expected = String::from_utf8(vec![b'N'; 100]).unwrap();
    expected.push_str("=1.0/1.0/1.0");
    assert_eq!(out, expected);
}

#[test]
fn extreme_values_round_trip_through_the_pipeline() {
    let out = run_str(b"E;-99.9\nE;99.9\n", 1_000_000).unwrap();
    // exact average of -99.9 and 99.9 rounds up to 0.0
    assert_eq!(out, "E=-99.9/0.0/99.9");
}

#[test]
fn second_semicolon_is_skipped() {
    // a second separator byte is consumed without joining either buffer
    let out = run_str(b"A;;1.0\n", 1_000_000).unwrap();
    assert_eq!(out, "A=1.0/1.0/1.0");
}
