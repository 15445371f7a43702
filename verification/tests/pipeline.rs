use one_billion::run;
use one_billion::PipelineError;

#[test]
fn end_to_end_example() {
    let out = run(b"Hamburg;12.0\nBerlin;8.5\nHamburg;14.0\n");
    assert_eq!(
        out,
        Ok("{Berlin=8.5/8.5/8.5, Hamburg=12.0/13.0/14.0}".to_string())
    );
}

#[test]
fn end_to_end_negative_values() {
    let out = run(b"X;-3.2\nX;-1.0\n");
    assert_eq!(out, Ok("{X=-3.2/-2.1/-1.0}".to_string()));
}

#[test]
fn malformed_record_fails() {
    assert_eq!(
        run(b"NoSeparatorHere\n"),
        Err(PipelineError::RecordFormatFailure)
    );
}

#[test]
fn empty_input_fails() {
    assert_eq!(run(b""), Err(PipelineError::EmptyInputFailure));
}

#[test]
fn lone_terminator_is_a_malformed_record() {
    assert_eq!(run(b"\n"), Err(PipelineError::RecordFormatFailure));
}

#[test]
fn missing_final_terminator_is_accepted() {
    let with_terminator = run(b"A;1.0\nB;2.0\n");
    let without_terminator = run(b"A;1.0\nB;2.0");
    assert_eq!(with_terminator, without_terminator);
    assert_eq!(with_terminator, Ok("{A=1.0/1.0/1.0, B=2.0/2.0/2.0}".to_string()));
}

#[test]
fn output_is_sorted_by_name() {
    let out = run(b"Bravo;1.0\nAlpha;2.0\nCharlie;0.5\n");
    assert_eq!(
        out,
        Ok("{Alpha=2.0/2.0/2.0, Bravo=1.0/1.0/1.0, Charlie=0.5/0.5/0.5}".to_string())
    );
}

#[test]
fn mean_ties_round_away_from_zero() {
    // 0.2 and 0.3 average to 0.25; conventional rounding gives 0.3, not 0.2.
    assert_eq!(run(b"A;0.2\nA;0.3\n"), Ok("{A=0.2/0.3/0.3}".to_string()));
    // The negative tie rounds away from zero as well.
    assert_eq!(run(b"A;-0.2\nA;-0.3\n"), Ok("{A=-0.3/-0.3/-0.2}".to_string()));
}

#[test]
fn mean_tie_on_even_neighbour() {
    // 1.2 and 1.3 average to 1.25; round-half-to-even would print 1.2.
    assert_eq!(run(b"A;1.2\nA;1.3\n"), Ok("{A=1.2/1.3/1.3}".to_string()));
}

#[test]
fn value_without_digits_fails() {
    assert_eq!(run(b"A;-\n"), Err(PipelineError::RecordFormatFailure));
    assert_eq!(run(b"A;\n"), Err(PipelineError::RecordFormatFailure));
}

#[test]
fn oversized_value_fails() {
    assert_eq!(run(b"A;99999.9\n"), Err(PipelineError::RecordFormatFailure));
}

#[test]
fn invalid_utf8_name_fails_at_formatting() {
    assert_eq!(run(b"\xff;1.0\n"), Err(PipelineError::EncodingFailure));
}

#[test]
fn non_ascii_name_is_rendered() {
    let mut input: Vec<u8> = vec![0xc3, 0xbc];
    input.extend_from_slice(b";1.0\n");
    let name = String::from_utf8(vec![0xc3, 0xbc]).unwrap();
    let expected = format!("{{{}=1.0/1.0/1.0}}", name);
    assert_eq!(run(&input), Ok(expected));
}

#[test]
fn empty_name_is_a_station() {
    assert_eq!(run(b";1.0\n"), Ok("{=1.0/1.0/1.0}".to_string()));
}
