use one_billion::chunks::{read_as_chunks, ChunkReader};
use one_billion::format::format_measurements;
use one_billion::measurement::{parse_measurement, parse_temperature};
use one_billion::station_data::StationData;
use one_billion::table::{collect_measurements, merge_measurements, StationTable};
use one_billion::PipelineError;

#[test]
fn parse_simple_record() {
    let r = parse_measurement(b"Foo;12.3").unwrap();
    assert_eq!(r.0, b"Foo".to_vec());
    assert_eq!(r.1, 123);
}

#[test]
fn parse_negative_record() {
    let r = parse_measurement(b"Oslo;-3.2").unwrap();
    assert_eq!(r.0, b"Oslo".to_vec());
    assert_eq!(r.1, -32);
}

#[test]
fn parse_record_without_separator() {
    assert_eq!(
        parse_measurement(b"NoSeparator"),
        Err(PipelineError::RecordFormatFailure)
    );
}

#[test]
fn parse_value_skips_non_digits() {
    // The decimal point is skipped by design, so a value without one is
    // read as tenths: "12" and "1.2" denote the same fixed-point number.
    assert_eq!(parse_temperature(b"12"), Ok(12));
    assert_eq!(parse_temperature(b"1.2"), Ok(12));
    assert_eq!(parse_temperature(b"1.23"), Ok(123));
}

#[test]
fn parse_value_edge_cases() {
    assert_eq!(parse_temperature(b"-0.0"), Ok(0));
    assert_eq!(parse_temperature(b"3276.7"), Ok(32767));
    assert_eq!(parse_temperature(b"3276.8"), Err(PipelineError::RecordFormatFailure));
    assert_eq!(parse_temperature(b""), Err(PipelineError::RecordFormatFailure));
    assert_eq!(parse_temperature(b"-"), Err(PipelineError::RecordFormatFailure));
    assert_eq!(parse_temperature(b".."), Err(PipelineError::RecordFormatFailure));
}

#[test]
fn aggregate_observe_and_combine() {
    let mut a = StationData::from_initial_measurement(120);
    assert_eq!(a, StationData { min: 120, max: 120, sum: 120, count: 1 });
    a.add_measurement(140);
    assert_eq!(a, StationData { min: 120, max: 140, sum: 260, count: 2 });
    let b = StationData::from_initial_measurement(-32);

    let mut ab = a;
    ab.combine(b);
    let mut ba = b;
    ba.combine(a);
    // Combining is commutative on concrete values.
    assert_eq!(ab, ba);
    assert_eq!(ab, StationData { min: -32, max: 140, sum: 228, count: 3 });
}

#[test]
fn combine_is_associative_on_values() {
    let a = StationData { min: -10, max: 5, sum: -13, count: 3 };
    let b = StationData { min: 0, max: 80, sum: 160, count: 2 };
    let c = StationData { min: -40, max: -40, sum: -40, count: 1 };
    let mut left = a;
    left.combine(b);
    left.combine(c);
    let mut right_bc = b;
    right_bc.combine(c);
    let mut right = a;
    right.combine(right_bc);
    assert_eq!(left, right);
}

#[test]
fn chunks_split_at_record_boundaries() {
    let chunks = read_as_chunks(b"ab\ncd", 4);
    assert_eq!(chunks, vec![b"ab".to_vec(), b"cd".to_vec()]);
}

#[test]
fn chunks_boundary_cases() {
    // Zero-length input: no chunks at all.
    assert_eq!(read_as_chunks(b"", 4), Vec::<Vec<u8>>::new());
    // Input exactly one block long.
    assert_eq!(read_as_chunks(b"ab\n", 3), vec![b"ab".to_vec()]);
    // Input one byte longer than a block: the partial record carries over.
    assert_eq!(read_as_chunks(b"ab\nc", 3), vec![b"ab".to_vec(), b"c".to_vec()]);
    // Input one byte shorter than a block.
    assert_eq!(read_as_chunks(b"a\n", 3), vec![b"a".to_vec()]);
    // A record with no terminator at all is emitted whole at the end.
    assert_eq!(read_as_chunks(b"abc", 8), vec![b"abc".to_vec()]);
}

#[test]
fn chunks_concatenation_reproduces_input() {
    let input: &[u8] = b"Hamburg;12.0\nBerlin;8.5\nHamburg;14.0\n";
    // Once a block holds at least one whole record, every chunk ends at a
    // dropped terminator, so re-inserting one after each chunk rebuilds the
    // input exactly.  The longest record here is 12 bytes plus a terminator.
    for block_size in 13..40usize {
        let chunks = read_as_chunks(input, block_size);
        let mut rebuilt: Vec<u8> = Vec::new();
        for chunk in &chunks {
            rebuilt.extend_from_slice(chunk);
            rebuilt.push(b'\n');
        }
        assert_eq!(rebuilt, input.to_vec());
    }
}

#[test]
fn chunk_reader_carries_partial_records() {
    let mut reader = ChunkReader::new();
    let first = reader.push_block(b"a;1.0\nb;2");
    assert_eq!(first, b"a;1.0".to_vec());
    let second = reader.push_block(b".0\nc;3.0");
    assert_eq!(second, b"b;2.0".to_vec());
    let last = reader.finish();
    assert_eq!(last, Some(b"c;3.0".to_vec()));
}

#[test]
fn chunk_reader_finish_without_carry() {
    let mut reader = ChunkReader::new();
    let chunk = reader.push_block(b"a;1.0\n");
    assert_eq!(chunk, b"a;1.0".to_vec());
    assert_eq!(reader.finish(), None);
}

#[test]
fn collect_and_format() {
    let mut table = StationTable::new();
    collect_measurements(&mut table, b"A;1.0\nB;2.0\nA;3.0").unwrap();
    let out = format_measurements(&table).unwrap();
    assert_eq!(out, "{A=1.0/2.0/3.0, B=2.0/2.0/2.0}".to_string());
}

#[test]
fn collect_rejects_malformed_chunk() {
    let mut table = StationTable::new();
    assert_eq!(
        collect_measurements(&mut table, b"A;1.0\nbroken"),
        Err(PipelineError::RecordFormatFailure)
    );
}

#[test]
fn format_rejects_empty_table() {
    let table = StationTable::new();
    assert_eq!(
        format_measurements(&table),
        Err(PipelineError::EmptyInputFailure)
    );
}

#[test]
fn partitioned_groups_merge_to_the_same_table() {
    let whole_records: &[u8] = b"A;1.0\nB;2.0\nA;3.0\nC;-4.5";
    let mut whole = StationTable::new();
    collect_measurements(&mut whole, whole_records).unwrap();

    let mut part1 = StationTable::new();
    collect_measurements(&mut part1, b"A;1.0\nB;2.0").unwrap();
    let mut part2 = StationTable::new();
    collect_measurements(&mut part2, b"A;3.0\nC;-4.5").unwrap();
    let merged = merge_measurements(vec![part1, part2]);

    assert_eq!(
        format_measurements(&merged).unwrap(),
        format_measurements(&whole).unwrap()
    );
}

#[test]
fn merging_a_single_table_is_trivial() {
    let mut table = StationTable::new();
    collect_measurements(&mut table, b"A;1.0").unwrap();
    let before = format_measurements(&table).unwrap();
    let merged = merge_measurements(vec![table]);
    assert_eq!(format_measurements(&merged).unwrap(), before);
}

#[test]
fn merge_order_does_not_change_the_result() {
    let mut t1 = StationTable::new();
    collect_measurements(&mut t1, b"A;1.0\nB;-2.0").unwrap();
    let mut t2 = StationTable::new();
    collect_measurements(&mut t2, b"B;4.0\nC;0.5").unwrap();
    let mut u1 = StationTable::new();
    collect_measurements(&mut u1, b"A;1.0\nB;-2.0").unwrap();
    let mut u2 = StationTable::new();
    collect_measurements(&mut u2, b"B;4.0\nC;0.5").unwrap();

    let one_way = merge_measurements(vec![t1, t2]);
    let other_way = merge_measurements(vec![u2, u1]);
    assert_eq!(
        format_measurements(&one_way).unwrap(),
        format_measurements(&other_way).unwrap()
    );
}
