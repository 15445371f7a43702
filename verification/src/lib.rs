//! Per-station minimum / mean / maximum statistics over `name;value` records.
//!
//! The input is a byte stream of newline-terminated records, each holding a
//! station name and a fixed-point temperature with one decimal digit.  The
//! library parses records, aggregates exact integer statistics per station,
//! merges tables produced from independent parts of the input, and renders a
//! sorted report.  All arithmetic is integer arithmetic; nothing is rounded
//! before the final formatting step.

pub mod chunks;
pub mod format;
pub mod measurement;
pub mod station_data;
pub mod table;

use crate::format::{format_measurements, render_report, strictly_sorted};
use crate::measurement::RECORD_TERMINATOR;
use crate::station_data::StationStat;
use crate::table::{
    collect_lines, collect_measurements, lines_all_valid, seq_map_of, split_lines, StationTable,
};
use vstd::prelude::*;
use vstd::utf8::valid_utf8;

verus! {

/// The ways the pipeline can fail.  No failure is recovered locally: every
/// one aborts the whole computation.
#[derive(Clone, Copy, Debug, PartialEq, Eq, Structural)]
pub enum PipelineError {
    /// The byte source failed mid-read.
    SourceReadFailure,
    /// A record lacks the field separator, or its value field has no digit,
    /// or the value is too large for the fixed-point representation.
    RecordFormatFailure,
    /// A station name is not valid UTF-8.
    EncodingFailure,
    /// The source produced no records at all.
    EmptyInputFailure,
}

/// The records of the input: the bytes with the terminator of the last
/// record, when present, removed, so that splitting at every remaining
/// terminator yields exactly the records.
pub open spec fn input_body(s: Seq<u8>) -> Seq<u8> {
    if s.len() > 0 && s.last() == RECORD_TERMINATOR {
        s.drop_last()
    } else {
        s
    }
}

/// The global table of a whole input.
pub open spec fn table_of(s: Seq<u8>) -> Map<Seq<u8>, StationStat> {
    collect_lines(Map::empty(), split_lines(input_body(s)))
}

/// Run the whole pipeline on one byte source held in memory: parse every
/// record, aggregate per station, and render the sorted report.
pub fn run(input: &[u8]) -> (r: Result<String, PipelineError>)
    ensures
        (input@.len() == 0) <==> (r matches Err(e) && e == PipelineError::EmptyInputFailure),
        (input@.len() > 0 && !lines_all_valid(split_lines(input_body(input@)))) <==> (r matches Err(
            e,
        ) && e == PipelineError::RecordFormatFailure),
        (input@.len() > 0 && lines_all_valid(split_lines(input_body(input@))) && !(forall|
            k: Seq<u8>,
        |
            #[trigger] table_of(input@).contains_key(k) ==> valid_utf8(k))) <==> (r matches Err(e)
            && e == PipelineError::EncodingFailure),
        r is Ok <==> (input@.len() > 0 && lines_all_valid(split_lines(input_body(input@))) && (
        forall|k: Seq<u8>| #[trigger] table_of(input@).contains_key(k) ==> valid_utf8(k))),
        r matches Ok(out) ==> exists|ks: Seq<Seq<u8>>, vs: Seq<StationStat>|
            {
                &&& ks.len() == vs.len()
                &&& strictly_sorted(ks)
                &&& #[trigger] seq_map_of(ks, vs) == table_of(input@)
                &&& out@ == render_report(ks, vs)
            },
{
    let n = input.len();
    if n == 0 {
        return Err(PipelineError::EmptyInputFailure);
    }
    let body: &[u8] = if input[n - 1] == RECORD_TERMINATOR {
        vstd::slice::slice_subrange(input, 0, n - 1)
    } else {
        input
    };
    proof {
        assert(body@ =~= input_body(input@));
    }
    let mut table = StationTable::new();
    match collect_measurements(&mut table, body) {
        Err(e) => {
            return Err(e);
        },
        Ok(()) => {},
    }
    proof {
        assert(split_lines(body@).len() >= 1) by {
            if crate::measurement::contains_byte(body@, RECORD_TERMINATOR) {
                crate::measurement::lemma_first_index_of(body@, RECORD_TERMINATOR);
            }
        }
        assert(table.total() >= 1);
        if table.keys().len() == 0 {
            assert(table.stats@.len() == 0);
            assert(crate::table::sum_counts(table.stats@) == 0);
        }
        assert(table.keys().len() > 0);
    }
    let res = format_measurements(&table);
    proof {
        assert(table@ == table_of(input@));
        if forall|k: Seq<u8>| #[trigger] table@.contains_key(k) ==> valid_utf8(k) {
            assert forall|k: Seq<u8>| #[trigger] table_of(input@).contains_key(k) implies valid_utf8(
                k,
            ) by {
                assert(table@.contains_key(k));
            }
        }
        if forall|k: Seq<u8>| #[trigger] table_of(input@).contains_key(k) ==> valid_utf8(k) {
            assert forall|k: Seq<u8>| #[trigger] table@.contains_key(k) implies valid_utf8(k) by {
                assert(table_of(input@).contains_key(k));
            }
        }
        if res is Ok {
            let (ks, vs): (Seq<Seq<u8>>, Seq<StationStat>) = choose|
                ks: Seq<Seq<u8>>,
                vs: Seq<StationStat>,
            |
                {
                    &&& ks.len() == vs.len()
                    &&& strictly_sorted(ks)
                    &&& #[trigger] seq_map_of(ks, vs) == table@
                    &&& res->Ok_0@ == render_report(ks, vs)
                };
            assert(seq_map_of(ks, vs) == table_of(input@));
        }
    }
    res
}

} // verus!
