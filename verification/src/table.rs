//! The per-worker aggregation table: a mapping from station name to its
//! running statistic, modelled as a `Map<Seq<u8>, StationStat>`.

use crate::measurement::{
    contains_byte, first_index_of, lemma_first_index_of, parse_measurement, record_name,
    record_valid, record_value, RECORD_TERMINATOR,
};
use crate::station_data::{combine_stat, singleton_stat, stat_observe, StationData, StationStat};
use crate::PipelineError;
use vstd::map::*;
use vstd::prelude::*;

verus! {

/// Is `k` one of the keys of `ks`?
pub open spec fn has_key(ks: Seq<Seq<u8>>, k: Seq<u8>) -> bool {
    exists|i: int| 0 <= i < ks.len() && #[trigger] ks[i] == k
}

/// The index of `k` in `ks` (meaningful when the keys are unique and `k` is
/// among them).
pub open spec fn key_index(ks: Seq<Seq<u8>>, k: Seq<u8>) -> int {
    choose|i: int| 0 <= i < ks.len() && #[trigger] ks[i] == k
}

/// No key occurs twice.
pub open spec fn unique_keys(ks: Seq<Seq<u8>>) -> bool {
    forall|i: int, j: int| 0 <= i < j < ks.len() ==> ks[i] != ks[j]
}

/// The mapping that a key sequence and a parallel statistic sequence denote.
pub open spec fn seq_map_of(ks: Seq<Seq<u8>>, vs: Seq<StationStat>) -> Map<Seq<u8>, StationStat> {
    Map::new(|k: Seq<u8>| has_key(ks, k), |k: Seq<u8>| vs[key_index(ks, k)])
}

pub proof fn lemma_key_index(ks: Seq<Seq<u8>>, i: int)
    requires
        unique_keys(ks),
        0 <= i < ks.len(),
    ensures
        has_key(ks, ks[i]),
        key_index(ks, ks[i]) == i,
{
    assert(ks[i] == ks[i]);
    let j = key_index(ks, ks[i]);
    assert(!(j < i) && !(i < j));
}

/// Total number of observations recorded across a sequence of statistics.
pub open spec fn sum_counts(s: Seq<StationData>) -> int
    decreases s.len(),
{
    if s.len() == 0 {
        0
    } else {
        sum_counts(s.drop_last()) + s.last().count
    }
}

pub proof fn lemma_sum_counts_nonneg(s: Seq<StationData>)
    ensures
        sum_counts(s) >= 0,
    decreases s.len(),
{
    if s.len() > 0 {
        lemma_sum_counts_nonneg(s.drop_last());
    }
}

/// Each statistic's count is at most the total over the whole sequence.
pub proof fn lemma_sum_counts_elem(s: Seq<StationData>, i: int)
    requires
        0 <= i < s.len(),
    ensures
        s[i].count <= sum_counts(s),
    decreases s.len(),
{
    if i == s.len() - 1 {
        lemma_sum_counts_nonneg(s.drop_last());
    } else {
        lemma_sum_counts_elem(s.drop_last(), i);
        assert(s.drop_last()[i] == s[i]);
    }
}

pub proof fn lemma_sum_counts_update(s: Seq<StationData>, i: int, d: StationData)
    requires
        0 <= i < s.len(),
    ensures
        sum_counts(s.update(i, d)) == sum_counts(s) - s[i].count + d.count,
    decreases s.len(),
{
    let t = s.update(i, d);
    if i == s.len() - 1 {
        assert(t.drop_last() =~= s.drop_last());
        assert(t.last() == d);
    } else {
        assert(t.drop_last() =~= s.drop_last().update(i, d));
        assert(t.last() == s.last());
        lemma_sum_counts_update(s.drop_last(), i, d);
        assert(s.drop_last()[i] == s[i]);
    }
}

/// Folding one record into a table: update the key's statistic, or create it
/// on the key's first observation.
pub open spec fn observe_map(
    m: Map<Seq<u8>, StationStat>,
    k: Seq<u8>,
    v: int,
) -> Map<Seq<u8>, StationStat> {
    if m.contains_key(k) {
        m.insert(k, stat_observe(m[k], v))
    } else {
        m.insert(k, singleton_stat(v))
    }
}

/// The records of a chunk: the chunk split at every record terminator.
pub open spec fn split_lines(s: Seq<u8>) -> Seq<Seq<u8>>
    decreases s.len(),
    when true
    via split_lines_decreases
{
    if !contains_byte(s, RECORD_TERMINATOR) {
        seq![s]
    } else {
        seq![s.take(first_index_of(s, RECORD_TERMINATOR))] + split_lines(
            s.skip(first_index_of(s, RECORD_TERMINATOR) + 1),
        )
    }
}

#[via_fn]
proof fn split_lines_decreases(s: Seq<u8>) {
    if contains_byte(s, RECORD_TERMINATOR) {
        lemma_first_index_of(s, RECORD_TERMINATOR);
    }
}

/// Every line of the sequence is a well-formed record.
pub open spec fn lines_all_valid(lines: Seq<Seq<u8>>) -> bool {
    forall|i: int| 0 <= i < lines.len() ==> record_valid(#[trigger] lines[i])
}

/// Folding a sequence of records into a table, first record first.
pub open spec fn collect_lines(
    m: Map<Seq<u8>, StationStat>,
    lines: Seq<Seq<u8>>,
) -> Map<Seq<u8>, StationStat>
    decreases lines.len(),
{
    if lines.len() == 0 {
        m
    } else {
        collect_lines(observe_map(m, record_name(lines[0]), record_value(lines[0])), lines.skip(1))
    }
}

pub proof fn lemma_collect_lines_push(m: Map<Seq<u8>, StationStat>, lines: Seq<Seq<u8>>, x: Seq<u8>)
    ensures
        collect_lines(m, lines.push(x)) == observe_map(
            collect_lines(m, lines),
            record_name(x),
            record_value(x),
        ),
    decreases lines.len(),
{
    let p = lines.push(x);
    if lines.len() == 0 {
        assert(p[0] == x);
        assert(p.skip(1) =~= Seq::<Seq<u8>>::empty());
        let m1 = observe_map(m, record_name(x), record_value(x));
        assert(collect_lines(m, p) == collect_lines(m1, p.skip(1)));
        assert(collect_lines(m1, p.skip(1)) == m1);
        assert(collect_lines(m, lines) == m);
    } else {
        assert(p[0] == lines[0]);
        assert(p.skip(1) =~= lines.skip(1).push(x));
        let m1 = observe_map(m, record_name(lines[0]), record_value(lines[0]));
        assert(collect_lines(m, p) == collect_lines(m1, p.skip(1)));
        lemma_collect_lines_push(m1, lines.skip(1), x);
        assert(collect_lines(m, lines) == collect_lines(m1, lines.skip(1)));
    }
}

/// A table of running statistics, one entry per station seen so far.  The
/// key and statistic sequences run in parallel; `observations` counts every
/// record ever folded in, which bounds each entry's count.
pub struct StationTable {
    pub names: Vec<Vec<u8>>,
    pub stats: Vec<StationData>,
    pub observations: u64,
}

impl View for StationTable {
    type V = Map<Seq<u8>, StationStat>;

    open spec fn view(&self) -> Map<Seq<u8>, StationStat> {
        seq_map_of(self.keys(), self.stat_seq())
    }
}

impl StationTable {
    /// The station names, in insertion order.
    pub open spec fn keys(self) -> Seq<Seq<u8>> {
        self.names@.map_values(|n: Vec<u8>| n@)
    }

    /// The statistics, in insertion order, as their models.
    pub open spec fn stat_seq(self) -> Seq<StationStat> {
        self.stats@.map_values(|d: StationData| d@)
    }

    /// Total number of records folded into the table.
    pub open spec fn total(self) -> int {
        self.observations as int
    }

    pub open spec fn wf(self) -> bool {
        &&& self.names@.len() == self.stats@.len()
        &&& unique_keys(self.keys())
        &&& forall|i: int| 0 <= i < self.stats@.len() ==> (#[trigger] self.stats@[i]).wf()
        &&& sum_counts(self.stats@) == self.observations as int
    }

    /// The empty table.
    pub fn new() -> (r: Self)
        ensures
            r.wf(),
            r@ == Map::<Seq<u8>, StationStat>::empty(),
            r.total() == 0,
            r.keys().len() == 0,
    {
        let r = StationTable { names: Vec::new(), stats: Vec::new(), observations: 0 };
        proof {
            assert(r@ =~= Map::<Seq<u8>, StationStat>::empty());
        }
        r
    }

    /// Number of distinct stations in the table.
    pub fn station_count(&self) -> (n: usize)
        requires
            self.wf(),
        ensures
            n == self.keys().len(),
    {
        self.names.len()
    }

    /// Fold one observation for `name` into the table.
    pub fn observe(&mut self, name: &[u8], value: i16)
        requires
            old(self).wf(),
            old(self).total() < u64::MAX,
        ensures
            final(self).wf(),
            final(self)@ == observe_map(old(self)@, name@, value as int),
            final(self).total() == old(self).total() + 1,
    {
        proof {
            lemma_sum_counts_nonneg(self.stats@);
        }
        match find_key(&self.names, name) {
            Some(i) => {
                proof {
                    lemma_sum_counts_elem(self.stats@, i as int);
                    lemma_key_index(self.keys(), i as int);
                }
                let mut d = self.stats[i];
                d.add_measurement(value);
                self.stats[i] = d;
                self.observations = self.observations + 1;
                proof {
                    lemma_sum_counts_update(old(self).stats@, i as int, d);
                    let ks = self.keys();
                    let m0 = old(self)@;
                    let m1 = self@;
                    assert(self.keys() =~= old(self).keys());
                    assert(self.stat_seq() =~= old(self).stat_seq().update(i as int, d@));
                    assert forall|k: Seq<u8>| #[trigger]
                        m1.contains_key(k) == observe_map(
                            m0,
                            name@,
                            value as int,
                        ).contains_key(k) && (m1.contains_key(k) ==> m1[k] == observe_map(
                        m0,
                        name@,
                        value as int,
                    )[k]) by {
                        if m1.contains_key(k) {
                            let j = key_index(ks, k);
                            if k == name@ {
                                assert(j == i as int && ks[j] == k);
                            } else {
                                assert(ks[j] == k && j != i as int);
                                assert(self.stat_seq()[j] == old(self).stat_seq()[j]);
                            }
                        }
                    }
                    assert(m1 =~= observe_map(m0, name@, value as int));
                }
            },
            None => {
                let owned = vstd::slice::slice_to_vec(name);
                self.names.push(owned);
                self.stats.push(StationData::from_initial_measurement(value));
                self.observations = self.observations + 1;
                proof {
                    let ks0 = old(self).keys();
                    let ks1 = self.keys();
                    let n = ks0.len() as int;
                    assert(ks1 =~= ks0.push(name@));
                    assert(self.stat_seq() =~= old(self).stat_seq().push(
                        singleton_stat(value as int),
                    ));
                    assert(self.stats@.drop_last() =~= old(self).stats@);
                    assert forall|i: int, j: int| 0 <= i < j < ks1.len() implies ks1[i]
                        != ks1[j] by {
                        if j == n {
                            assert(ks0[i] != name@);
                        }
                    }
                    let m0 = old(self)@;
                    let m1 = self@;
                    assert forall|k: Seq<u8>| #[trigger]
                        m1.contains_key(k) == observe_map(
                            m0,
                            name@,
                            value as int,
                        ).contains_key(k) && (m1.contains_key(k) ==> m1[k] == observe_map(
                        m0,
                        name@,
                        value as int,
                    )[k]) by {
                        if k == name@ {
                            lemma_key_index(ks1, n);
                            assert(m1.contains_key(k) && m1[k] == singleton_stat(value as int));
                        } else {
                            if m1.contains_key(k) {
                                let j = key_index(ks1, k);
                                assert(ks1[j] == k && j < n);
                                assert(ks0[j] == k);
                                lemma_key_index(ks0, j);
                                assert(m0.contains_key(k) && m0[k] == m1[k]);
                            }
                            if m0.contains_key(k) {
                                let j = key_index(ks0, k);
                                assert(ks0[j] == k && ks1[j] == k);
                                assert(m1.contains_key(k));
                            }
                        }
                    }
                    assert(m1 =~= observe_map(m0, name@, value as int));
                }
            },
        }
    }
}

/// Point-wise union of two tables: statistics of shared keys are combined,
/// all other entries are kept as they are.
pub open spec fn merge_maps(
    a: Map<Seq<u8>, StationStat>,
    b: Map<Seq<u8>, StationStat>,
) -> Map<Seq<u8>, StationStat> {
    Map::new(
        |k: Seq<u8>| a.contains_key(k) || b.contains_key(k),
        |k: Seq<u8>|
            if a.contains_key(k) && b.contains_key(k) {
                combine_stat(a[k], b[k])
            } else if b.contains_key(k) {
                b[k]
            } else {
                a[k]
            },
    )
}

pub proof fn lemma_merge_empty(a: Map<Seq<u8>, StationStat>)
    ensures
        merge_maps(a, Map::<Seq<u8>, StationStat>::empty()) == a,
{
    assert(merge_maps(a, Map::<Seq<u8>, StationStat>::empty()) =~= a);
}

/// Folding one fresh entry of the right table into a running union.
pub proof fn lemma_merge_insert(
    a: Map<Seq<u8>, StationStat>,
    b: Map<Seq<u8>, StationStat>,
    k: Seq<u8>,
    v: StationStat,
)
    requires
        !b.contains_key(k),
    ensures
        a.contains_key(k) ==> merge_maps(a, b.insert(k, v)) == merge_maps(a, b).insert(
            k,
            combine_stat(a[k], v),
        ),
        !a.contains_key(k) ==> merge_maps(a, b.insert(k, v)) == merge_maps(a, b).insert(k, v),
{
    if a.contains_key(k) {
        assert(merge_maps(a, b.insert(k, v)) =~= merge_maps(a, b).insert(
            k,
            combine_stat(a[k], v),
        ));
    } else {
        assert(merge_maps(a, b.insert(k, v)) =~= merge_maps(a, b).insert(k, v));
    }
}

/// Updating the statistic of an existing key rewrites exactly that key.
pub proof fn lemma_seq_map_update(ks: Seq<Seq<u8>>, vs: Seq<StationStat>, i: int, w: StationStat)
    requires
        unique_keys(ks),
        ks.len() == vs.len(),
        0 <= i < ks.len(),
    ensures
        seq_map_of(ks, vs.update(i, w)) == seq_map_of(ks, vs).insert(ks[i], w),
{
    lemma_key_index(ks, i);
    let m1 = seq_map_of(ks, vs.update(i, w));
    let m2 = seq_map_of(ks, vs).insert(ks[i], w);
    assert forall|k: Seq<u8>| #[trigger] m1.contains_key(k) == m2.contains_key(k) && (
    m1.contains_key(k) ==> m1[k] == m2[k]) by {
        if m1.contains_key(k) {
            let j = key_index(ks, k);
            if k == ks[i] {
                assert(j == i);
            } else {
                assert(ks[j] == k && j != i);
            }
        }
    }
    assert(m1 =~= m2);
}

/// Appending an entry with a fresh key inserts exactly that key.
pub proof fn lemma_seq_map_push(ks: Seq<Seq<u8>>, vs: Seq<StationStat>, k: Seq<u8>, w: StationStat)
    requires
        unique_keys(ks),
        ks.len() == vs.len(),
        !has_key(ks, k),
    ensures
        unique_keys(ks.push(k)),
        seq_map_of(ks.push(k), vs.push(w)) == seq_map_of(ks, vs).insert(k, w),
{
    let n = ks.len() as int;
    let ks1 = ks.push(k);
    assert forall|i: int, j: int| 0 <= i < j < ks1.len() implies ks1[i] != ks1[j] by {
        if j == n {
            assert(ks[i] != k);
        }
    }
    let m1 = seq_map_of(ks1, vs.push(w));
    let m2 = seq_map_of(ks, vs).insert(k, w);
    assert forall|q: Seq<u8>| #[trigger] m1.contains_key(q) == m2.contains_key(q) && (
    m1.contains_key(q) ==> m1[q] == m2[q]) by {
        if q == k {
            lemma_key_index(ks1, n);
        } else {
            if m1.contains_key(q) {
                let j = key_index(ks1, q);
                assert(ks1[j] == q && j < n);
                assert(ks[j] == q);
                lemma_key_index(ks, j);
            }
            if m2.contains_key(q) {
                let j = key_index(ks, q);
                assert(ks[j] == q && ks1[j] == q);
                lemma_key_index(ks1, j);
            }
        }
    }
    assert(m1 =~= m2);
}

pub proof fn lemma_unique_take(ks: Seq<Seq<u8>>, j: int)
    requires
        unique_keys(ks),
        0 <= j <= ks.len(),
    ensures
        unique_keys(ks.take(j)),
{
    assert forall|a: int, b: int| 0 <= a < b < j implies ks.take(j)[a] != ks.take(j)[b] by {
        assert(ks[a] != ks[b]);
    }
}

/// The map of a one-longer prefix is the map of the prefix with the next
/// entry inserted; the next key is always fresh.
pub proof fn lemma_seq_map_take_step(ks: Seq<Seq<u8>>, vs: Seq<StationStat>, j: int)
    requires
        unique_keys(ks),
        ks.len() == vs.len(),
        0 <= j < ks.len(),
    ensures
        !has_key(ks.take(j), ks[j]),
        seq_map_of(ks.take(j + 1), vs.take(j + 1)) == seq_map_of(ks.take(j), vs.take(j)).insert(
            ks[j],
            vs[j],
        ),
{
    lemma_unique_take(ks, j);
    assert(!has_key(ks.take(j), ks[j])) by {
        if has_key(ks.take(j), ks[j]) {
            let i = choose|i: int| 0 <= i < ks.take(j).len() && #[trigger] ks.take(j)[i] == ks[j];
            assert(ks[i] == ks[j] && i < j);
        }
    }
    assert(ks.take(j + 1) =~= ks.take(j).push(ks[j]));
    assert(vs.take(j + 1) =~= vs.take(j).push(vs[j]));
    lemma_seq_map_push(ks.take(j), vs.take(j), ks[j], vs[j]);
}

pub proof fn lemma_sum_counts_take_step(s: Seq<StationData>, j: int)
    requires
        0 <= j < s.len(),
    ensures
        sum_counts(s.take(j + 1)) == sum_counts(s.take(j)) + s[j].count,
{
    assert(s.take(j + 1).drop_last() =~= s.take(j));
    assert(s.take(j + 1).last() == s[j]);
}

pub proof fn lemma_sum_counts_take_le(s: Seq<StationData>, j: int)
    requires
        0 <= j <= s.len(),
    ensures
        sum_counts(s.take(j)) <= sum_counts(s),
    decreases s.len() - j,
{
    if j < s.len() {
        lemma_sum_counts_take_step(s, j);
        lemma_sum_counts_take_le(s, j + 1);
    } else {
        assert(s.take(j) =~= s);
    }
}

/// Parse every record of `chunk` and fold it into `table`.  The chunk must
/// consist of whole records: lines separated by the record terminator, with
/// no terminator after the last one.  On the first malformed record the
/// whole call fails; the table may then hold a partial result, which the
/// pipeline discards.
pub fn collect_measurements(table: &mut StationTable, chunk: &[u8]) -> (r: Result<
    (),
    PipelineError,
>)
    requires
        old(table).wf(),
        old(table).total() + chunk@.len() <= u64::MAX,
    ensures
        final(table).wf(),
        r is Ok <==> lines_all_valid(split_lines(chunk@)),
        r is Ok ==> final(table)@ == collect_lines(old(table)@, split_lines(chunk@)),
        r is Ok ==> final(table).total() == old(table).total() + split_lines(chunk@).len()
            && final(table).total() <= old(table).total() + chunk@.len(),
        r matches Err(e) ==> e == PipelineError::RecordFormatFailure,
{
    let n = chunk.len();
    let ghost lines = split_lines(chunk@);
    let ghost m0 = old(table)@;
    let ghost t0 = old(table).total();
    let mut pos: usize = 0;
    let ghost mut k: int = 0;
    let mut done = false;
    proof {
        assert(chunk@.skip(0) =~= chunk@);
        assert(lines.skip(0) =~= lines);
        assert(lines.take(0) =~= Seq::<Seq<u8>>::empty());
    }
    while !done
        invariant
            table.wf(),
            n == chunk@.len(),
            0 <= pos <= n,
            lines == split_lines(chunk@),
            0 <= k <= lines.len(),
            !done ==> lines.skip(k) == split_lines(chunk@.skip(pos as int)),
            !done ==> 2 * k <= pos,
            done ==> k == lines.len() && k <= n,
            table@ == collect_lines(m0, lines.take(k)),
            forall|i: int| 0 <= i < k ==> record_valid(#[trigger] lines[i]),
            table.total() == t0 + k,
            t0 + n <= u64::MAX,
        decreases (n - pos) + (if done {
            0int
        } else {
            1int
        }),
    {
        let mut j: usize = pos;
        while j < n && chunk[j] != RECORD_TERMINATOR
            invariant
                pos <= j <= n,
                n == chunk@.len(),
                forall|t: int| pos <= t < j ==> chunk@[t] != RECORD_TERMINATOR,
            decreases n - j,
        {
            j = j + 1;
        }
        let line = vstd::slice::slice_subrange(chunk, pos, j);
        proof {
            let rest = chunk@.skip(pos as int);
            if j < n {
                assert(rest[j - pos] == RECORD_TERMINATOR);
                assert(contains_byte(rest, RECORD_TERMINATOR));
                lemma_first_index_of(rest, RECORD_TERMINATOR);
                let f = first_index_of(rest, RECORD_TERMINATOR);
                assert forall|t: int| 0 <= t < j - pos implies rest[t] != RECORD_TERMINATOR by {
                    assert(rest[t] == chunk@[pos + t]);
                }
                assert(f == j - pos) by {
                    assert(!(f < j - pos) && !(j - pos < f));
                }
                assert(rest.take(j - pos) =~= line@);
                assert(rest.skip(j - pos + 1) =~= chunk@.skip(j + 1));
                assert(split_lines(rest) == seq![line@] + split_lines(chunk@.skip(j + 1)));
            } else {
                assert(!contains_byte(rest, RECORD_TERMINATOR)) by {
                    if contains_byte(rest, RECORD_TERMINATOR) {
                        let t = choose|t: int|
                            0 <= t < rest.len() && #[trigger] rest[t] == RECORD_TERMINATOR;
                        assert(chunk@[pos + t] == RECORD_TERMINATOR);
                    }
                }
                assert(rest =~= line@);
                assert(split_lines(rest) == seq![line@]);
            }
            assert(split_lines(chunk@.skip(pos as int)).len() >= 1);
            assert(lines.skip(k).len() >= 1);
            assert(0 <= k < lines.len());
            assert(lines.skip(k)[0] == lines[k]);
            assert(lines[k] == line@);
        }
        match parse_measurement(line) {
            Err(e) => {
                proof {
                    assert(!record_valid(lines[k]));
                }
                return Err(e);
            },
            Ok((name, value)) => {
                proof {
                    crate::measurement::lemma_separator_index(line@);
                    assert(line@.len() >= 1);
                }
                table.observe(name.as_slice(), value);
                proof {
                    lemma_collect_lines_push(m0, lines.take(k), lines[k]);
                    assert(lines.take(k + 1) =~= lines.take(k).push(lines[k]));
                    k = k + 1;
                }
            },
        }
        if j == n {
            done = true;
            proof {
                assert(lines.skip(k - 1).len() == 1);
                assert(k == lines.len());
            }
        } else {
            pos = j + 1;
            proof {
                assert(lines.skip(k) =~= lines.skip(k - 1).skip(1));
                assert((seq![lines[k - 1]] + split_lines(chunk@.skip(pos as int))).skip(1)
                    =~= split_lines(chunk@.skip(pos as int)));
            }
        }
    }
    proof {
        assert(lines.take(k) =~= lines);
    }
    Ok(())
}

/// Fold every entry of `other` into `self`: statistics of stations present
/// in both tables are combined, the rest are inserted.
pub fn merge_from(table: &mut StationTable, other: StationTable)
    requires
        old(table).wf(),
        other.wf(),
        old(table).total() + other.total() <= u64::MAX,
    ensures
        final(table).wf(),
        final(table)@ == merge_maps(old(table)@, other@),
        final(table).total() == old(table).total() + other.total(),
{
    let ghost m0 = old(table)@;
    let ghost t0 = old(table).total();
    let ghost oks = other.keys();
    let ghost ovs = other.stat_seq();
    let m = other.names.len();
    proof {
        assert(oks.take(0) =~= Seq::<Seq<u8>>::empty());
        assert(ovs.take(0) =~= Seq::<StationStat>::empty());
        assert(other.stats@.take(0) =~= Seq::<StationData>::empty());
        assert(seq_map_of(oks.take(0), ovs.take(0)) =~= Map::<Seq<u8>, StationStat>::empty());
        lemma_merge_empty(m0);
    }
    let mut j: usize = 0;
    while j < m
        invariant
            table.wf(),
            other.wf(),
            oks == other.keys(),
            ovs == other.stat_seq(),
            m == other.names@.len(),
            0 <= j <= m,
            table@ == merge_maps(m0, seq_map_of(oks.take(j as int), ovs.take(j as int))),
            table.total() == t0 + sum_counts(other.stats@.take(j as int)),
            t0 + other.total() <= u64::MAX,
            t0 >= 0,
        decreases m - j,
    {
        let d2 = other.stats[j];
        proof {
            lemma_sum_counts_take_step(other.stats@, j as int);
            lemma_sum_counts_take_le(other.stats@, j + 1);
            assert(other.stats@[j as int].wf());
            assert(ovs[j as int] == d2@);
            assert(oks[j as int] == other.names@[j as int]@);
            lemma_seq_map_take_step(oks, ovs, j as int);
        }
        let ghost pre = *table;
        let ghost mj = seq_map_of(oks.take(j as int), ovs.take(j as int));
        match find_key(&table.names, other.names[j].as_slice()) {
            Some(i) => {
                proof {
                    lemma_sum_counts_elem(table.stats@, i as int);
                    lemma_key_index(table.keys(), i as int);
                    assert(table@.contains_key(oks[j as int]));
                    assert(table@[oks[j as int]] == table.stat_seq()[i as int]);
                    assert(!mj.contains_key(oks[j as int]));
                    assert(m0.contains_key(oks[j as int]) && m0[oks[j as int]]
                        == table.stat_seq()[i as int]);
                }
                let mut d = table.stats[i];
                d.combine(d2);
                table.stats[i] = d;
                table.observations = table.observations + d2.count;
                proof {
                    lemma_sum_counts_update(pre.stats@, i as int, d);
                    assert(table.keys() =~= pre.keys());
                    assert(table.stat_seq() =~= pre.stat_seq().update(i as int, d@));
                    lemma_seq_map_update(pre.keys(), pre.stat_seq(), i as int, d@);
                    lemma_merge_insert(m0, mj, oks[j as int], ovs[j as int]);
                }
            },
            None => {
                let owned = vstd::slice::slice_to_vec(other.names[j].as_slice());
                table.names.push(owned);
                table.stats.push(d2);
                table.observations = table.observations + d2.count;
                proof {
                    assert(!has_key(pre.keys(), oks[j as int]));
                    assert(!pre@.contains_key(oks[j as int]));
                    assert(!m0.contains_key(oks[j as int]));
                    assert(table.keys() =~= pre.keys().push(oks[j as int]));
                    assert(table.stat_seq() =~= pre.stat_seq().push(d2@));
                    assert(table.stats@.drop_last() =~= pre.stats@);
                    lemma_seq_map_push(pre.keys(), pre.stat_seq(), oks[j as int], d2@);
                    lemma_merge_insert(m0, mj, oks[j as int], ovs[j as int]);
                }
            },
        }
        j = j + 1;
    }
    proof {
        assert(oks.take(m as int) =~= oks);
        assert(ovs.take(m as int) =~= ovs);
        assert(other.stats@.take(m as int) =~= other.stats@);
    }
}

/// Sum of the observation totals of a sequence of tables.
pub open spec fn sum_totals(ts: Seq<StationTable>) -> int
    decreases ts.len(),
{
    if ts.len() == 0 {
        0
    } else {
        sum_totals(ts.drop_last()) + ts.last().total()
    }
}

pub proof fn lemma_sum_totals_take_step(ts: Seq<StationTable>, j: int)
    requires
        0 <= j < ts.len(),
    ensures
        sum_totals(ts.take(j + 1)) == sum_totals(ts.take(j)) + ts[j].total(),
{
    assert(ts.take(j + 1).drop_last() =~= ts.take(j));
    assert(ts.take(j + 1).last() == ts[j]);
}

pub proof fn lemma_sum_totals_take_le(ts: Seq<StationTable>, j: int)
    requires
        0 <= j <= ts.len(),
        forall|i: int| 0 <= i < ts.len() ==> (#[trigger] ts[i]).total() >= 0,
    ensures
        sum_totals(ts.take(j)) <= sum_totals(ts),
    decreases ts.len() - j,
{
    if j < ts.len() {
        lemma_sum_totals_take_step(ts, j);
        lemma_sum_totals_take_le(ts, j + 1);
    } else {
        assert(ts.take(j) =~= ts);
    }
}

/// Left fold of a sequence of tables by point-wise union.
pub open spec fn merge_all(ms: Seq<Map<Seq<u8>, StationStat>>) -> Map<Seq<u8>, StationStat>
    decreases ms.len(),
{
    if ms.len() <= 1 {
        ms[0]
    } else {
        merge_maps(merge_all(ms.drop_last()), ms.last())
    }
}

/// Reduce the per-worker tables into one global table.  At least one table
/// must be present: merging nothing is a configuration error, not an empty
/// report.
pub fn merge_measurements(tables: Vec<StationTable>) -> (r: StationTable)
    requires
        tables@.len() >= 1,
        forall|i: int| 0 <= i < tables@.len() ==> (#[trigger] tables@[i]).wf(),
        sum_totals(tables@) <= u64::MAX,
    ensures
        r.wf(),
        r@ == merge_all(tables@.map_values(|t: StationTable| t@)),
        r.total() == sum_totals(tables@),
{
    let ghost orig = tables@;
    let ghost maps = tables@.map_values(|t: StationTable| t@);
    let mut rest = tables;
    let mut acc = rest.remove(0);
    let ghost mut k: int = 1;
    proof {
        assert(rest@ =~= orig.skip(1));
        assert(maps.take(1)[0] == maps[0]);
        assert(acc@ == merge_all(maps.take(1)));
        assert(orig.take(1).drop_last() =~= Seq::<StationTable>::empty());
        assert(orig.take(1).last() == orig[0]);
        assert(sum_totals(Seq::<StationTable>::empty()) == 0);
        assert(acc.total() == sum_totals(orig.take(1)));
        assert(orig[0].wf());
    }
    while rest.len() > 0
        invariant
            1 <= k <= orig.len(),
            rest@ == orig.skip(k),
            maps == orig.map_values(|t: StationTable| t@),
            acc.wf(),
            acc@ == merge_all(maps.take(k)),
            acc.total() == sum_totals(orig.take(k)),
            forall|i: int| 0 <= i < orig.len() ==> (#[trigger] orig[i]).wf(),
            sum_totals(orig) <= u64::MAX,
        decreases orig.len() - k,
    {
        let t = rest.remove(0);
        proof {
            assert(t == orig[k]);
            assert(rest@ =~= orig.skip(k + 1));
            lemma_sum_totals_take_step(orig, k);
            assert forall|i: int| 0 <= i < orig.len() implies (#[trigger] orig[i]).total()
                >= 0 by {}
            lemma_sum_totals_take_le(orig, k + 1);
        }
        merge_from(&mut acc, t);
        proof {
            k = k + 1;
            assert(maps.take(k).drop_last() =~= maps.take(k - 1));
            assert(maps.take(k).last() == maps[k - 1]);
            assert(maps[k - 1] == orig[k - 1]@);
        }
    }
    proof {
        assert(maps.take(k) =~= maps);
        assert(orig.take(k) =~= orig);
    }
    acc
}

/// Point-wise union does not depend on the order of the two tables.
pub proof fn lemma_merge_commutative(a: Map<Seq<u8>, StationStat>, b: Map<Seq<u8>, StationStat>)
    ensures
        merge_maps(a, b) == merge_maps(b, a),
{
    let m1 = merge_maps(a, b);
    let m2 = merge_maps(b, a);
    assert forall|k: Seq<u8>| #[trigger] m1.contains_key(k) == m2.contains_key(k) && (
    m1.contains_key(k) ==> m1[k] == m2[k]) by {
        if a.contains_key(k) && b.contains_key(k) {
            crate::station_data::lemma_combine_commutative(a[k], b[k]);
        }
    }
    assert(m1 =~= m2);
}

/// Point-wise union does not depend on how the tables are grouped.
pub proof fn lemma_merge_associative(
    a: Map<Seq<u8>, StationStat>,
    b: Map<Seq<u8>, StationStat>,
    c: Map<Seq<u8>, StationStat>,
)
    ensures
        merge_maps(merge_maps(a, b), c) == merge_maps(a, merge_maps(b, c)),
{
    let m1 = merge_maps(merge_maps(a, b), c);
    let m2 = merge_maps(a, merge_maps(b, c));
    assert forall|k: Seq<u8>| #[trigger] m1.contains_key(k) == m2.contains_key(k) && (
    m1.contains_key(k) ==> m1[k] == m2[k]) by {
        if a.contains_key(k) && b.contains_key(k) && c.contains_key(k) {
            crate::station_data::lemma_combine_associative(a[k], b[k], c[k]);
        }
    }
    assert(m1 =~= m2);
}

/// Observing one record is merging with the one-record table of its station.
pub proof fn lemma_observe_is_merge(m: Map<Seq<u8>, StationStat>, k: Seq<u8>, v: int)
    ensures
        observe_map(m, k, v) == merge_maps(
            m,
            Map::<Seq<u8>, StationStat>::empty().insert(k, singleton_stat(v)),
        ),
{
    let s = Map::<Seq<u8>, StationStat>::empty().insert(k, singleton_stat(v));
    assert(observe_map(m, k, v) =~= merge_maps(m, s));
}

/// Collecting a run of records continues from the table so far.
pub proof fn lemma_collect_lines_append(
    m: Map<Seq<u8>, StationStat>,
    l1: Seq<Seq<u8>>,
    l2: Seq<Seq<u8>>,
)
    ensures
        collect_lines(m, l1 + l2) == collect_lines(collect_lines(m, l1), l2),
    decreases l1.len(),
{
    if l1.len() == 0 {
        assert(l1 + l2 =~= l2);
    } else {
        assert((l1 + l2)[0] == l1[0]);
        assert((l1 + l2).skip(1) =~= l1.skip(1) + l2);
        let m1 = observe_map(m, record_name(l1[0]), record_value(l1[0]));
        assert(collect_lines(m, l1 + l2) == collect_lines(m1, (l1 + l2).skip(1)));
        lemma_collect_lines_append(m1, l1.skip(1), l2);
    }
}

/// Collecting records into a table equals collecting them into an empty
/// table and merging the result in.
pub proof fn lemma_collect_lines_as_merge(m: Map<Seq<u8>, StationStat>, ls: Seq<Seq<u8>>)
    ensures
        collect_lines(m, ls) == merge_maps(
            m,
            collect_lines(Map::<Seq<u8>, StationStat>::empty(), ls),
        ),
    decreases ls.len(),
{
    let empty = Map::<Seq<u8>, StationStat>::empty();
    if ls.len() == 0 {
        lemma_merge_empty(m);
    } else {
        let x = ls[0];
        let rest = ls.skip(1);
        let k = record_name(x);
        let v = record_value(x);
        let single = empty.insert(k, singleton_stat(v));
        lemma_collect_lines_as_merge(observe_map(m, k, v), rest);
        lemma_collect_lines_as_merge(observe_map(empty, k, v), rest);
        lemma_observe_is_merge(m, k, v);
        lemma_observe_is_merge(empty, k, v);
        assert(observe_map(empty, k, v) =~= single);
        lemma_merge_empty(single);
        lemma_merge_associative(m, single, collect_lines(empty, rest));
        assert(collect_lines(empty, ls) == collect_lines(observe_map(empty, k, v), rest));
    }
}

/// A record set split in two, with the halves processed independently and
/// the two tables merged, yields exactly the table of processing the whole
/// set at once.
pub proof fn lemma_partition_two(l1: Seq<Seq<u8>>, l2: Seq<Seq<u8>>)
    ensures
        collect_lines(Map::<Seq<u8>, StationStat>::empty(), l1 + l2) == merge_maps(
            collect_lines(Map::<Seq<u8>, StationStat>::empty(), l1),
            collect_lines(Map::<Seq<u8>, StationStat>::empty(), l2),
        ),
{
    let empty = Map::<Seq<u8>, StationStat>::empty();
    lemma_collect_lines_append(empty, l1, l2);
    lemma_collect_lines_as_merge(collect_lines(empty, l1), l2);
}

/// The records of a sequence of groups, in order.
pub open spec fn concat_groups(gs: Seq<Seq<Seq<u8>>>) -> Seq<Seq<u8>>
    decreases gs.len(),
{
    if gs.len() == 0 {
        Seq::empty()
    } else {
        concat_groups(gs.drop_last()) + gs.last()
    }
}

/// A record set split into any number of groups, each processed
/// independently and the tables merged, yields exactly the table of
/// processing the whole set at once.
pub proof fn lemma_partition(gs: Seq<Seq<Seq<u8>>>)
    requires
        gs.len() >= 1,
    ensures
        collect_lines(Map::<Seq<u8>, StationStat>::empty(), concat_groups(gs)) == merge_all(
            gs.map_values(|g: Seq<Seq<u8>>| collect_lines(Map::<Seq<u8>, StationStat>::empty(), g)),
        ),
    decreases gs.len(),
{
    let empty = Map::<Seq<u8>, StationStat>::empty();
    let maps = gs.map_values(|g: Seq<Seq<u8>>| collect_lines(empty, g));
    if gs.len() == 1 {
        assert(concat_groups(gs.drop_last()) == Seq::<Seq<u8>>::empty());
        assert(concat_groups(gs) =~= gs[0]);
        assert(maps[0] == collect_lines(empty, gs[0]));
    } else {
        lemma_partition(gs.drop_last());
        lemma_partition_two(concat_groups(gs.drop_last()), gs.last());
        assert(maps.drop_last() =~= gs.drop_last().map_values(
            |g: Seq<Seq<u8>>| collect_lines(empty, g),
        ));
        assert(maps.last() == collect_lines(empty, gs.last()));
    }
}

/// Byte-wise equality of two slices.
pub fn bytes_equal(a: &[u8], b: &[u8]) -> (r: bool)
    ensures
        r == (a@ == b@),
{
    if a.len() != b.len() {
        return false;
    }
    let mut i: usize = 0;
    while i < a.len()
        invariant
            0 <= i <= a@.len(),
            a@.len() == b@.len(),
            forall|j: int| 0 <= j < i ==> a@[j] == b@[j],
        decreases a@.len() - i,
    {
        if a[i] != b[i] {
            return false;
        }
        i = i + 1;
    }
    proof {
        assert(a@ =~= b@);
    }
    true
}

/// Linear scan for `name` among the table's keys.
fn find_key(names: &Vec<Vec<u8>>, name: &[u8]) -> (r: Option<usize>)
    ensures
        match r {
            Some(i) => 0 <= i < names@.len() && names@[i as int]@ == name@,
            None => forall|j: int| 0 <= j < names@.len() ==> (#[trigger] names@[j])@ != name@,
        },
{
    let mut i: usize = 0;
    while i < names.len()
        invariant
            0 <= i <= names@.len(),
            forall|j: int| 0 <= j < i ==> (#[trigger] names@[j])@ != name@,
        decreases names@.len() - i,
    {
        if bytes_equal(names[i].as_slice(), name) {
            return Some(i);
        }
        i = i + 1;
    }
    None
}

} // verus!
