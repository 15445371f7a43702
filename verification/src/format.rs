//! Rendering the global table as a sorted report.
//!
//! Every number is rendered from the exact integer statistics with one
//! decimal digit; the mean is rounded half away from zero, never to even.
//! Station names are checked to be valid UTF-8 here and nowhere earlier.

use crate::measurement::{
    digits_value, has_digit, is_ascii_digit, value_digits, value_negative, value_of, value_valid,
};
use crate::station_data::{StationData, StationStat};
use crate::table::{
    has_key, key_index, lemma_key_index, lemma_seq_map_take_step, seq_map_of, unique_keys,
    StationTable,
};
use crate::PipelineError;
use vstd::arithmetic::div_mod::{
    lemma_div_decreases, lemma_div_is_ordered, lemma_div_multiples_vanish_fancy,
    lemma_div_pos_is_pos, lemma_fundamental_div_mod,
};
use vstd::prelude::*;
use vstd::string::StringExecFns;
use vstd::utf8::{decode_utf8, valid_utf8};

verus! {

pub open spec fn digit_char(d: int) -> char {
    if d == 0 {
        '0'
    } else if d == 1 {
        '1'
    } else if d == 2 {
        '2'
    } else if d == 3 {
        '3'
    } else if d == 4 {
        '4'
    } else if d == 5 {
        '5'
    } else if d == 6 {
        '6'
    } else if d == 7 {
        '7'
    } else if d == 8 {
        '8'
    } else {
        '9'
    }
}

/// The decimal digits of a non-negative integer, most significant first.
pub open spec fn dec_chars(n: int) -> Seq<char>
    decreases n,
{
    if n < 10 {
        seq![digit_char(n)]
    } else {
        dec_chars(n / 10).push(digit_char(n % 10))
    }
}

/// A fixed-point value rendered with exactly one decimal digit: the value
/// descaled by ten, a point, and the final digit, after an optional sign.
pub open spec fn render_magnitude(m: int) -> Seq<char> {
    dec_chars(m / 10) + seq!['.', digit_char(m % 10)]
}

pub open spec fn render_fixed(v: int) -> Seq<char> {
    if v < 0 {
        seq!['-'] + render_magnitude(-v)
    } else {
        render_magnitude(v)
    }
}

/// The mean of a statistic in tenths, rounded half away from zero:
/// the quotient of the doubled magnitude plus the count by the doubled
/// count, signed back.
pub open spec fn mean_rounded(sum: int, count: int) -> int {
    if count <= 0 {
        0
    } else if sum >= 0 {
        (2 * sum + count) / (2 * count)
    } else {
        -((2 * (-sum) + count) / (2 * count))
    }
}

/// A statistic whose mean lies exactly half way between two renderable
/// values is rounded away from zero, for either sign.
pub proof fn lemma_mean_ties_away_from_zero(sum: int, count: int, q: int)
    requires
        count >= 1,
        q >= 0,
        2 * sum == (2 * q + 1) * count,
    ensures
        mean_rounded(sum, count) == q + 1,
        mean_rounded(-sum, count) == -(q + 1),
{
    assert(sum >= 0) by (nonlinear_arith)
        requires
            2 * sum == (2 * q + 1) * count,
            q >= 0,
            count >= 1,
    ;
    assert(2 * sum + count == (2 * count) * (q + 1)) by (nonlinear_arith)
        requires
            2 * sum == (2 * q + 1) * count,
    ;
    lemma_div_multiples_vanish_fancy(q + 1, 0, 2 * count);
    assert(sum != 0) by (nonlinear_arith)
        requires
            2 * sum == (2 * q + 1) * count,
            q >= 0,
            count >= 1,
    ;
    assert(mean_rounded(-sum, count) == -((2 * sum + count) / (2 * count)));
}

/// One report entry: `name=min/mean/max`.
pub open spec fn render_entry(k: Seq<u8>, st: StationStat) -> Seq<char> {
    decode_utf8(k) + seq!['='] + render_fixed(st.min) + seq!['/'] + render_fixed(
        mean_rounded(st.sum, st.count as int),
    ) + seq!['/'] + render_fixed(st.max)
}

/// The entries joined with a comma and a space.
pub open spec fn render_entries(ks: Seq<Seq<u8>>, vs: Seq<StationStat>) -> Seq<char>
    decreases ks.len(),
{
    if ks.len() == 0 {
        Seq::empty()
    } else if ks.len() == 1 {
        render_entry(ks[0], vs[0])
    } else {
        render_entries(ks.drop_last(), vs.drop_last()) + seq![',', ' '] + render_entry(
            ks.last(),
            vs.last(),
        )
    }
}

/// The whole report: the entries wrapped in braces.
pub open spec fn render_report(ks: Seq<Seq<u8>>, vs: Seq<StationStat>) -> Seq<char> {
    seq!['{'] + render_entries(ks, vs) + seq!['}']
}

/// Relies on `String::from_utf8`: it succeeds exactly on valid UTF-8 and
/// returns the string that the bytes encode.
#[verifier::external_body]
fn bytes_to_string(bytes: Vec<u8>) -> (r: Option<String>)
    ensures
        r is Some <==> valid_utf8(bytes@),
        r matches Some(s) ==> s@ == decode_utf8(bytes@),
{
    String::from_utf8(bytes).ok()
}

/// Append one decimal digit.
fn append_digit(out: &mut String, d: u8)
    requires
        d < 10,
    ensures
        final(out)@ == old(out)@ + seq![digit_char(d as int)],
{
    proof {
        reveal_strlit("0");
        reveal_strlit("1");
        reveal_strlit("2");
        reveal_strlit("3");
        reveal_strlit("4");
        reveal_strlit("5");
        reveal_strlit("6");
        reveal_strlit("7");
        reveal_strlit("8");
        reveal_strlit("9");
    }
    if d == 0 {
        out.append("0");
        proof {
            assert(old(out)@ + "0"@ =~= old(out)@ + seq![digit_char(d as int)]);
        }
    } else if d == 1 {
        out.append("1");
        proof {
            assert(old(out)@ + "1"@ =~= old(out)@ + seq![digit_char(d as int)]);
        }
    } else if d == 2 {
        out.append("2");
        proof {
            assert(old(out)@ + "2"@ =~= old(out)@ + seq![digit_char(d as int)]);
        }
    } else if d == 3 {
        out.append("3");
        proof {
            assert(old(out)@ + "3"@ =~= old(out)@ + seq![digit_char(d as int)]);
        }
    } else if d == 4 {
        out.append("4");
        proof {
            assert(old(out)@ + "4"@ =~= old(out)@ + seq![digit_char(d as int)]);
        }
    } else if d == 5 {
        out.append("5");
        proof {
            assert(old(out)@ + "5"@ =~= old(out)@ + seq![digit_char(d as int)]);
        }
    } else if d == 6 {
        out.append("6");
        proof {
            assert(old(out)@ + "6"@ =~= old(out)@ + seq![digit_char(d as int)]);
        }
    } else if d == 7 {
        out.append("7");
        proof {
            assert(old(out)@ + "7"@ =~= old(out)@ + seq![digit_char(d as int)]);
        }
    } else if d == 8 {
        out.append("8");
        proof {
            assert(old(out)@ + "8"@ =~= old(out)@ + seq![digit_char(d as int)]);
        }
    } else {
        out.append("9");
        proof {
            assert(old(out)@ + "9"@ =~= old(out)@ + seq![digit_char(d as int)]);
        }
    }
}

/// Append a non-negative integer in decimal.
fn append_number(out: &mut String, n: u64)
    ensures
        final(out)@ == old(out)@ + dec_chars(n as int),
    decreases n,
{
    if n < 10 {
        append_digit(out, n as u8);
    } else {
        proof {
            lemma_div_decreases(n as int, 10);
            lemma_div_pos_is_pos(n as int, 10);
        }
        append_number(out, n / 10);
        append_digit(out, (n % 10) as u8);
        proof {
            assert(old(out)@ + dec_chars(n as int / 10) + seq![digit_char(n as int % 10)] =~= old(
                out,
            )@ + dec_chars(n as int));
        }
    }
}

/// Append a fixed-point value with one decimal digit.
fn append_fixed(out: &mut String, v: i64)
    requires
        -0x10000 * 10 <= v <= 0x10000 * 10,
    ensures
        final(out)@ == old(out)@ + render_fixed(v as int),
{
    proof {
        reveal_strlit("-");
        reveal_strlit(".");
    }
    let m: u64 = if v < 0 {
        out.append("-");
        proof {
            assert(old(out)@ + "-"@ =~= old(out)@ + seq!['-']);
        }
        (-v) as u64
    } else {
        v as u64
    };
    let ghost base = out@;
    append_number(out, m / 10);
    out.append(".");
    append_digit(out, (m % 10) as u8);
    proof {
        assert(base + dec_chars(m as int / 10) + "."@ + seq![digit_char(m as int % 10)] =~= base
            + render_magnitude(m as int));
        if v < 0 {
            assert(old(out)@ + seq!['-'] + render_magnitude(m as int) =~= old(out)@ + render_fixed(
                v as int,
            ));
        }
    }
}

/// The rounded mean of one statistic, in tenths.
fn mean_fixed(d: &crate::station_data::StationData) -> (m: i64)
    requires
        d.wf(),
    ensures
        m == mean_rounded(d@.sum, d@.count as int),
        -0x8000 <= m <= 0x8000,
{
    proof {
        crate::station_data::lemma_stat_sum_bounds(*d);
    }
    let mag: u128 = if d.sum >= 0 {
        d.sum as u128
    } else {
        (-d.sum) as u128
    };
    let num: u128 = 2 * mag + d.count as u128;
    let den: u128 = 2 * (d.count as u128);
    let q: u128 = num / den;
    proof {
        let c = d.count as int;
        assert(num as int <= (2 * c) * 0x8000 + c) by (nonlinear_arith)
            requires
                num as int == 2 * (mag as int) + c,
                mag as int <= 0x8000 * c,
                c >= 1,
        ;
        lemma_div_is_ordered(num as int, (2 * c) * 0x8000 + c, 2 * c);
        lemma_div_multiples_vanish_fancy(0x8000, c, 2 * c);
        assert(q <= 0x8000);
    }
    if d.sum >= 0 {
        q as i64
    } else {
        -(q as i64)
    }
}

/// Strict byte-wise lexicographic order on station names.
pub open spec fn lex_lt(a: Seq<u8>, b: Seq<u8>) -> bool
    decreases a.len(),
{
    if b.len() == 0 {
        false
    } else if a.len() == 0 {
        true
    } else if a[0] < b[0] {
        true
    } else if a[0] > b[0] {
        false
    } else {
        lex_lt(a.skip(1), b.skip(1))
    }
}

/// Two distinct names are ordered one way or the other.
pub proof fn lemma_lex_trichotomy(a: Seq<u8>, b: Seq<u8>)
    requires
        a != b,
    ensures
        lex_lt(a, b) || lex_lt(b, a),
    decreases a.len(),
{
    if a.len() == 0 && b.len() == 0 {
        assert(a =~= b);
    } else if a.len() > 0 && b.len() > 0 && a[0] == b[0] {
        assert(a.skip(1) != b.skip(1)) by {
            if a.skip(1) == b.skip(1) {
                assert(a.skip(1).len() == b.skip(1).len());
                assert(a.len() == b.len());
                assert forall|i: int| 0 <= i < a.len() implies a[i] == b[i] by {
                    if i > 0 {
                        assert(a.skip(1)[i - 1] == a[i]);
                        assert(b.skip(1)[i - 1] == b[i]);
                    }
                }
                assert(a =~= b);
            }
        }
        lemma_lex_trichotomy(a.skip(1), b.skip(1));
    }
}

pub proof fn lemma_lex_transitive(a: Seq<u8>, b: Seq<u8>, c: Seq<u8>)
    requires
        lex_lt(a, b),
        lex_lt(b, c),
    ensures
        lex_lt(a, c),
    decreases a.len() + b.len() + c.len(),
{
    if a.len() > 0 && b.len() > 0 && c.len() > 0 {
        if a[0] == b[0] && b[0] == c[0] {
            lemma_lex_transitive(a.skip(1), b.skip(1), c.skip(1));
        }
    }
}

/// Byte-wise comparison of two names.
pub fn lex_lt_bytes(a: &[u8], b: &[u8]) -> (r: bool)
    ensures
        r == lex_lt(a@, b@),
{
    let mut i: usize = 0;
    proof {
        assert(a@.skip(0) =~= a@);
        assert(b@.skip(0) =~= b@);
    }
    while i < a.len() && i < b.len()
        invariant
            0 <= i <= a@.len(),
            0 <= i <= b@.len(),
            lex_lt(a@, b@) == lex_lt(a@.skip(i as int), b@.skip(i as int)),
        decreases a@.len() - i,
    {
        let x = a[i];
        let y = b[i];
        proof {
            assert(a@.skip(i as int)[0] == x);
            assert(b@.skip(i as int)[0] == y);
        }
        if x < y {
            return true;
        }
        if x > y {
            return false;
        }
        proof {
            assert(a@.skip(i as int).skip(1) =~= a@.skip(i + 1));
            assert(b@.skip(i as int).skip(1) =~= b@.skip(i + 1));
        }
        i = i + 1;
    }
    proof {
        if i == b@.len() {
            assert(b@.skip(i as int).len() == 0);
            assert(!lex_lt(a@, b@));
        } else {
            assert(i == a@.len());
            assert(a@.skip(i as int).len() == 0 && b@.skip(i as int).len() > 0);
            assert(lex_lt(a@, b@));
        }
    }
    a.len() < b.len()
}

pub proof fn lemma_lex_irreflexive(a: Seq<u8>)
    ensures
        !lex_lt(a, a),
    decreases a.len(),
{
    if a.len() > 0 {
        lemma_lex_irreflexive(a.skip(1));
    }
}

/// Every name comes strictly before every later one.
pub open spec fn strictly_sorted(ks: Seq<Seq<u8>>) -> bool {
    forall|i: int, j: int| 0 <= i < j < ks.len() ==> lex_lt(ks[i], ks[j])
}

pub proof fn lemma_strictly_sorted_unique_keys(ks: Seq<Seq<u8>>)
    requires
        strictly_sorted(ks),
    ensures
        unique_keys(ks),
{
    assert forall|i: int, j: int| 0 <= i < j < ks.len() implies ks[i] != ks[j] by {
        lemma_lex_irreflexive(ks[i]);
    }
}

/// The report order is deterministic: one mapping has exactly one strictly
/// sorted entry sequence, so the rendering does not depend on how the
/// entries were accumulated.
pub proof fn lemma_sorted_entries_unique(
    ks1: Seq<Seq<u8>>,
    vs1: Seq<StationStat>,
    ks2: Seq<Seq<u8>>,
    vs2: Seq<StationStat>,
)
    requires
        strictly_sorted(ks1),
        strictly_sorted(ks2),
        ks1.len() == vs1.len(),
        ks2.len() == vs2.len(),
        seq_map_of(ks1, vs1) == seq_map_of(ks2, vs2),
    ensures
        ks1 == ks2,
        vs1 == vs2,
    decreases ks1.len(),
{
    lemma_strictly_sorted_unique_keys(ks1);
    lemma_strictly_sorted_unique_keys(ks2);
    let m1 = seq_map_of(ks1, vs1);
    let m2 = seq_map_of(ks2, vs2);
    if ks1.len() == 0 {
        assert(ks2.len() == 0) by {
            if ks2.len() > 0 {
                lemma_key_index(ks2, 0);
                assert(m2.contains_key(ks2[0]));
                assert(has_key(ks1, ks2[0]));
                let i = choose|i: int| 0 <= i < ks1.len() && #[trigger] ks1[i] == ks2[0];
            }
        }
        assert(ks1 =~= ks2);
        assert(vs1 =~= vs2);
    } else {
        assert(ks2.len() > 0) by {
            lemma_key_index(ks1, 0);
            assert(m1.contains_key(ks1[0]));
            let i = choose|i: int| 0 <= i < ks2.len() && #[trigger] ks2[i] == ks1[0];
        }
        lemma_key_index(ks1, 0);
        lemma_key_index(ks2, 0);
        assert(m2.contains_key(ks1[0]));
        let j = key_index(ks2, ks1[0]);
        assert(ks2[j] == ks1[0]);
        assert(m1.contains_key(ks2[0]));
        let i = key_index(ks1, ks2[0]);
        assert(ks1[i] == ks2[0]);
        assert(ks1[0] == ks2[0]) by {
            if j > 0 && i > 0 {
                assert(lex_lt(ks2[0], ks2[j]) && lex_lt(ks1[0], ks1[i]));
                lemma_lex_transitive(ks1[0], ks2[0], ks1[0]);
                lemma_lex_irreflexive(ks1[0]);
            }
        }
        assert(vs1[0] == m1[ks1[0]] && vs2[0] == m2[ks2[0]]);
        let t1 = ks1.skip(1);
        let t2 = ks2.skip(1);
        let w1 = vs1.skip(1);
        let w2 = vs2.skip(1);
        assert forall|a: int, b: int| 0 <= a < b < t1.len() implies lex_lt(t1[a], t1[b]) by {
            assert(t1[a] == ks1[a + 1] && t1[b] == ks1[b + 1]);
        }
        assert forall|a: int, b: int| 0 <= a < b < t2.len() implies lex_lt(t2[a], t2[b]) by {
            assert(t2[a] == ks2[a + 1] && t2[b] == ks2[b + 1]);
        }
        assert(seq_map_of(t1, w1) =~= seq_map_of(t2, w2)) by {
            lemma_skip_map(ks1, vs1);
            lemma_skip_map(ks2, vs2);
            assert(m1.remove(ks1[0]) =~= m2.remove(ks2[0]));
        }
        lemma_sorted_entries_unique(t1, w1, t2, w2);
        assert(ks1.len() == ks2.len() && vs1.len() == vs2.len());
        assert forall|x: int| 0 <= x < ks1.len() implies ks1[x] == ks2[x] && vs1[x] == vs2[x] by {
            if x > 0 {
                assert(t1[x - 1] == ks1[x] && t2[x - 1] == ks2[x]);
                assert(w1[x - 1] == vs1[x] && w2[x - 1] == vs2[x]);
            }
        }
        assert(ks1 =~= ks2);
        assert(vs1 =~= vs2);
    }
}

/// Dropping the first entry of a table with unique keys removes exactly its
/// key from the mapping.
proof fn lemma_skip_map(ks: Seq<Seq<u8>>, vs: Seq<StationStat>)
    requires
        unique_keys(ks),
        ks.len() == vs.len(),
        ks.len() > 0,
    ensures
        seq_map_of(ks.skip(1), vs.skip(1)) == seq_map_of(ks, vs).remove(ks[0]),
{
    let t = ks.skip(1);
    let w = vs.skip(1);
    let m1 = seq_map_of(t, w);
    let m2 = seq_map_of(ks, vs).remove(ks[0]);
    assert forall|a: int, b: int| 0 <= a < b < t.len() implies t[a] != t[b] by {
        assert(t[a] == ks[a + 1] && t[b] == ks[b + 1]);
    }
    assert forall|q: Seq<u8>| #[trigger] m1.contains_key(q) == m2.contains_key(q) && (
    m1.contains_key(q) ==> m1[q] == m2[q]) by {
        if m1.contains_key(q) {
            let a = key_index(t, q);
            assert(t[a] == q && ks[a + 1] == q);
            lemma_key_index(ks, a + 1);
            assert(q != ks[0]);
        }
        if m2.contains_key(q) {
            let a = key_index(ks, q);
            assert(ks[a] == q && q != ks[0]);
            assert(a > 0);
            assert(t[a - 1] == q);
            assert forall|b: int, c: int| 0 <= b < c < t.len() implies t[b] != t[c] by {
                assert(t[b] == ks[b + 1] && t[c] == ks[c + 1]);
            }
            lemma_key_index(t, a - 1);
        }
    }
    assert(m1 =~= m2);
}

/// Inserting an entry with a fresh key anywhere inserts exactly that key.
pub proof fn lemma_seq_map_insert_at(
    ks: Seq<Seq<u8>>,
    vs: Seq<StationStat>,
    p: int,
    k: Seq<u8>,
    w: StationStat,
)
    requires
        unique_keys(ks),
        ks.len() == vs.len(),
        !has_key(ks, k),
        0 <= p <= ks.len(),
    ensures
        unique_keys(ks.insert(p, k)),
        seq_map_of(ks.insert(p, k), vs.insert(p, w)) == seq_map_of(ks, vs).insert(k, w),
{
    let ks1 = ks.insert(p, k);
    let vs1 = vs.insert(p, w);
    ks.insert_ensures(p, k);
    vs.insert_ensures(p, w);
    assert forall|i: int, j: int| 0 <= i < j < ks1.len() implies ks1[i] != ks1[j] by {
        if i == p {
            assert(ks1[j] == ks[j - 1]);
            assert(ks[j - 1] != k) by {
                if ks[j - 1] == k {
                    assert(has_key(ks, k));
                }
            }
        } else if j == p {
            assert(ks1[i] == ks[i]);
            assert(ks[i] != k) by {
                if ks[i] == k {
                    assert(has_key(ks, k));
                }
            }
        } else {
            let i0: int = if i < p {
                i
            } else {
                i - 1
            };
            let j0: int = if j < p {
                j
            } else {
                j - 1
            };
            assert(ks1[i] == ks[i0] && ks1[j] == ks[j0]);
            assert(i0 < j0);
        }
    }
    let m1 = seq_map_of(ks1, vs1);
    let m2 = seq_map_of(ks, vs).insert(k, w);
    assert forall|q: Seq<u8>| #[trigger] m1.contains_key(q) == m2.contains_key(q) && (
    m1.contains_key(q) ==> m1[q] == m2[q]) by {
        if q == k {
            assert(ks1[p] == k);
            lemma_key_index(ks1, p);
            assert(vs1[p] == w);
        } else {
            if m1.contains_key(q) {
                let j = key_index(ks1, q);
                assert(ks1[j] == q && j != p);
                let j0: int = if j < p {
                    j
                } else {
                    j - 1
                };
                assert(ks[j0] == q && vs1[j] == vs[j0]);
                lemma_key_index(ks, j0);
            }
            if m2.contains_key(q) {
                let j = key_index(ks, q);
                assert(ks[j] == q);
                let j1: int = if j < p {
                    j
                } else {
                    j + 1
                };
                assert(ks1[j1] == q);
                lemma_key_index(ks1, j1);
            }
        }
    }
    assert(m1 =~= m2);
}

/// The names of a sequence of owned name buffers.
pub open spec fn name_views(ns: Seq<Vec<u8>>) -> Seq<Seq<u8>> {
    ns.map_values(|n: Vec<u8>| n@)
}

/// The models of a sequence of statistics.
pub open spec fn stat_views(ds: Seq<StationData>) -> Seq<StationStat> {
    ds.map_values(|d: StationData| d@)
}

/// Copy the table's entries into parallel vectors sorted strictly by name.
fn sorted_copy(table: &StationTable) -> (r: (Vec<Vec<u8>>, Vec<StationData>))
    requires
        table.wf(),
    ensures
        r.0@.len() == r.1@.len() == table.keys().len(),
        unique_keys(name_views(r.0@)),
        strictly_sorted(name_views(r.0@)),
        seq_map_of(name_views(r.0@), stat_views(r.1@)) == table@,
        forall|i: int| 0 <= i < r.1@.len() ==> (#[trigger] r.1@[i]).wf(),
{
    let ghost tks = table.keys();
    let ghost tvs = table.stat_seq();
    let mut ns: Vec<Vec<u8>> = Vec::new();
    let mut ds: Vec<StationData> = Vec::new();
    let n = table.names.len();
    let mut idx: usize = 0;
    proof {
        assert(name_views(ns@) =~= Seq::<Seq<u8>>::empty());
        assert(stat_views(ds@) =~= Seq::<StationStat>::empty());
        assert(tks.take(0) =~= Seq::<Seq<u8>>::empty());
        assert(tvs.take(0) =~= Seq::<StationStat>::empty());
        assert(seq_map_of(name_views(ns@), stat_views(ds@)) =~= seq_map_of(
            tks.take(0),
            tvs.take(0),
        ));
    }
    while idx < n
        invariant
            table.wf(),
            tks == table.keys(),
            tvs == table.stat_seq(),
            n == table.names@.len(),
            0 <= idx <= n,
            ns@.len() == ds@.len() == idx,
            unique_keys(name_views(ns@)),
            strictly_sorted(name_views(ns@)),
            seq_map_of(name_views(ns@), stat_views(ds@)) == seq_map_of(
                tks.take(idx as int),
                tvs.take(idx as int),
            ),
            forall|i: int| 0 <= i < ds@.len() ==> (#[trigger] ds@[i]).wf(),
        decreases n - idx,
    {
        let ghost ks0 = name_views(ns@);
        let ghost vs0 = stat_views(ds@);
        let ghost key = tks[idx as int];
        proof {
            lemma_seq_map_take_step(tks, tvs, idx as int);
            assert(!has_key(ks0, key)) by {
                if has_key(ks0, key) {
                    assert(seq_map_of(ks0, vs0).contains_key(key));
                    assert(has_key(tks.take(idx as int), key));
                }
            }
        }
        let name = vstd::slice::slice_to_vec(table.names[idx].as_slice());
        let stat = table.stats[idx];
        let mut p: usize = 0;
        while p < ns.len() && lex_lt_bytes(ns[p].as_slice(), name.as_slice())
            invariant
                0 <= p <= ns@.len(),
                ks0 == name_views(ns@),
                name@ == key,
                forall|t: int| 0 <= t < p ==> lex_lt(#[trigger] ks0[t], key),
            decreases ns@.len() - p,
        {
            proof {
                assert(ks0[p as int] == ns@[p as int]@);
            }
            p = p + 1;
        }
        proof {
            if p < ns@.len() {
                assert(ks0[p as int] == ns@[p as int]@);
                assert(!lex_lt(ks0[p as int], key));
                assert(ks0[p as int] != key) by {
                    if ks0[p as int] == key {
                        assert(has_key(ks0, key));
                    }
                }
                lemma_lex_trichotomy(ks0[p as int], key);
            }
        }
        ns.insert(p, name);
        ds.insert(p, stat);
        proof {
            assert(name_views(ns@) =~= ks0.insert(p as int, key));
            assert(stat_views(ds@) =~= vs0.insert(p as int, stat@));
            lemma_seq_map_insert_at(ks0, vs0, p as int, key, stat@);
            assert(stat@ == tvs[idx as int]);
            let ks1 = name_views(ns@);
            ks0.insert_ensures(p as int, key);
            vs0.insert_ensures(p as int, stat@);
            assert forall|i: int, j: int| 0 <= i < j < ks1.len() implies lex_lt(
                ks1[i],
                ks1[j],
            ) by {
                if i == p {
                    assert(ks1[j] == ks0[j - 1]);
                    if !lex_lt(key, ks0[j - 1]) {
                        assert(p as int <= j - 1 < ks0.len());
                        assert(lex_lt(ks0[p as int], key) || lex_lt(key, ks0[p as int])
                            || ks0[p as int] == key || p == ks0.len());
                        if p < ks0.len() && j - 1 > p {
                            assert(lex_lt(ks0[p as int], ks0[j - 1]));
                            lemma_lex_transitive(key, ks0[p as int], ks0[j - 1]);
                        }
                        assert(false);
                    }
                } else if j == p {
                    assert(ks1[i] == ks0[i]);
                    assert(lex_lt(ks0[i], key));
                } else {
                    let i0: int = if i < p {
                        i
                    } else {
                        i - 1
                    };
                    let j0: int = if j < p {
                        j
                    } else {
                        j - 1
                    };
                    assert(ks1[i] == ks0[i0] && ks1[j] == ks0[j0]);
                    if i0 < j0 {
                        assert(lex_lt(ks0[i0], ks0[j0]));
                    } else {
                        assert(i0 == j0 && i < p && j > p);
                        assert(lex_lt(ks0[i0], key) && lex_lt(key, ks0[j0]));
                        assert(false);
                    }
                }
            }
            assert forall|i: int| 0 <= i < ds@.len() implies (#[trigger] ds@[i]).wf() by {
                if i != p {
                    let i0: int = if i < p {
                        i
                    } else {
                        i - 1
                    };
                    assert(stat_views(ds@)[i] == vs0[i0]);
                    assert(ds@[i]@ == vs0[i0]);
                }
            }
        }
        idx = idx + 1;
    }
    proof {
        assert(tks.take(idx as int) =~= tks);
        assert(tvs.take(idx as int) =~= tvs);
    }
    (ns, ds)
}

/// Render the global table as the sorted report.  Fails on an empty table,
/// and on a station name that is not valid UTF-8; otherwise the output is
/// exactly the rendering of the table's entries in strictly ascending
/// byte-wise name order.
#[verifier::rlimit(80)]
pub fn format_measurements(table: &StationTable) -> (r: Result<String, PipelineError>)
    requires
        table.wf(),
    ensures
        r is Ok <==> (table.keys().len() > 0 && (forall|k: Seq<u8>|
            #[trigger] table@.contains_key(k) ==> valid_utf8(k))),
        (table.keys().len() == 0) <==> (r matches Err(e) && e == PipelineError::EmptyInputFailure),
        (table.keys().len() > 0 && !(forall|k: Seq<u8>|
            #[trigger] table@.contains_key(k) ==> valid_utf8(k))) <==> (r matches Err(e) && e == PipelineError::EncodingFailure),
        r matches Ok(out) ==> exists|ks: Seq<Seq<u8>>, vs: Seq<StationStat>|
            {
                &&& ks.len() == vs.len()
                &&& strictly_sorted(ks)
                &&& #[trigger] seq_map_of(ks, vs) == table@
                &&& out@ == render_report(ks, vs)
            },
{
    if table.station_count() == 0 {
        return Err(PipelineError::EmptyInputFailure);
    }
    let (ns, ds) = sorted_copy(table);
    let ghost ks = name_views(ns@);
    let ghost vs = stat_views(ds@);
    let mut out = String::new();
    proof {
        reveal_strlit("{");
    }
    out.append("{");
    let n = ns.len();
    let mut i: usize = 0;
    proof {
        assert(ks.take(0) =~= Seq::<Seq<u8>>::empty());
        assert(render_entries(ks.take(0), vs.take(0)) == Seq::<char>::empty());
        assert(out@ =~= seq!['{'] + render_entries(ks.take(0), vs.take(0)));
    }
    while i < n
        invariant
            n == ns@.len() == ds@.len(),
            n >= 1,
            0 <= i <= n,
            ks == name_views(ns@),
            vs == stat_views(ds@),
            ks.len() == vs.len() == n,
            forall|t: int| 0 <= t < ds@.len() ==> (#[trigger] ds@[t]).wf(),
            out@ == seq!['{'] + render_entries(ks.take(i as int), vs.take(i as int)),
            forall|t: int| 0 <= t < i ==> valid_utf8(#[trigger] ks[t]),
            unique_keys(ks),
            strictly_sorted(ks),
            seq_map_of(ks, vs) == table@,
        decreases n - i,
    {
        proof {
            reveal_strlit(", ");
            reveal_strlit("=");
            reveal_strlit("/");
        }
        let name_bytes = vstd::slice::slice_to_vec(ns[i].as_slice());
        proof {
            assert(name_bytes@ == ks[i as int]);
        }
        match bytes_to_string(name_bytes) {
            None => {
                proof {
                    lemma_key_index(ks, i as int);
                    assert(table@.contains_key(ks[i as int]) && !valid_utf8(ks[i as int]));
                }
                return Err(PipelineError::EncodingFailure);
            },
            Some(name_str) => {
                if i > 0 {
                    out.append(", ");
                }
                let ghost base = out@;
                out.append(name_str.as_str());
                out.append("=");
                let d = ds[i];
                append_fixed(&mut out, d.min as i64);
                out.append("/");
                let m = mean_fixed(&d);
                append_fixed(&mut out, m);
                out.append("/");
                append_fixed(&mut out, d.max as i64);
                proof {
                    assert(d@ == vs[i as int]);
                    assert(out@ =~= base + render_entry(ks[i as int], vs[i as int]));
                    if i == 0 {
                        assert(ks.take(1).len() == 1);
                        assert(ks.take(1)[0] == ks[0] && vs.take(1)[0] == vs[0]);
                        assert(out@ =~= seq!['{'] + render_entries(ks.take(i + 1), vs.take(i + 1)));
                    } else {
                        assert(ks.take(i + 1).drop_last() =~= ks.take(i as int));
                        assert(vs.take(i + 1).drop_last() =~= vs.take(i as int));
                        assert(ks.take(i + 1).last() == ks[i as int]);
                        assert(vs.take(i + 1).last() == vs[i as int]);
                        assert(out@ =~= seq!['{'] + render_entries(ks.take(i + 1), vs.take(i + 1)));
                    }
                }
                i = i + 1;
            },
        }
    }
    proof {
        reveal_strlit("}");
    }
    out.append("}");
    proof {
        assert(ks.take(n as int) =~= ks);
        assert(vs.take(n as int) =~= vs);
        assert(out@ =~= render_report(ks, vs));
        assert forall|k: Seq<u8>| #[trigger] table@.contains_key(k) implies valid_utf8(k) by {
            assert(seq_map_of(ks, vs).contains_key(k));
            let t = choose|t: int| 0 <= t < ks.len() && #[trigger] ks[t] == k;
            assert(valid_utf8(ks[t]));
        }
    }
    Ok(out)
}

/// Bytes of an all-ASCII rendering.
pub open spec fn ascii_bytes(cs: Seq<char>) -> Seq<u8> {
    cs.map_values(|c: char| c as u8)
}

proof fn lemma_dec_chars_digits(n: int)
    requires
        n >= 0,
    ensures
        ascii_bytes(dec_chars(n)).len() >= 1,
        forall|i: int|
            0 <= i < ascii_bytes(dec_chars(n)).len() ==> is_ascii_digit(
                #[trigger] ascii_bytes(dec_chars(n))[i],
            ),
        digits_value(ascii_bytes(dec_chars(n))) == n,
    decreases n,
{
    let bs = ascii_bytes(dec_chars(n));
    if n < 10 {
        assert(bs =~= seq![(48 + n) as u8]);
        assert(bs.drop_last() =~= Seq::<u8>::empty());
        assert(digits_value(Seq::<u8>::empty()) == 0);
        assert(bs.last() == (48 + n) as u8);
        assert(is_ascii_digit(bs.last()));
        assert(digits_value(bs) == digits_value(bs.drop_last()) * 10 + (bs.last() - 48));
    } else {
        lemma_div_decreases(n, 10);
        lemma_div_pos_is_pos(n, 10);
        lemma_fundamental_div_mod(n, 10);
        lemma_dec_chars_digits(n / 10);
        let pre = ascii_bytes(dec_chars(n / 10));
        assert(bs =~= pre.push((48 + n % 10) as u8));
        assert(bs.drop_last() =~= pre);
        assert(digits_value(bs) == digits_value(pre) * 10 + (n % 10));
    }
}

proof fn lemma_render_magnitude_bytes(m: int)
    requires
        0 <= m <= 32767,
    ensures
        ascii_bytes(render_magnitude(m)).len() >= 3,
        is_ascii_digit(ascii_bytes(render_magnitude(m))[0]),
        has_digit(ascii_bytes(render_magnitude(m))),
        digits_value(ascii_bytes(render_magnitude(m))) == m,
{
    lemma_div_pos_is_pos(m, 10);
    lemma_fundamental_div_mod(m, 10);
    lemma_dec_chars_digits(m / 10);
    let pre = ascii_bytes(dec_chars(m / 10));
    let bs = ascii_bytes(render_magnitude(m));
    assert(bs =~= pre + seq![46u8, (48 + m % 10) as u8]);
    assert(bs.drop_last() =~= pre + seq![46u8]);
    assert((pre + seq![46u8]).drop_last() =~= pre);
    assert(digits_value(bs) == digits_value(pre + seq![46u8]) * 10 + (m % 10));
    assert(digits_value(pre + seq![46u8]) == digits_value(pre));
    assert(bs[0] == pre[0]);
    assert(is_ascii_digit(bs[bs.len() - 1]));
}

/// Round trip of the fixed-point representation: rendering a value with one
/// decimal digit and parsing the rendering yields the value back.
pub proof fn lemma_parse_render_round_trip(v: int)
    requires
        -32767 <= v <= 32767,
    ensures
        value_valid(ascii_bytes(render_fixed(v))),
        value_of(ascii_bytes(render_fixed(v))) == v,
{
    let bs = ascii_bytes(render_fixed(v));
    if v >= 0 {
        lemma_render_magnitude_bytes(v);
        assert(bs =~= ascii_bytes(render_magnitude(v)));
        assert(!value_negative(bs));
        assert(value_digits(bs) == bs);
    } else {
        lemma_render_magnitude_bytes(-v);
        let mag = ascii_bytes(render_magnitude(-v));
        assert(bs =~= seq![45u8] + mag);
        assert(bs[0] == 45);
        assert(value_negative(bs));
        assert(bs.skip(1) =~= mag);
        assert(value_digits(bs) == mag);
    }
}

} // verus!
