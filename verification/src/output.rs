//! Output projection: sorts the final set into its deterministic total
//! order and renders it as a count or as a tab-separated table.

use vstd::prelude::*;

use crate::adjacency::AdjacencySet;
use crate::color::PixelPair;
use crate::color::lemma_pair_key_injective;
use crate::color::pair_key;

verus! {

/// Sorted in strictly increasing key order: the lexicographic order by
/// origin color bytes, then neighbor color bytes.
pub open spec fn strictly_sorted(s: Seq<PixelPair>) -> bool {
    forall|i: int, j: int| 0 <= i < j < s.len() ==> pair_key(s[i]) < pair_key(s[j])
}

/// The one strictly sorted sequence holding exactly the members of `s`.
pub open spec fn sorted_pairs_of(s: Set<PixelPair>) -> Seq<PixelPair> {
    choose|q: Seq<PixelPair>| #[trigger] strictly_sorted(q) && q.no_duplicates() && q.to_set() == s
}

/// Dropping the least element of a strictly sorted sequence removes it from
/// the element set.
proof fn lemma_drop_first_to_set(s: Seq<PixelPair>)
    requires
        s.len() > 0,
        strictly_sorted(s),
    ensures
        s.drop_first().to_set() =~= s.to_set().remove(s[0]),
{
    let r = s.drop_first();
    assert forall|q: PixelPair| r.to_set().contains(q) implies s.to_set().remove(s[0]).contains(
        q,
    ) by {
        let t = choose|t: int| 0 <= t < r.len() && r[t] == q;
        assert(s[t + 1] == q);
        assert(s.contains(q));
        assert(pair_key(s[0]) < pair_key(s[t + 1]));
    }
    assert forall|q: PixelPair| s.to_set().remove(s[0]).contains(q) implies r.to_set().contains(
        q,
    ) by {
        let t = choose|t: int| 0 <= t < s.len() && s[t] == q;
        assert(t != 0);
        assert(r[t - 1] == q);
        assert(r.contains(q));
    }
}

/// The sorted rendering of a set is unique: two strictly sorted sequences
/// with the same element set are equal, so the table is byte-for-byte
/// reproducible across runs.
pub proof fn lemma_sorted_unique(s1: Seq<PixelPair>, s2: Seq<PixelPair>)
    requires
        strictly_sorted(s1),
        strictly_sorted(s2),
        s1.to_set() == s2.to_set(),
    ensures
        s1 == s2,
    decreases s1.len(),
{
    if s1.len() == 0 {
        if s2.len() > 0 {
            assert(s2.contains(s2[0]));
            assert(s2.to_set().contains(s2[0]));
            assert(s1.contains(s2[0]));
            assert(false);
        }
        assert(s1 =~= s2);
    } else if s2.len() == 0 {
        assert(s1.contains(s1[0]));
        assert(s1.to_set().contains(s1[0]));
        assert(s2.contains(s1[0]));
        assert(false);
    } else {
        assert(s1.contains(s1[0]));
        assert(s1.to_set().contains(s1[0]));
        assert(s2.contains(s2[0]));
        assert(s2.to_set().contains(s2[0]));
        let t1 = choose|t: int| 0 <= t < s2.len() && s2[t] == s1[0];
        let t2 = choose|t: int| 0 <= t < s1.len() && s1[t] == s2[0];
        assert(pair_key(s2[0]) <= pair_key(s2[t1]));
        assert(pair_key(s1[0]) <= pair_key(s1[t2]));
        lemma_pair_key_injective(s1[0], s2[0]);
        let r1 = s1.drop_first();
        let r2 = s2.drop_first();
        assert(strictly_sorted(r1)) by {
            assert(forall|i: int, j: int|
                0 <= i < j < r1.len() ==> r1[i] == s1[i + 1] && r1[j] == s1[j + 1]);
        }
        assert(strictly_sorted(r2)) by {
            assert(forall|i: int, j: int|
                0 <= i < j < r2.len() ==> r2[i] == s2[i + 1] && r2[j] == s2[j + 1]);
        }
        lemma_drop_first_to_set(s1);
        lemma_drop_first_to_set(s2);
        assert(r1.to_set() =~= r2.to_set());
        lemma_sorted_unique(r1, r2);
        assert(s1 =~= s2) by {
            assert(forall|t: int| 0 < t < s1.len() ==> s1[t] == r1[t - 1] && s2[t] == r2[t - 1]);
        }
    }
}

/// Determinism: any two sorted renderings of the closed adjacency set of
/// the same buffer, dimensions and offsets are the same sequence, and their
/// tables are byte-for-byte identical.
pub proof fn lemma_output_deterministic(
    buf: Seq<crate::color::Color>,
    dims: crate::grid::Dimensions,
    offs: Seq<crate::grid::Offset>,
    s1: Seq<PixelPair>,
    s2: Seq<PixelPair>,
)
    requires
        strictly_sorted(s1),
        s1.to_set() == crate::adjacency::closure_spec(
            crate::aggregate::adjacent_pairs(buf, dims, offs),
        ),
        strictly_sorted(s2),
        s2.to_set() == crate::adjacency::closure_spec(
            crate::aggregate::adjacent_pairs(buf, dims, offs),
        ),
    ensures
        s1 == s2,
        table_bytes(s1) == table_bytes(s2),
{
    lemma_sorted_unique(s1, s2);
}

/// Inserting an element anywhere in a sequence adds it to the element set.
proof fn lemma_insert_to_set(s: Seq<PixelPair>, i: int, p: PixelPair)
    requires
        0 <= i <= s.len(),
    ensures
        s.insert(i, p).to_set() =~= s.to_set().insert(p),
        forall|t: int|
            0 <= t < s.len() + 1 ==> s.insert(i, p)[t] == (if t < i {
                s[t]
            } else if t == i {
                p
            } else {
                s[t - 1]
            }),
{
    let n = s.insert(i, p);
    assert(forall|t: int|
        0 <= t < s.len() + 1 ==> n[t] == (if t < i {
            s[t]
        } else if t == i {
            p
        } else {
            s[t - 1]
        }));
    assert forall|q: PixelPair| n.to_set().contains(q) implies s.to_set().insert(p).contains(q) by {
        let t = choose|t: int| 0 <= t < n.len() && n[t] == q;
        if t < i {
            assert(s[t] == q);
            assert(s.contains(q));
        } else if t > i {
            assert(s[t - 1] == q);
            assert(s.contains(q));
        }
    }
    assert forall|q: PixelPair| s.to_set().insert(p).contains(q) implies n.to_set().contains(q) by {
        if q == p {
            assert(n[i] == q);
            assert(n.contains(q));
        } else {
            let t = choose|t: int| 0 <= t < s.len() && s[t] == q;
            if t < i {
                assert(n[t] == q);
            } else {
                assert(n[t + 1] == q);
            }
            assert(n.contains(q));
        }
    }
}

/// The position of the first element whose key is at least `key`, in a
/// strictly sorted sequence.
fn lower_bound(v: &Vec<PixelPair>, key: u64) -> (idx: usize)
    requires
        strictly_sorted(v@),
    ensures
        idx <= v@.len(),
        forall|t: int| 0 <= t < idx ==> pair_key(v@[t]) < key,
        forall|t: int| idx <= t < v@.len() ==> pair_key(v@[t]) >= key,
{
    let mut idx: usize = 0;
    while idx < v.len()
        invariant
            idx <= v@.len(),
            strictly_sorted(v@),
            forall|t: int| 0 <= t < idx ==> pair_key(v@[t]) < key,
        decreases v@.len() - idx,
    {
        if v[idx].key() >= key {
            proof {
                assert(forall|t: int|
                    idx < t < v@.len() ==> pair_key(v@[idx as int]) < pair_key(v@[t]));
            }
            return idx;
        }
        idx += 1;
    }
    idx
}

/// Sorts the set's pairs into the total order: strictly increasing by
/// origin color bytes, then neighbor color bytes. The result holds exactly
/// the set's members, each once, so its length equals the set's size.
pub fn to_sorted(set: &AdjacencySet) -> (r: Vec<PixelPair>)
    requires
        set.wf(),
    ensures
        strictly_sorted(r@),
        r@.no_duplicates(),
        r@.to_set() == set@,
        r@.len() == set@.len(),
        r@ == sorted_pairs_of(set@),
{
    let src = set.to_vec();
    let mut out: Vec<PixelPair> = Vec::new();
    let mut j: usize = 0;
    proof {
        assert(out@.to_set() =~= src@.take(0).to_set());
    }
    while j < src.len()
        invariant
            j <= src@.len(),
            src@.no_duplicates(),
            src@.to_set() == set@,
            strictly_sorted(out@),
            out@.no_duplicates(),
            out@.to_set() == src@.take(j as int).to_set(),
        decreases src@.len() - j,
    {
        let p = src[j];
        proof {
            assert(!out@.contains(p)) by {
                if src@.take(j as int).contains(p) {
                    let t = choose|t: int| 0 <= t < j && src@.take(j as int)[t] == p;
                    assert(src@[t] == src@[j as int]);
                    assert(false);
                }
                assert(!out@.to_set().contains(p));
            }
        }
        let key = p.key();
        let idx = lower_bound(&out, key);
        let ghost prev = out@;
        out.insert(idx, p);
        proof {
            lemma_insert_to_set(prev, idx as int, p);
            // every element at or past idx has a key strictly above p's
            assert(forall|t: int| idx <= t < prev.len() ==> pair_key(prev[t]) > pair_key(p)) by {
                assert forall|t: int| idx <= t < prev.len() implies pair_key(prev[t]) > pair_key(
                    p,
                ) by {
                    if pair_key(prev[t]) == pair_key(p) {
                        lemma_pair_key_injective(prev[t], p);
                        assert(prev.contains(p));
                        assert(false);
                    }
                }
            }
            assert(strictly_sorted(out@));
            assert(out@.no_duplicates()) by {
                assert forall|a: int, b: int| 0 <= a < b < out@.len() implies out@[a]
                    != out@[b] by {
                    assert(pair_key(out@[a]) < pair_key(out@[b]));
                }
            }
            assert(src@.take(j + 1) =~= src@.take(j as int).push(src@[j as int]));
            crate::adjacency::lemma_push_to_set(src@.take(j as int), src@[j as int]);
            assert(out@.to_set() =~= src@.take(j + 1).to_set());
        }
        j += 1;
    }
    proof {
        assert(src@.take(src@.len() as int) =~= src@);
        assert(out@.to_set() == set@);
        out@.unique_seq_to_set();
        src@.unique_seq_to_set();
        // the strictly sorted, duplicate-free rendering of a set is unique
        assert(strictly_sorted(out@) && out@.no_duplicates() && out@.to_set() == set@);
        assert(exists|q: Seq<PixelPair>|
            #[trigger] strictly_sorted(q) && q.no_duplicates() && q.to_set() == set@);
        lemma_sorted_unique(out@, sorted_pairs_of(set@));
    }
    out
}

/// The ASCII decimal digits of a channel byte, without leading zeros.
pub open spec fn dec_bytes(n: int) -> Seq<u8> {
    if n < 10 {
        seq![(48 + n) as u8]
    } else if n < 100 {
        seq![(48 + n / 10) as u8, (48 + n % 10) as u8]
    } else {
        seq![(48 + n / 100) as u8, (48 + (n / 10) % 10) as u8, (48 + n % 10) as u8]
    }
}

/// One tab-terminated or newline-terminated table cell.
pub open spec fn cell_bytes(n: int, end: u8) -> Seq<u8> {
    dec_bytes(n) + seq![end]
}

/// One table row: the eight channel bytes of a pair, tab-separated,
/// newline-terminated.
pub open spec fn row_bytes(p: PixelPair) -> Seq<u8> {
    cell_bytes(p.origin.r as int, 9) + cell_bytes(p.origin.g as int, 9) + cell_bytes(
        p.origin.b as int,
        9,
    ) + cell_bytes(p.origin.a as int, 9) + cell_bytes(p.neighbor.r as int, 9) + cell_bytes(
        p.neighbor.g as int,
        9,
    ) + cell_bytes(p.neighbor.b as int, 9) + cell_bytes(p.neighbor.a as int, 10)
}

/// The header line's bytes before its newline:
/// `r<tab>g<tab>b<tab>a<tab>adj_r<tab>adj_g<tab>adj_b<tab>adj_a`.
pub open spec fn header_body() -> Seq<u8> {
    seq![
        114u8,
        9u8,
        103u8,
        9u8,
        98u8,
        9u8,
        97u8,
        9u8,
        97u8,
        100u8,
        106u8,
        95u8,
        114u8,
        9u8,
        97u8,
        100u8,
        106u8,
        95u8,
        103u8,
        9u8,
        97u8,
        100u8,
        106u8,
        95u8,
        98u8,
        9u8,
        97u8,
        100u8,
        106u8,
        95u8,
        97u8,
    ]
}

/// The newline-terminated header line.
pub open spec fn header_bytes() -> Seq<u8> {
    header_body() + seq![10u8]
}

/// The whole table: the header line, then one row per pair, in order.
pub open spec fn table_bytes(rows: Seq<PixelPair>) -> Seq<u8>
    decreases rows.len(),
{
    if rows.len() == 0 {
        header_bytes()
    } else {
        table_bytes(rows.drop_last()) + row_bytes(rows.last())
    }
}

/// The number of newline bytes in a rendering.
pub open spec fn count_newlines(s: Seq<u8>) -> int
    decreases s.len(),
{
    if s.len() == 0 {
        0
    } else {
        count_newlines(s.drop_last()) + (if s.last() == 10 {
            1int
        } else {
            0int
        })
    }
}

/// Holds no newline byte.
pub open spec fn newline_free(s: Seq<u8>) -> bool {
    forall|t: int| 0 <= t < s.len() ==> s[t] != 10
}

proof fn lemma_count_free(s: Seq<u8>)
    requires
        newline_free(s),
    ensures
        count_newlines(s) == 0,
    decreases s.len(),
{
    if s.len() > 0 {
        assert(newline_free(s.drop_last())) by {
            assert(forall|t: int| 0 <= t < s.len() - 1 ==> s.drop_last()[t] == s[t]);
        }
        lemma_count_free(s.drop_last());
        assert(s.last() != 10);
    }
}

proof fn lemma_count_add(a: Seq<u8>, b: Seq<u8>)
    ensures
        count_newlines(a + b) == count_newlines(a) + count_newlines(b),
    decreases b.len(),
{
    if b.len() == 0 {
        assert(a + b =~= a);
    } else {
        lemma_count_add(a, b.drop_last());
        assert((a + b).drop_last() =~= a + b.drop_last());
        assert((a + b).last() == b.last());
    }
}

proof fn lemma_seq1_count(x: u8)
    ensures
        count_newlines(seq![x]) == (if x == 10 {
            1int
        } else {
            0int
        }),
{
    assert(seq![x].drop_last() =~= Seq::<u8>::empty());
    assert(count_newlines(Seq::<u8>::empty()) == 0);
    assert(seq![x].last() == x);
}

proof fn lemma_dec_free(n: int)
    requires
        0 <= n < 256,
    ensures
        newline_free(dec_bytes(n)),
{
    if n < 10 {
        assert(dec_bytes(n)[0] == (48 + n) as u8);
        assert(dec_bytes(n).len() == 1);
    } else if n < 100 {
        assert(dec_bytes(n)[0] == (48 + n / 10) as u8);
        assert(dec_bytes(n)[1] == (48 + n % 10) as u8);
        assert(dec_bytes(n).len() == 2);
    } else {
        assert(dec_bytes(n)[0] == (48 + n / 100) as u8);
        assert(dec_bytes(n)[1] == (48 + (n / 10) % 10) as u8);
        assert(dec_bytes(n)[2] == (48 + n % 10) as u8);
        assert(dec_bytes(n).len() == 3);
    }
}

proof fn lemma_cell_count(n: int, end: u8)
    requires
        0 <= n < 256,
    ensures
        count_newlines(cell_bytes(n, end)) == (if end == 10 {
            1int
        } else {
            0int
        }),
{
    lemma_dec_free(n);
    lemma_count_free(dec_bytes(n));
    lemma_count_add(dec_bytes(n), seq![end]);
    lemma_seq1_count(end);
}

/// Every rendered row holds exactly one newline, at its end.
pub proof fn lemma_row_newlines(p: PixelPair)
    ensures
        count_newlines(row_bytes(p)) == 1,
{
    let c1 = cell_bytes(p.origin.r as int, 9);
    let c2 = cell_bytes(p.origin.g as int, 9);
    let c3 = cell_bytes(p.origin.b as int, 9);
    let c4 = cell_bytes(p.origin.a as int, 9);
    let c5 = cell_bytes(p.neighbor.r as int, 9);
    let c6 = cell_bytes(p.neighbor.g as int, 9);
    let c7 = cell_bytes(p.neighbor.b as int, 9);
    let c8 = cell_bytes(p.neighbor.a as int, 10);
    lemma_cell_count(p.origin.r as int, 9);
    lemma_cell_count(p.origin.g as int, 9);
    lemma_cell_count(p.origin.b as int, 9);
    lemma_cell_count(p.origin.a as int, 9);
    lemma_cell_count(p.neighbor.r as int, 9);
    lemma_cell_count(p.neighbor.g as int, 9);
    lemma_cell_count(p.neighbor.b as int, 9);
    lemma_cell_count(p.neighbor.a as int, 10);
    lemma_count_add(c1, c2);
    lemma_count_add(c1 + c2, c3);
    lemma_count_add(c1 + c2 + c3, c4);
    lemma_count_add(c1 + c2 + c3 + c4, c5);
    lemma_count_add(c1 + c2 + c3 + c4 + c5, c6);
    lemma_count_add(c1 + c2 + c3 + c4 + c5 + c6, c7);
    lemma_count_add(c1 + c2 + c3 + c4 + c5 + c6 + c7, c8);
}

/// The header line holds exactly one newline, at its end.
pub proof fn lemma_header_newlines()
    ensures
        count_newlines(header_bytes()) == 1,
{
    assert(newline_free(header_body()));
    lemma_count_free(header_body());
    lemma_count_add(header_body(), seq![10u8]);
    lemma_seq1_count(10);
}

/// Count and table agree: the rendered table holds one line per pair
/// besides the header, so the number of data lines equals the reported
/// count.
pub proof fn lemma_table_line_count(rows: Seq<PixelPair>)
    ensures
        count_newlines(table_bytes(rows)) == 1 + rows.len(),
    decreases rows.len(),
{
    if rows.len() == 0 {
        lemma_header_newlines();
    } else {
        lemma_table_line_count(rows.drop_last());
        lemma_count_add(table_bytes(rows.drop_last()), row_bytes(rows.last()));
        lemma_row_newlines(rows.last());
    }
}

/// Appends the decimal digits of one channel byte.
fn push_dec(out: &mut Vec<u8>, n: u8)
    ensures
        final(out)@ == old(out)@ + dec_bytes(n as int),
{
    if n >= 100 {
        out.push(48 + n / 100);
        out.push(48 + (n / 10) % 10);
        out.push(48 + n % 10);
    } else if n >= 10 {
        out.push(48 + n / 10);
        out.push(48 + n % 10);
    } else {
        out.push(48 + n);
    }
    proof {
        assert(out@ =~= old(out)@ + dec_bytes(n as int));
    }
}

/// Appends one row: the pair's eight channel values, tab-separated and
/// newline-terminated.
fn push_row(out: &mut Vec<u8>, p: PixelPair)
    ensures
        final(out)@ == old(out)@ + row_bytes(p),
{
    push_dec(out, p.origin.r);
    out.push(9);
    push_dec(out, p.origin.g);
    out.push(9);
    push_dec(out, p.origin.b);
    out.push(9);
    push_dec(out, p.origin.a);
    out.push(9);
    push_dec(out, p.neighbor.r);
    out.push(9);
    push_dec(out, p.neighbor.g);
    out.push(9);
    push_dec(out, p.neighbor.b);
    out.push(9);
    push_dec(out, p.neighbor.a);
    out.push(10);
    proof {
        assert(out@ =~= old(out)@ + row_bytes(p));
    }
}

/// The header line, executably.
fn header() -> (r: Vec<u8>)
    ensures
        r@ == header_bytes(),
{
    let mut out: Vec<u8> = Vec::new();
    out.push(114);
    out.push(9);
    out.push(103);
    out.push(9);
    out.push(98);
    out.push(9);
    out.push(97);
    out.push(9);
    out.push(97);
    out.push(100);
    out.push(106);
    out.push(95);
    out.push(114);
    out.push(9);
    out.push(97);
    out.push(100);
    out.push(106);
    out.push(95);
    out.push(103);
    out.push(9);
    out.push(97);
    out.push(100);
    out.push(106);
    out.push(95);
    out.push(98);
    out.push(9);
    out.push(97);
    out.push(100);
    out.push(106);
    out.push(95);
    out.push(97);
    out.push(10);
    proof {
        assert(out@ =~= header_bytes());
    }
    out
}

/// Renders an already sorted row sequence as the full table's bytes.
pub fn render_table(rows: &Vec<PixelPair>) -> (r: Vec<u8>)
    ensures
        r@ == table_bytes(rows@),
{
    let mut out = header();
    proof {
        assert(rows@.take(0).len() == 0);
        assert(out@ == table_bytes(rows@.take(0)));
    }
    let mut j: usize = 0;
    while j < rows.len()
        invariant
            j <= rows@.len(),
            out@ == table_bytes(rows@.take(j as int)),
        decreases rows@.len() - j,
    {
        push_row(&mut out, rows[j]);
        proof {
            assert(rows@.take(j + 1).drop_last() =~= rows@.take(j as int));
            assert(rows@.take(j + 1).last() == rows@[j as int]);
            assert(out@ == table_bytes(rows@.take(j + 1)));
        }
        j += 1;
    }
    proof {
        assert(rows@.take(rows@.len() as int) =~= rows@);
    }
    out
}

/// Which of the two reports to produce.
#[derive(Clone, Copy, PartialEq, Eq, Structural, Debug)]
pub enum OutputMode {
    Count,
    Table,
}

/// A rendered report: the number of unique ordered pairs, or the sorted
/// table's bytes.
pub enum Output {
    Count(usize),
    Table(Vec<u8>),
}

/// Projects the final set into the requested report. In count mode the
/// number is exactly the set's size; in table mode the bytes are exactly
/// the header plus one row per member, in the sorted order, so the two
/// modes always agree on the number of pairs.
pub fn project(set: &AdjacencySet, mode: OutputMode) -> (r: Output)
    requires
        set.wf(),
    ensures
        mode == OutputMode::Count ==> (r matches Output::Count(c) && c == set@.len()),
        mode == OutputMode::Table ==> (r matches Output::Table(bytes) && bytes@ == table_bytes(
            sorted_pairs_of(set@),
        ) && sorted_pairs_of(set@).len() == set@.len()),
{
    match mode {
        OutputMode::Count => Output::Count(set.len()),
        OutputMode::Table => {
            let rows = to_sorted(set);
            Output::Table(render_table(&rows))
        },
    }
}

} // verus!
