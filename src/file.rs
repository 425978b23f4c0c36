use vstd::prelude::*;
use vstd::slice::slice_subrange;
use crate::hashmap::{HashMap, count_in, count_limit, lists_entries, merge_tables, upsert};
use crate::measurement::{Agg, FinalMeasurement, clamp_tenths, clamp_to_domain, combine, finalized, lemma_rounded_avg_bounds, single};
use crate::number::{parse_fake_float, value_of, well_formed};

verus! {

/// Byte code of the line terminator `\n`.
pub const NEWLINE: u8 = 10;

/// Byte code of the field delimiter `;`.
pub const DELIMITER: u8 = 59;

/// Index of the first `c` in `s`, or `s.len()` when there is none.
pub open spec fn find(s: Seq<u8>, c: u8) -> int
    decreases s.len(),
{
    if s.len() == 0 {
        0
    } else if s[0] == c {
        0
    } else {
        1 + find(s.drop_first(), c)
    }
}

pub proof fn lemma_find(s: Seq<u8>, c: u8)
    ensures
        0 <= find(s, c) <= s.len(),
        forall|j: int| 0 <= j < find(s, c) ==> s[j] != c,
        find(s, c) < s.len() ==> s[find(s, c)] == c,
    decreases s.len(),
{
    if s.len() > 0 && s[0] != c {
        lemma_find(s.drop_first(), c);
        assert forall|j: int| 0 <= j < find(s, c) implies s[j] != c by {
            if j > 0 {
                assert(s[j] == s.drop_first()[j - 1]);
            }
        }
    }
}

/// `find` is the first index holding `c`.
pub proof fn lemma_find_unique(s: Seq<u8>, c: u8, i: int)
    requires
        0 <= i <= s.len(),
        forall|j: int| 0 <= j < i ==> s[j] != c,
        i < s.len() ==> s[i] == c,
    ensures
        find(s, c) == i,
{
    lemma_find(s, c);
    if find(s, c) < i {
        assert(s[find(s, c)] != c);
    }
    if i < find(s, c) {
        assert(s[i] != c);
    }
}

/// The record that a line holds: its key and its clamped value, or nothing
/// when the line has no delimiter or its value is not a decimal.
pub open spec fn line_record(line: Seq<u8>) -> Seq<(Seq<u8>, int)> {
    let p = find(line, DELIMITER);
    let v = line.subrange(p + 1, line.len() as int);
    if p < line.len() && well_formed(v) {
        seq![(line.take(p), clamp_tenths(value_of(v)))]
    } else {
        Seq::empty()
    }
}

/// Where the text after the first line of `s` starts.
pub open spec fn after_line(s: Seq<u8>) -> int {
    let e = find(s, NEWLINE);
    if e < s.len() {
        e + 1
    } else {
        s.len() as int
    }
}

/// The records of `s`, line by line, in order; the end of `s` ends its last line.
pub open spec fn records(s: Seq<u8>) -> Seq<(Seq<u8>, int)>
    decreases s.len(),
{
    if s.len() == 0 {
        Seq::empty()
    } else {
        let n = after_line(s);
        if 0 < n <= s.len() {
            line_record(s.take(find(s, NEWLINE))) + records(s.subrange(n, s.len() as int))
        } else {
            Seq::empty()
        }
    }
}

/// The table of running aggregates after observing `recs` in order.
pub open spec fn aggregate(recs: Seq<(Seq<u8>, int)>) -> Map<Seq<u8>, Agg>
    decreases recs.len(),
{
    if recs.len() == 0 {
        Map::empty()
    } else {
        upsert(aggregate(recs.drop_last()), recs.last().0, recs.last().1)
    }
}

pub proof fn lemma_records_step(s: Seq<u8>)
    requires
        s.len() > 0,
    ensures
        0 < after_line(s) <= s.len(),
        records(s) == line_record(s.take(find(s, NEWLINE))) + records(
            s.subrange(after_line(s), s.len() as int),
        ),
{
    lemma_find(s, NEWLINE);
}

/// Ends at a line boundary: empty, or its last byte is a line terminator.
pub open spec fn line_aligned(s: Seq<u8>) -> bool {
    s.len() == 0 || s.last() == NEWLINE
}

/// Splitting bytes after a line terminator splits their records.
pub proof fn lemma_records_append(a: Seq<u8>, b: Seq<u8>)
    requires
        line_aligned(a),
    ensures
        records(a + b) == records(a) + records(b),
    decreases a.len(),
{
    if a.len() == 0 {
        assert(a + b =~= b);
        assert(records(a) + records(b) =~= records(b));
    } else {
        let ab = a + b;
        lemma_find(a, NEWLINE);
        let e = find(a, NEWLINE);
        assert(e < a.len()) by {
            if e == a.len() {
                assert(a[a.len() - 1] != NEWLINE);
            }
        }
        assert forall|j: int| 0 <= j < e implies ab[j] != NEWLINE by {
            assert(ab[j] == a[j]);
        }
        lemma_find_unique(ab, NEWLINE, e);
        lemma_records_step(a);
        lemma_records_step(ab);
        assert(ab.take(e) =~= a.take(e));
        let a2 = a.subrange(e + 1, a.len() as int);
        assert(ab.subrange(e + 1, ab.len() as int) =~= a2 + b);
        assert(line_aligned(a2)) by {
            if a2.len() > 0 {
                assert(a2.last() == a.last());
            }
        }
        lemma_records_append(a2, b);
        assert(records(ab) =~= records(a) + records(b));
    }
}

/// A range that stops just before a line terminator holds the same records as
/// the range that takes the terminator too.
pub proof fn lemma_trailing_terminator(s: Seq<u8>)
    ensures
        records(s.push(NEWLINE)) == records(s),
    decreases s.len(),
{
    let t = s.push(NEWLINE);
    lemma_records_step(t);
    lemma_find(t, NEWLINE);
    lemma_find(s, NEWLINE);
    let e = find(s, NEWLINE);
    assert forall|j: int| 0 <= j < e implies t[j] != NEWLINE by {
        assert(t[j] == s[j]);
    }
    if e < s.len() {
        lemma_find_unique(t, NEWLINE, e);
        lemma_records_step(s);
        assert(t.take(e) =~= s.take(e));
        let s2 = s.subrange(e + 1, s.len() as int);
        assert(t.subrange(e + 1, t.len() as int) =~= s2.push(NEWLINE));
        lemma_trailing_terminator(s2);
    } else {
        lemma_find_unique(t, NEWLINE, s.len() as int);
        assert(t.take(e) =~= s);
        assert(t.subrange(e + 1, t.len() as int) =~= Seq::<u8>::empty());
        if s.len() > 0 {
            lemma_records_step(s);
            assert(s.take(e) =~= s);
            assert(s.subrange(s.len() as int, s.len() as int) =~= Seq::<u8>::empty());
        } else {
            assert(line_record(Seq::empty()) =~= Seq::empty()) by {
                assert(find(Seq::<u8>::empty(), DELIMITER) == 0);
            }
        }
        assert(records(t) =~= records(s));
    }
}

/// Merging with an empty table leaves a table unchanged.
pub proof fn lemma_merge_empty(a: Map<Seq<u8>, Agg>)
    ensures
        merge_tables(a, Map::empty()) == a,
        merge_tables(Map::empty(), a) == a,
{
    assert(merge_tables(a, Map::empty()) =~= a);
    assert(merge_tables(Map::empty(), a) =~= a);
}

/// Tables merge in either order to the same table.
pub proof fn lemma_merge_commutes(a: Map<Seq<u8>, Agg>, b: Map<Seq<u8>, Agg>)
    ensures
        merge_tables(a, b) == merge_tables(b, a),
{
    assert(merge_tables(a, b) =~= merge_tables(b, a));
}

/// Merging tables is associative.
pub proof fn lemma_merge_associates(a: Map<Seq<u8>, Agg>, b: Map<Seq<u8>, Agg>, c: Map<Seq<u8>, Agg>)
    ensures
        merge_tables(merge_tables(a, b), c) == merge_tables(a, merge_tables(b, c)),
{
    assert(merge_tables(merge_tables(a, b), c) =~= merge_tables(a, merge_tables(b, c)));
}

/// The table of two runs of records is the merge of their tables.
pub proof fn lemma_aggregate_append(r1: Seq<(Seq<u8>, int)>, r2: Seq<(Seq<u8>, int)>)
    ensures
        aggregate(r1 + r2) == merge_tables(aggregate(r1), aggregate(r2)),
    decreases r2.len(),
{
    if r2.len() == 0 {
        assert(r1 + r2 =~= r1);
        lemma_merge_empty(aggregate(r1));
    } else {
        let r2p = r2.drop_last();
        assert((r1 + r2).drop_last() =~= r1 + r2p);
        assert((r1 + r2).last() == r2.last());
        lemma_aggregate_append(r1, r2p);
        assert(aggregate(r1 + r2) =~= merge_tables(aggregate(r1), aggregate(r2)));
    }
}

/// Byte-lexicographic order: `a` sorts strictly before `b`.
pub open spec fn lex_lt(a: Seq<u8>, b: Seq<u8>) -> bool
    decreases a.len(),
{
    if a.len() == 0 {
        b.len() > 0
    } else if b.len() == 0 {
        false
    } else if a[0] != b[0] {
        a[0] < b[0]
    } else {
        lex_lt(a.drop_first(), b.drop_first())
    }
}

pub proof fn lemma_lex_irreflexive(a: Seq<u8>)
    ensures
        !lex_lt(a, a),
    decreases a.len(),
{
    if a.len() > 0 {
        lemma_lex_irreflexive(a.drop_first());
    }
}

pub proof fn lemma_lex_transitive(a: Seq<u8>, b: Seq<u8>, c: Seq<u8>)
    requires
        lex_lt(a, b),
        lex_lt(b, c),
    ensures
        lex_lt(a, c),
    decreases a.len(),
{
    if a.len() > 0 && b.len() > 0 && c.len() > 0 && a[0] == b[0] && b[0] == c[0] {
        lemma_lex_transitive(a.drop_first(), b.drop_first(), c.drop_first());
    }
}

pub proof fn lemma_lex_total(a: Seq<u8>, b: Seq<u8>)
    requires
        a != b,
    ensures
        lex_lt(a, b) || lex_lt(b, a),
    decreases a.len(),
{
    if a.len() > 0 && b.len() > 0 && a[0] == b[0] {
        if a.drop_first() == b.drop_first() {
            assert(a =~= seq![a[0]] + a.drop_first());
            assert(b =~= seq![b[0]] + b.drop_first());
        }
        lemma_lex_total(a.drop_first(), b.drop_first());
    } else if a.len() == 0 && b.len() == 0 {
        assert(a =~= b);
    }
}

/// Whether `a` sorts strictly before `b`, byte by byte.
pub fn bytes_lt(a: &[u8], b: &[u8]) -> (r: bool)
    ensures
        r == lex_lt(a@, b@),
{
    let mut i: usize = 0;
    assert(a@.subrange(0, a@.len() as int) =~= a@);
    assert(b@.subrange(0, b@.len() as int) =~= b@);
    while i < a.len() && i < b.len() && a[i] == b[i]
        invariant
            i <= a@.len(),
            i <= b@.len(),
            lex_lt(a@, b@) == lex_lt(a@.subrange(i as int, a@.len() as int), b@.subrange(i as int, b@.len() as int)),
        decreases a@.len() - i,
    {
        assert(a@.subrange(i as int, a@.len() as int).drop_first() =~= a@.subrange(i + 1, a@.len() as int));
        assert(b@.subrange(i as int, b@.len() as int).drop_first() =~= b@.subrange(i + 1, b@.len() as int));
        i = i + 1;
    }
    if i == a.len() {
        i < b.len()
    } else if i == b.len() {
        false
    } else {
        a[i] < b[i]
    }
}

/// Below this many bytes the input is scanned as one range.
pub const SMALL_INPUT: usize = 1048576;

/// Degree of parallelism of a run.
pub const NUM_WORKERS: usize = 14;

/// End of the range that starts at `start` with nominal length `size`: the
/// first line terminator at or after `start + size` is its last byte.
pub open spec fn next_boundary(s: Seq<u8>, start: int, size: int) -> int {
    let t = start + size;
    if t >= s.len() {
        s.len() as int
    } else {
        let e = t + find(s.subrange(t, s.len() as int), NEWLINE);
        if e < s.len() {
            e + 1
        } else {
            s.len() as int
        }
    }
}

/// Ranges `r` cover `[0, len)` in order, without gaps or overlap.
pub open spec fn tiles(r: Seq<(usize, usize)>, len: int) -> bool {
    &&& r.len() >= 1
    &&& r[0].0 == 0
    &&& r.last().1 == len
    &&& forall|i: int| 0 <= i < r.len() ==> #[trigger] r[i].0 <= r[i].1 <= len
    &&& forall|i: int| 0 <= i < r.len() - 1 ==> #[trigger] r[i + 1].0 == r[i].1
    &&& forall|i: int| 0 <= i < r.len() - 1 ==> #[trigger] r[i].1 < len
}

/// Splits `data` into contiguous ranges, each ending at a line terminator but
/// the last, about `data.len() / workers` bytes long; a small input is one range.
pub fn chunk_file(data: &[u8], workers: usize) -> (r: Vec<(usize, usize)>)
    requires
        workers >= 1,
    ensures
        tiles(r@, data@.len() as int),
        data@.len() < SMALL_INPUT ==> r@ == seq![(0usize, data.len())],
        data@.len() >= SMALL_INPUT ==> forall|i: int|
            0 <= i < r@.len() ==> #[trigger] r@[i].1 == next_boundary(data@, r@[i].0 as int, (data@.len() as int / workers as int)),
        forall|i: int| 0 <= i < r@.len() && #[trigger] r@[i].1 < data@.len() ==> data@[r@[i].1 - 1] == NEWLINE,
{
    let len = data.len();
    if len < SMALL_INPUT {
        return vec![(0, len)];
    }
    let chunk_size = len / workers;
    let mut chunks: Vec<(usize, usize)> = Vec::new();
    let mut start: usize = 0;
    while start < len
        invariant
            len == data@.len(),
            len >= SMALL_INPUT,
            chunk_size as int == len as int / workers as int,
            start <= len,
            chunks@.len() == 0 ==> start == 0,
            chunks@.len() > 0 ==> chunks@[0].0 == 0 && chunks@.last().1 == start,
            forall|i: int| 0 <= i < chunks@.len() ==> #[trigger] chunks@[i].0 < chunks@[i].1 <= start,
            forall|i: int| 0 <= i < chunks@.len() - 1 ==> #[trigger] chunks@[i + 1].0 == chunks@[i].1,
            forall|i: int| 0 <= i < chunks@.len() ==> #[trigger] chunks@[i].1 <= start,
            forall|i: int| 0 <= i < chunks@.len() - 1 ==> #[trigger] chunks@[i].1 < len,
            forall|i: int|
                0 <= i < chunks@.len() ==> #[trigger] chunks@[i].1 == next_boundary(data@, chunks@[i].0 as int, chunk_size as int),
            forall|i: int| 0 <= i < chunks@.len() && #[trigger] chunks@[i].1 < len ==> data@[chunks@[i].1 - 1] == NEWLINE,
        decreases len - start,
    {
        let end: usize;
        if chunk_size >= len - start {
            end = len;
        } else {
            let t = start + chunk_size;
            let rest = slice_subrange(data, t, len);
            let e = find_byte(NEWLINE, rest);
            proof {
                lemma_find(rest@, NEWLINE);
            }
            end = if e < rest.len() { t + e + 1 } else { len };
        }
        chunks.push((start, end));
        start = end;
    }
    chunks
}

/// Relies on `memchr::memchr`: the index of the first `needle`, if any.
#[verifier::external_body]
fn memchr_first(needle: u8, haystack: &[u8]) -> (r: Option<usize>)
    ensures
        r.is_some() ==> r.unwrap() < haystack@.len() && haystack@[r.unwrap() as int] == needle,
        r.is_some() ==> forall|j: int| 0 <= j < r.unwrap() ==> haystack@[j] != needle,
        r.is_none() ==> forall|j: int| 0 <= j < haystack@.len() ==> haystack@[j] != needle,
{
    memchr::memchr(needle, haystack)
}

/// Index of the first `c` in `s`, or its length.
fn find_byte(c: u8, s: &[u8]) -> (r: usize)
    ensures
        r == find(s@, c),
        r <= s@.len(),
{
    let r = match memchr_first(c, s) {
        Some(i) => i,
        None => s.len(),
    };
    proof {
        lemma_find_unique(s@, c, r as int);
    }
    r
}

/// Scans a byte range record by record into a table of its own.
pub fn parse_buffer<'a>(data: &'a [u8]) -> (r: HashMap<'a>)
    requires
        data@.len() <= count_limit(),
    ensures
        r.wf(),
        r.aggs() == aggregate(records(data@)),
        forall|k: Seq<u8>| #[trigger] r@.contains_key(k) ==> r@[k].count <= data@.len(),
{
    let mut result = HashMap::new();
    let len = data.len();
    let mut pos: usize = 0;
    let ghost mut done: Seq<(Seq<u8>, int)> = Seq::empty();
    assert(data@.subrange(0, len as int) =~= data@);
    assert(result.aggs() =~= Map::empty());
    while pos < len
        invariant
            pos <= len,
            len == data@.len(),
            len <= count_limit(),
            records(data@) == done + records(data@.subrange(pos as int, len as int)),
            result.wf(),
            result.aggs() == aggregate(done),
            forall|k: Seq<u8>| #[trigger] result@.contains_key(k) ==> result@[k].count <= pos,
        decreases len - pos,
    {
        let rest = slice_subrange(data, pos, len);
        proof {
            lemma_records_step(rest@);
        }
        let e = find_byte(NEWLINE, rest);
        let line = slice_subrange(rest, 0, e);
        let p = find_byte(DELIMITER, line);
        let ghost lr = line_record(line@);
        let ghost before = result.aggs();
        if p < e {
            let name = slice_subrange(line, 0, p);
            let value_bytes = slice_subrange(line, p + 1, e);
            match parse_fake_float(value_bytes) {
                Some(v) => {
                    let v = clamp_to_domain(v);
                    result.upsert(name, v);
                    assert(lr == seq![(name@, v as int)]);
                },
                None => {
                    assert(lr =~= Seq::<(Seq<u8>, int)>::empty());
                },
            }
        } else {
            assert(lr =~= Seq::<(Seq<u8>, int)>::empty());
        }
        let next = if e < rest.len() { pos + e + 1 } else { len };
        proof {
            assert(rest@.subrange(after_line(rest@), rest@.len() as int) =~= data@.subrange(next as int, len as int));
            assert(done + (lr + records(data@.subrange(next as int, len as int))) =~= (done + lr) + records(
                data@.subrange(next as int, len as int),
            ));
            if lr.len() == 1 {
                assert((done + lr).drop_last() =~= done);
            } else {
                assert(done + lr =~= done);
            }
            done = done + lr;
        }
        pos = next;
    }
    assert(data@.subrange(len as int, len as int) =~= Seq::<u8>::empty());
    assert(done + Seq::<(Seq<u8>, int)>::empty() =~= done);
    result
}

/// Keys strictly increasing in byte-lexicographic order.
pub open spec fn sorted_keys(r: Seq<(Vec<u8>, FinalMeasurement)>) -> bool {
    forall|i: int, j: int| 0 <= i < j < r.len() ==> lex_lt(#[trigger] r[i].0@, #[trigger] r[j].0@)
}

/// Inserts a new key with its display form at its place in sorted order.
fn insert_sorted(out: &mut Vec<(Vec<u8>, FinalMeasurement)>, key: &[u8], fm: FinalMeasurement) -> (j: usize)
    requires
        sorted_keys(old(out)@),
        forall|p: int| 0 <= p < old(out)@.len() ==> #[trigger] old(out)@[p].0@ != key@,
    ensures
        j <= old(out)@.len(),
        final(out)@.len() == old(out)@.len() + 1,
        final(out)@[j as int].0@ == key@,
        final(out)@[j as int].1 == fm,
        forall|p: int| 0 <= p < j ==> #[trigger] final(out)@[p] == old(out)@[p],
        forall|p: int| j < p < final(out)@.len() ==> #[trigger] final(out)@[p] == old(out)@[p - 1],
        sorted_keys(final(out)@),
{
    let mut j: usize = 0;
    while j < out.len() && bytes_lt(out[j].0.as_slice(), key)
        invariant
            j <= out@.len(),
            forall|p: int| 0 <= p < j ==> lex_lt(#[trigger] out@[p].0@, key@),
        decreases out@.len() - j,
    {
        j = j + 1;
    }
    assert forall|p: int| j <= p < out@.len() implies lex_lt(key@, #[trigger] out@[p].0@) by {
        lemma_lex_total(key@, out@[j as int].0@);
        if p > j {
            lemma_lex_transitive(key@, out@[j as int].0@, out@[p].0@);
        }
    }
    let ghost old_out = out@;
    out.insert(j, (vstd::slice::slice_to_vec(key), fm));
    assert forall|p: int, q: int| 0 <= p < q < out@.len() implies lex_lt(#[trigger] out@[p].0@, #[trigger] out@[q].0@) by {
        if q < j {
            assert(out@[p] == old_out[p] && out@[q] == old_out[q]);
        } else if q == j {
            assert(out@[p] == old_out[p]);
        } else if p < j {
            assert(out@[p] == old_out[p] && out@[q] == old_out[q - 1]);
            lemma_lex_transitive(out@[p].0@, key@, out@[q].0@);
        } else if p == j {
            assert(out@[q] == old_out[q - 1]);
        } else {
            assert(out@[p] == old_out[p - 1] && out@[q] == old_out[q - 1]);
        }
    }
    j
}

/// `r` lists each key of `t` once, in byte-lexicographic order, with the
/// display form of its aggregate.
pub open spec fn is_report(r: Seq<(Vec<u8>, FinalMeasurement)>, t: Map<Seq<u8>, Agg>) -> bool {
    &&& forall|i: int, j: int| 0 <= i < j < r.len() ==> lex_lt(#[trigger] r[i].0@, #[trigger] r[j].0@)
    &&& forall|i: int| 0 <= i < r.len() ==> t.contains_key(#[trigger] r[i].0@) && r[i].1 == finalized(t[r[i].0@])
    &&& forall|k: Seq<u8>| t.contains_key(k) ==> exists|i: int| 0 <= i < r.len() && #[trigger] r[i].0@ == k
}

/// Turns a fully merged table into its report, sorted by key.
pub fn finalize(table: HashMap) -> (r: Vec<(Vec<u8>, FinalMeasurement)>)
    requires
        table.wf(),
    ensures
        is_report(r@, table.aggs()),
{
    let ghost t = table.aggs();
    let ghost tm = table@;
    let entries = table.into_inner();
    let mut out: Vec<(Vec<u8>, FinalMeasurement)> = Vec::new();
    let ghost mut seen: Set<Seq<u8>> = Set::empty();
    let mut i: usize = 0;
    while i < entries.len()
        invariant
            0 <= i <= entries@.len(),
            lists_entries(entries@, tm),
            t == tm.map_values(|m: crate::measurement::Measurement| m@),
            forall|k: Seq<u8>| tm.contains_key(k) ==> (#[trigger] tm[k]).wf(),
            sorted_keys(out@),
            forall|p: int|
                0 <= p < out@.len() ==> t.contains_key(#[trigger] out@[p].0@) && out@[p].1 == finalized(t[out@[p].0@]),
            forall|j: int| 0 <= j < i ==> seen.contains(#[trigger] entries@[j].0@),
            forall|j: int| i <= j < entries@.len() ==> !seen.contains(#[trigger] entries@[j].0@),
            forall|p: int| 0 <= p < out@.len() ==> seen.contains(#[trigger] out@[p].0@),
            forall|k: Seq<u8>| seen.contains(k) ==> exists|p: int| 0 <= p < out@.len() && #[trigger] out@[p].0@ == k,
        decreases entries@.len() - i,
    {
        let key = entries[i].0;
        let m = entries[i].1;
        assert(tm.contains_key(entries@[i as int].0@));
        let fm = m.finalize();
        assert(!seen.contains(key@));
        let ghost old_out = out@;
        let j = insert_sorted(&mut out, key, fm);
        proof {
            assert forall|jj: int| i + 1 <= jj < entries@.len() implies !seen.insert(key@).contains(#[trigger] entries@[jj].0@) by {
                assert(entries@[i as int].0@ != entries@[jj].0@);
            }
            seen = seen.insert(key@);
            assert forall|p: int| 0 <= p < out@.len() implies seen.contains(#[trigger] out@[p].0@) by {
                if p < j {
                    assert(out@[p] == old_out[p]);
                } else if p > j {
                    assert(out@[p] == old_out[p - 1]);
                }
            }
            assert forall|k: Seq<u8>| seen.contains(k) implies exists|p: int| 0 <= p < out@.len() && #[trigger] out@[p].0@ == k by {
                if k == key@ {
                    assert(out@[j as int].0@ == k);
                } else {
                    let p = choose|p: int| 0 <= p < old_out.len() && #[trigger] old_out[p].0@ == k;
                    if p < j {
                        assert(out@[p] == old_out[p]);
                    } else {
                        assert(out@[p + 1] == old_out[p]);
                    }
                }
            }
            assert forall|p: int| 0 <= p < out@.len() implies t.contains_key(#[trigger] out@[p].0@) && out@[p].1 == finalized(t[out@[p].0@]) by {
                if p < j {
                    assert(out@[p] == old_out[p]);
                } else if p > j {
                    assert(out@[p] == old_out[p - 1]);
                }
            }
        }
        i = i + 1;
    }
    proof {
        assert forall|k: Seq<u8>| t.contains_key(k) implies exists|p: int| 0 <= p < out@.len() && #[trigger] out@[p].0@ == k by {
            assert(tm.contains_key(k));
            let jj = choose|jj: int| 0 <= jj < entries@.len() && #[trigger] entries@[jj].0@ == k;
            assert(seen.contains(entries@[jj].0@));
        }
    }
    out
}

/// Aggregates every range of `data` separately, merges the tables in range
/// order and returns the sorted report.
pub fn parse(data: &[u8], workers: usize) -> (r: Vec<(Vec<u8>, FinalMeasurement)>)
    requires
        workers >= 1,
        data@.len() <= count_limit(),
    ensures
        is_report(r@, aggregate(records(data@))),
{
    let chunks = chunk_file(data, workers);
    let len = data.len();
    let mut global = HashMap::new();
    let mut i: usize = 0;
    proof {
        assert(data@.take(0) =~= Seq::<u8>::empty());
        assert(global.aggs() =~= Map::empty());
    }
    while i < chunks.len()
        invariant
            i <= chunks@.len(),
            len == data@.len(),
            len <= count_limit(),
            tiles(chunks@, len as int),
            forall|q: int| 0 <= q < chunks@.len() && #[trigger] chunks@[q].1 < len ==> data@[chunks@[q].1 - 1] == NEWLINE,
            global.wf(),
            global.aggs() == aggregate(records(data@.take(if i == 0 { 0 } else { chunks@[i - 1].1 as int }))),
            forall|k: Seq<u8>| #[trigger] global@.contains_key(k) ==> global@[k].count <= (if i == 0 { 0 } else { chunks@[i - 1].1 as int }),
        decreases chunks@.len() - i,
    {
        let (s, e) = chunks[i];
        if i > 0 {
            assert(chunks@[(i - 1) + 1].0 == chunks@[i - 1].1);
            assert(chunks@[i - 1].1 < len);
        }
        let part = slice_subrange(data, s, e);
        let table = parse_buffer(part);
        proof {
            let pre = data@.take(s as int);
            assert(data@.take(e as int) =~= pre + part@);
            assert(line_aligned(pre)) by {
                if s > 0 {
                    assert(chunks@[i - 1].1 < len);
                }
            }
            lemma_records_append(pre, part@);
            lemma_aggregate_append(records(pre), records(part@));
        }
        global.merge(table);
        i = i + 1;
    }
    assert(data@.take(len as int) =~= data@);
    finalize(global)
}

/// The table obtained by aggregating each part on its own and merging the
/// tables, first part first.
pub open spec fn merge_parts(parts: Seq<Seq<u8>>) -> Map<Seq<u8>, Agg>
    decreases parts.len(),
{
    if parts.len() == 0 {
        Map::empty()
    } else {
        merge_tables(aggregate(records(parts[0])), merge_parts(parts.drop_first()))
    }
}

/// Cutting the input into line-aligned parts, aggregating each part apart and
/// merging the tables gives the table of the whole input, so one range and
/// many ranges lead to the same report.
pub proof fn lemma_partition_invariant(parts: Seq<Seq<u8>>)
    requires
        forall|i: int| 0 <= i < parts.len() - 1 ==> line_aligned(#[trigger] parts[i]),
    ensures
        merge_parts(parts) == aggregate(records(parts.flatten())),
    decreases parts.len(),
{
    if parts.len() == 0 {
        assert(records(Seq::<u8>::empty()) =~= Seq::empty());
    } else if parts.len() == 1 {
        assert(parts.drop_first().flatten() =~= Seq::<u8>::empty());
        assert(parts.flatten() =~= parts[0]);
        assert(merge_parts(parts.drop_first()) == Map::<Seq<u8>, Agg>::empty());
        lemma_merge_empty(aggregate(records(parts[0])));
    } else {
        let rest = parts.drop_first();
        assert forall|i: int| 0 <= i < rest.len() - 1 implies line_aligned(#[trigger] rest[i]) by {
            assert(rest[i] == parts[i + 1]);
        }
        lemma_partition_invariant(rest);
        assert(line_aligned(parts[0]));
        lemma_records_append(parts[0], rest.flatten());
        lemma_aggregate_append(records(parts[0]), records(rest.flatten()));
    }
}

/// Two strictly sorted key lists holding the same keys are the same list.
proof fn lemma_sorted_same_keys(a: Seq<Seq<u8>>, b: Seq<Seq<u8>>)
    requires
        forall|i: int, j: int| 0 <= i < j < a.len() ==> lex_lt(#[trigger] a[i], #[trigger] a[j]),
        forall|i: int, j: int| 0 <= i < j < b.len() ==> lex_lt(#[trigger] b[i], #[trigger] b[j]),
        forall|i: int| 0 <= i < a.len() ==> b.contains(#[trigger] a[i]),
        forall|j: int| 0 <= j < b.len() ==> a.contains(#[trigger] b[j]),
    ensures
        a == b,
    decreases a.len() + b.len(),
{
    if a.len() == 0 && b.len() > 0 {
        assert(a.contains(b[0]));
    } else if b.len() == 0 && a.len() > 0 {
        assert(b.contains(a[0]));
    } else if a.len() > 0 && b.len() > 0 {
        assert(a[0] == b[0]) by {
            assert(b.contains(a[0]));
            assert(a.contains(b[0]));
            let j = choose|j: int| 0 <= j < b.len() && b[j] == a[0];
            let i = choose|i: int| 0 <= i < a.len() && a[i] == b[0];
            if a[0] != b[0] {
                assert(i > 0 && j > 0);
                lemma_lex_transitive(a[0], a[i], a[0]);
                lemma_lex_irreflexive(a[0]);
            }
        }
        let a2 = a.drop_first();
        let b2 = b.drop_first();
        assert forall|i: int| 0 <= i < a2.len() implies b2.contains(#[trigger] a2[i]) by {
            assert(a2[i] == a[i + 1]);
            assert(b.contains(a[i + 1]));
            let j = choose|j: int| 0 <= j < b.len() && b[j] == a[i + 1];
            if j == 0 {
                lemma_lex_irreflexive(a[0]);
            }
            assert(b2[j - 1] == a2[i]);
        }
        assert forall|j: int| 0 <= j < b2.len() implies a2.contains(#[trigger] b2[j]) by {
            assert(b2[j] == b[j + 1]);
            assert(a.contains(b[j + 1]));
            let i = choose|i: int| 0 <= i < a.len() && a[i] == b[j + 1];
            if i == 0 {
                lemma_lex_irreflexive(b[0]);
            }
            assert(a2[i - 1] == b2[j]);
        }
        assert forall|i: int, j: int| 0 <= i < j < a2.len() implies lex_lt(#[trigger] a2[i], #[trigger] a2[j]) by {
            assert(a2[i] == a[i + 1] && a2[j] == a[j + 1]);
        }
        assert forall|i: int, j: int| 0 <= i < j < b2.len() implies lex_lt(#[trigger] b2[i], #[trigger] b2[j]) by {
            assert(b2[i] == b[i + 1] && b2[j] == b[j + 1]);
        }
        lemma_sorted_same_keys(a2, b2);
        assert(a =~= b) by {
            assert forall|i: int| 0 <= i < a.len() implies a[i] == b[i] by {
                if i > 0 {
                    assert(a[i] == a2[i - 1] && b[i] == b2[i - 1]);
                }
            }
        }
    }
}

/// The keys of a report, in its order.
pub open spec fn report_keys(r: Seq<(Vec<u8>, FinalMeasurement)>) -> Seq<Seq<u8>> {
    r.map_values(|e: (Vec<u8>, FinalMeasurement)| e.0@)
}

/// A table has exactly one report: equal tables give equal reports.
pub proof fn lemma_report_unique(
    r1: Seq<(Vec<u8>, FinalMeasurement)>,
    r2: Seq<(Vec<u8>, FinalMeasurement)>,
    t: Map<Seq<u8>, Agg>,
)
    requires
        is_report(r1, t),
        is_report(r2, t),
    ensures
        r1.len() == r2.len(),
        forall|i: int| 0 <= i < r1.len() ==> #[trigger] r1[i].0@ == r2[i].0@ && r1[i].1 == r2[i].1,
{
    let a = report_keys(r1);
    let b = report_keys(r2);
    assert forall|i: int, j: int| 0 <= i < j < a.len() implies lex_lt(#[trigger] a[i], #[trigger] a[j]) by {
        assert(lex_lt(r1[i].0@, r1[j].0@));
    }
    assert forall|i: int, j: int| 0 <= i < j < b.len() implies lex_lt(#[trigger] b[i], #[trigger] b[j]) by {
        assert(lex_lt(r2[i].0@, r2[j].0@));
    }
    assert forall|i: int| 0 <= i < a.len() implies b.contains(#[trigger] a[i]) by {
        assert(t.contains_key(r1[i].0@));
        let j = choose|j: int| 0 <= j < r2.len() && #[trigger] r2[j].0@ == r1[i].0@;
        assert(b[j] == a[i]);
    }
    assert forall|j: int| 0 <= j < b.len() implies a.contains(#[trigger] b[j]) by {
        assert(t.contains_key(r2[j].0@));
        let i = choose|i: int| 0 <= i < r1.len() && #[trigger] r1[i].0@ == r2[j].0@;
        assert(a[i] == b[j]);
    }
    lemma_sorted_same_keys(a, b);
    assert(a.len() == r1.len() && b.len() == r2.len());
    assert forall|i: int| 0 <= i < r1.len() implies #[trigger] r1[i].0@ == r2[i].0@ && r1[i].1 == r2[i].1 by {
        assert(a[i] == b[i]);
    }
}

/// Two ranges split after a line terminator: merging their tables, in either
/// order, gives the table of the joined range.
pub proof fn lemma_split_tables(a: Seq<u8>, b: Seq<u8>)
    requires
        line_aligned(a),
    ensures
        merge_tables(aggregate(records(a)), aggregate(records(b))) == aggregate(records(a + b)),
        merge_tables(aggregate(records(b)), aggregate(records(a))) == aggregate(records(a + b)),
{
    lemma_records_append(a, b);
    lemma_aggregate_append(records(a), records(b));
    lemma_merge_commutes(aggregate(records(a)), aggregate(records(b)));
}

/// The report of the whole input, and the report of the merged tables of
/// its line-aligned parts, are the same records.
pub proof fn lemma_one_range_or_many(
    data: Seq<u8>,
    parts: Seq<Seq<u8>>,
    whole: Seq<(Vec<u8>, FinalMeasurement)>,
    split: Seq<(Vec<u8>, FinalMeasurement)>,
)
    requires
        parts.flatten() == data,
        forall|i: int| 0 <= i < parts.len() - 1 ==> line_aligned(#[trigger] parts[i]),
        is_report(whole, aggregate(records(data))),
        is_report(split, merge_parts(parts)),
    ensures
        whole.len() == split.len(),
        forall|i: int| 0 <= i < whole.len() ==> #[trigger] whole[i].0@ == split[i].0@ && whole[i].1 == split[i].1,
{
    lemma_partition_invariant(parts);
    lemma_report_unique(whole, split, aggregate(records(data)));
}

/// The aggregate of observations in the value domain.
pub open spec fn agg_ok(a: Agg) -> bool {
    &&& a.count >= 1
    &&& -999 <= a.min <= a.max <= 999
    &&& a.count * a.min <= a.sum <= a.count * a.max
}

pub proof fn lemma_records_in_domain(s: Seq<u8>)
    ensures
        forall|i: int| 0 <= i < records(s).len() ==> -999 <= #[trigger] records(s)[i].1 <= 999,
    decreases s.len(),
{
    if s.len() > 0 {
        lemma_records_step(s);
        let rest = s.subrange(after_line(s), s.len() as int);
        lemma_records_in_domain(rest);
        let lr = line_record(s.take(find(s, NEWLINE)));
        assert forall|i: int| 0 <= i < records(s).len() implies -999 <= #[trigger] records(s)[i].1 <= 999 by {
            if i >= lr.len() {
                assert(records(s)[i] == records(rest)[i - lr.len()]);
            }
        }
    }
}

pub proof fn lemma_aggregate_ok(recs: Seq<(Seq<u8>, int)>)
    requires
        forall|i: int| 0 <= i < recs.len() ==> -999 <= #[trigger] recs[i].1 <= 999,
    ensures
        forall|k: Seq<u8>| #[trigger] aggregate(recs).contains_key(k) ==> agg_ok(aggregate(recs)[k]),
    decreases recs.len(),
{
    if recs.len() > 0 {
        let p = recs.drop_last();
        assert forall|i: int| 0 <= i < p.len() implies -999 <= #[trigger] p[i].1 <= 999 by {
            assert(p[i] == recs[i]);
        }
        lemma_aggregate_ok(p);
        let (k, v) = recs.last();
        assert(-999 <= recs[recs.len() - 1].1 <= 999);
        if aggregate(p).contains_key(k) {
            let a = aggregate(p)[k];
            let c = combine(a, single(v));
            assert(agg_ok(a));
            assert(c.count * c.min <= c.sum <= c.count * c.max) by (nonlinear_arith)
                requires
                    c.count == a.count + 1,
                    c.sum == a.sum + v,
                    c.min <= a.min,
                    c.min <= v,
                    c.max >= a.max,
                    c.max >= v,
                    a.count * a.min <= a.sum <= a.count * a.max,
                    a.count >= 1,
            ;
        }
    }
}

/// Every record of the report of any input has `min <= avg <= max`.
pub proof fn lemma_report_ordered(data: Seq<u8>, r: Seq<(Vec<u8>, FinalMeasurement)>)
    requires
        is_report(r, aggregate(records(data))),
    ensures
        forall|i: int| 0 <= i < r.len() ==> (#[trigger] r[i]).1.min <= r[i].1.avg <= r[i].1.max,
{
    let t = aggregate(records(data));
    lemma_records_in_domain(data);
    lemma_aggregate_ok(records(data));
    assert forall|i: int| 0 <= i < r.len() implies (#[trigger] r[i]).1.min <= r[i].1.avg <= r[i].1.max by {
        let a = t[r[i].0@];
        assert(agg_ok(a));
        lemma_rounded_avg_bounds(a.sum, a.count as int, a.min, a.max);
    }
}

} // verus!
