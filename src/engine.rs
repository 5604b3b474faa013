//! The run: scanning the buffer into records, folding them into the table,
//! and rendering the sorted report.
use vstd::prelude::*;

use crate::fixed::{parse, render, value_of, lemma_value_bounded, slice_range, MAX_MAGNITUDE};
use crate::record::Record;
use crate::table::{fold_into, lemma_listing_unique, lists_sorted, Table};
use crate::record::lemma_mean_within;
use crate::RunError;

verus! {

pub const NEWLINE: u8 = 10;

pub const SEPARATOR: u8 = 59;

/// The first position in `start..end` that holds `b`, or `end` if none does.
pub open spec fn first_from(d: Seq<u8>, b: u8, start: int, end: int) -> int
    decreases end - start,
{
    if start >= end {
        end
    } else if d[start] == b {
        start
    } else {
        first_from(d, b, start + 1, end)
    }
}

pub proof fn lemma_first_from_bounds(d: Seq<u8>, b: u8, start: int, end: int)
    requires
        start <= end,
    ensures
        start <= first_from(d, b, start, end) <= end,
    decreases end - start,
{
    if start < end && d[start] != b {
        lemma_first_from_bounds(d, b, start + 1, end);
    }
}

/// The records of the lines from `start` on, each split at its first
/// separator, with its value read; an error at the first line that has no
/// separator or whose value has no accepted shape.
pub open spec fn records_from(d: Seq<u8>, start: int) -> Result<Seq<(Seq<u8>, i32)>, RunError>
    decreases d.len() + 1 - start via records_from_decreases
{
    if start < 0 || start >= d.len() {
        Ok(Seq::empty())
    } else {
        let end = first_from(d, NEWLINE, start, d.len() as int);
        let sep = first_from(d, SEPARATOR, start, end);
        if sep >= end || sep < start {
            Err(RunError::InvalidRecordFormat)
        } else {
            match value_of(d.subrange(sep + 1, end)) {
                None => Err(RunError::InvalidRecordFormat),
                Some(v) => match records_from(d, end + 1) {
                    Ok(rest) => Ok(seq![(d.subrange(start, sep), v as i32)] + rest),
                    Err(e) => Err(e),
                },
            }
        }
    }
}

#[via_fn]
proof fn records_from_decreases(d: Seq<u8>, start: int) {
    if 0 <= start < d.len() {
        lemma_first_from_bounds(d, NEWLINE, start, d.len() as int);
        let end = first_from(d, NEWLINE, start, d.len() as int);
        lemma_first_from_bounds(d, SEPARATOR, start, end);
    }
}

/// The records of a whole file, which must end with a line terminator.
pub open spec fn records(file: Seq<u8>) -> Result<Seq<(Seq<u8>, i32)>, RunError> {
    if file.len() == 0 || file.last() != NEWLINE {
        Err(RunError::TruncatedInput)
    } else {
        records_from(file.drop_last(), 0)
    }
}

/// The statistics of each key over `rs`, folded in order.
pub open spec fn summarize(rs: Seq<(Seq<u8>, i32)>) -> Map<Seq<u8>, Record>
    decreases rs.len(),
{
    if rs.len() == 0 {
        Map::empty()
    } else {
        fold_into(summarize(rs.drop_last()), rs.last().0, rs.last().1)
    }
}

/// Every value of `rs` has the magnitude of a token.
pub open spec fn values_bounded(rs: Seq<(Seq<u8>, i32)>) -> bool {
    forall|i: int| 0 <= i < rs.len() ==> -MAX_MAGNITUDE <= (#[trigger] rs[i]).1 <= MAX_MAGNITUDE
}

/// `done` followed by what `rest` gives, or the error of `rest`.
pub open spec fn prepend(
    done: Seq<(Seq<u8>, i32)>,
    rest: Result<Seq<(Seq<u8>, i32)>, RunError>,
) -> Result<Seq<(Seq<u8>, i32)>, RunError> {
    match rest {
        Ok(s) => Ok(done + s),
        Err(e) => Err(e),
    }
}

/// Statistics folded from few enough bounded values are populated, and
/// their counters stay far from their limits.
pub proof fn lemma_summary_bounds(rs: Seq<(Seq<u8>, i32)>)
    requires
        rs.len() < u64::MAX,
        values_bounded(rs),
    ensures
        forall|k: Seq<u8>| #[trigger] summarize(rs).contains_key(k) ==> {
            let r = summarize(rs)[k];
            &&& r.is_populated()
            &&& r.count <= rs.len()
            &&& -MAX_MAGNITUDE * r.count <= r.sum <= MAX_MAGNITUDE * r.count
        },
    decreases rs.len(),
{
    if rs.len() > 0 {
        let init = rs.drop_last();
        assert(values_bounded(init)) by {
            assert forall|i: int| 0 <= i < init.len() implies -MAX_MAGNITUDE <= (#[trigger] init[i]).1
                <= MAX_MAGNITUDE by {
                assert(init[i] == rs[i]);
            }
        }
        lemma_summary_bounds(init);
        let (key, v) = rs.last();
        assert(-MAX_MAGNITUDE <= rs[rs.len() - 1].1 <= MAX_MAGNITUDE);
        let m = summarize(init);
        let before = if m.contains_key(key) { m[key] } else { Record::empty() };
        assert(before.can_add(v as int)) by {
            if m.contains_key(key) {
                assert(before.sum <= MAX_MAGNITUDE * 0xffff_ffff_ffff_ffffu64) by (nonlinear_arith)
                    requires
                        before.sum <= MAX_MAGNITUDE * before.count,
                        before.count <= 0xffff_ffff_ffff_ffffu64,
                ;
                assert(before.sum >= -MAX_MAGNITUDE * 0xffff_ffff_ffff_ffffu64) by (nonlinear_arith)
                    requires
                        before.sum >= -MAX_MAGNITUDE * before.count,
                        before.count <= 0xffff_ffff_ffff_ffffu64,
                ;
            }
        }
        crate::record::lemma_added_populated(before, v);
    }
}

/// The first position in `start..end` that holds `b`, or `end`.
fn find_byte(d: &[u8], b: u8, start: usize, end: usize) -> (r: usize)
    requires
        start <= end <= d@.len(),
    ensures
        r == first_from(d@, b, start as int, end as int),
        start <= r <= end,
{
    let mut i = start;
    while i < end && d[i] != b
        invariant
            start <= i <= end <= d@.len(),
            first_from(d@, b, start as int, end as int) == first_from(d@, b, i as int, end as int),
        decreases end - i,
    {
        i = i + 1;
    }
    i
}

/// Folds every record of a file into a table: the statistics of each key.
pub fn aggregate(file: &[u8]) -> (r: Result<Table, RunError>)
    ensures
        match records(file@) {
            Ok(rs) => r is Ok && r->Ok_0.wf() && r->Ok_0@ == summarize(rs),
            Err(e) => r is Err && r->Err_0 == e,
        },
{
    if file.len() == 0 || file[file.len() - 1] != NEWLINE {
        return Err(RunError::TruncatedInput);
    }
    let d = slice_range(file, 0, file.len() - 1);
    assert(d@ == file@.drop_last());
    let mut table = Table::new();
    let flen: usize = file.len();
    let mut pos: usize = 0;
    let ghost mut done: Seq<(Seq<u8>, i32)> = Seq::empty();
    assert(done + records_from(d@, 0)->Ok_0 =~= records_from(d@, 0)->Ok_0);
    while pos < d.len()
        invariant
            pos <= d@.len() + 1,
            d@.len() + 1 == flen,
            flen == file@.len(),
            records(file@) == records_from(d@, 0),
            records_from(d@, 0) == prepend(done, records_from(d@, pos as int)),
            table.wf(),
            table@ == summarize(done),
            done.len() <= pos,
            values_bounded(done),
        decreases d@.len() + 1 - pos,
    {
        let end = find_byte(d, NEWLINE, pos, d.len());
        let sep = find_byte(d, SEPARATOR, pos, end);
        if sep >= end {
            assert(records_from(d@, pos as int) == Err::<Seq<(Seq<u8>, i32)>, RunError>(RunError::InvalidRecordFormat));
            return Err(RunError::InvalidRecordFormat);
        }
        let value = match parse(slice_range(d, sep + 1, end)) {
            Ok(v) => v,
            Err(e) => {
                assert(records_from(d@, pos as int) == Err::<Seq<(Seq<u8>, i32)>, RunError>(RunError::InvalidRecordFormat));
                return Err(e);
            },
        };
        let key = slice_range(d, pos, sep);
        proof {
            lemma_value_bounded(d@.subrange(sep + 1, end as int));
            lemma_summary_bounds(done);
            let rest = records_from(d@, end + 1);
            let rec = (d@.subrange(pos as int, sep as int), value);
            assert(prepend(done, records_from(d@, pos as int)) == prepend(done.push(rec), rest)) by {
                if rest is Ok {
                    assert(done + (seq![rec] + rest->Ok_0) =~= done.push(rec) + rest->Ok_0);
                }
            }
            assert(done.push(rec).drop_last() =~= done);
            done = done.push(rec);
            assert(values_bounded(done)) by {
                assert forall|i: int| 0 <= i < done.len() implies -MAX_MAGNITUDE <= (#[trigger] done[i]).1
                    <= MAX_MAGNITUDE by {
                    if i < done.len() - 1 {
                        assert(done[i] == done.drop_last()[i]);
                    }
                }
            }
        }
        table.fold(key, value);
        pos = end + 1;
    }
    proof {
        assert(records_from(d@, pos as int) is Ok);
        assert(done + records_from(d@, pos as int)->Ok_0 =~= done);
    }
    Ok(table)
}

pub const COLON: u8 = 58;

pub const SPACE: u8 = 32;

pub const SLASH: u8 = 47;

/// The report line of one key: `<key>: <min>/<mean>/<max>`.
pub open spec fn line_of(name: Seq<u8>, r: Record) -> Seq<u8> {
    name + seq![COLON, SPACE] + render(r.min as int) + seq![SLASH] + render(r.mean()) + seq![SLASH]
        + render(r.max as int)
}

/// The report of a file: its lines, one per listed entry, in order.
pub open spec fn is_report(file: Seq<u8>, lines: Seq<Seq<u8>>) -> bool {
    &&& records(file) is Ok
    &&& exists|out: Seq<(Vec<u8>, Record)>|
        lists_sorted(out, summarize(records(file)->Ok_0)) && lines =~= out.map_values(
            |e: (Vec<u8>, Record)| line_of(e.0@, e.1),
        )
}

/// Renders the report line of one key.
pub fn report_line(name: &[u8], r: Record) -> (line: Vec<u8>)
    requires
        r.is_populated(),
    ensures
        line@ == line_of(name@, r),
{
    let mut line = vstd::slice::slice_to_vec(name);
    line.push(COLON);
    line.push(SPACE);
    let mut low = crate::fixed::format(r.min);
    line.append(&mut low);
    line.push(SLASH);
    let mut mean = crate::fixed::format(r.avg());
    line.append(&mut mean);
    line.push(SLASH);
    let mut high = crate::fixed::format(r.max);
    line.append(&mut high);
    assert(line@ =~= line_of(name@, r));
    line
}

/// The statistics of every key of a file, by ascending key. Each entry's
/// mean lies between its minimum and its maximum.
pub fn summarize_file(file: &[u8]) -> (r: Result<Vec<(Vec<u8>, Record)>, RunError>)
    ensures
        match records(file@) {
            Ok(rs) => r is Ok && lists_sorted(r->Ok_0@, summarize(rs)),
            Err(e) => r is Err && r->Err_0 == e,
        },
        r is Ok ==> forall|i: int|
            0 <= i < r->Ok_0@.len() ==> {
                let s = (#[trigger] r->Ok_0@[i]).1;
                &&& s.is_populated()
                &&& s.min <= s.mean() <= s.max
            },
{
    match aggregate(file) {
        Ok(table) => {
            proof {
                table.lemma_populated();
            }
            let ghost m = table@;
            let out = table.drain_sorted();
            proof {
                assert forall|i: int| 0 <= i < out@.len() implies {
                    let s = (#[trigger] out@[i]).1;
                    &&& s.is_populated()
                    &&& s.min <= s.mean() <= s.max
                } by {
                    assert(m.contains_key(out@[i].0@));
                    lemma_mean_within(out@[i].1);
                }
            }
            Ok(out)
        },
        Err(e) => Err(e),
    }
}

/// Runs the whole engine on a file's contents: one report line per
/// distinct key, by ascending key, or the first fatal condition.
pub fn run(file: &[u8]) -> (r: Result<Vec<Vec<u8>>, RunError>)
    ensures
        match records(file@) {
            Ok(rs) => r is Ok && is_report(file@, r->Ok_0@.map_values(|l: Vec<u8>| l@)),
            Err(e) => r is Err && r->Err_0 == e,
        },
{
    let entries = match summarize_file(file) {
        Ok(entries) => entries,
        Err(e) => {
            return Err(e);
        },
    };
    let mut lines: Vec<Vec<u8>> = Vec::new();
    let mut i: usize = 0;
    while i < entries.len()
        invariant
            i <= entries@.len(),
            lines@.len() == i,
            forall|j: int| 0 <= j < entries@.len() ==> (#[trigger] entries@[j]).1.is_populated(),
            forall|j: int|
                0 <= j < i ==> (#[trigger] lines@[j])@ == line_of(entries@[j].0@, entries@[j].1),
        decreases entries@.len() - i,
    {
        let line = report_line(entries[i].0.as_slice(), entries[i].1);
        lines.push(line);
        i = i + 1;
    }
    proof {
        let out = entries@;
        let views = lines@.map_values(|l: Vec<u8>| l@);
        assert(views =~= out.map_values(|e: (Vec<u8>, Record)| line_of(e.0@, e.1)));
    }
    Ok(lines)
}

/// A key has statistics exactly when some record carries it: one report
/// line for each key of the input, and none for any other.
pub proof fn lemma_summary_keys(rs: Seq<(Seq<u8>, i32)>, k: Seq<u8>)
    ensures
        summarize(rs).contains_key(k) <==> exists|i: int| 0 <= i < rs.len() && (#[trigger] rs[i]).0 == k,
    decreases rs.len(),
{
    if rs.len() > 0 {
        let init = rs.drop_last();
        lemma_summary_keys(init, k);
        if exists|i: int| 0 <= i < init.len() && (#[trigger] init[i]).0 == k {
            let i = choose|i: int| 0 <= i < init.len() && (#[trigger] init[i]).0 == k;
            assert(rs[i] == init[i]);
        }
        if exists|i: int| 0 <= i < rs.len() && (#[trigger] rs[i]).0 == k {
            let i = choose|i: int| 0 <= i < rs.len() && (#[trigger] rs[i]).0 == k;
            if i < rs.len() - 1 {
                assert(rs[i] == init[i]);
            }
        }
    }
}

/// The report of a file is fixed by its contents: two runs on the same
/// bytes give the same lines.
pub proof fn lemma_report_deterministic(file: Seq<u8>, a: Seq<Seq<u8>>, b: Seq<Seq<u8>>)
    requires
        is_report(file, a),
        is_report(file, b),
    ensures
        a == b,
{
    let m = summarize(records(file)->Ok_0);
    let f = |e: (Vec<u8>, Record)| line_of(e.0@, e.1);
    let x = choose|x: Seq<(Vec<u8>, Record)>| lists_sorted(x, m) && a =~= x.map_values(f);
    let y = choose|y: Seq<(Vec<u8>, Record)>| lists_sorted(y, m) && b =~= y.map_values(f);
    lemma_listing_unique(x, y, m);
    assert(a =~= b);
}

} // verus!
