//! Wide tables of ephemerides, one per constellation label. Each table has one
//! column per parameter name seen in its group, sorted, and one row per
//! frame of the group in frame order; a frame without a parameter has no
//! value in that column.

use vstd::prelude::*;
use crate::constellation::{
    all_labels, classify, label_for, label_of, label_text, labels_in_order, lemma_label_order, rank,
    Label,
};
use crate::names::{insert_name, insert_name_spec, lemma_union_names, seq_lt, strictly_sorted, union_names};
use crate::navigation::{clock_entry, frame_entries, frame_value, lookup};
use crate::records::{validate, DecodedFile, NavFrame, ReadError, RecordKind};

verus! {

/// The frames whose constellation has label `c`, in frame order.
pub open spec fn group(fs: Seq<NavFrame>, c: Label) -> Seq<NavFrame>
    decreases fs.len(),
{
    if fs.len() == 0 {
        Seq::empty()
    } else if label_for(fs.last().constellation) == c {
        group(fs.drop_last(), c).push(fs.last())
    } else {
        group(fs.drop_last(), c)
    }
}

/// The parameter names of a frame, clock terms first.
pub open spec fn frame_names(f: NavFrame) -> Seq<Seq<char>> {
    frame_entries(f).map_values(|e: (Seq<char>, u64)| e.0)
}

/// The parameter names of a group of frames, frame after frame.
pub open spec fn group_names(g: Seq<NavFrame>) -> Seq<Seq<char>>
    decreases g.len(),
{
    if g.len() == 0 {
        Seq::empty()
    } else {
        group_names(g.drop_last()) + frame_names(g.last())
    }
}

/// The columns of a group's table: the sorted union of its parameter names.
pub open spec fn columns_of(g: Seq<NavFrame>) -> Seq<Seq<char>> {
    union_names(group_names(g))
}

/// The values of frame `f` under columns `cols`; none where it lacks one.
pub open spec fn row_values(f: NavFrame, cols: Seq<Seq<char>>) -> Seq<Option<u64>> {
    cols.map_values(|n: Seq<char>| lookup(frame_entries(f), n))
}

/// The labels of `cs` that have at least one frame in `fs`, in order.
pub open spec fn present(cs: Seq<Label>, fs: Seq<NavFrame>) -> Seq<Label>
    decreases cs.len(),
{
    if cs.len() == 0 {
        Seq::empty()
    } else if group(fs, cs.last()).len() > 0 {
        present(cs.drop_last(), fs).push(cs.last())
    } else {
        present(cs.drop_last(), fs)
    }
}

/// Names added to a list one by one with `insert_name_spec`.
pub open spec fn insert_all(base: Seq<Seq<char>>, xs: Seq<Seq<char>>) -> Seq<Seq<char>>
    decreases xs.len(),
{
    if xs.len() == 0 {
        base
    } else {
        insert_name_spec(insert_all(base, xs.drop_last()), xs.last())
    }
}

proof fn lemma_union_append(s: Seq<Seq<char>>, xs: Seq<Seq<char>>)
    ensures
        union_names(s + xs) == insert_all(union_names(s), xs),
    decreases xs.len(),
{
    if xs.len() == 0 {
        assert(s + xs =~= s);
    } else {
        lemma_union_append(s, xs.drop_last());
        assert((s + xs).drop_last() =~= s + xs.drop_last());
        assert((s + xs).last() == xs.last());
    }
}

/// One row of a wide table.
#[derive(Clone, Debug)]
pub struct WideRow {
    pub epoch: String,
    pub prn: u8,
    pub values: Vec<Option<u64>>,
}

/// The wide table of one label's group.
#[derive(Clone, Debug)]
pub struct WideTable {
    pub group: Label,
    pub label: String,
    pub columns: Vec<String>,
    pub rows: Vec<WideRow>,
}

pub open spec fn names_view(v: Seq<String>) -> Seq<Seq<char>> {
    v.map_values(|n: String| n@)
}

/// Row `r` is frame `f` under columns `cols`.
pub open spec fn row_matches(r: WideRow, f: NavFrame, cols: Seq<Seq<char>>) -> bool {
    r.epoch@ == f.epoch@ && r.prn == f.prn && r.values@ == row_values(f, cols)
}

/// Table `t` is the wide table of label `c` over frames `fs`.
pub open spec fn table_of(t: WideTable, c: Label, fs: Seq<NavFrame>) -> bool {
    let g = group(fs, c);
    &&& t.group == c
    &&& t.label@ == label_of(c)
    &&& names_view(t.columns@) == columns_of(g)
    &&& t.rows@.len() == g.len()
    &&& forall|k: int| 0 <= k < g.len() ==> row_matches(#[trigger] t.rows@[k], g[k], columns_of(g))
}

/// Adds the parameter names of frame `f` to `cols`, in frame order.
fn add_frame_names(cols: &mut Vec<String>, f: &NavFrame)
    ensures
        names_view(final(cols)@) == insert_all(names_view(old(cols)@), frame_names(*f)),
{
    let ghost base = names_view(cols@);
    let ghost fnm = frame_names(*f);
    let mut k: usize = 0;
    while k < 3
        invariant
            k <= 3,
            fnm == frame_names(*f),
            names_view(cols@) == insert_all(base, fnm.take(k as int)),
        decreases 3 - k,
    {
        let (n, _v) = clock_entry(f, k);
        insert_name(cols, &n);
        assert(fnm.take(k + 1).drop_last() =~= fnm.take(k as int));
        k = k + 1;
    }
    let mut j: usize = 0;
    while j < f.orbits.len()
        invariant
            j <= f.orbits.len(),
            fnm == frame_names(*f),
            names_view(cols@) == insert_all(base, fnm.take(3 + j)),
        decreases f.orbits.len() - j,
    {
        insert_name(cols, &f.orbits[j].name);
        assert(fnm.take(3 + j + 1).drop_last() =~= fnm.take(3 + j));
        assert(fnm[3 + j] == f.orbits@[j as int].name@);
        j = j + 1;
    }
    assert(fnm.take(3 + j) =~= fnm);
}

/// First pass: the sorted union of the parameter names of the group's frames.
fn group_columns(frames: &Vec<NavFrame>, c: Label) -> (cols: Vec<String>)
    ensures
        names_view(cols@) == columns_of(group(frames@, c)),
{
    let mut cols: Vec<String> = Vec::new();
    let mut i: usize = 0;
    assert(names_view(cols@) =~= Seq::<Seq<char>>::empty());
    while i < frames.len()
        invariant
            i <= frames.len(),
            names_view(cols@) == columns_of(group(frames@.take(i as int), c)),
        decreases frames.len() - i,
    {
        let ghost g = group(frames@.take(i as int), c);
        assert(frames@.take(i + 1).drop_last() =~= frames@.take(i as int));
        if classify(frames[i].constellation) == c {
            add_frame_names(&mut cols, &frames[i]);
            proof {
                lemma_union_append(group_names(g), frame_names(frames@[i as int]));
                assert(g.push(frames@[i as int]).drop_last() =~= g);
            }
        }
        i = i + 1;
    }
    assert(frames@.take(i as int) =~= frames@);
    cols
}

/// The row of frame `f` under columns `cols`.
fn wide_row(f: &NavFrame, cols: &Vec<String>) -> (r: WideRow)
    ensures
        row_matches(r, *f, names_view(cols@)),
{
    let mut values: Vec<Option<u64>> = Vec::new();
    let mut j: usize = 0;
    while j < cols.len()
        invariant
            j <= cols.len(),
            values@ == row_values(*f, names_view(cols@)).take(j as int),
        decreases cols.len() - j,
    {
        let v = frame_value(f, &cols[j]);
        values.push(v);
        assert(row_values(*f, names_view(cols@)).take(j + 1) =~= row_values(*f, names_view(cols@)).take(j as int).push(v));
        j = j + 1;
    }
    assert(row_values(*f, names_view(cols@)).take(j as int) =~= row_values(*f, names_view(cols@)));
    WideRow { epoch: f.epoch.clone(), prn: f.prn, values }
}

/// Second pass: one row per frame of the group, in frame order.
fn group_rows(frames: &Vec<NavFrame>, c: Label, cols: &Vec<String>) -> (rows: Vec<WideRow>)
    ensures
        rows@.len() == group(frames@, c).len(),
        forall|k: int| 0 <= k < rows@.len() ==> row_matches(#[trigger] rows@[k], group(frames@, c)[k], names_view(cols@)),
{
    let mut rows: Vec<WideRow> = Vec::new();
    let mut i: usize = 0;
    while i < frames.len()
        invariant
            i <= frames.len(),
            rows@.len() == group(frames@.take(i as int), c).len(),
            forall|k: int| 0 <= k < rows@.len() ==> row_matches(#[trigger] rows@[k], group(frames@.take(i as int), c)[k], names_view(cols@)),
        decreases frames.len() - i,
    {
        let ghost g = group(frames@.take(i as int), c);
        assert(frames@.take(i + 1).drop_last() =~= frames@.take(i as int));
        if classify(frames[i].constellation) == c {
            let r = wide_row(&frames[i], cols);
            rows.push(r);
            assert(group(frames@.take(i + 1), c) == g.push(frames@[i as int]));
        }
        i = i + 1;
    }
    assert(frames@.take(i as int) =~= frames@);
    rows
}

/// The wide table of label `c`; it has no rows when `c` has no frame.
pub fn build_table(frames: &Vec<NavFrame>, c: Label) -> (t: WideTable)
    ensures
        table_of(t, c, frames@),
{
    let columns = group_columns(frames, c);
    let rows = group_rows(frames, c, &columns);
    WideTable { group: c, label: label_text(c), columns, rows }
}

/// One wide table per label that has frames, in sorted-label order.
pub fn pivot_by_constellation(frames: &Vec<NavFrame>) -> (r: Vec<WideTable>)
    ensures
        r@.len() == present(all_labels(), frames@).len(),
        forall|i: int| 0 <= i < r@.len() ==> table_of(#[trigger] r@[i], present(all_labels(), frames@)[i], frames@),
{
    let cs = labels_in_order();
    let mut r: Vec<WideTable> = Vec::new();
    let mut i: usize = 0;
    while i < cs.len()
        invariant
            i <= cs.len(),
            cs@ == all_labels(),
            r@.len() == present(cs@.take(i as int), frames@).len(),
            forall|k: int| 0 <= k < r@.len() ==> table_of(#[trigger] r@[k], present(cs@.take(i as int), frames@)[k], frames@),
        decreases cs.len() - i,
    {
        let ghost p = present(cs@.take(i as int), frames@);
        assert(cs@.take(i + 1).drop_last() =~= cs@.take(i as int));
        let t = build_table(frames, cs[i]);
        if t.rows.len() > 0 {
            r.push(t);
            assert(present(cs@.take(i + 1), frames@) == p.push(cs@[i as int]));
        }
        i = i + 1;
    }
    assert(cs@.take(i as int) =~= cs@);
    r
}

/// Reads decoded ephemerides as one wide table per label.
pub fn read_navigation_by_constellation(exists: bool, decoded: Result<DecodedFile, String>) -> (r: Result<
    Vec<WideTable>,
    ReadError,
>)
    ensures
        !exists ==> r matches Err(ReadError::NotFound),
        exists ==> match decoded {
            Err(m) => r matches Err(ReadError::DecodeError(m2)) && m2@ == m@,
            Ok(d) => if d.kind == RecordKind::Navigation {
                r matches Ok(ts) && ts@.len() == present(all_labels(), d.frames@).len()
                    && forall|i: int| 0 <= i < ts@.len() ==> table_of(#[trigger] ts@[i], present(all_labels(), d.frames@)[i], d.frames@)
            } else {
                r matches Err(ReadError::WrongRecordKind)
            },
        },
{
    match validate(exists, decoded, RecordKind::Navigation) {
        Err(e) => Err(e),
        Ok(d) => Ok(pivot_by_constellation(&d.frames)),
    }
}

/// Every table is dense and well formed: its columns are sorted, without
/// repeats, and are exactly the parameter names seen in its group's frames;
/// every row has one value (possibly none) per column.
pub proof fn lemma_wide_table_shape(t: WideTable, c: Label, fs: Seq<NavFrame>)
    requires
        table_of(t, c, fs),
    ensures
        strictly_sorted(names_view(t.columns@)),
        names_view(t.columns@).to_set() == group_names(group(fs, c)).to_set(),
        forall|k: int| 0 <= k < t.rows@.len() ==> (#[trigger] t.rows@[k]).values@.len() == t.columns@.len(),
{
    lemma_union_names(group_names(group(fs, c)));
    assert forall|k: int| 0 <= k < t.rows@.len() implies (#[trigger] t.rows@[k]).values@.len() == t.columns@.len() by {
        assert(row_matches(t.rows@[k], group(fs, c)[k], columns_of(group(fs, c))));
    }
}

/// How many frames the groups of `cs` hold together.
pub open spec fn group_total(cs: Seq<Label>, fs: Seq<NavFrame>) -> nat
    decreases cs.len(),
{
    if cs.len() == 0 {
        0
    } else {
        group_total(cs.drop_last(), fs) + group(fs, cs.last()).len()
    }
}

/// How many rows the tables hold together.
pub open spec fn table_rows_total(ts: Seq<WideTable>) -> nat
    decreases ts.len(),
{
    if ts.len() == 0 {
        0
    } else {
        table_rows_total(ts.drop_last()) + ts.last().rows@.len()
    }
}

/// How often `x` occurs in `cs`.
pub open spec fn occurrences(cs: Seq<Label>, x: Label) -> nat
    decreases cs.len(),
{
    if cs.len() == 0 {
        0
    } else {
        occurrences(cs.drop_last(), x) + if cs.last() == x { 1nat } else { 0nat }
    }
}

proof fn lemma_occurrences_all(x: Label)
    ensures
        occurrences(all_labels(), x) == 1,
{
    reveal_with_fuel(occurrences, 9);
    let a = all_labels();
    assert(a.drop_last().drop_last().drop_last().drop_last().drop_last().drop_last().drop_last().drop_last() =~= Seq::<Label>::empty());
}

proof fn lemma_group_total_step(cs: Seq<Label>, fs: Seq<NavFrame>)
    requires
        fs.len() > 0,
    ensures
        group_total(cs, fs) == group_total(cs, fs.drop_last()) + occurrences(cs, label_for(fs.last().constellation)),
    decreases cs.len(),
{
    if cs.len() > 0 {
        lemma_group_total_step(cs.drop_last(), fs);
    }
}

proof fn lemma_group_total_all(fs: Seq<NavFrame>)
    ensures
        group_total(all_labels(), fs) == fs.len(),
    decreases fs.len(),
{
    if fs.len() == 0 {
        reveal_with_fuel(group_total, 9);
    } else {
        lemma_group_total_all(fs.drop_last());
        lemma_group_total_step(all_labels(), fs);
        lemma_occurrences_all(label_for(fs.last().constellation));
    }
}

proof fn lemma_group_total_present(cs: Seq<Label>, fs: Seq<NavFrame>)
    ensures
        group_total(present(cs, fs), fs) == group_total(cs, fs),
    decreases cs.len(),
{
    if cs.len() > 0 {
        lemma_group_total_present(cs.drop_last(), fs);
        let p = present(cs.drop_last(), fs);
        assert(p.push(cs.last()).drop_last() =~= p);
    }
}

proof fn lemma_table_rows_total(ts: Seq<WideTable>, p: Seq<Label>, fs: Seq<NavFrame>)
    requires
        ts.len() == p.len(),
        forall|i: int| 0 <= i < ts.len() ==> table_of(#[trigger] ts[i], p[i], fs),
    ensures
        table_rows_total(ts) == group_total(p, fs),
    decreases ts.len(),
{
    if ts.len() > 0 {
        let n = ts.len() - 1;
        assert(table_of(ts[n], p[n], fs));
        lemma_table_rows_total(ts.drop_last(), p.drop_last(), fs);
    }
}

/// No frame is lost or repeated across the tables: their rows together are
/// as many as the frames, each table holding exactly its group's frames.
pub proof fn lemma_partition_complete(ts: Seq<WideTable>, fs: Seq<NavFrame>)
    requires
        ts.len() == present(all_labels(), fs).len(),
        forall|i: int| 0 <= i < ts.len() ==> table_of(#[trigger] ts[i], present(all_labels(), fs)[i], fs),
    ensures
        table_rows_total(ts) == fs.len(),
        group_total(all_labels(), fs) == fs.len(),
{
    lemma_table_rows_total(ts, present(all_labels(), fs), fs);
    lemma_group_total_present(all_labels(), fs);
    lemma_group_total_all(fs);
}

proof fn lemma_group_single(fs: Seq<NavFrame>, c: Label, d: Label)
    requires
        forall|i: int| 0 <= i < fs.len() ==> label_for((#[trigger] fs[i]).constellation) == c,
    ensures
        group(fs, d).len() == if d == c { fs.len() } else { 0 },
    decreases fs.len(),
{
    if fs.len() > 0 {
        lemma_group_single(fs.drop_last(), c, d);
        assert(fs[fs.len() - 1] == fs.last());
    }
}

/// Frames that all share one label give a single table, under that label.
pub proof fn lemma_single_label(fs: Seq<NavFrame>, c: Label)
    requires
        fs.len() > 0,
        forall|i: int| 0 <= i < fs.len() ==> label_for((#[trigger] fs[i]).constellation) == c,
    ensures
        present(all_labels(), fs) == seq![c],
{
    assert forall|d: Label| group(fs, d).len() == if d == c { fs.len() } else { 0 } by {
        lemma_group_single(fs, c, d);
    }
    reveal_with_fuel(present, 9);
    let a = all_labels();
    assert(a.drop_last().drop_last().drop_last().drop_last().drop_last().drop_last().drop_last().drop_last() =~= Seq::<Label>::empty());
    assert(present(a, fs) =~= seq![c]);
}

/// Two tables hold the same text and values, row for row.
pub open spec fn same_table(a: WideTable, b: WideTable) -> bool {
    &&& a.group == b.group
    &&& a.label@ == b.label@
    &&& names_view(a.columns@) == names_view(b.columns@)
    &&& a.rows@.len() == b.rows@.len()
    &&& forall|k: int| 0 <= k < a.rows@.len() ==> {
        &&& (#[trigger] a.rows@[k]).epoch@ == b.rows@[k].epoch@
        &&& a.rows@[k].prn == b.rows@[k].prn
        &&& a.rows@[k].values@ == b.rows@[k].values@
    }
}

/// Pivoting is a function of the frames: two results for the same frames
/// agree table for table and row for row.
pub proof fn lemma_pivot_deterministic(r1: Seq<WideTable>, r2: Seq<WideTable>, fs: Seq<NavFrame>)
    requires
        r1.len() == present(all_labels(), fs).len(),
        forall|i: int| 0 <= i < r1.len() ==> table_of(#[trigger] r1[i], present(all_labels(), fs)[i], fs),
        r2.len() == present(all_labels(), fs).len(),
        forall|i: int| 0 <= i < r2.len() ==> table_of(#[trigger] r2[i], present(all_labels(), fs)[i], fs),
    ensures
        r1.len() == r2.len(),
        forall|i: int| 0 <= i < r1.len() ==> same_table(#[trigger] r1[i], r2[i]),
{
    assert forall|i: int| 0 <= i < r1.len() implies same_table(#[trigger] r1[i], r2[i]) by {
        let c = present(all_labels(), fs)[i];
        assert(table_of(r1[i], c, fs));
        assert(table_of(r2[i], c, fs));
        let g = group(fs, c);
        assert forall|k: int| 0 <= k < r1[i].rows@.len() implies {
            &&& (#[trigger] r1[i].rows@[k]).epoch@ == r2[i].rows@[k].epoch@
            &&& r1[i].rows@[k].prn == r2[i].rows@[k].prn
            &&& r1[i].rows@[k].values@ == r2[i].rows@[k].values@
        } by {
            assert(row_matches(r1[i].rows@[k], g[k], columns_of(g)));
            assert(row_matches(r2[i].rows@[k], g[k], columns_of(g)));
        }
    }
}

proof fn lemma_present_ranks(cs: Seq<Label>, fs: Seq<NavFrame>)
    requires
        forall|i: int, j: int| 0 <= i < j < cs.len() ==> rank(#[trigger] cs[i]) < rank(#[trigger] cs[j]),
    ensures
        forall|i: int| 0 <= i < present(cs, fs).len() ==> cs.contains(#[trigger] present(cs, fs)[i]),
        forall|i: int, j: int|
            0 <= i < j < present(cs, fs).len() ==> rank(#[trigger] present(cs, fs)[i]) < rank(
                #[trigger] present(cs, fs)[j],
            ),
    decreases cs.len(),
{
    if cs.len() > 0 {
        let init = cs.drop_last();
        let p = present(init, fs);
        lemma_present_ranks(init, fs);
        assert forall|i: int| 0 <= i < p.len() implies rank(#[trigger] p[i]) < rank(cs.last()) by {
            assert(init.contains(p[i]));
            let k = choose|k: int| 0 <= k < init.len() && init[k] == p[i];
            assert(cs[k] == init[k]);
            assert(rank(cs[k]) < rank(cs[cs.len() - 1]));
        }
        assert forall|i: int| 0 <= i < present(cs, fs).len() implies cs.contains(#[trigger] present(cs, fs)[i]) by {
            if i < p.len() {
                assert(init.contains(p[i]));
                let k = choose|k: int| 0 <= k < init.len() && init[k] == p[i];
                assert(cs[k] == p[i]);
            } else {
                assert(cs[cs.len() - 1] == cs.last());
            }
        }
    }
}

/// The tables come out in strictly increasing order of their labels.
pub proof fn lemma_tables_in_label_order(ts: Seq<WideTable>, fs: Seq<NavFrame>)
    requires
        ts.len() == present(all_labels(), fs).len(),
        forall|i: int| 0 <= i < ts.len() ==> table_of(#[trigger] ts[i], present(all_labels(), fs)[i], fs),
    ensures
        forall|i: int, j: int| 0 <= i < j < ts.len() ==> seq_lt((#[trigger] ts[i]).label@, (#[trigger] ts[j]).label@),
{
    lemma_label_order();
    lemma_present_ranks(all_labels(), fs);
    assert forall|i: int, j: int| 0 <= i < j < ts.len() implies seq_lt((#[trigger] ts[i]).label@, (#[trigger] ts[j]).label@) by {
        let p = present(all_labels(), fs);
        assert(table_of(ts[i], p[i], fs));
        assert(table_of(ts[j], p[j], fs));
        assert(rank(p[i]) < rank(p[j]));
        assert(seq_lt(label_of(p[i]), label_of(p[j])));
    }
}

} // verus!
