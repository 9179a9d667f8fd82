//! Long-format rows from decoded ephemeris frames: three clock rows per
//! frame, then one row per orbital parameter that the frame carries.

use vstd::prelude::*;
use crate::records::{validate, DecodedFile, NavFrame, OrbitParam, ReadError, RecordKind};

verus! {

pub open spec fn clock_bias_name() -> Seq<char> {
    "clock_bias"@
}

pub open spec fn clock_drift_name() -> Seq<char> {
    "clock_drift"@
}

pub open spec fn clock_drift_rate_name() -> Seq<char> {
    "clock_drift_rate"@
}

/// A frame's parameters as (name, value) pairs: the clock terms, then the
/// orbital parameters in frame order.
pub open spec fn frame_entries(f: NavFrame) -> Seq<(Seq<char>, u64)> {
    seq![
        (clock_bias_name(), f.clock_bias),
        (clock_drift_name(), f.clock_drift),
        (clock_drift_rate_name(), f.clock_drift_rate),
    ] + f.orbits@.map_values(|p: OrbitParam| (p.name@, p.value))
}

/// The value that a list of entries gives a name: the last one under that
/// name, or none.
pub open spec fn lookup(entries: Seq<(Seq<char>, u64)>, name: Seq<char>) -> Option<u64>
    decreases entries.len(),
{
    if entries.len() == 0 {
        None
    } else if entries.last().0 == name {
        Some(entries.last().1)
    } else {
        lookup(entries.drop_last(), name)
    }
}

/// Whether `p` names a clock term or an orbital parameter of frame `f`.
pub open spec fn is_frame_param(f: NavFrame, p: Seq<char>) -> bool {
    p == clock_bias_name() || p == clock_drift_name() || p == clock_drift_rate_name()
        || exists|k: int| 0 <= k < f.orbits@.len() && (#[trigger] f.orbits@[k]).name@ == p
}

/// One long-format navigation row.
#[derive(Clone, Debug)]
pub struct NavRow {
    pub sv: String,
    pub epoch: String,
    pub param: String,
    pub value: u64,
}

impl View for NavRow {
    type V = (Seq<char>, Seq<char>, Seq<char>, u64);

    open spec fn view(&self) -> Self::V {
        (self.sv@, self.epoch@, self.param@, self.value)
    }
}

/// The long-format rows of one frame.
pub open spec fn frame_rows(f: NavFrame) -> Seq<(Seq<char>, Seq<char>, Seq<char>, u64)> {
    frame_entries(f).map_values(|e: (Seq<char>, u64)| (f.sv@, f.epoch@, e.0, e.1))
}

/// The long-format rows of all frames, frame after frame.
pub open spec fn nav_rows(fs: Seq<NavFrame>) -> Seq<(Seq<char>, Seq<char>, Seq<char>, u64)>
    decreases fs.len(),
{
    if fs.len() == 0 {
        Seq::empty()
    } else {
        nav_rows(fs.drop_last()) + frame_rows(fs.last())
    }
}

/// Whether long-format row `r` can come from frame `f`: same satellite and
/// epoch, and a parameter of that frame.
pub open spec fn row_from_frame(r: (Seq<char>, Seq<char>, Seq<char>, u64), f: NavFrame) -> bool {
    r.0 == f.sv@ && r.1 == f.epoch@ && is_frame_param(f, r.2)
}

/// Whether some frame of `fs` can give long-format row `r`.
pub open spec fn row_has_frame(fs: Seq<NavFrame>, r: (Seq<char>, Seq<char>, Seq<char>, u64)) -> bool {
    exists|j: int| 0 <= j < fs.len() && #[trigger] row_from_frame(r, fs[j])
}

/// No parameter is made up: every long-format row belongs to a frame with
/// that satellite and epoch, and its parameter is a clock term or one of
/// that frame's orbital parameters.
pub proof fn lemma_nav_rows_params(fs: Seq<NavFrame>)
    ensures
        forall|i: int| 0 <= i < nav_rows(fs).len() ==> row_has_frame(fs, #[trigger] nav_rows(fs)[i]),
    decreases fs.len(),
{
    if fs.len() > 0 {
        let init = fs.drop_last();
        let f = fs.last();
        lemma_nav_rows_params(init);
        let n = nav_rows(init).len();
        assert forall|i: int| 0 <= i < nav_rows(fs).len() implies row_has_frame(fs, #[trigger] nav_rows(fs)[i]) by {
            if i < n {
                assert(nav_rows(fs)[i] == nav_rows(init)[i]);
                assert(row_has_frame(init, nav_rows(init)[i]));
                let j = choose|j: int| 0 <= j < init.len() && #[trigger] row_from_frame(nav_rows(init)[i], init[j]);
                assert(fs[j] == init[j]);
                assert(row_from_frame(nav_rows(fs)[i], fs[j]));
            } else {
                let k = i - n;
                assert(nav_rows(fs)[i] == frame_rows(f)[k]);
                if k >= 3 {
                    assert(f.orbits@[k - 3].name@ == frame_rows(f)[k].2);
                }
                assert(fs[fs.len() - 1] == f);
                assert(row_from_frame(nav_rows(fs)[i], fs[fs.len() - 1]));
            }
        }
    }
}

/// Flattening is a function of the frames: two runs on the same frames
/// give the same rows, row for row.
pub proof fn lemma_nav_rows_deterministic(r1: Seq<NavRow>, r2: Seq<NavRow>, fs: Seq<NavFrame>)
    requires
        r1.map_values(|r: NavRow| r@) == nav_rows(fs),
        r2.map_values(|r: NavRow| r@) == nav_rows(fs),
    ensures
        r1.len() == r2.len(),
        forall|k: int| 0 <= k < r1.len() ==> (#[trigger] r1[k])@ == r2[k]@,
{
    assert(r1.map_values(|r: NavRow| r@).len() == r1.len());
    assert(r2.map_values(|r: NavRow| r@).len() == r2.len());
    assert forall|k: int| 0 <= k < r1.len() implies (#[trigger] r1[k])@ == r2[k]@ by {
        assert(r1.map_values(|r: NavRow| r@)[k] == r1[k]@);
        assert(r2.map_values(|r: NavRow| r@)[k] == r2[k]@);
    }
}

/// The `k`-th clock entry of a frame.
pub(crate) fn clock_entry(f: &NavFrame, k: usize) -> (r: (String, u64))
    requires
        k < 3,
    ensures
        r.0@ == frame_entries(*f)[k as int].0,
        r.1 == frame_entries(*f)[k as int].1,
{
    if k == 0 {
        ("clock_bias".to_string(), f.clock_bias)
    } else if k == 1 {
        ("clock_drift".to_string(), f.clock_drift)
    } else {
        ("clock_drift_rate".to_string(), f.clock_drift_rate)
    }
}

/// The value that frame `f` gives parameter `name`, if any.
pub fn frame_value(f: &NavFrame, name: &String) -> (r: Option<u64>)
    ensures
        r == lookup(frame_entries(*f), name@),
{
    let ghost es = frame_entries(*f);
    let mut r: Option<u64> = None;
    let mut k: usize = 0;
    while k < 3
        invariant
            k <= 3,
            es == frame_entries(*f),
            r == lookup(es.take(k as int), name@),
        decreases 3 - k,
    {
        let (n, v) = clock_entry(f, k);
        assert(es.take(k + 1).drop_last() =~= es.take(k as int));
        if n == *name {
            r = Some(v);
        }
        k = k + 1;
    }
    let mut j: usize = 0;
    while j < f.orbits.len()
        invariant
            j <= f.orbits.len(),
            es == frame_entries(*f),
            r == lookup(es.take(3 + j), name@),
        decreases f.orbits.len() - j,
    {
        let p = &f.orbits[j];
        assert(es.take(3 + j + 1).drop_last() =~= es.take(3 + j));
        assert(es[3 + j] == (p.name@, p.value));
        if p.name == *name {
            r = Some(p.value);
        }
        j = j + 1;
    }
    assert(es.take(3 + j) =~= es);
    r
}

/// Appends the long-format rows of frame `f`.
fn push_frame_rows(rows: &mut Vec<NavRow>, f: &NavFrame)
    ensures
        final(rows)@.map_values(|r: NavRow| r@) == old(rows)@.map_values(|r: NavRow| r@) + frame_rows(*f),
{
    let ghost before = rows@.map_values(|r: NavRow| r@);
    let ghost fr = frame_rows(*f);
    let mut k: usize = 0;
    while k < 3
        invariant
            k <= 3,
            fr == frame_rows(*f),
            rows@.map_values(|r: NavRow| r@) == before + fr.take(k as int),
        decreases 3 - k,
    {
        let (n, v) = clock_entry(f, k);
        let row = NavRow { sv: f.sv.clone(), epoch: f.epoch.clone(), param: n, value: v };
        assert(row@ == fr[k as int]);
        let ghost old_rows = rows@;
        rows.push(row);
        assert(rows@.map_values(|r: NavRow| r@) =~= old_rows.map_values(|r: NavRow| r@).push(row@));
        assert(fr.take(k + 1) =~= fr.take(k as int).push(row@));
        k = k + 1;
    }
    let mut j: usize = 0;
    while j < f.orbits.len()
        invariant
            j <= f.orbits.len(),
            fr == frame_rows(*f),
            rows@.map_values(|r: NavRow| r@) == before + fr.take(3 + j),
        decreases f.orbits.len() - j,
    {
        let p = &f.orbits[j];
        let row = NavRow { sv: f.sv.clone(), epoch: f.epoch.clone(), param: p.name.clone(), value: p.value };
        assert(row@ == fr[3 + j]);
        let ghost old_rows = rows@;
        rows.push(row);
        assert(rows@.map_values(|r: NavRow| r@) =~= old_rows.map_values(|r: NavRow| r@).push(row@));
        assert(fr.take(3 + j + 1) =~= fr.take(3 + j).push(row@));
        j = j + 1;
    }
    assert(fr.take(3 + j) =~= fr);
}

/// Long-format rows of all frames, frame after frame.
pub fn flatten_navigation(frames: &Vec<NavFrame>) -> (rows: Vec<NavRow>)
    ensures
        rows@.map_values(|r: NavRow| r@) == nav_rows(frames@),
{
    let mut rows: Vec<NavRow> = Vec::new();
    let mut i: usize = 0;
    while i < frames.len()
        invariant
            i <= frames.len(),
            rows@.map_values(|r: NavRow| r@) == nav_rows(frames@.take(i as int)),
        decreases frames.len() - i,
    {
        push_frame_rows(&mut rows, &frames[i]);
        assert(frames@.take(i + 1).drop_last() =~= frames@.take(i as int));
        i = i + 1;
    }
    assert(frames@.take(i as int) =~= frames@);
    rows
}

/// Reads decoded ephemerides as long-format rows.
pub fn read_navigation_long(exists: bool, decoded: Result<DecodedFile, String>) -> (r: Result<
    Vec<NavRow>,
    ReadError,
>)
    ensures
        !exists ==> r matches Err(ReadError::NotFound),
        exists ==> match decoded {
            Err(m) => r matches Err(ReadError::DecodeError(m2)) && m2@ == m@,
            Ok(d) => if d.kind == RecordKind::Navigation {
                r matches Ok(rows) && rows@.map_values(|x: NavRow| x@) == nav_rows(d.frames@)
            } else {
                r matches Err(ReadError::WrongRecordKind)
            },
        },
{
    match validate(exists, decoded, RecordKind::Navigation) {
        Err(e) => Err(e),
        Ok(d) => Ok(flatten_navigation(&d.frames)),
    }
}

} // verus!
