//! Long-format rows from decoded observations: one row per signal.

use vstd::prelude::*;
use crate::records::{
    receiver_position, validate, DecodedFile, ObsEpoch, Position, ReadError, RecordKind, Signal,
    NAN_BITS,
};

verus! {

/// One long-format observation row.
#[derive(Clone, Debug)]
pub struct ObsRow {
    pub epoch: String,
    pub sv: String,
    pub observable: String,
    pub value: u64,
    pub lli: Option<u8>,
}

impl View for ObsRow {
    type V = (Seq<char>, Seq<char>, Seq<char>, u64, Option<u8>);

    open spec fn view(&self) -> Self::V {
        (self.epoch@, self.sv@, self.observable@, self.value, self.lli)
    }
}

/// The row that a signal decoded at `epoch` becomes.
pub open spec fn signal_row(epoch: Seq<char>, s: Signal) -> (Seq<char>, Seq<char>, Seq<char>, u64, Option<u8>) {
    (epoch, s.sv@, s.observable@, s.value, s.lli)
}

/// The rows of one epoch, in signal order.
pub open spec fn epoch_rows(e: ObsEpoch) -> Seq<(Seq<char>, Seq<char>, Seq<char>, u64, Option<u8>)> {
    e.signals@.map_values(|s: Signal| signal_row(e.epoch@, s))
}

/// The rows of all epochs: epochs in order, signals in order within each.
pub open spec fn obs_rows(es: Seq<ObsEpoch>) -> Seq<(Seq<char>, Seq<char>, Seq<char>, u64, Option<u8>)>
    decreases es.len(),
{
    if es.len() == 0 {
        Seq::empty()
    } else {
        obs_rows(es.drop_last()) + epoch_rows(es.last())
    }
}

/// How many signals the epochs hold together.
pub open spec fn signal_count(es: Seq<ObsEpoch>) -> nat
    decreases es.len(),
{
    if es.len() == 0 {
        0
    } else {
        signal_count(es.drop_last()) + es.last().signals@.len()
    }
}

/// Flattening drops and duplicates no signal: there are exactly as many
/// rows as decoded signals.
pub proof fn lemma_obs_row_count(es: Seq<ObsEpoch>)
    ensures
        obs_rows(es).len() == signal_count(es),
    decreases es.len(),
{
    if es.len() > 0 {
        lemma_obs_row_count(es.drop_last());
    }
}

/// Flattening is a function of the decoded epochs: two runs on the same
/// epochs give the same rows, row for row.
pub proof fn lemma_obs_rows_deterministic(r1: Seq<ObsRow>, r2: Seq<ObsRow>, es: Seq<ObsEpoch>)
    requires
        r1.map_values(|r: ObsRow| r@) == obs_rows(es),
        r2.map_values(|r: ObsRow| r@) == obs_rows(es),
    ensures
        r1.len() == r2.len(),
        forall|k: int| 0 <= k < r1.len() ==> (#[trigger] r1[k])@ == r2[k]@,
{
    assert(r1.map_values(|r: ObsRow| r@).len() == r1.len());
    assert(r2.map_values(|r: ObsRow| r@).len() == r2.len());
    assert forall|k: int| 0 <= k < r1.len() implies (#[trigger] r1[k])@ == r2[k]@ by {
        assert(r1.map_values(|r: ObsRow| r@)[k] == r1[k]@);
        assert(r2.map_values(|r: ObsRow| r@)[k] == r2[k]@);
    }
}

/// One row per signal, in decoder order.
pub fn flatten_observations(epochs: &Vec<ObsEpoch>) -> (rows: Vec<ObsRow>)
    ensures
        rows@.map_values(|r: ObsRow| r@) == obs_rows(epochs@),
{
    let mut rows: Vec<ObsRow> = Vec::new();
    let mut i: usize = 0;
    while i < epochs.len()
        invariant
            i <= epochs.len(),
            rows@.map_values(|r: ObsRow| r@) == obs_rows(epochs@.take(i as int)),
        decreases epochs.len() - i,
    {
        let e = &epochs[i];
        let ghost before = rows@.map_values(|r: ObsRow| r@);
        let mut j: usize = 0;
        while j < e.signals.len()
            invariant
                i < epochs.len(),
                e == epochs@[i as int],
                j <= e.signals.len(),
                rows@.map_values(|r: ObsRow| r@) == before + epoch_rows(*e).take(j as int),
            decreases e.signals.len() - j,
        {
            let s = &e.signals[j];
            let row = ObsRow {
                epoch: e.epoch.clone(),
                sv: s.sv.clone(),
                observable: s.observable.clone(),
                value: s.value,
                lli: s.lli,
            };
            assert(row@ == epoch_rows(*e)[j as int]);
            let ghost old_rows = rows@;
            rows.push(row);
            assert(rows@.map_values(|r: ObsRow| r@) =~= old_rows.map_values(|r: ObsRow| r@).push(row@));
            assert(epoch_rows(*e).take(j + 1) =~= epoch_rows(*e).take(j as int).push(row@));
            assert(rows@.map_values(|r: ObsRow| r@) =~= before + epoch_rows(*e).take(j + 1));
            j = j + 1;
        }
        assert(epochs@.take(i + 1).drop_last() =~= epochs@.take(i as int));
        assert(epoch_rows(*e).take(j as int) =~= epoch_rows(*e));
        i = i + 1;
    }
    assert(epochs@.take(i as int) =~= epochs@);
    rows
}

/// Reads decoded observations: the long-format rows and the receiver
/// position (NaN coordinates where the header gives none).
pub fn read_observations(exists: bool, decoded: Result<DecodedFile, String>) -> (r: Result<
    (Vec<ObsRow>, Position),
    ReadError,
>)
    ensures
        !exists ==> r matches Err(ReadError::NotFound),
        exists ==> match decoded {
            Err(m) => r matches Err(ReadError::DecodeError(m2)) && m2@ == m@,
            Ok(d) => if d.kind == RecordKind::Observation {
                r matches Ok((rows, pos)) && rows@.map_values(|x: ObsRow| x@) == obs_rows(
                    d.observations@,
                ) && pos == (match d.rx_position {
                    Some(q) => q,
                    None => Position { x: NAN_BITS, y: NAN_BITS, z: NAN_BITS },
                })
            } else {
                r matches Err(ReadError::WrongRecordKind)
            },
        },
{
    match validate(exists, decoded, RecordKind::Observation) {
        Err(e) => Err(e),
        Ok(d) => {
            let rows = flatten_observations(&d.observations);
            let pos = receiver_position(d.rx_position);
            Ok((rows, pos))
        },
    }
}

} // verus!
