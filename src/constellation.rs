//! Constellations and the labels under which they are reported.

use vstd::prelude::*;
use crate::names::seq_lt;

verus! {

/// The constellation (or augmentation system) of a satellite, one variant
/// for each that the decoder tells apart.
#[derive(Clone, Copy, Debug, PartialEq, Eq, Structural)]
pub enum Constellation {
    GPS,
    Glonass,
    BeiDou,
    QZSS,
    Galileo,
    IRNSS,
    WAAS,
    EGNOS,
    MSAS,
    GAGAN,
    BDSBAS,
    KASS,
    SDCM,
    ASBAS,
    SPAN,
    SBAS,
    AusNZ,
    GBAS,
    NSAS,
    ASAL,
    Mixed,
}

/// The closed set of labels under which data is grouped and reported.
#[derive(Clone, Copy, Debug, PartialEq, Eq, Structural)]
pub enum Label {
    BeiDou,
    Glonass,
    GPS,
    Galileo,
    IRNSS,
    QZSS,
    SBAS,
    Unknown,
}

/// The label of a constellation: the seven named systems have their own,
/// every other one is `Unknown`.
pub open spec fn label_for(c: Constellation) -> Label {
    match c {
        Constellation::GPS => Label::GPS,
        Constellation::Glonass => Label::Glonass,
        Constellation::Galileo => Label::Galileo,
        Constellation::BeiDou => Label::BeiDou,
        Constellation::QZSS => Label::QZSS,
        Constellation::IRNSS => Label::IRNSS,
        Constellation::SBAS => Label::SBAS,
        _ => Label::Unknown,
    }
}

/// Classifies a constellation; total, with `Unknown` as the fallback.
pub fn classify(c: Constellation) -> (l: Label)
    ensures
        l == label_for(c),
{
    match c {
        Constellation::GPS => Label::GPS,
        Constellation::Glonass => Label::Glonass,
        Constellation::Galileo => Label::Galileo,
        Constellation::BeiDou => Label::BeiDou,
        Constellation::QZSS => Label::QZSS,
        Constellation::IRNSS => Label::IRNSS,
        Constellation::SBAS => Label::SBAS,
        _ => Label::Unknown,
    }
}

/// The text of a label.
pub open spec fn label_of(c: Label) -> Seq<char> {
    match c {
        Label::GPS => "GPS"@,
        Label::Glonass => "GLONASS"@,
        Label::Galileo => "Galileo"@,
        Label::BeiDou => "BeiDou"@,
        Label::QZSS => "QZSS"@,
        Label::IRNSS => "IRNSS"@,
        Label::SBAS => "SBAS"@,
        Label::Unknown => "Unknown"@,
    }
}

/// Position of a label when label texts are sorted lexicographically.
pub open spec fn rank(c: Label) -> nat {
    match c {
        Label::BeiDou => 0,
        Label::Glonass => 1,
        Label::GPS => 2,
        Label::Galileo => 3,
        Label::IRNSS => 4,
        Label::QZSS => 5,
        Label::SBAS => 6,
        Label::Unknown => 7,
    }
}

/// Every label, in lexicographic order of their texts.
pub open spec fn all_labels() -> Seq<Label> {
    seq![
        Label::BeiDou,
        Label::Glonass,
        Label::GPS,
        Label::Galileo,
        Label::IRNSS,
        Label::QZSS,
        Label::SBAS,
        Label::Unknown,
    ]
}

/// Every label in order, as an executable list.
pub fn labels_in_order() -> (r: Vec<Label>)
    ensures
        r@ == all_labels(),
{
    let r = vec![
        Label::BeiDou,
        Label::Glonass,
        Label::GPS,
        Label::Galileo,
        Label::IRNSS,
        Label::QZSS,
        Label::SBAS,
        Label::Unknown,
    ];
    assert(r@ =~= all_labels());
    r
}

/// The text of a label.
pub fn label_text(c: Label) -> (r: String)
    ensures
        r@ == label_of(c),
{
    match c {
        Label::GPS => "GPS".to_string(),
        Label::Glonass => "GLONASS".to_string(),
        Label::Galileo => "Galileo".to_string(),
        Label::BeiDou => "BeiDou".to_string(),
        Label::QZSS => "QZSS".to_string(),
        Label::IRNSS => "IRNSS".to_string(),
        Label::SBAS => "SBAS".to_string(),
        Label::Unknown => "Unknown".to_string(),
    }
}

/// The list of labels holds each once, sorted by rank, and ranks follow the
/// lexicographic order of label texts: emitting groups in this list's order
/// emits them in sorted-label order.
pub proof fn lemma_label_order()
    ensures
        all_labels().len() == 8,
        forall|c: Label| all_labels().contains(c),
        forall|i: int| 0 <= i < 8 ==> rank(#[trigger] all_labels()[i]) == i,
        forall|a: Label, b: Label|
            rank(a) < rank(b) ==> seq_lt(#[trigger] label_of(a), #[trigger] label_of(b)),
{
    reveal_strlit("GPS");
    reveal_strlit("GLONASS");
    reveal_strlit("Galileo");
    reveal_strlit("BeiDou");
    reveal_strlit("QZSS");
    reveal_strlit("IRNSS");
    reveal_strlit("SBAS");
    reveal_strlit("Unknown");
    assert forall|c: Label| all_labels().contains(c) by {
        assert(all_labels()[rank(c) as int] == c);
    }
    assert forall|a: Label, b: Label|
        rank(a) < rank(b) implies seq_lt(#[trigger] label_of(a), #[trigger] label_of(b)) by {
        reveal_with_fuel(seq_lt, 3);
    }
}

} // verus!
