use libtecrs::constellation::{classify, label_text, labels_in_order, Constellation, Label};
use libtecrs::names::{insert_name, name_lt};
use libtecrs::navigation::{flatten_navigation, frame_value, read_navigation_long};
use libtecrs::observation::{flatten_observations, read_observations};
use libtecrs::pivot::{build_table, pivot_by_constellation, read_navigation_by_constellation};
use libtecrs::records::{
    receiver_position, validate, DecodedFile, NavFrame, ObsEpoch, OrbitParam, Position, ReadError,
    RecordKind, Signal, NAN_BITS,
};

fn signal(sv: &str, observable: &str, value: f64) -> Signal {
    Signal {
        sv: sv.to_string(),
        observable: observable.to_string(),
        value: value.to_bits(),
        lli: None,
    }
}

fn frame(c: Constellation, prn: u8, sv: &str, epoch: &str, bias: f64, orbits: &[(&str, f64)]) -> NavFrame {
    NavFrame {
        constellation: c,
        prn,
        sv: sv.to_string(),
        epoch: epoch.to_string(),
        clock_bias: bias.to_bits(),
        clock_drift: 0.5f64.to_bits(),
        clock_drift_rate: 0.25f64.to_bits(),
        orbits: orbits
            .iter()
            .map(|(n, v)| OrbitParam { name: n.to_string(), value: v.to_bits() })
            .collect(),
    }
}

fn obs_file(observations: Vec<ObsEpoch>, rx: Option<Position>) -> DecodedFile {
    DecodedFile { kind: RecordKind::Observation, rx_position: rx, observations, frames: Vec::new() }
}

fn nav_file(frames: Vec<NavFrame>) -> DecodedFile {
    DecodedFile { kind: RecordKind::Navigation, rx_position: None, observations: Vec::new(), frames }
}

fn two_by_two() -> Vec<ObsEpoch> {
    vec![
        ObsEpoch {
            epoch: "2024-01-01T00:00:00 GPST".to_string(),
            signals: vec![signal("G01", "C1C", 20000000.5), signal("G02", "C1C", 21000000.25)],
        },
        ObsEpoch {
            epoch: "2024-01-01T00:00:30 GPST".to_string(),
            signals: vec![signal("G01", "C1C", 20000100.5), signal("G02", "C1C", 21000100.25)],
        },
    ]
}

fn mixed_frames() -> Vec<NavFrame> {
    vec![
        frame(Constellation::GPS, 1, "G01", "e1", 1.0, &[("sqrta", 5153.6), ("e", 0.01)]),
        frame(Constellation::Glonass, 3, "R03", "e1", 2.0, &[("posX", 100.0)]),
        frame(Constellation::GPS, 2, "G02", "e2", 3.0, &[("sqrta", 5153.7), ("omega", 0.3)]),
        frame(Constellation::Galileo, 11, "E11", "e3", 4.0, &[]),
    ]
}

#[test]
fn two_epochs_two_satellites_give_four_rows() {
    let r = read_observations(true, Ok(obs_file(two_by_two(), None))).unwrap();
    let rows = r.0;
    assert_eq!(rows.len(), 4);
    let expect = [
        ("2024-01-01T00:00:00 GPST", "G01", 20000000.5),
        ("2024-01-01T00:00:00 GPST", "G02", 21000000.25),
        ("2024-01-01T00:00:30 GPST", "G01", 20000100.5),
        ("2024-01-01T00:00:30 GPST", "G02", 21000100.25),
    ];
    for (row, (epoch, sv, value)) in rows.iter().zip(expect.iter()) {
        assert_eq!(row.epoch, *epoch);
        assert_eq!(row.sv, *sv);
        assert_eq!(row.observable, "C1C");
        assert_eq!(f64::from_bits(row.value), *value);
        assert_eq!(row.lli, None);
    }
}

#[test]
fn observation_rows_count_every_signal() {
    let mut epochs = two_by_two();
    epochs[1].signals.push(Signal { sv: "E05".to_string(), observable: "L1C".to_string(), value: 7u64, lli: Some(1) });
    epochs.push(ObsEpoch { epoch: "empty".to_string(), signals: Vec::new() });
    let rows = flatten_observations(&epochs);
    assert_eq!(rows.len(), 5);
    assert_eq!(rows[4].sv, "E05");
    assert_eq!(rows[4].lli, Some(1));
}

#[test]
fn no_signals_give_no_rows() {
    let rows = flatten_observations(&Vec::new());
    assert!(rows.is_empty());
}

#[test]
fn receiver_position_kept_or_nan() {
    let p = Position { x: 1.5f64.to_bits(), y: 2.5f64.to_bits(), z: 3.5f64.to_bits() };
    assert_eq!(receiver_position(Some(p)), p);
    let q = receiver_position(None);
    assert!(f64::from_bits(q.x).is_nan() && f64::from_bits(q.y).is_nan() && f64::from_bits(q.z).is_nan());
    assert_eq!(q.x, NAN_BITS);
    let r = read_observations(true, Ok(obs_file(two_by_two(), Some(p)))).unwrap();
    assert_eq!(r.1, p);
}

#[test]
fn missing_file_is_not_found() {
    assert!(matches!(read_observations(false, Ok(obs_file(Vec::new(), None))), Err(ReadError::NotFound)));
    assert!(matches!(read_navigation_long(false, Err("bad".to_string())), Err(ReadError::NotFound)));
    assert!(matches!(read_navigation_by_constellation(false, Ok(nav_file(Vec::new()))), Err(ReadError::NotFound)));
}

#[test]
fn decoder_message_passes_through() {
    match read_navigation_by_constellation(true, Err("line 3: bad epoch".to_string())) {
        Err(ReadError::DecodeError(m)) => assert_eq!(m, "line 3: bad epoch"),
        _ => panic!("expected a decode error"),
    }
    assert!(matches!(read_observations(true, Err("x".to_string())), Err(ReadError::DecodeError(_))));
}

#[test]
fn navigation_on_observation_file_is_wrong_kind() {
    let f = obs_file(two_by_two(), None);
    assert!(matches!(read_navigation_by_constellation(true, Ok(f.clone())), Err(ReadError::WrongRecordKind)));
    assert!(matches!(read_navigation_long(true, Ok(f)), Err(ReadError::WrongRecordKind)));
    assert!(matches!(read_observations(true, Ok(nav_file(mixed_frames()))), Err(ReadError::WrongRecordKind)));
    let meteo = DecodedFile { kind: RecordKind::Meteo, rx_position: None, observations: Vec::new(), frames: Vec::new() };
    assert!(matches!(validate(true, Ok(meteo), RecordKind::Navigation), Err(ReadError::WrongRecordKind)));
}

#[test]
fn long_rows_are_clock_terms_then_orbits() {
    let rows = read_navigation_long(true, Ok(nav_file(mixed_frames()))).unwrap();
    assert_eq!(rows.len(), 5 + 4 + 5 + 3);
    let params: Vec<&str> = rows.iter().take(5).map(|r| r.param.as_str()).collect();
    assert_eq!(params, vec!["clock_bias", "clock_drift", "clock_drift_rate", "sqrta", "e"]);
    assert_eq!(f64::from_bits(rows[0].value), 1.0);
    assert_eq!(f64::from_bits(rows[3].value), 5153.6);
    assert_eq!(rows[5].sv, "R03");
    assert_eq!(rows[5].epoch, "e1");
    let frames = mixed_frames();
    for r in &rows {
        let f = frames.iter().find(|f| f.sv == r.sv && f.epoch == r.epoch).unwrap();
        let clock = ["clock_bias", "clock_drift", "clock_drift_rate"].contains(&r.param.as_str());
        assert!(clock || f.orbits.iter().any(|p| p.name == r.param));
    }
}

#[test]
fn frame_value_finds_clock_and_orbit_terms() {
    let f = frame(Constellation::GPS, 1, "G01", "e1", 1.0, &[("sqrta", 5153.6)]);
    assert_eq!(frame_value(&f, &"clock_drift".to_string()), Some(0.5f64.to_bits()));
    assert_eq!(frame_value(&f, &"sqrta".to_string()), Some(5153.6f64.to_bits()));
    assert_eq!(frame_value(&f, &"omega".to_string()), None);
}

#[test]
fn wide_tables_union_columns_and_fill_gaps() {
    let tables = read_navigation_by_constellation(true, Ok(nav_file(mixed_frames()))).unwrap();
    let labels: Vec<&str> = tables.iter().map(|t| t.label.as_str()).collect();
    assert_eq!(labels, vec!["GLONASS", "GPS", "Galileo"]);
    let gps = &tables[1];
    assert_eq!(gps.group, Label::GPS);
    assert_eq!(
        gps.columns,
        vec!["clock_bias", "clock_drift", "clock_drift_rate", "e", "omega", "sqrta"]
    );
    assert_eq!(gps.rows.len(), 2);
    assert_eq!(gps.rows[0].prn, 1);
    assert_eq!(gps.rows[1].epoch, "e2");
    for row in &gps.rows {
        assert_eq!(row.values.len(), gps.columns.len());
    }
    assert_eq!(gps.rows[0].values[3], Some(0.01f64.to_bits()));
    assert_eq!(gps.rows[0].values[4], None);
    assert_eq!(gps.rows[1].values[3], None);
    assert_eq!(gps.rows[1].values[4], Some(0.3f64.to_bits()));
    assert_eq!(gps.rows[1].values[0], Some(3.0f64.to_bits()));
    let gal = &tables[2];
    assert_eq!(gal.columns, vec!["clock_bias", "clock_drift", "clock_drift_rate"]);
}

#[test]
fn every_frame_lands_in_one_table() {
    let frames = mixed_frames();
    let tables = pivot_by_constellation(&frames);
    let total: usize = tables.iter().map(|t| t.rows.len()).sum();
    assert_eq!(total, frames.len());
    let long = flatten_navigation(&frames);
    let cells: usize = tables
        .iter()
        .map(|t| t.rows.iter().map(|r| r.values.iter().filter(|v| v.is_some()).count()).sum::<usize>())
        .sum();
    assert_eq!(cells, long.len());
}

#[test]
fn gps_only_file_gives_one_gps_table() {
    let frames = vec![
        frame(Constellation::GPS, 1, "G01", "e1", 1.0, &[("sqrta", 1.0)]),
        frame(Constellation::GPS, 7, "G07", "e1", 2.0, &[]),
    ];
    let tables = read_navigation_by_constellation(true, Ok(nav_file(frames))).unwrap();
    assert_eq!(tables.len(), 1);
    assert_eq!(tables[0].label, "GPS");
}

#[test]
fn empty_navigation_file_gives_no_tables() {
    let tables = read_navigation_by_constellation(true, Ok(nav_file(Vec::new()))).unwrap();
    assert!(tables.is_empty());
    let t = build_table(&Vec::new(), Label::SBAS);
    assert!(t.rows.is_empty());
    assert_eq!(t.label, "SBAS");
}

#[test]
fn same_input_same_output() {
    let a = read_navigation_by_constellation(true, Ok(nav_file(mixed_frames()))).unwrap();
    let b = read_navigation_by_constellation(true, Ok(nav_file(mixed_frames()))).unwrap();
    assert_eq!(format!("{:?}", a), format!("{:?}", b));
    let x = flatten_observations(&two_by_two());
    let y = flatten_observations(&two_by_two());
    assert_eq!(format!("{:?}", x), format!("{:?}", y));
}

#[test]
fn labels_and_their_order() {
    assert_eq!(label_text(Label::Glonass), "GLONASS");
    assert_eq!(label_text(Label::BeiDou), "BeiDou");
    assert_eq!(label_text(Label::Unknown), "Unknown");
    let labels: Vec<String> = labels_in_order().into_iter().map(label_text).collect();
    let mut sorted = labels.clone();
    sorted.sort();
    assert_eq!(labels, sorted);
    assert_eq!(labels.len(), 8);
}

#[test]
fn classifier_names_seven_systems_and_falls_back() {
    assert_eq!(classify(Constellation::GPS), Label::GPS);
    assert_eq!(classify(Constellation::Glonass), Label::Glonass);
    assert_eq!(classify(Constellation::Galileo), Label::Galileo);
    assert_eq!(classify(Constellation::BeiDou), Label::BeiDou);
    assert_eq!(classify(Constellation::QZSS), Label::QZSS);
    assert_eq!(classify(Constellation::IRNSS), Label::IRNSS);
    assert_eq!(classify(Constellation::SBAS), Label::SBAS);
    assert_eq!(classify(Constellation::WAAS), Label::Unknown);
    assert_eq!(classify(Constellation::EGNOS), Label::Unknown);
    assert_eq!(classify(Constellation::Mixed), Label::Unknown);
}

#[test]
fn unlabelled_systems_share_the_unknown_table() {
    let frames = vec![
        frame(Constellation::WAAS, 131, "S31", "e1", 1.0, &[("a", 1.0)]),
        frame(Constellation::GPS, 1, "G01", "e1", 2.0, &[]),
        frame(Constellation::EGNOS, 120, "S20", "e2", 3.0, &[("b", 2.0)]),
    ];
    let tables = pivot_by_constellation(&frames);
    let labels: Vec<&str> = tables.iter().map(|t| t.label.as_str()).collect();
    assert_eq!(labels, vec!["GPS", "Unknown"]);
    let unknown = &tables[1];
    assert_eq!(unknown.rows.len(), 2);
    assert_eq!(unknown.rows[0].prn, 131);
    assert_eq!(unknown.rows[1].prn, 120);
    assert_eq!(unknown.columns, vec!["a", "b", "clock_bias", "clock_drift", "clock_drift_rate"]);
    assert_eq!(unknown.rows[0].values[1], None);
    assert_eq!(unknown.rows[1].values[0], None);
}

#[test]
fn names_sort_and_merge() {
    assert!(name_lt("e", "omega"));
    assert!(!name_lt("omega", "e"));
    assert!(!name_lt("e", "e"));
    assert!(name_lt("GPS", "Galileo"));
    assert!(name_lt("clock_drift", "clock_drift_rate"));
    let mut v: Vec<String> = Vec::new();
    for n in ["sqrta", "e", "sqrta", "clock_bias", "omega"] {
        insert_name(&mut v, &n.to_string());
    }
    assert_eq!(v, vec!["clock_bias", "e", "omega", "sqrta"]);
}

#[test]
fn kinds_have_names() {
    assert_eq!(RecordKind::Observation.name(), "Observation");
    assert_eq!(RecordKind::Navigation.name(), "Navigation");
    assert_eq!(RecordKind::Meteo.name(), "Meteo");
    assert_eq!(RecordKind::Other.name(), "Unknown");
}
