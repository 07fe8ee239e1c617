use numass_processing::storage::{FSRepr, LoadState};
use numass_processing::types::FrameEvent;
use numass_processing::utils::{assemble_filename, construct_filename};
use numass_processing::viewer::{PointState, ViewerState};
use numass_processing::process::Algorithm;
use std::path::PathBuf;

#[test]
fn file_name_of_a_point() {
    assert_eq!(
        construct_filename("2024_03/Tritium_1/set_1/p0(30s)(HV1=14000)", Some("df")),
        "Tritium_1set_1p0(30s)(HV1=14000).df"
    );
    assert_eq!(construct_filename("run/set/point.df", Some("df")), "runsetpoint.df");
    assert_eq!(construct_filename("run/set/point.df", Some("root")), "runsetpoint.df.root");
    assert_eq!(construct_filename("run/set/point", None), "runsetpoint");
    assert_eq!(construct_filename("set/point", Some("df")), "setpoint.df");
    assert_eq!(construct_filename("point", Some("df")), "point.df");
}

#[test]
fn file_name_from_its_parts() {
    assert_eq!(assemble_filename("point", "set_2", "run_3", Some("csv")), "run_3set_2point.csv");
    assert_eq!(assemble_filename("point.csv", "set_2", "run_3", Some("csv")), "run_3set_2point.csv");
    assert_eq!(assemble_filename("point.csv", "", "", Some(".csv")), "point.csv");
    assert_eq!(assemble_filename("csv", "", "", Some("point.csv")), "csv.point.csv");
    assert_eq!(assemble_filename("", "s", "r", None), "rs");
    assert_eq!(assemble_filename("", "s", "r", Some("")), "rs");
    assert_eq!(assemble_filename("точка", "набор", "", Some("ка")), "наборточка");
}

#[test]
fn entries_of_the_storage() {
    let d = FSRepr::new(PathBuf::from("/data/run"));
    match &d {
        FSRepr::Directory { path, children, load_state, modified } => {
            assert_eq!(path, &PathBuf::from("/data/run"));
            assert!(children.is_empty());
            assert_eq!(*load_state, LoadState::NotLoaded);
            assert_eq!(*modified, std::time::SystemTime::UNIX_EPOCH);
        }
        FSRepr::File { .. } => panic!("a directory was expected"),
    }
    assert_eq!(d.to_filename(), PathBuf::from("/data/run"));
    let f = FSRepr::File {
        path: PathBuf::from("/data/run/point.df"),
        modified: std::time::SystemTime::UNIX_EPOCH,
    };
    assert_eq!(f.to_filename(), PathBuf::from("/data/run/point.df"));
    assert_eq!(LoadState::default(), LoadState::NotLoaded);
}

#[test]
fn entries_as_the_server_lists_them() {
    let f = numass_processing::web::FSRepr::File { path: PathBuf::from("/data/run/point.df") };
    assert_eq!(f.to_filename(), Some("point.df"));
    let d = numass_processing::web::FSRepr::Directory {
        path: PathBuf::from("/data/run/"),
        children: vec![f],
    };
    assert_eq!(d.to_filename(), Some("run"));
    let root = numass_processing::web::FSRepr::Directory { path: PathBuf::from("/"), children: vec![] };
    assert_eq!(root.to_filename(), None);
}

#[test]
fn state_of_a_viewer() {
    let s = ViewerState::default();
    assert_eq!(s.process.algorithm, Algorithm::trapezoid_default());
    assert!(s.process.convert_to_kev);
    assert_eq!(s.histogram.range, 0..40_000_000);
    assert_eq!(s.histogram.bins, 400);
    assert!(!s.changed);
    let t = s.clone();
    assert_eq!(t, s);
    let p = PointState::empty();
    assert!(!p.opened && p.modified.is_none() && p.histogram.is_none());
    assert!(p.preprocess.is_none() && p.counts.is_none());
}

#[test]
fn records_are_told_apart_by_their_kind() {
    assert_eq!(FrameEvent::Event { channel: 1, amplitude: 2, size: 3 }.tag(), 0);
    assert_eq!(FrameEvent::Event { channel: 4, amplitude: 5, size: 6 }.tag(), 0);
    assert_eq!(FrameEvent::Overflow { channel: 1, size: 3 }.tag(), 1);
    assert_eq!(FrameEvent::Reset { size: 3 }.tag(), 2);
    assert_eq!(FrameEvent::Frame { size: 3 }.tag(), 3);
}
