use rust_pyaq::constants::{BVCNT, EBVCNT, PASS};
use rust_pyaq::coord_convert::{diagonals, ev2rv, ev2str, ev2xy, neighbors, rv2ev, str2ev, xy2ev};

#[test]
fn labels_round_trip_on_every_playable_point() {
    let letters = ["A", "B", "C", "D", "E", "F", "G", "H", "J"];
    let mut seen = 0;
    for (i, l) in letters.iter().enumerate() {
        for y in 1..10 {
            let label = format!("{}{}", l, y);
            let ev = str2ev(&label).unwrap();
            assert_eq!(ev, y * 11 + i + 1);
            assert_eq!(ev2str(ev), label);
            seen += 1;
        }
    }
    assert_eq!(seen, 81);
}

#[test]
fn pass_label_round_trips() {
    assert_eq!(str2ev("PASS"), Some(PASS));
    assert_eq!(ev2str(str2ev("PASS").unwrap()), "PASS");
    assert_eq!(ev2str(PASS + 1), "PASS");
}

#[test]
fn labels_ignore_case_and_resign_passes() {
    assert_eq!(str2ev("pass"), Some(PASS));
    assert_eq!(str2ev("Resign"), Some(PASS));
    assert_eq!(str2ev("d5"), str2ev("D5"));
    assert_eq!(str2ev("D5"), Some(5 * 11 + 4));
    assert_eq!(str2ev("j9"), Some(9 * 11 + 9));
    assert_eq!(str2ev("T1"), Some(11 + 19));
}

#[test]
fn unparseable_labels_are_reported() {
    assert_eq!(str2ev(""), None);
    assert_eq!(str2ev("I5"), None);
    assert_eq!(str2ev("A0"), None);
    assert_eq!(str2ev("A10"), None);
    assert_eq!(str2ev("5A"), None);
    assert_eq!(str2ev("PAS"), None);
    assert_eq!(str2ev("U3"), None);
    assert_eq!(str2ev("@1"), None);
    assert_eq!(str2ev("é1"), None);
}

#[test]
fn border_labels() {
    assert_eq!(ev2str(0), "@0");
    assert_eq!(ev2str(10), "K0");
    assert_eq!(ev2str(110), "@10");
    assert_eq!(ev2str(120), "K10");
}

#[test]
fn linear_vertices_round_trip() {
    for rv in 0..BVCNT {
        let ev = rv2ev(rv);
        assert!(ev < EBVCNT);
        assert_eq!(ev2rv(ev), rv);
    }
    assert_eq!(rv2ev(BVCNT), PASS);
    assert_eq!(ev2rv(PASS), BVCNT);
    assert_eq!(rv2ev(0), 12);
    assert_eq!(rv2ev(80), 108);
    assert_eq!(ev2rv(60), 40);
}

#[test]
fn xy_round_trip() {
    assert_eq!(xy2ev(4, 5), 59);
    assert_eq!(ev2xy(59), (4, 5));
    assert_eq!(ev2xy(PASS), (0, 11));
    assert_eq!(xy2ev(255, 255), 255 * 11 + 255);
}

#[test]
fn neighbours_and_diagonals() {
    assert_eq!(neighbors(60), [61, 71, 59, 49]);
    assert_eq!(diagonals(60), [72, 70, 48, 50]);
    assert_eq!(neighbors(12), [13, 23, 11, 1]);
    assert_eq!(diagonals(12), [24, 22, 0, 2]);
}
