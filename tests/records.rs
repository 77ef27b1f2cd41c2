use vorothree::records::{record_coordinates, split_fields};

fn bytes(s: &str) -> Vec<u8> {
    s.as_bytes().to_vec()
}

#[test]
fn fields_are_maximal_runs_of_non_space() {
    assert_eq!(split_fields(&bytes("7 1.5  2\t-3\r")), vec![(0, 1), (2, 5), (7, 8), (9, 11)]);
    assert_eq!(split_fields(&bytes("  ")), Vec::<(usize, usize)>::new());
    assert_eq!(split_fields(&bytes("")), Vec::<(usize, usize)>::new());
    assert_eq!(split_fields(&bytes("abc")), vec![(0, 3)]);
}

#[test]
fn record_drops_the_id_and_extra_fields() {
    let line = bytes("12 0.5 0.25 0.75 extra");
    let c = record_coordinates(&line, 3).unwrap();
    let texts: Vec<&str> = c.iter().map(|&(a, b)| std::str::from_utf8(&line[a..b]).unwrap()).collect();
    assert_eq!(texts, vec!["0.5", "0.25", "0.75"]);
}

#[test]
fn blank_lines_hold_no_record() {
    assert!(record_coordinates(&bytes(" \t "), 3).is_none());
}

#[test]
fn short_records_keep_what_is_there() {
    let line = bytes("4 1.0");
    assert_eq!(record_coordinates(&line, 3).unwrap(), vec![(2, 5)]);
    assert_eq!(record_coordinates(&bytes("4"), 2).unwrap(), Vec::<(usize, usize)>::new());
}
