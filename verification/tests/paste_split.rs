use monotextor_utils::paste::paste_lines;
use monotextor_utils::split::ZSplit;

#[test]
fn paste_concatenates_with_separators() {
    let lines = vec![Some(b"a".to_vec()), Some(b"bb".to_vec()), Some(b"c".to_vec())];
    assert_eq!(paste_lines(&lines, b'\t'), Some(b"a\tbb\tc".to_vec()));
}

#[test]
fn paste_keeps_separators_for_exhausted_inputs() {
    let lines = vec![Some(b"a".to_vec()), None, Some(b"c".to_vec())];
    assert_eq!(paste_lines(&lines, b'\t'), Some(b"a\t\tc".to_vec()));
    let tail = vec![None, Some(b"x".to_vec())];
    assert_eq!(paste_lines(&tail, b'\t'), Some(b"\tx".to_vec()));
}

#[test]
fn paste_stops_when_all_inputs_are_exhausted() {
    let lines: Vec<Option<Vec<u8>>> = vec![None, None];
    assert_eq!(paste_lines(&lines, b'\t'), None);
    assert_eq!(paste_lines(&Vec::new(), b'\t'), None);
}

#[test]
fn splitter_rotates_after_the_size_is_exceeded() {
    let mut split = ZSplit::new(10);
    // the rotation check runs before a record is written, never inside it
    assert_eq!(split.note_write(6), None);
    assert_eq!(split.note_write(6), None);
    assert_eq!(split.bytes_written, 12);
    assert_eq!(split.note_write(6), Some(2));
    assert_eq!(split.bytes_written, 6);
    assert_eq!(split.num_splits, 2);
}

#[test]
fn splitter_never_splits_a_record() {
    let mut split = ZSplit::new(4);
    assert_eq!(split.note_write(100), None);
    assert_eq!(split.note_write(100), Some(2));
    assert_eq!(split.note_write(1), Some(3));
    assert_eq!(split.num_splits, 3);
}
