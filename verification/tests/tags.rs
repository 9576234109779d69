use save_parser::tags::TagTable;

fn lines(strs: &[&str]) -> Vec<Vec<u8>> {
    strs.iter().map(|s| s.as_bytes().to_vec()).collect()
}

#[test]
fn test_tag() {
    let table = TagTable::from_lines(&lines(&["FRA,France", "MNG,Ming"]));
    let tag1 = table.get(b"FRA").unwrap();
    assert_eq!(*tag1, b"France".to_vec());
    let tag2 = table.get(b"MNG").unwrap();
    assert_eq!(*tag2, b"Ming".to_vec());
}

#[test]
fn unknown_tag_has_no_name() {
    let table = TagTable::from_lines(&lines(&["FRA,France"]));
    assert!(table.get(b"QQQ").is_none());
}

#[test]
fn later_entry_wins() {
    let table = TagTable::from_lines(&lines(&["FRA,France", "FRA,Francia"]));
    assert_eq!(*table.get(b"FRA").unwrap(), b"Francia".to_vec());
}

#[test]
fn extra_fields_are_cut_at_second_comma() {
    let table = TagTable::from_lines(&lines(&["FRA,France,old"]));
    assert_eq!(*table.get(b"FRA").unwrap(), b"France".to_vec());
}

#[test]
fn lines_without_comma_are_skipped() {
    let table = TagTable::from_lines(&lines(&["no comma here", "MNG,Ming"]));
    assert!(table.get(b"no comma here").is_none());
    assert_eq!(*table.get(b"MNG").unwrap(), b"Ming".to_vec());
}
