use grouper::label::group_index_to_letter;

#[test]
fn single_letters() {
    assert_eq!(group_index_to_letter(0), "A");
    assert_eq!(group_index_to_letter(1), "B");
    assert_eq!(group_index_to_letter(25), "Z");
}

#[test]
fn two_letters() {
    assert_eq!(group_index_to_letter(26), "AA");
    assert_eq!(group_index_to_letter(27), "AB");
    assert_eq!(group_index_to_letter(51), "AZ");
    assert_eq!(group_index_to_letter(52), "BA");
    assert_eq!(group_index_to_letter(701), "ZZ");
}
