use terminal_chat::names::{check_name, NameError};

#[test]
fn free_name_is_accepted() {
    assert_eq!(check_name("alice bob", "carol"), Ok(()));
    assert_eq!(check_name("", "carol"), Ok(()));
}

#[test]
fn taken_name_is_rejected() {
    assert_eq!(check_name("alice bob", "bob"), Err(NameError::Taken));
    assert_eq!(check_name("alice bob", "alice"), Err(NameError::Taken));
    assert_eq!(check_name("bob", "bob"), Err(NameError::Taken));
}

#[test]
fn part_of_a_name_is_not_taken() {
    assert_eq!(check_name("alice bob", "ali"), Ok(()));
    assert_eq!(check_name("alice bob", "ce b"), Ok(()));
}

#[test]
fn hash_is_reserved() {
    assert_eq!(check_name("alice", "c#rol"), Err(NameError::Reserved));
    assert_eq!(check_name("", "#"), Err(NameError::Reserved));
}

#[test]
fn taken_is_reported_before_reserved() {
    assert_eq!(check_name("a#b", "a#b"), Err(NameError::Taken));
}

#[test]
fn multibyte_names_compare_by_character() {
    assert_eq!(check_name("zoë ann", "zoë"), Err(NameError::Taken));
    assert_eq!(check_name("zoë ann", "zoe"), Ok(()));
}
