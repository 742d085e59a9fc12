use hashcodecs::compat::{available_in, select_for_version, SUPPORTED_SINCE};

#[test]
fn bindings_exist_from_the_release_they_appear_in() {
    assert!(available_in(SUPPORTED_SINCE, (3, 10)));
    assert!(available_in(SUPPORTED_SINCE, (3, 13)));
    assert!(available_in(SUPPORTED_SINCE, (4, 0)));
    assert!(!available_in(SUPPORTED_SINCE, (3, 9)));
    assert!(!available_in((3, 15), (3, 14)));
}

#[test]
fn python_315_texts_replace_the_default_where_given() {
    assert_eq!(select_for_version((3, 14), "old", Some("new")), "old");
    assert_eq!(select_for_version((3, 15), "old", Some("new")), "new");
    assert_eq!(select_for_version((3, 16), "old", None), "old");
}
