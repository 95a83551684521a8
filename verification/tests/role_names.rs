use kokkupanek::scheduler::distribute::split_role_name;

#[test]
fn splits_project_and_group() {
    assert_eq!(split_role_name("proj--group"), Some(("proj", "group")));
}

#[test]
fn refuses_name_without_separator() {
    assert_eq!(split_role_name("ciruela"), None);
}

#[test]
fn refuses_three_pieces() {
    assert_eq!(split_role_name("a--b--c"), None);
}

#[test]
fn splits_at_first_separator() {
    assert_eq!(split_role_name("a---b"), Some(("a", "-b")));
    assert_eq!(split_role_name("--"), Some(("", "")));
}
