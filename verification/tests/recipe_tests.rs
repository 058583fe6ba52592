use parmake::recipe::recipe_args;

#[test]
fn invocation_lists_file_target_and_resolved_deps() {
    let args = recipe_args(
        &"Makefile".to_owned(),
        &"app".to_owned(),
        &vec!["lib".to_owned(), "util".to_owned()],
    );
    assert_eq!(
        args,
        vec![
            "-f".to_owned(),
            "Makefile".to_owned(),
            "app".to_owned(),
            "-o".to_owned(),
            "lib".to_owned(),
            "-o".to_owned(),
            "util".to_owned(),
        ]
    );
}

#[test]
fn invocation_without_deps_is_bare() {
    let args = recipe_args(&"build.mk".to_owned(), &"leaf".to_owned(), &vec![]);
    assert_eq!(
        args,
        vec!["-f".to_owned(), "build.mk".to_owned(), "leaf".to_owned()]
    );
}
