use focus::coordinate::{Coordinate, CoordinateError, CoordinateSet, Label, TargetName};

#[test]
fn coordinate_parsing() {
    assert_eq!(
        Coordinate::try_from("bazel://a:b").unwrap(),
        Coordinate::Bazel(Label {
            external_repository: None,
            path_components: vec!["a".to_string()],
            target_name: TargetName::Name("b".to_string()),
        })
    );
    assert_eq!(
        Coordinate::try_from("bazel://foo"),
        Ok(Coordinate::Bazel(Label {
            external_repository: None,
            path_components: vec!["foo".to_string()],
            target_name: TargetName::Name("foo".to_string())
        }))
    );
    assert_eq!(
        Coordinate::try_from("bazel://foo/bar/..."),
        Ok(Coordinate::Bazel(Label {
            external_repository: None,
            path_components: vec!["foo".to_string(), "bar".to_string()],
            target_name: TargetName::Ellipsis,
        }))
    );
    assert_eq!(
        Coordinate::try_from("bazel:@foo//bar:qux"),
        Ok(Coordinate::Bazel(Label {
            external_repository: Some("@foo".to_string()),
            path_components: vec!["bar".to_string()],
            target_name: TargetName::Name("qux".to_string()),
        }))
    );

    assert_eq!(
        Coordinate::try_from("bogus:whatever").unwrap_err(),
        CoordinateError::UnsupportedScheme("bogus".to_owned())
    );
    assert_eq!(
        Coordinate::try_from("okay").unwrap_err(),
        CoordinateError::TokenizationError
    );
}

#[test]
fn sets_from_strings_of_coordinates() {
    let coordinates = vec![String::from("bazel://a:b"), String::from("bazel://x/y:z")];

    let set = CoordinateSet::try_from(coordinates.as_slice());
    let set = set.unwrap();
    assert_eq!(set.underlying().len(), 2);
    assert!(set.is_uniform());
}

#[test]
fn non_uniform_sets() {
    // Sets containing different coordinate types are non-uniform
    assert!(!CoordinateSet::try_from(&[
        String::from("bazel://a:b"),
        String::from("directory:/foo"),
    ] as &[String])
    .unwrap()
    .is_uniform());

    // Empty sets are uniform
    assert!(CoordinateSet::try_from(&[] as &[String]).unwrap().is_uniform());
}

#[test]
fn failed_conversion_of_sets() {
    assert_eq!(
        CoordinateSet::try_from(&[String::from("whatever")] as &[String]).unwrap_err(),
        CoordinateError::TokenizationError
    );
    assert_eq!(
        CoordinateSet::try_from(&[String::from("foo:bar")] as &[String]).unwrap_err(),
        CoordinateError::UnsupportedScheme("foo".to_owned())
    );
}

#[test]
fn label_display_is_canonical() {
    let coordinate = Coordinate::try_from("bazel://foo/bar/...").unwrap();
    assert_eq!(coordinate.display(), "//foo/bar/...");

    let coordinate = Coordinate::try_from("bazel://a:b").unwrap();
    assert_eq!(coordinate.display(), "//a:b");

    // An omitted target name is displayed explicitly.
    let coordinate = Coordinate::try_from("bazel:foo/bar").unwrap();
    assert_eq!(coordinate.display(), "//foo/bar:bar");

    // The canonical form omits the external repository.
    let coordinate = Coordinate::try_from("bazel:@foo//bar:qux").unwrap();
    assert_eq!(coordinate.display(), "//bar:qux");

    // A directory coordinate displays its payload verbatim.
    let coordinate = Coordinate::try_from("directory:src/app").unwrap();
    assert_eq!(coordinate.display(), "src/app");
}

#[test]
fn display_then_parse_is_identity() {
    for input in ["//a:b", "//foo/bar/...", "foo", "//x/y:z", "a/b/c"] {
        let label = Label::from_str(input).unwrap();
        let shown = label.display();
        let reparsed = Label::from_str(shown.as_str()).unwrap();
        assert_eq!(label, reparsed);
        // The display form is a fixed point of display-then-parse.
        assert_eq!(reparsed.display(), shown);
    }
}

#[test]
fn scheme_matching_is_case_insensitive() {
    assert_eq!(
        Coordinate::try_from("BaZeL://a:b"),
        Coordinate::try_from("bazel://a:b")
    );
    assert_eq!(
        Coordinate::try_from("DIRECTORY:/foo").unwrap(),
        Coordinate::Directory("/foo".to_string())
    );
    assert_eq!(
        Coordinate::try_from("Pants:x/y").unwrap(),
        Coordinate::Pants("x/y".to_string())
    );
    // The unsupported scheme is reported verbatim, case preserved.
    assert_eq!(
        Coordinate::try_from("Bogus:x").unwrap_err(),
        CoordinateError::UnsupportedScheme("Bogus".to_owned())
    );
}

#[test]
fn uniformity_of_plain_collections() {
    let uniform = CoordinateSet::try_from(&[
        String::from("directory:a"),
        String::from("directory:b"),
        String::from("directory:c"),
    ] as &[String])
    .unwrap();
    assert!(uniform.is_uniform());
    assert!(CoordinateSet::determine_uniformity(uniform.underlying()));

    let mixed = CoordinateSet::try_from(&[
        String::from("pants:a"),
        String::from("directory:a"),
    ] as &[String])
    .unwrap();
    assert!(!mixed.is_uniform());
    assert!(!CoordinateSet::determine_uniformity(mixed.underlying()));

    assert!(CoordinateSet::determine_uniformity(&Vec::new()));
}

#[test]
fn sets_keep_one_copy_of_each_member() {
    let set = CoordinateSet::try_from(&[
        String::from("bazel://a:b"),
        String::from("bazel://a:b"),
        String::from("directory:d"),
    ] as &[String])
    .unwrap();
    assert_eq!(set.underlying().len(), 2);

    let members = vec![
        Coordinate::Directory("x".to_string()),
        Coordinate::Directory("x".to_string()),
    ];
    let set = CoordinateSet::from(members);
    assert_eq!(set.underlying().len(), 1);
    assert!(set.is_uniform());
}
