use focus::coordinate::CoordinateSet;
use focus::directory_resolver::{
    CacheOptions, DependencyKey, DependencyValue, DirectoryResolver, ResolutionRequest,
};

#[test]
fn directory_resolution_is_identity() {
    let set = CoordinateSet::try_from(&[
        String::from("directory:src/app"),
        String::from("directory:src/lib"),
    ] as &[String])
    .unwrap();
    let request = ResolutionRequest {
        repo_root: String::from("/repo"),
        coordinate_set: set,
    };
    let resolver = DirectoryResolver::new("/tmp/cache");
    let options = CacheOptions {
        break_on_missing_keys: false,
    };
    let result = resolver.resolve(&request, &options).unwrap();

    assert_eq!(result.paths.len(), 2);
    assert!(result.paths.contains(&String::from("src/app")));
    assert!(result.paths.contains(&String::from("src/lib")));

    assert_eq!(result.package_deps.len(), 2);
    for (key, value) in &result.package_deps {
        let key_path = match key {
            DependencyKey::Path(p) => p.clone(),
            _ => panic!("expected a path key"),
        };
        let value_path = match value {
            DependencyValue::Path { path } => path.clone(),
            _ => panic!("expected a path value"),
        };
        assert_eq!(key_path, value_path);
        assert!(result.paths.contains(&key_path));
    }
}

#[test]
fn directory_resolution_of_the_empty_set() {
    let set = CoordinateSet::try_from(&[] as &[String]).unwrap();
    let request = ResolutionRequest {
        repo_root: String::from("/repo"),
        coordinate_set: set,
    };
    let resolver = DirectoryResolver::new("/tmp/cache");
    let options = CacheOptions {
        break_on_missing_keys: true,
    };
    let result = resolver.resolve(&request, &options).unwrap();
    assert!(result.paths.is_empty());
    assert!(result.package_deps.is_empty());
}
