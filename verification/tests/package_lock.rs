use extractor::package::package_lock::{
    lock_line_fields, CommitHash, LockDependency, LockError, MissingField, PackageLock,
    PackageVersion,
};
use extractor::package::package_rewrite::{OriginalPackage, PackageRewrite};

fn rewrites() -> Vec<PackageRewrite> {
    vec![PackageRewrite {
        new_source: "evaera/promise".to_string(),
        new_version: "4.0.0".to_string(),
        originals: vec![OriginalPackage {
            name: "promise".to_string(),
            version: "8c520dea".to_string(),
            description: "An internal promise upgrade package".to_string(),
        }],
    }]
}

fn make_lock() -> PackageLock {
    PackageLock {
        name: "Emittery".into(),
        version: "3.2.1".into(),
        commit: "792ffec6ca98a6d725d25d678d693f486c1d2c75".into(),
        source: "url+https://github.com/roblox/jest-roblox".into(),
        dependencies: Some(vec![
            "LuauPolyfill LuauPolyfill 1.1.0 url+https://github.com/roblox/luau-polyfill".into(),
            "Promise <patched> Promise 8c520dea git+https://github.com/roblox/promise-upgrade#v0.1.0".into(),
        ]),
    }
}

fn lock_with(dependencies: Option<Vec<String>>) -> PackageLock {
    PackageLock { dependencies, ..make_lock() }
}

#[test]
fn parses_lock_dependencies() {
    let lock = make_lock();
    let deps = lock.parse_lock_dependencies(&rewrites()).unwrap();
    assert_eq!(deps.len(), 2);

    let dep = LockDependency {
        registry_name: "luau-polyfill".into(),
        path_name: "LuauPolyfill".into(),
        version: PackageVersion::new("1.1.0"),
        is_rewritten: false,
    };

    assert_eq!(*deps.get(0).unwrap(), dep);
}

#[test]
fn rewrites_package_dependencies() {
    let lock = make_lock();
    let deps = lock.parse_lock_dependencies(&rewrites()).unwrap();
    assert_eq!(deps.len(), 2);

    let dep = LockDependency {
        registry_name: "evaera/promise".into(),
        path_name: "Promise".into(),
        version: PackageVersion::new("4.0.0"),
        is_rewritten: true,
    };

    assert_eq!(*deps.get(1).unwrap(), dep);
}

#[test]
fn versions_are_semantic_or_commits() {
    assert_eq!(PackageVersion::new("1.1.0"), PackageVersion::SemVer("1.1.0".to_string()));
    assert_eq!(
        PackageVersion::new("1.2.3-alpha.1+build.5"),
        PackageVersion::SemVer("1.2.3-alpha.1+build.5".to_string())
    );
    assert_eq!(
        PackageVersion::new("8c520dea"),
        PackageVersion::Commit(CommitHash("8c520dea".to_string()))
    );
    assert_eq!(PackageVersion::new("1.0"), PackageVersion::Commit(CommitHash("1.0".to_string())));
    assert_eq!(PackageVersion::new("01.0.0"), PackageVersion::Commit(CommitHash("01.0.0".to_string())));
    assert_eq!(PackageVersion::new(""), PackageVersion::Commit(CommitHash(String::new())));
    assert_eq!(PackageVersion::new("4.0.0").to_string(), "4.0.0");
    assert_eq!(PackageVersion::new("8c520dea").to_string(), "8c520dea");
}

#[test]
fn well_formed_lines_give_their_fields() {
    assert_eq!(
        lock_line_fields("LuauPolyfill LuauPolyfill 1.1.0 url+https://example.org/x y z"),
        Ok(("LuauPolyfill".to_string(), "LuauPolyfill".to_string(), "1.1.0".to_string()))
    );
    assert_eq!(
        lock_line_fields("Promise <patched> Promise 8c520dea"),
        Ok(("Promise".to_string(), "Promise".to_string(), "8c520dea".to_string()))
    );
    assert_eq!(
        lock_line_fields("A B 1.0.0"),
        Ok(("A".to_string(), "B".to_string(), "1.0.0".to_string()))
    );
    assert_eq!(
        lock_line_fields("A <patched> <patched> 1.0.0"),
        Ok(("A".to_string(), "<patched>".to_string(), "1.0.0".to_string()))
    );
}

#[test]
fn fields_are_delimited_by_any_white_space() {
    let expected = Ok(("A".to_string(), "B".to_string(), "1.0.0".to_string()));
    assert_eq!(lock_line_fields("A\tB\t1.0.0"), expected);
    assert_eq!(lock_line_fields("  A   B \u{a0} 1.0.0  rest"), expected);
    assert_eq!(lock_line_fields("A <patched>\tB 1.0.0\n"), expected);
}

#[test]
fn lines_that_lack_a_field_are_rejected() {
    assert_eq!(lock_line_fields(""), Err(MissingField::PathName));
    assert_eq!(lock_line_fields(" \t "), Err(MissingField::PathName));
    assert_eq!(lock_line_fields("A"), Err(MissingField::RegistryName));
    assert_eq!(lock_line_fields("A "), Err(MissingField::RegistryName));
    assert_eq!(lock_line_fields("A B"), Err(MissingField::Version));
    assert_eq!(lock_line_fields("A <patched>"), Err(MissingField::PatchedRegistryName));
    assert_eq!(lock_line_fields("A <patched> B"), Err(MissingField::Version));
}

#[test]
fn lock_without_dependency_list_is_told_apart_from_a_malformed_one() {
    assert_eq!(
        lock_with(None).parse_lock_dependencies(&rewrites()),
        Err(LockError::NoDependencies)
    );
    assert_eq!(lock_with(Some(vec![])).parse_lock_dependencies(&rewrites()), Ok(vec![]));
    assert_eq!(
        lock_with(Some(vec!["A B 1.0.0".to_string(), "C D".to_string(), "E".to_string()]))
            .parse_lock_dependencies(&rewrites()),
        Err(LockError::MalformedLine { line: "C D".to_string(), missing: MissingField::Version })
    );
}

#[test]
fn commit_pinned_dependency_is_kept_as_commit() {
    let lock = lock_with(Some(vec!["React React 04005deb git+https://example.org".to_string()]));
    assert_eq!(
        lock.parse_lock_dependencies(&rewrites()),
        Ok(vec![LockDependency {
            registry_name: "react".to_string(),
            path_name: "React".to_string(),
            version: PackageVersion::Commit(CommitHash("04005deb".to_string())),
            is_rewritten: false,
        }])
    );
}

#[test]
fn text_of_a_version_reads_back_as_the_version() {
    for raw in ["1.1.0", "0.0.0", "10.20.30-rc.1+build.007", "8c520dea", "1.0", "", "1.2.3-0a"] {
        let version = PackageVersion::new(raw);
        assert_eq!(PackageVersion::new(&version.to_string()), version, "{raw:?}");
    }
}
