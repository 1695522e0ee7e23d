use extractor::package::package_rewrite::{resolve_package, OriginalPackage, PackageRewrite};

fn rewrites() -> Vec<PackageRewrite> {
    vec![PackageRewrite {
        new_source: "evaera/promise".to_string(),
        new_version: "4.0.0".to_string(),
        originals: vec![OriginalPackage {
            name: "promise".to_string(),
            version: "8c520dea".to_string(),
            description: "An internal promise upgrade package".to_string(),
        }],
    }]
}

#[test]
fn packages_are_rewritten() {
    let (rewritten, name, version) = resolve_package(&rewrites(), "promise", "8c520dea");

    assert_eq!(rewritten, true);
    assert_eq!(name, "evaera/promise");
    assert_eq!(version, "4.0.0");
}

#[test]
fn untouched_packages_are_left_alone() {
    let (rewritten, name, version) = resolve_package(&rewrites(), "some-fake-package", "1.0.0");

    assert_eq!(rewritten, false);
    assert_eq!(name, "some-fake-package");
    assert_eq!(version, "1.0.0");
}

#[test]
fn name_alone_does_not_match() {
    assert_eq!(
        resolve_package(&rewrites(), "promise", "8c520deb"),
        (false, "promise".to_string(), "8c520deb".to_string())
    );
    assert_eq!(
        resolve_package(&rewrites(), "Promise", "8c520dea"),
        (false, "Promise".to_string(), "8c520dea".to_string())
    );
}

#[test]
fn resolving_twice_changes_nothing() {
    let rules = rewrites();
    let (_, name, version) = resolve_package(&rules, "promise", "8c520dea");
    assert_eq!(resolve_package(&rules, &name, &version), (false, name.clone(), version.clone()));
    let (_, name, version) = resolve_package(&rules, "other", "1.2.3");
    assert_eq!(resolve_package(&rules, &name, &version), (false, name.clone(), version.clone()));
}

#[test]
fn first_matching_rule_wins() {
    let original = OriginalPackage {
        name: "cryo".to_string(),
        version: "1.0.0".to_string(),
        description: String::new(),
    };
    let rules = vec![
        PackageRewrite {
            new_source: "unrelated".to_string(),
            new_version: "0.0.1".to_string(),
            originals: vec![],
        },
        PackageRewrite {
            new_source: "freddylist/llama".to_string(),
            new_version: "1.1.1".to_string(),
            originals: vec![
                OriginalPackage {
                    name: "cryo".to_string(),
                    version: "0.9.0".to_string(),
                    description: String::new(),
                },
                original.clone(),
            ],
        },
        PackageRewrite {
            new_source: "late".to_string(),
            new_version: "9.9.9".to_string(),
            originals: vec![original],
        },
    ];
    assert_eq!(
        resolve_package(&rules, "cryo", "1.0.0"),
        (true, "freddylist/llama".to_string(), "1.1.1".to_string())
    );
    assert_eq!(
        resolve_package(&vec![], "cryo", "1.0.0"),
        (false, "cryo".to_string(), "1.0.0".to_string())
    );
}
