use extractor::documentation::{DebugContent, ReadmeContent};
use extractor::package::license_extractor::{ClassifierConfig, ScriptFile};
use extractor::package::package_lock::PackageLock;
use extractor::package::package_rewrite::{OriginalPackage, PackageRewrite};
use extractor::package_registry::{PackageCandidate, PackageRegistry, RegistryError};

const LICENSED: &str = "-- This source code is licensed under the MIT license found in the\nlocal x = 1";
const APACHE: &str = "-- licensed under the Apache License, Version 2.0\nlocal x = 1";
const UNLICENSED: &str = "local x = 1";

fn config() -> ClassifierConfig {
    ClassifierConfig {
        mit_phrases: vec!["licensed under the MIT license".to_string()],
        apache_phrases: vec!["licensed under the Apache License, Version 2.0".to_string()],
        allowed_modules: vec![],
        corpus: vec![],
    }
}

fn package(
    path_name: &str,
    name: &str,
    version: &str,
    dependencies: Option<Vec<&str>>,
    scripts: Vec<(&str, &str)>,
) -> PackageCandidate {
    PackageCandidate {
        package_path: format!("/index/{path_name}"),
        path_name: path_name.to_string(),
        lock: Some(PackageLock {
            name: name.to_string(),
            version: version.to_string(),
            commit: "0123456789".to_string(),
            source: String::new(),
            dependencies: dependencies.map(|d| d.into_iter().map(|l| l.to_string()).collect()),
        }),
        scripts: scripts
            .into_iter()
            .map(|(path, source)| ScriptFile {
                path: format!("{path_name}/{path}"),
                source: source.to_string(),
            })
            .collect(),
    }
}

fn registry() -> PackageRegistry {
    let rewrites = vec![PackageRewrite {
        new_source: "evaera/promise".to_string(),
        new_version: "4.0.0".to_string(),
        originals: vec![OriginalPackage {
            name: "promise".to_string(),
            version: "1.0.0".to_string(),
            description: String::new(),
        }],
    }];
    let mut registry = PackageRegistry::new(rewrites);
    registry
        .discover_packages_at_index(
            vec![
                package("Zeta-1", "Zeta", "1.0.0", None, vec![("src/init.lua", LICENSED)]),
                package(
                    "Mid-1",
                    "Mid",
                    "1.0.0",
                    Some(vec!["Bad Bad 1.0.0", "Zeta Zeta 1.0.0", "Worse Worse 2.0.0"]),
                    vec![("src/a.lua", APACHE), ("src/b.lua", LICENSED), ("src/c.lua", LICENSED)],
                ),
                package("Promise-1", "Promise", "1.0.0", None, vec![("src/init.lua", LICENSED)]),
                package(
                    "Bad-1",
                    "Bad",
                    "1.0.0",
                    None,
                    vec![("src/x.lua", UNLICENSED), ("src/y.lua", LICENSED), ("src/z.lua", UNLICENSED)],
                ),
                package("Worse-2", "Worse", "2.0.0", None, vec![("src/init.lua", UNLICENSED)]),
                package("Alpha-1", "Alpha", "1.0.0", Some(vec![]), vec![("src/init.lua", LICENSED)]),
                package("Lost-1", "Lost", "1.0.0", Some(vec!["Gone Gone 1.0.0"]), vec![]),
            ],
            &config(),
        )
        .unwrap();
    registry
}

#[test]
fn overview_lists_included_packages_by_path_name() {
    let registry = registry();
    let content = ReadmeContent::new(&registry);
    let names: Vec<&str> =
        content.available_packages.iter().map(|p| p.name.path_name.as_str()).collect();
    assert_eq!(names, vec!["Alpha-1", "Lost-1", "Zeta-1"]);
    assert!(content.blocked_packages.is_empty());
    assert!(content.blocking_packages.is_empty());
    assert!(content.unlicensed_packages.is_empty());
}

#[test]
fn overview_of_an_empty_registry_is_empty() {
    let registry = PackageRegistry::new(vec![]);
    assert!(ReadmeContent::new(&registry).available_packages.is_empty());
}

#[test]
fn page_of_a_blocked_package_lists_what_blocks_it() {
    let registry = registry();
    let content = DebugContent::new(&registry, "Mid-1").unwrap();
    assert_eq!(content.package.name.registry_name, "mid");
    assert_eq!(content.licensed_scripts, vec!["Mid-1/src/a.lua", "Mid-1/src/b.lua", "Mid-1/src/c.lua"]);
    assert!(content.unlicensed_scripts.is_empty());
    assert!(content.is_blocked);
    assert_eq!(content.blocking_tree, "- `bad` (`1.0.0`)\n- `worse` (`2.0.0`)\n");
}

#[test]
fn page_of_an_unlicensed_package_is_not_blocked() {
    let registry = registry();
    let content = DebugContent::new(&registry, "Bad-1").unwrap();
    assert_eq!(content.licensed_scripts, vec!["Bad-1/src/y.lua"]);
    assert_eq!(content.unlicensed_scripts, vec!["Bad-1/src/x.lua", "Bad-1/src/z.lua"]);
    assert!(!content.is_blocked);
    assert_eq!(content.blocking_tree, "");
}

#[test]
fn page_of_a_licensed_package_is_not_blocked() {
    let registry = registry();
    let content = DebugContent::new(&registry, "Zeta-1").unwrap();
    assert_eq!(content.licensed_scripts, vec!["Zeta-1/src/init.lua"]);
    assert!(!content.is_blocked);
    assert_eq!(content.blocking_tree, "");
}

#[test]
fn there_is_no_page_without_a_package_or_a_dependency() {
    let registry = registry();
    assert_eq!(
        DebugContent::new(&registry, "mid").unwrap_err(),
        RegistryError::UnknownPackage { name: "mid".to_string() }
    );
    assert_eq!(
        DebugContent::new(&registry, "Lost-1").unwrap_err(),
        RegistryError::UnresolvedDependency {
            dependant: "Lost-1".to_string(),
            name: "gone".to_string(),
            version: "1.0.0".to_string()
        }
    );
}
