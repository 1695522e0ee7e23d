use extractor::package::license_extractor::{
    ClassifierConfig, PackageLicense, ScriptFile, ScriptLicense, UnlicensedPackageReason,
};
use extractor::package::package_lock::{LockDependency, PackageLock, PackageVersion};
use extractor::package::package_rewrite::{OriginalPackage, PackageRewrite};
use extractor::package::package_tree::compute_package_tree;
use extractor::package::{
    get_package_src_path, IncludeInEmit, NotIncludedReason, Package, PackageError,
};
use extractor::package::package_lock::MissingField;
use extractor::package::package_name::PackageName;
use extractor::package_registry::{
    DiscoveryError, PackageCandidate, PackageQuery, PackageRef, PackageRegistry, RegistryError,
};

const LICENSED: &str = "--[[
* Copyright (c) Roblox Corporation
*
* This source code is licensed under the MIT license found in the
* LICENSE file in the root directory of this source tree.
]]
local x = 1
return x";

const UNLICENSED: &str = "local CurrentModule = script.Parent
local Packages = CurrentModule.Parent
return {}";

fn config() -> ClassifierConfig {
    ClassifierConfig {
        mit_phrases: vec!["licensed under the MIT license".to_string()],
        apache_phrases: vec!["licensed under the Apache License, Version 2.0".to_string()],
        allowed_modules: vec![],
        corpus: vec![],
    }
}

fn rewrites() -> Vec<PackageRewrite> {
    vec![PackageRewrite {
        new_source: "evaera/promise".to_string(),
        new_version: "4.0.0".to_string(),
        originals: vec![OriginalPackage {
            name: "promise".to_string(),
            version: "8c520dea".to_string(),
            description: String::new(),
        }],
    }]
}

fn candidate(
    path_name: &str,
    name: &str,
    version: &str,
    commit: &str,
    dependencies: Option<Vec<&str>>,
    scripts: Vec<(&str, &str)>,
) -> PackageCandidate {
    PackageCandidate {
        package_path: format!("/index/{path_name}"),
        path_name: path_name.to_string(),
        lock: Some(PackageLock {
            name: name.to_string(),
            version: version.to_string(),
            commit: commit.to_string(),
            source: "url+https://github.com/roblox/jest-roblox".to_string(),
            dependencies: dependencies.map(|d| d.into_iter().map(|l| l.to_string()).collect()),
        }),
        scripts: scripts
            .into_iter()
            .map(|(path, source)| ScriptFile {
                path: format!("{path_name}/{path}"),
                source: source.to_string(),
            })
            .collect(),
    }
}

fn index() -> Vec<PackageCandidate> {
    vec![
        candidate(
            "ChalkLua-edcba0e9-0.1.3",
            "ChalkLua",
            "0.1.3",
            "1111111111111111111111111111111111111111",
            Some(vec!["JestCircus JestCircus 3.2.1 url+https://github.com/roblox/jest-roblox"]),
            vec![("src/init.lua", LICENSED)],
        ),
        candidate(
            "DiffSequences-edcba0e9-2.4.5",
            "DiffSequences",
            "2.4.5",
            "2222222222222222222222222222222222222222",
            Some(vec!["LuauPolyfill LuauPolyfill 1.1.0 url+https://github.com/roblox/luau-polyfill"]),
            vec![("src/init.lua", UNLICENSED)],
        ),
        PackageCandidate {
            package_path: "/index/NotAPackage".to_string(),
            path_name: "NotAPackage".to_string(),
            lock: None,
            scripts: vec![],
        },
        candidate(
            "JestCircus-edcba0e9-3.2.1",
            "JestCircus",
            "3.2.1",
            "3333333333333333333333333333333333333333",
            Some(vec!["DiffSequences DiffSequences 2.4.5 url+https://github.com/roblox/jest-roblox"]),
            vec![("src/init.lua", LICENSED), ("src/circus.lua", LICENSED)],
        ),
        candidate(
            "LuauPolyfill-2fca3173-1.1.0",
            "LuauPolyfill",
            "1.1.0",
            "4444444444444444444444444444444444444444",
            None,
            vec![("src/init.lua", LICENSED)],
        ),
    ]
}

fn registry_of(candidates: Vec<PackageCandidate>) -> PackageRegistry {
    let mut registry = PackageRegistry::new(rewrites());
    registry.discover_packages_at_index(candidates, &config()).unwrap();
    registry
}

fn create_registry() -> PackageRegistry {
    registry_of(index())
}

#[test]
fn all_packages_discovered() {
    let registry = create_registry();
    assert_eq!(registry.package_count, 4);
}

#[test]
fn lock_dependencies_are_parsed() {
    let registry = create_registry();

    let (_, diff_sequences) = registry.find_by_registry_name("diff-sequences").unwrap();
    let deps = &diff_sequences.lock.parse_lock_dependencies(&registry.rewrites).unwrap();

    assert_eq!(deps.len(), 1);

    let polyfill_dep = LockDependency {
        registry_name: "luau-polyfill".into(),
        path_name: "LuauPolyfill".into(),
        version: PackageVersion::new("1.1.0"),
        is_rewritten: false,
    };

    assert_eq!(*deps.get(0).unwrap(), polyfill_dep);
}

#[test]
fn lock_dependencies_exist_in_registry() {
    let registry = create_registry();

    let (_, diff_sequences) = registry.find_by_registry_name("diff-sequences").unwrap();
    let deps = &diff_sequences.lock.parse_lock_dependencies(&registry.rewrites).unwrap();

    assert_eq!(deps.len(), 1);

    let polyfill_dep = deps.get(0).unwrap();

    let (_, luau_polyfill) = registry.find_by_registry_name(&polyfill_dep.registry_name).unwrap();

    assert_eq!(polyfill_dep.registry_name, luau_polyfill.name.registry_name);
    assert_eq!(polyfill_dep.version.to_string(), luau_polyfill.lock.version.to_string());
}

#[test]
fn mit_license_variations_parsed_correctly() {
    let registry = create_registry();

    let (_, chalk) = registry.find_by_registry_name("chalk-lua").unwrap();
    let licenses = &chalk.licenses;

    assert_eq!(licenses.len(), 1);
    assert_eq!(licenses.contains_key(&ScriptLicense::Licensed("MIT".into())), true);

    let (_, polyfill) = registry.find_by_registry_name("luau-polyfill").unwrap();
    let licenses = &polyfill.licenses;

    assert_eq!(licenses.len(), 1);
    assert_eq!(licenses.contains_key(&ScriptLicense::Licensed("MIT".into())), true);
}

#[test]
fn unlicensed_packages_discovered_correctly() {
    let registry = create_registry();

    let (_, diff_sequences) = registry.find_by_registry_name("diff-sequences").unwrap();
    let licenses = &diff_sequences.licenses;

    assert_eq!(licenses.len(), 1);
    assert_eq!(licenses.contains_key(&ScriptLicense::Unlicensed), true);
}

#[test]
fn licensed_package_with_no_deps_is_licensed() {
    let registry = create_registry();

    let (_, polyfill) = registry.find_by_registry_name("luau-polyfill").unwrap();

    assert_eq!(
        polyfill.is_package_licensed(&registry).unwrap(),
        PackageLicense::Licensed(vec!["MIT".into()])
    );
}

#[test]
fn unlicensed_package_not_licensed() {
    let registry = create_registry();

    let (_, diff_sequences) = registry.find_by_registry_name("diff-sequences").unwrap();

    assert_eq!(
        diff_sequences.is_package_licensed(&registry).unwrap(),
        PackageLicense::Unlicensed(UnlicensedPackageReason::UnlicensedScripts(vec![
            "DiffSequences-edcba0e9-2.4.5/src/init.lua".into()
        ]))
    );
}

#[test]
fn licensed_package_with_direct_unlicensed_dependency_is_unlicensed() {
    let registry = create_registry();

    let (_, jest) = registry.find_by_registry_name("jest-circus").unwrap();

    assert_eq!(
        jest.is_package_licensed(&registry).unwrap(),
        PackageLicense::Unlicensed(UnlicensedPackageReason::UnlicensedDependencies(vec![(
            "diff-sequences".into(),
            "2.4.5".into(),
            UnlicensedPackageReason::UnlicensedScripts(vec![
                "DiffSequences-edcba0e9-2.4.5/src/init.lua".into()
            ])
        )]))
    );
}

#[test]
fn licensed_package_with_transient_unlicensed_dependency_is_unlicensed() {
    let registry = create_registry();

    let (_, chalk) = registry.find_by_registry_name("chalk-lua").unwrap();

    assert_eq!(
        chalk.is_package_licensed(&registry).unwrap(),
        PackageLicense::Unlicensed(UnlicensedPackageReason::UnlicensedDependencies(vec![(
            "jest-circus".into(),
            "3.2.1".into(),
            UnlicensedPackageReason::UnlicensedDependencies(vec![(
                "diff-sequences".into(),
                "2.4.5".into(),
                UnlicensedPackageReason::UnlicensedScripts(vec![
                    "DiffSequences-edcba0e9-2.4.5/src/init.lua".into()
                ])
            )])
        )]))
    );
}

#[test]
fn registry_reports_licensed_and_blocking_files() {
    let registry = create_registry();
    assert_eq!(registry.is_package_licensed("luau-polyfill"), Ok((true, vec![])));
    assert_eq!(
        registry.is_package_licensed("diff-sequences"),
        Ok((false, vec!["DiffSequences-edcba0e9-2.4.5/src/init.lua".to_string()]))
    );
    assert_eq!(
        registry.is_package_licensed("jest-circus"),
        Ok((false, vec!["DiffSequences-edcba0e9-2.4.5/src/init.lua".to_string()]))
    );
    assert_eq!(
        registry.is_package_licensed("chalk-lua"),
        Ok((false, vec!["DiffSequences-edcba0e9-2.4.5/src/init.lua".to_string()]))
    );
    assert_eq!(
        registry.is_package_licensed("no-such-package"),
        Err(RegistryError::UnknownPackage { name: "no-such-package".to_string() })
    );
}

#[test]
fn every_blocking_file_is_reported() {
    let registry = registry_of(vec![
        candidate(
            "Top-1",
            "Top",
            "1.0.0",
            "aa",
            Some(vec!["Left Left 1.0.0", "Right Right 1.0.0"]),
            vec![("src/init.lua", LICENSED)],
        ),
        candidate(
            "Left-1",
            "Left",
            "1.0.0",
            "bb",
            None,
            vec![("src/a.lua", UNLICENSED), ("src/b.lua", UNLICENSED)],
        ),
        candidate(
            "Right-1",
            "Right",
            "1.0.0",
            "cc",
            Some(vec!["Deep Deep 1.0.0"]),
            vec![("src/init.lua", LICENSED)],
        ),
        candidate("Deep-1", "Deep", "1.0.0", "dd", None, vec![("src/c.lua", UNLICENSED)]),
    ]);
    assert_eq!(
        registry.is_package_licensed("top"),
        Ok((
            false,
            vec![
                "Left-1/src/a.lua".to_string(),
                "Left-1/src/b.lua".to_string(),
                "Deep-1/src/c.lua".to_string()
            ]
        ))
    );
}

#[test]
fn unlicensed_script_decides_whatever_the_dependencies_are() {
    let registry = registry_of(vec![candidate(
        "Lonely-1",
        "Lonely",
        "1.0.0",
        "aa",
        Some(vec!["Missing Missing 1.0.0"]),
        vec![("src/init.lua", UNLICENSED), ("src/ok.lua", LICENSED)],
    )]);
    assert_eq!(
        registry.is_package_licensed("lonely"),
        Ok((false, vec!["Lonely-1/src/init.lua".to_string()]))
    );
}

#[test]
fn unresolved_dependency_is_named() {
    let registry = registry_of(vec![candidate(
        "Lonely-1",
        "Lonely",
        "1.0.0",
        "aa",
        Some(vec!["Missing Missing 1.0.0"]),
        vec![("src/init.lua", LICENSED)],
    )]);
    let error = RegistryError::UnresolvedDependency {
        dependant: "Lonely-1".to_string(),
        name: "missing".to_string(),
        version: "1.0.0".to_string(),
    };
    assert_eq!(registry.is_package_licensed("lonely"), Err(error.clone()));
    let (_, lonely) = registry.find_by_registry_name("lonely").unwrap();
    assert_eq!(compute_package_tree(lonely, &registry), Err(error.clone()));
    let mut registry = registry;
    assert_eq!(registry.construct_graph_edges(), Err(error));
    assert_eq!(registry.package_graph.edge_count(), 0);
}

#[test]
fn rewritten_dependency_is_not_checked() {
    let registry = registry_of(vec![candidate(
        "Emittery-1",
        "Emittery",
        "3.2.1",
        "aa",
        Some(vec!["Promise <patched> Promise 8c520dea git+https://example.org"]),
        vec![("src/init.lua", LICENSED)],
    )]);
    assert_eq!(registry.is_package_licensed("emittery"), Ok((true, vec![])));
    let (_, emittery) = registry.find_by_registry_name("emittery").unwrap();
    assert_eq!(
        compute_package_tree(emittery, &registry).unwrap(),
        "├──core-packages/emittery (v3.2.1)\n│  ├──evaera/promise (v4.0.0) (external)"
    );
}

fn cycle() -> PackageRegistry {
    registry_of(vec![
        candidate("A-1", "A", "1.0.0", "aa", Some(vec!["B B 1.0.0"]), vec![("src/init.lua", LICENSED)]),
        candidate("B-1", "B", "1.0.0", "bb", Some(vec!["A A 1.0.0"]), vec![("src/init.lua", LICENSED)]),
    ])
}

#[test]
fn cycle_of_licensed_packages_is_licensed() {
    let registry = cycle();
    assert_eq!(registry.is_package_licensed("a"), Ok((true, vec![])));
    assert_eq!(registry.is_package_licensed("b"), Ok((true, vec![])));
    let (_, a) = registry.find_by_registry_name("a").unwrap();
    assert_eq!(a.is_package_licensed(&registry), Ok(PackageLicense::Licensed(vec!["MIT".into()])));
}

#[test]
fn cycle_with_unlicensed_package_is_unlicensed() {
    let registry = registry_of(vec![
        candidate("A-1", "A", "1.0.0", "aa", Some(vec!["B B 1.0.0"]), vec![("src/init.lua", LICENSED)]),
        candidate("B-1", "B", "1.0.0", "bb", Some(vec!["A A 1.0.0"]), vec![("src/init.lua", UNLICENSED)]),
    ]);
    assert_eq!(
        registry.is_package_licensed("a"),
        Ok((false, vec!["B-1/src/init.lua".to_string()]))
    );
    assert_eq!(
        registry.is_package_licensed("b"),
        Ok((false, vec!["B-1/src/init.lua".to_string()]))
    );
}

#[test]
fn tree_of_a_cycle_ends() {
    let registry = cycle();
    let (_, a) = registry.find_by_registry_name("a").unwrap();
    assert_eq!(
        compute_package_tree(a, &registry).unwrap(),
        "├──core-packages/a (v1.0.0)
│  └──core-packages/b (v1.0.0)
│     └──core-packages/a (v1.0.0)"
    );
}

#[test]
fn tree_of_a_chain_has_one_last_child_per_level() {
    let registry = registry_of(vec![
        candidate("A-1", "A", "1.0.0", "aa", Some(vec!["B B 2.0.0"]), vec![]),
        candidate("B-2", "B", "2.0.0", "bb", Some(vec!["C C 3.0.0"]), vec![]),
        candidate("C-3", "C", "3.0.0", "cc", None, vec![]),
    ]);
    let (_, a) = registry.find_by_registry_name("a").unwrap();
    let tree = compute_package_tree(a, &registry).unwrap();
    assert_eq!(
        tree,
        "├──core-packages/a (v1.0.0)
│  └──core-packages/b (v2.0.0)
│     └──core-packages/c (v3.0.0)"
    );
    let lines: Vec<&str> = tree.lines().collect();
    assert_eq!(lines.len(), 3);
    assert_eq!(lines[1].matches("└──").count(), 1);
    assert_eq!(lines[2].matches("└──").count(), 1);
    assert_eq!(lines[2].matches("├──").count(), 0);
}

#[test]
fn tree_of_a_package_outside_the_registry_begins_with_an_empty_path() {
    let registry = cycle();
    let lock = PackageLock {
        name: "Guest".to_string(),
        version: "0.1.0".to_string(),
        commit: "00".to_string(),
        source: String::new(),
        dependencies: Some(vec!["A A 1.0.0".to_string(), "Promise <patched> Promise 8c520dea".to_string()]),
    };
    let guest =
        Package::new("/elsewhere/Guest".to_string(), "Guest", lock, &vec![], &rewrites(), &config())
            .unwrap();
    assert_eq!(
        compute_package_tree(&guest, &registry).unwrap(),
        "├──core-packages/guest (v0.1.0)
│  ├──core-packages/a (v1.0.0)
│  │  └──core-packages/b (v1.0.0)
│  │     └──core-packages/a (v1.0.0)
│  ├──evaera/promise (v4.0.0) (external)"
    );
    assert_eq!(guest.is_package_licensed(&registry), Ok(PackageLicense::Licensed(vec![])));
}

#[test]
fn tree_draws_siblings() {
    let registry = registry_of(vec![
        candidate(
            "A-1",
            "A",
            "1.0.0",
            "aa",
            Some(vec!["B B 1.0.0", "C C 1.0.0"]),
            vec![],
        ),
        candidate("B-1", "B", "1.0.0", "bb", Some(vec!["C C 1.0.0"]), vec![]),
        candidate("C-1", "C", "1.0.0", "cc", Some(vec![]), vec![]),
    ]);
    let (_, a) = registry.find_by_registry_name("a").unwrap();
    assert_eq!(
        compute_package_tree(a, &registry).unwrap(),
        "├──core-packages/a (v1.0.0)
│  ├──core-packages/b (v1.0.0)
│  │  └──core-packages/c (v1.0.0)
│  └──core-packages/c (v1.0.0)"
    );
}

#[test]
fn packages_are_found_by_each_key() {
    let registry = create_registry();
    let (r, p) = registry.find_by_path_name("JestCircus-edcba0e9-3.2.1").unwrap();
    assert_eq!(*r, PackageRef(3));
    assert_eq!(p.name.registry_name, "jest-circus");
    let (r, _) = registry.find_by_registry_name("chalk-lua").unwrap();
    assert_eq!(*r, PackageRef(1));
    let (r, _) = registry.find_by_registry_name_and_version("luau-polyfill", "1.1.0").unwrap();
    assert_eq!(*r, PackageRef(4));
    assert!(registry.find_by_registry_name_and_version("luau-polyfill", "1.1.1").is_none());
    let (r, _) = registry.find_by_commit_hash("2222").unwrap();
    assert_eq!(*r, PackageRef(2));
    let (r, _) = registry.find_by_commit_hash("").unwrap();
    assert_eq!(*r, PackageRef(1));
    assert!(registry.find_by_commit_hash("5").is_none());
    assert!(registry.find_by_path_name("jest-circus").is_none());
    assert_eq!(registry.position(PackageQuery::RegistryName("nothing")), 4);
    assert!(registry.find_by(PackageQuery::PathName("NotAPackage")).is_none());
}

#[test]
fn dependencies_resolve_exactly_or_by_name() {
    let registry = create_registry();
    let exact = LockDependency {
        registry_name: "luau-polyfill".to_string(),
        path_name: "LuauPolyfill".to_string(),
        version: PackageVersion::new("1.1.0"),
        is_rewritten: false,
    };
    let skewed = LockDependency { version: PackageVersion::new("9.9.9"), ..exact.clone() };
    let by_commit = LockDependency {
        registry_name: "jest-circus".to_string(),
        version: PackageVersion::new("2222"),
        ..exact.clone()
    };
    let unknown = LockDependency { registry_name: "whatever".to_string(), ..exact.clone() };
    assert_eq!(*registry.resolve_lock_dependency_to_package(&exact).unwrap().0, PackageRef(4));
    assert_eq!(*registry.resolve_lock_dependency_to_package(&skewed).unwrap().0, PackageRef(4));
    assert_eq!(*registry.resolve_lock_dependency_to_package(&by_commit).unwrap().0, PackageRef(3));
    assert!(registry.resolve_lock_dependency_to_package(&unknown).is_none());
}

#[test]
fn first_of_two_versions_is_found_by_name() {
    let registry = registry_of(vec![
        candidate("React-1", "React", "17.0.1", "aa", None, vec![]),
        candidate("React-2", "React", "17.0.2", "bb", None, vec![]),
    ]);
    assert_eq!(*registry.find_by_registry_name("react").unwrap().0, PackageRef(1));
    assert_eq!(
        *registry.find_by_registry_name_and_version("react", "17.0.2").unwrap().0,
        PackageRef(2)
    );
}

#[test]
fn graph_gets_a_node_per_package_and_an_edge_per_dependency() {
    let mut registry = create_registry();
    assert_eq!(registry.package_graph.node_count(), 4);
    assert_eq!(registry.package_graph.edge_count(), 0);
    assert_eq!(registry.construct_graph_edges(), Ok(()));
    assert_eq!(registry.package_graph.node_count(), 4);
    assert_eq!(registry.package_graph.edge_count(), 3);
    let mut edges: Vec<(u32, u32)> = registry
        .package_graph
        .edge_indices()
        .map(|e| {
            let (from, to) = registry.package_graph.edge_endpoints(e).unwrap();
            (registry.package_graph[from], registry.package_graph[to])
        })
        .collect();
    edges.sort();
    assert_eq!(edges, vec![(1, 3), (2, 4), (3, 2)]);
    assert_eq!(
        registry.resolve_edges().unwrap().len(),
        3
    );
    assert_eq!(registry.construct_graph_edges(), Ok(()));
    assert_eq!(registry.package_graph.edge_count(), 6);
}

#[test]
fn references_count_up_across_passes() {
    let mut registry = create_registry();
    registry
        .discover_packages_at_index(
            vec![candidate("Extra-1", "Extra", "1.0.0", "ee", None, vec![])],
            &config(),
        )
        .unwrap();
    assert_eq!(registry.package_count, 5);
    assert_eq!(*registry.find_by_registry_name("extra").unwrap().0, PackageRef(5));
    let refs: Vec<u32> = registry.packages.iter().map(|(r, _)| r.0).collect();
    assert_eq!(refs, vec![1, 2, 3, 4, 5]);
    assert_eq!(registry.node_indexes.len(), 5);
}

#[test]
fn discovery_stops_at_the_first_bad_package() {
    let mut registry = PackageRegistry::new(rewrites());
    let result = registry.discover_packages_at_index(
        vec![
            candidate("Good-1", "Good", "1.0.0", "aa", None, vec![]),
            candidate("Bad-1", "one/two/three", "1.0.0", "bb", None, vec![]),
            candidate("Late-1", "Late", "1.0.0", "cc", None, vec![]),
        ],
        &config(),
    );
    assert_eq!(
        result,
        Err(DiscoveryError {
            package_path: "/index/Bad-1".to_string(),
            cause: PackageError::InvalidIdentity { name: "one/two/three".to_string() },
        })
    );
    assert_eq!(registry.package_count, 1);
    assert!(registry.find_by_registry_name("good").is_some());
    assert!(registry.find_by_registry_name("late").is_none());
}

#[test]
fn package_with_malformed_lock_is_rejected() {
    let lock = PackageLock {
        name: "Broken".to_string(),
        version: "1.0.0".to_string(),
        commit: "aa".to_string(),
        source: String::new(),
        dependencies: Some(vec!["OnlyOneToken".to_string()]),
    };
    let made = Package::new(
        "/index/Broken-1".to_string(),
        "Broken-1",
        lock,
        &vec![],
        &rewrites(),
        &config(),
    );
    assert_eq!(
        made.unwrap_err(),
        PackageError::MalformedLock {
            line: "OnlyOneToken".to_string(),
            missing: MissingField::RegistryName
        }
    );
}

#[test]
fn rewritten_package_is_left_out_and_not_classified() {
    let lock = PackageLock {
        name: "Promise".to_string(),
        version: "8c520dea".to_string(),
        commit: "8c520dea00".to_string(),
        source: String::new(),
        dependencies: None,
    };
    let scripts = vec![ScriptFile {
        path: "Promise/src/init.lua".to_string(),
        source: UNLICENSED.to_string(),
    }];
    let package =
        Package::new("/index/Promise".to_string(), "Promise", lock, &scripts, &rewrites(), &config())
            .unwrap();
    assert_eq!(package.licenses.len(), 0);
    assert!(package.is_package_rewritten(&rewrites()));
    assert!(!package.is_package_rewritten(&vec![]));
    let registry = PackageRegistry::new(rewrites());
    assert_eq!(
        package.include_in_extractor_emit(&registry),
        IncludeInEmit::NotIncluded(NotIncludedReason::OverwrittenPackage)
    );
}

#[test]
fn packages_are_included_unless_unlicensed() {
    let registry = create_registry();
    let (_, polyfill) = registry.find_by_registry_name("luau-polyfill").unwrap();
    assert_eq!(polyfill.include_in_extractor_emit(&registry), IncludeInEmit::Included);
    let (_, diff) = registry.find_by_registry_name("diff-sequences").unwrap();
    assert_eq!(
        diff.include_in_extractor_emit(&registry),
        IncludeInEmit::NotIncluded(NotIncludedReason::Unlicensed(
            UnlicensedPackageReason::UnlicensedScripts(vec![
                "DiffSequences-edcba0e9-2.4.5/src/init.lua".to_string()
            ])
        ))
    );
}

#[test]
fn source_directory_is_src_or_named_like_the_package() {
    let scoped = PackageName::new("Emittery-1", "roblox/Emittery").unwrap();
    let plain = PackageName::new("Cryo-1", "Cryo").unwrap();
    let dirs = |names: &[&str]| names.iter().map(|n| n.to_string()).collect::<Vec<String>>();
    assert_eq!(
        get_package_src_path("/i/Emittery-1", &scoped, &dirs(&["emittery", "src"])),
        Ok("/i/Emittery-1/src".to_string())
    );
    assert_eq!(
        get_package_src_path("/i/Emittery-1", &scoped, &dirs(&["docs", "emittery"])),
        Ok("/i/Emittery-1/emittery".to_string())
    );
    assert_eq!(
        get_package_src_path("/i/Cryo-1", &plain, &dirs(&["Cryo"])),
        Ok("/i/Cryo-1/Cryo".to_string())
    );
    assert_eq!(
        get_package_src_path("/i/Cryo-1", &plain, &dirs(&["cryo"])),
        Err(PackageError::MissingSources)
    );
    assert_eq!(get_package_src_path("/i/Cryo-1", &plain, &vec![]), Err(PackageError::MissingSources));
}

#[test]
fn unlicensed_files_of_a_reason_are_flattened() {
    let reason = UnlicensedPackageReason::UnlicensedDependencies(vec![
        (
            "a".to_string(),
            "1".to_string(),
            UnlicensedPackageReason::UnlicensedScripts(vec!["x".to_string(), "y".to_string()]),
        ),
        (
            "b".to_string(),
            "2".to_string(),
            UnlicensedPackageReason::UnlicensedDependencies(vec![(
                "c".to_string(),
                "3".to_string(),
                UnlicensedPackageReason::UnlicensedScripts(vec!["z".to_string()]),
            )]),
        ),
        ("d".to_string(), "4".to_string(), UnlicensedPackageReason::UnlicensedDependencies(vec![])),
    ]);
    assert_eq!(reason.unlicensed_files(), vec!["x".to_string(), "y".to_string(), "z".to_string()]);
}

#[test]
fn package_with_a_known_path_name_takes_the_place_of_the_old_one() {
    let mut registry = create_registry();
    registry
        .discover_packages_at_index(
            vec![candidate(
                "DiffSequences-edcba0e9-2.4.5",
                "DiffSequences",
                "2.4.5",
                "9999",
                None,
                vec![("src/init.lua", LICENSED)],
            )],
            &config(),
        )
        .unwrap();
    assert_eq!(registry.package_count, 4);
    assert_eq!(registry.packages.len(), 4);
    let (r, p) = registry.find_by_path_name("DiffSequences-edcba0e9-2.4.5").unwrap();
    assert_eq!(*r, PackageRef(2));
    assert_eq!(p.lock.commit, "9999");
    assert_eq!(registry.package_graph.node_count(), 4);
    assert_eq!(registry.is_package_licensed("jest-circus"), Ok((true, vec![])));
}

fn names(list: &[&str]) -> Vec<String> {
    list.iter().map(|name| name.to_string()).collect()
}

#[test]
fn needed_packages_are_the_roots_and_all_they_depend_on() {
    let registry = create_registry();
    assert_eq!(
        registry.needed_packages(&names(&["chalk-lua"])),
        Ok(vec![PackageRef(1), PackageRef(3), PackageRef(2), PackageRef(4)])
    );
    assert_eq!(
        registry.needed_packages(&names(&["diff-sequences", "luau-polyfill", "diff-sequences"])),
        Ok(vec![PackageRef(2), PackageRef(4)])
    );
    assert_eq!(registry.needed_packages(&names(&["luau-polyfill"])), Ok(vec![PackageRef(4)]));
    assert_eq!(registry.needed_packages(&vec![]), Ok(vec![]));
}

#[test]
fn needed_packages_of_a_cycle_are_listed_once() {
    let registry = cycle();
    assert_eq!(registry.needed_packages(&names(&["b"])), Ok(vec![PackageRef(2), PackageRef(1)]));
    assert_eq!(
        registry.needed_packages(&names(&["a", "b"])),
        Ok(vec![PackageRef(1), PackageRef(2)])
    );
}

#[test]
fn needed_packages_need_known_names_and_resolved_dependencies() {
    let registry = create_registry();
    assert_eq!(
        registry.needed_packages(&names(&["chalk-lua", "nothing", "nobody"])),
        Err(RegistryError::UnknownPackage { name: "nothing".to_string() })
    );
    let registry = registry_of(vec![
        candidate("Top-1", "Top", "1.0.0", "aa", Some(vec!["Mid Mid 1.0.0"]), vec![]),
        candidate("Mid-1", "Mid", "1.0.0", "bb", Some(vec!["Gone Gone 1.0.0"]), vec![]),
        candidate("Free-1", "Free", "1.0.0", "cc", None, vec![]),
    ]);
    assert_eq!(
        registry.needed_packages(&names(&["top"])),
        Err(RegistryError::UnresolvedDependency {
            dependant: "Mid-1".to_string(),
            name: "gone".to_string(),
            version: "1.0.0".to_string()
        })
    );
    assert_eq!(registry.needed_packages(&names(&["free"])), Ok(vec![PackageRef(3)]));
    let (_, top) = registry.find_by_registry_name("top").unwrap();
    assert_eq!(registry.resolve_dependencies(top), Ok(vec![1]));
}

#[test]
fn unlicensed_code_of_a_rewritten_package_does_not_count() {
    let registry = create_registry();
    let (_, diff) = registry.find_by_registry_name("diff-sequences").unwrap();
    assert!(diff.contains_unlicensed_code(&registry.rewrites));
    let (_, polyfill) = registry.find_by_registry_name("luau-polyfill").unwrap();
    assert!(!polyfill.contains_unlicensed_code(&registry.rewrites));
    let replaced = vec![PackageRewrite {
        new_source: "other/diff".to_string(),
        new_version: "1.0.0".to_string(),
        originals: vec![OriginalPackage {
            name: "diff-sequences".to_string(),
            version: "2.4.5".to_string(),
            description: String::new(),
        }],
    }];
    assert!(!diff.contains_unlicensed_code(&replaced));
}
