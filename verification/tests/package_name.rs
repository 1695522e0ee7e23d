use std::path::Path;

use extractor::package::package_name::{format_registry_name, InvalidIdentity, PackageName};

fn create_package_name() -> PackageName {
    let path = Path::new("Emittery-edcba0e9-2.4.1/");
    let path_name = path.file_name().unwrap().to_string_lossy().into_owned();
    PackageName::new(&path_name, "roblox/Emittery").unwrap()
}

#[test]
fn path_name_correct() {
    let package_name = create_package_name();
    assert_eq!(package_name.path_name, "Emittery-edcba0e9-2.4.1");
}

#[test]
fn registry_name_correct() {
    let package_name = create_package_name();
    assert_eq!(package_name.registry_name, "roblox-emittery");
}

#[test]
fn scope_name_correct() {
    let package_name = create_package_name();
    assert_eq!(package_name.scope.unwrap(), "roblox");
}

#[test]
fn scoped_name_correct() {
    let package_name = create_package_name();
    assert_eq!(package_name.scoped_name.unwrap(), "emittery");
}

#[test]
fn unprocessed_name_is_kept() {
    let package_name = create_package_name();
    assert_eq!(package_name.unprocessed_name, "roblox/Emittery");
}

#[test]
fn unscoped_name_has_no_scope() {
    let name = PackageName::new("ChalkLua-198f600a-0.1.3", "ChalkLua").unwrap();
    assert_eq!(name.registry_name, "chalk-lua");
    assert_eq!(name.scope, None);
    assert_eq!(name.scoped_name, None);
    assert_eq!(name.unprocessed_name, "ChalkLua");
}

#[test]
fn name_with_two_separators_is_invalid() {
    assert_eq!(
        PackageName::new("X", "a/b/c"),
        Err(InvalidIdentity { name: "a/b/c".to_string() })
    );
}

#[test]
fn registry_names_are_kebab_case_with_flat_scope() {
    assert_eq!(format_registry_name("LuauPolyfill"), "luau-polyfill");
    assert_eq!(format_registry_name("roblox/lumberyak"), "roblox-lumberyak");
    assert_eq!(format_registry_name("DiffSequences"), "diff-sequences");
    assert_eq!(format_registry_name("already-kebab"), "already-kebab");
}
