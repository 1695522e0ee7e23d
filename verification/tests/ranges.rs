use extractor::packages_downloader::{EmptyBuffer, PartialRangeIter};
use extractor::util::{fix_package_name, get_script_extension_from_class, NameOverride};

fn all(mut ranges: PartialRangeIter) -> Vec<(u64, u64)> {
    let mut out = Vec::new();
    while let Some(range) = ranges.next() {
        out.push(range);
    }
    out
}

#[test]
fn ranges_need_a_buffer() {
    assert_eq!(PartialRangeIter::new(0, 10, 0), Err(EmptyBuffer));
    assert_eq!(
        PartialRangeIter::new(3, 10, 4),
        Ok(PartialRangeIter { start: 3, end: 10, buffer_size: 4 })
    );
}

#[test]
fn ranges_cover_every_byte_once() {
    assert_eq!(all(PartialRangeIter::new(0, 9, 5).unwrap()), vec![(0, 4), (5, 9)]);
    assert_eq!(all(PartialRangeIter::new(0, 10, 5).unwrap()), vec![(0, 4), (5, 9), (10, 10)]);
    assert_eq!(all(PartialRangeIter::new(0, 0, 1024).unwrap()), vec![(0, 0)]);
    assert_eq!(all(PartialRangeIter::new(7, 8, 1).unwrap()), vec![(7, 7), (8, 8)]);
    assert_eq!(all(PartialRangeIter::new(5, 4, 2).unwrap()), vec![]);
    assert_eq!(
        all(PartialRangeIter::new(u64::MAX - 3, u64::MAX - 1, 2).unwrap()),
        vec![(u64::MAX - 3, u64::MAX - 2), (u64::MAX - 1, u64::MAX - 1)]
    );
}

#[test]
fn exhausted_ranges_stay_exhausted() {
    let mut ranges = PartialRangeIter::new(0, 1, 2).unwrap();
    assert_eq!(ranges.next(), Some((0, 1)));
    assert_eq!(ranges.next(), None);
    assert_eq!(ranges.next(), None);
    assert_eq!(ranges, PartialRangeIter { start: 2, end: 1, buffer_size: 2 });
}

#[test]
fn version_hash_is_cut_from_package_names() {
    assert_eq!(fix_package_name("ReactRoblox-9c8468d8-8a7220fd", &vec![]), "ReactRoblox");
    assert_eq!(fix_package_name("Cryo", &vec![]), "Cryo");
    assert_eq!(fix_package_name("-x", &vec![]), "");
    assert_eq!(fix_package_name("", &vec![]), "");
}

#[test]
fn overrides_come_before_the_cut() {
    let overrides = vec![
        NameOverride { name: "Other".to_string(), replacement: "Nothing".to_string() },
        NameOverride { name: "RoactCompat".to_string(), replacement: "Roact17-beta".to_string() },
        NameOverride { name: "RoactCompat".to_string(), replacement: "Late".to_string() },
    ];
    assert_eq!(fix_package_name("RoactCompat", &overrides), "Roact17");
    assert_eq!(fix_package_name("RoactCompat-04005deb", &overrides), "RoactCompat");
}

#[test]
fn script_classes_have_their_extensions() {
    assert_eq!(get_script_extension_from_class("Script"), ".server.lua");
    assert_eq!(get_script_extension_from_class("LocalScript"), ".client.lua");
    assert_eq!(get_script_extension_from_class("ModuleScript"), ".lua");
}
