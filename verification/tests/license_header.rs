use extractor::package::license_extractor::{
    choose_license, classify, compute_header_license, compute_license_information,
    extract_license_header, group_by_verdict, has_script_extension, infer_script_license,
    is_script_whitelisted, source_matches_license_list, trim_comment_padding, ClassifierConfig,
    License, LicenseScores, ReferenceLicense, ScriptFile, ScriptLicense, ScriptLicenses,
    HIGHEST_SCORE, LICENSE_SCORE_THRESHOLD,
};

const MIT_HEADER: &str = "Copyright (c) GraphQL Contributors

This source code is licensed under the MIT license found in the
LICENSE file in the root directory of this source tree.";

const BSD_TEXT: &str = "Redistribution and use in source and binary forms, with or without
modification, are permitted provided that the following conditions are met:
Redistributions of source code must retain the above copyright notice, this
list of conditions and the following disclaimer.";

fn phrases() -> ClassifierConfig {
    ClassifierConfig {
        mit_phrases: vec![
            "licensed under the MIT license".to_string(),
            "Copyright Node.js contributors. All rights reserved".to_string(),
        ],
        apache_phrases: vec!["licensed under the Apache License, Version 2.0".to_string()],
        allowed_modules: vec![
            "Collections/Collections/Map/init.lua".to_string(),
            "Math/Math/clz32.lua".to_string(),
        ],
        corpus: vec![],
    }
}

fn corpus_only() -> ClassifierConfig {
    ClassifierConfig {
        mit_phrases: vec![],
        apache_phrases: vec![],
        allowed_modules: vec![],
        corpus: vec![
            ReferenceLicense { name: "BSD".to_string(), texts: vec![BSD_TEXT.to_string()] },
            ReferenceLicense { name: "MIT".to_string(), texts: vec![MIT_HEADER.to_string()] },
        ],
    }
}

#[test]
fn extracts_multiline_license_header() {
    let source = "--[[
* Copyright (c) GraphQL Contributors
*
* This source code is licensed under the MIT license found in the
* LICENSE file in the root directory of this source tree.
]]
-- ROBLOX upstream: https://github.com/graphql/graphql-js/blob/00d4efea7f5b44088356798afff0317880605f4d/src/execution/index.js

local executeModule = require(script.execute)
local valuesModule = require(script.values)";

    let header = extract_license_header(source);

    assert_eq!(
        header,
        "Copyright (c) GraphQL Contributors

This source code is licensed under the MIT license found in the
LICENSE file in the root directory of this source tree."
    );
}

#[test]
fn extracts_js_comment_license_header() {
    let source = "-- ROBLOX upstream: https://github.com/facebook/jest/blob/v27.4.7/packages/jest-diff/src/diffStrings.ts
-- /**
--  * Copyright (c) Facebook, Inc. and its affiliates. All Rights Reserved.
--  *
--  * This source code is licensed under the MIT license found in the
--  * LICENSE file in the root directory of this source tree.
--  */

local CurrentModule = script.Parent
local Packages = CurrentModule.Parent";

    let header = extract_license_header(source);

    assert_eq!(
        header,
        "Copyright (c) Facebook, Inc. and its affiliates. All Rights Reserved.

This source code is licensed under the MIT license found in the
LICENSE file in the root directory of this source tree."
    )
}

#[test]
fn unlicensed_code_has_empty_header() {
    let source = "local CurrentModule = script.Parent
local Packages = CurrentModule.Parent
local LuauPolyfill = require(Packages.LuauPolyfill)
type Array<T> = LuauPolyfill.Array<T>

local diffSequences = require(Packages.DiffSequences)

local CleanupSemantic = require(CurrentModule.CleanupSemantic)
local DIFF_DELETE = CleanupSemantic.DIFF_DELETE
local DIFF_EQUAL = CleanupSemantic.DIFF_EQUAL
local DIFF_INSERT = CleanupSemantic.DIFF_INSERT
local Diff = CleanupSemantic.Diff
type Diff = CleanupSemantic.Diff";

    let header = extract_license_header(source);
    assert_eq!(header.is_empty(), true)
}

#[test]
fn header_of_empty_source_is_empty() {
    assert_eq!(extract_license_header(""), "");
    assert_eq!(extract_license_header("\n\n"), "");
    assert_eq!(extract_license_header("-- ROBLOX upstream: somewhere\n"), "");
}

#[test]
fn header_is_the_same_with_windows_line_ends() {
    let unix = "-- A license\n-- of two lines\nlocal x = 1\n";
    let windows = "-- A license\r\n-- of two lines\r\nlocal x = 1\r\n";
    assert_eq!(extract_license_header(unix), "A license\nof two lines");
    assert_eq!(extract_license_header(windows), "A license\nof two lines");
}

#[test]
fn header_ends_at_block_terminator() {
    let source = "--[[\nFirst\nSecond ]]\nThird\n";
    assert_eq!(extract_license_header(source), "First");
}

#[test]
fn header_runs_to_the_end_without_terminator() {
    assert_eq!(extract_license_header("-- One\n\n-- Two\n\n"), "One\n\nTwo");
}

#[test]
fn comment_padding_is_trimmed() {
    assert_eq!(trim_comment_padding("--  * Copyright (c) Someone  "), "Copyright (c) Someone");
    assert_eq!(trim_comment_padding("--[[ text"), "text");
    assert_eq!(trim_comment_padding("-/-[[x"), "x");
    assert_eq!(trim_comment_padding("a\\b/c*d"), "abcd");
    assert_eq!(trim_comment_padding("---"), "-");
    assert_eq!(trim_comment_padding("   "), "");
    assert_eq!(trim_comment_padding("\u{a0}\u{3000}x\u{2003}"), "x");
}

#[test]
fn phrases_are_matched_without_regard_to_case() {
    let list = vec!["licensed under the MIT license".to_string()];
    assert!(source_matches_license_list("-- LICENSED UNDER THE mit LICENSE.", &list));
    assert!(!source_matches_license_list("-- licensed under the MIT", &list));
    assert!(!source_matches_license_list("anything", &vec![]));
}

#[test]
fn allowed_modules_are_found_with_either_separator() {
    let allowed = vec!["Math/Math/clz32.lua".to_string()];
    assert!(is_script_whitelisted("Packages/_Index/Math/Math/clz32.lua", &allowed));
    assert!(is_script_whitelisted("Packages\\_Index\\Math\\Math\\clz32.lua", &allowed));
    assert!(!is_script_whitelisted("Packages/_Index/Math/Math/abs.lua", &allowed));
}

#[test]
fn licenses_are_inferred_from_phrases() {
    let config = phrases();
    assert_eq!(
        infer_script_license("This is licensed under the MIT license.", "a.lua", &config),
        Some(License::MIT)
    );
    assert_eq!(
        infer_script_license(
            "licensed under the Apache License, Version 2.0 (the License)",
            "a.lua",
            &config
        ),
        Some(License::Apache2)
    );
    assert_eq!(infer_script_license("no phrase", "Math/Math/clz32.lua", &config), Some(License::MIT));
    assert_eq!(infer_script_license("no phrase", "a.lua", &config), None);
}

#[test]
fn license_names_are_displayed() {
    assert_eq!(License::MIT.to_string(), "MIT");
    assert_eq!(License::Apache2.to_string(), "Apache 2.0");
    assert_eq!(License::NoLicense.to_string(), "Unlicensed");
}

#[test]
fn header_equal_to_reference_text_is_licensed() {
    let config = corpus_only();
    assert_eq!(
        compute_header_license(MIT_HEADER, &config.corpus),
        ScriptLicense::Licensed("MIT".to_string())
    );
    assert_eq!(
        compute_header_license(BSD_TEXT, &config.corpus),
        ScriptLicense::Licensed("BSD".to_string())
    );
}

#[test]
fn header_unlike_every_reference_text_is_unlicensed() {
    let config = corpus_only();
    assert_eq!(
        compute_header_license("Lorem ipsum dolor sit amet, consectetur adipiscing", &config.corpus),
        ScriptLicense::Unlicensed
    );
    assert_eq!(compute_header_license(MIT_HEADER, &vec![]), ScriptLicense::Unlicensed);
}

#[test]
fn first_of_equal_scores_wins() {
    let corpus = vec![
        ReferenceLicense { name: "First".to_string(), texts: vec![MIT_HEADER.to_string()] },
        ReferenceLicense { name: "Second".to_string(), texts: vec![MIT_HEADER.to_string()] },
    ];
    assert_eq!(
        compute_header_license(MIT_HEADER, &corpus),
        ScriptLicense::Licensed("First".to_string())
    );
}

#[test]
fn scripts_are_classified() {
    let config = phrases();
    let licensed = "-- This source code is licensed under the MIT license found in\nlocal x = 1";
    let apache = "-- licensed under the Apache License, Version 2.0\nlocal x = 1";
    let bare = "local x = 1";
    let odd = "-- Some other words\nlocal x = 1";
    assert_eq!(classify(licensed, "a.lua", &config), ScriptLicense::Licensed("MIT".to_string()));
    assert_eq!(
        classify(apache, "a.lua", &config),
        ScriptLicense::Licensed("Apache 2.0".to_string())
    );
    assert_eq!(classify(bare, "a.lua", &config), ScriptLicense::Unlicensed);
    assert_eq!(classify(odd, "a.lua", &config), ScriptLicense::Unlicensed);
    assert_eq!(
        classify(bare, "Math/Math/clz32.lua", &config),
        ScriptLicense::Licensed("MIT".to_string())
    );
}

#[test]
fn phrase_behind_code_is_not_credited() {
    let config = phrases();
    let source = "local x = 1\n-- licensed under the MIT license\n";
    assert_eq!(classify(source, "a.lua", &config), ScriptLicense::Unlicensed);
}

#[test]
fn script_extensions_are_recognised() {
    assert!(has_script_extension("Pkg/src/init.lua"));
    assert!(has_script_extension("Pkg/src/init.luau"));
    assert!(has_script_extension("Pkg/src/a.roblox.lua"));
    assert!(has_script_extension("Pkg/src/LICENSE"));
    assert!(has_script_extension("Pkg/src/.hidden"));
    assert!(!has_script_extension("Pkg/src/readme.md"));
    assert!(!has_script_extension("Pkg/src/init.lua.bak"));
    assert!(!has_script_extension("Pkg.lua/src/readme.txt"));
}

fn file(path: &str, source: &str) -> ScriptFile {
    ScriptFile { path: path.to_string(), source: source.to_string() }
}

#[test]
fn license_information_groups_paths_by_verdict() {
    let config = phrases();
    let mit = "-- licensed under the MIT license\nlocal x = 1";
    let apache = "-- licensed under the Apache License, Version 2.0\nlocal x = 1";
    let files = vec![
        file("P/src/b.lua", "local x = 1"),
        file("P/src/m1.lua", mit),
        file("P/src/notes.md", "nothing"),
        file("P/src/a.lua", apache),
        file("P/src/m2.lua", mit),
        file("P/src/c.lua", "local y = 2"),
    ];
    let licenses = compute_license_information(&files, &config);
    assert_eq!(licenses.len(), 3);
    assert_eq!(
        licenses.entries,
        vec![
            (ScriptLicense::Licensed("Apache 2.0".to_string()), vec!["P/src/a.lua".to_string()]),
            (
                ScriptLicense::Licensed("MIT".to_string()),
                vec!["P/src/m1.lua".to_string(), "P/src/m2.lua".to_string()]
            ),
            (
                ScriptLicense::Unlicensed,
                vec!["P/src/b.lua".to_string(), "P/src/c.lua".to_string()]
            ),
        ]
    );
    assert_eq!(
        licenses.get(&ScriptLicense::Unlicensed),
        Some(&vec!["P/src/b.lua".to_string(), "P/src/c.lua".to_string()])
    );
    assert!(licenses.contains_key(&ScriptLicense::Licensed("MIT".to_string())));
    assert!(!licenses.contains_key(&ScriptLicense::Licensed("BSD".to_string())));
    assert_eq!(licenses.get(&ScriptLicense::Licensed("BSD".to_string())), None);
}

#[test]
fn verdicts_do_not_depend_on_the_order_of_discovery() {
    let config = phrases();
    let mit = "-- licensed under the MIT license\nlocal x = 1";
    let one = vec![file("a.lua", mit), file("b.lua", "local x"), file("c.lua", mit)];
    let other = vec![file("b.lua", "local x"), file("c.lua", mit), file("a.lua", mit)];
    let first = compute_license_information(&one, &config);
    let second = compute_license_information(&other, &config);
    assert_eq!(first.len(), second.len());
    for (verdict, paths) in &first.entries {
        let mut left = paths.clone();
        let mut right = second.get(verdict).unwrap().clone();
        left.sort();
        right.sort();
        assert_eq!(left, right);
    }
    let keys_first: Vec<&ScriptLicense> = first.entries.iter().map(|e| &e.0).collect();
    let keys_second: Vec<&ScriptLicense> = second.entries.iter().map(|e| &e.0).collect();
    assert_eq!(keys_first, keys_second);
}

#[test]
fn recording_keeps_verdicts_in_order() {
    let mut licenses = ScriptLicenses::new();
    licenses.record(ScriptLicense::Unlicensed, "u".to_string());
    licenses.record(ScriptLicense::Licensed("b".to_string()), "1".to_string());
    licenses.record(ScriptLicense::Licensed("a".to_string()), "2".to_string());
    licenses.record(ScriptLicense::Licensed("ab".to_string()), "3".to_string());
    licenses.record(ScriptLicense::Licensed("a".to_string()), "4".to_string());
    let keys: Vec<ScriptLicense> = licenses.entries.iter().map(|e| e.0.clone()).collect();
    let mut sorted = keys.clone();
    sorted.sort();
    assert_eq!(keys, sorted);
    assert_eq!(
        licenses.get(&ScriptLicense::Licensed("a".to_string())),
        Some(&vec!["2".to_string(), "4".to_string()])
    );
}

fn scores(name: &str, scores: &[f32]) -> LicenseScores {
    LicenseScores { name: name.to_string(), scores: scores.iter().map(|s| s.to_bits()).collect() }
}

#[test]
fn score_constants_are_the_patterns_of_their_numbers() {
    assert_eq!(LICENSE_SCORE_THRESHOLD, 0.95f32.to_bits());
    assert_eq!(HIGHEST_SCORE, 1.0f32.to_bits());
}

#[test]
fn first_text_with_the_highest_score_is_chosen() {
    let licensed = |name: &str| ScriptLicense::Licensed(name.to_string());
    assert_eq!(choose_license(&vec![]), ScriptLicense::Unlicensed);
    assert_eq!(choose_license(&vec![scores("A", &[])]), ScriptLicense::Unlicensed);
    assert_eq!(
        choose_license(&vec![scores("A", &[0.0, 0.5, 0.95]), scores("B", &[0.949])]),
        ScriptLicense::Unlicensed
    );
    assert_eq!(
        choose_license(&vec![scores("A", &[0.96]), scores("B", &[0.97, 0.2]), scores("C", &[0.97])]),
        licensed("B")
    );
    assert_eq!(
        choose_license(&vec![scores("A", &[0.2, 1.0]), scores("B", &[1.0])]),
        licensed("A")
    );
    assert_eq!(
        choose_license(&vec![scores("A", &[0.9500001]), scores("B", &[0.5])]),
        licensed("A")
    );
}

#[test]
fn what_is_no_score_credits_nothing() {
    assert_eq!(
        choose_license(&vec![scores("A", &[f32::NAN, -1.0, -0.0, f32::NEG_INFINITY])]),
        ScriptLicense::Unlicensed
    );
    assert_eq!(
        choose_license(&vec![scores("A", &[f32::NAN]), scores("B", &[0.99])]),
        ScriptLicense::Licensed("B".to_string())
    );
    assert_eq!(
        choose_license(&vec![scores("A", &[f32::INFINITY]), scores("B", &[0.99])]),
        ScriptLicense::Licensed("A".to_string())
    );
}

#[test]
fn paths_are_grouped_by_verdict() {
    let licensed = |name: &str| ScriptLicense::Licensed(name.to_string());
    let found = vec![
        ("z.lua".to_string(), ScriptLicense::Unlicensed),
        ("b.lua".to_string(), licensed("MIT")),
        ("a.lua".to_string(), licensed("Apache 2.0")),
        ("c.lua".to_string(), licensed("MIT")),
    ];
    assert_eq!(
        group_by_verdict(&found).entries,
        vec![
            (licensed("Apache 2.0"), vec!["a.lua".to_string()]),
            (licensed("MIT"), vec!["b.lua".to_string(), "c.lua".to_string()]),
            (ScriptLicense::Unlicensed, vec!["z.lua".to_string()]),
        ]
    );
    assert_eq!(group_by_verdict(&vec![]).entries, vec![]);
}

#[test]
fn grouping_does_not_depend_on_the_order() {
    let licensed = |name: &str| ScriptLicense::Licensed(name.to_string());
    let one = vec![
        ("a".to_string(), licensed("MIT")),
        ("b".to_string(), ScriptLicense::Unlicensed),
        ("c".to_string(), licensed("MIT")),
        ("d".to_string(), licensed("BSD")),
    ];
    let mut other = one.clone();
    other.reverse();
    other.swap(1, 2);
    let first = group_by_verdict(&one);
    let second = group_by_verdict(&other);
    assert_eq!(first.len(), second.len());
    for ((left_key, left), (right_key, right)) in first.entries.iter().zip(second.entries.iter()) {
        assert_eq!(left_key, right_key);
        let mut left = left.clone();
        let mut right = right.clone();
        left.sort();
        right.sort();
        assert_eq!(left, right);
    }
}

#[test]
fn corpus_credits_only_its_own_licenses() {
    let config = corpus_only();
    for header in [MIT_HEADER, BSD_TEXT, "x", "Some words that are no license at all"] {
        match compute_header_license(header, &config.corpus) {
            ScriptLicense::Unlicensed => {}
            ScriptLicense::Licensed(name) => assert!(name == "MIT" || name == "BSD"),
        }
    }
    let empty = vec![ReferenceLicense { name: "MIT".to_string(), texts: vec![] }];
    assert_eq!(compute_header_license(MIT_HEADER, &empty), ScriptLicense::Unlicensed);
}
