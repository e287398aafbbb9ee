//! Relative import specifiers and what they resolve to.

use weavatrix_rust_refactor::specifier::{between, is_relative, resolve, rewrite};

#[test]
fn only_path_specifiers_are_relative() {
    assert!(is_relative("./core.js"));
    assert!(is_relative("../lib/y.js"));
    assert!(!is_relative("crate::core"));
    assert!(!is_relative("react"));
    assert!(!is_relative("com.example.Core"));
    assert!(!is_relative("/absolute/core.js"));
}

#[test]
fn a_specifier_resolves_against_the_importing_directory() {
    assert_eq!(
        resolve("src/app/main.js", "./core.js"),
        Some("src/app/core.js".to_owned())
    );
    assert_eq!(
        resolve("src/app/main.js", "../lib/y.js"),
        Some("src/lib/y.js".to_owned())
    );
    assert_eq!(
        resolve("src/app/main.js", "../../top.js"),
        Some("top.js".to_owned())
    );
}

#[test]
fn a_specifier_that_escapes_the_root_resolves_to_nothing() {
    assert_eq!(resolve("main.js", "../outside.js"), None);
}

#[test]
fn the_specifier_between_two_files_is_always_explicitly_relative() {
    // A bare name is a package in most ecosystems, so a sibling must keep its `./`.
    assert_eq!(between("src/app/main.js", "src/app/core.js"), "./core.js");
    assert_eq!(between("src/app/main.js", "src/lib/y.js"), "../lib/y.js");
    assert_eq!(between("main.js", "src/deep/x.js"), "./src/deep/x.js");
}

#[test]
fn a_round_trip_through_resolve_and_between_is_stable() {
    for (importer, specifier) in [
        ("src/app/main.js", "./core.js"),
        ("src/app/main.js", "../lib/y.js"),
        ("a/b/c/d.js", "../../e.js"),
    ] {
        let resolved = resolve(importer, specifier).expect("resolves");
        assert_eq!(
            between(importer, &resolved),
            specifier,
            "{specifier} from {importer} did not survive the round trip"
        );
    }
}

#[test]
fn moving_a_file_deeper_adds_the_climb_its_imports_need() {
    // src/main.js imported ./core.js; moved to src/deep/main.js it needs ../core.js.
    let resolved = resolve("src/main.js", "./core.js").expect("resolves");
    assert_eq!(
        rewrite("src/deep/main.js", "./core.js", &resolved),
        "../core.js"
    );
}

#[test]
fn moving_a_file_up_removes_the_climb() {
    let resolved = resolve("src/deep/main.js", "../core.js").expect("resolves");
    assert_eq!(rewrite("src/main.js", "../core.js", &resolved), "./core.js");
}

#[test]
fn an_extensionless_specifier_stays_extensionless() {
    let resolved = "src/core.js";
    assert_eq!(rewrite("src/deep/main.js", "./core", resolved), "../core");
}

#[test]
fn an_explicit_extension_is_kept() {
    let resolved = "src/core.js";
    assert_eq!(
        rewrite("src/deep/main.js", "./core.js", resolved),
        "../core.js"
    );
}

#[test]
fn empty_and_current_segments_are_stepped_over() {
    assert_eq!(
        resolve("src/app/main.js", "././/core.js"),
        Some("src/app/core.js".to_owned())
    );
}

#[test]
fn a_specifier_above_the_root_on_its_way_resolves_to_nothing() {
    assert_eq!(resolve("src/main.js", "../../src/core.js"), None);
}

#[test]
fn a_sibling_of_a_dotted_directory_keeps_its_route() {
    assert_eq!(between("a.b/main.js", "a.b/core.js"), "./core.js");
    assert_eq!(
        resolve("a.b/main.js", &between("a.b/main.js", "c/core.js")),
        Some("c/core.js".to_owned())
    );
}

#[test]
fn a_name_that_begins_with_dots_is_still_made_relative() {
    assert_eq!(between("main.js", "..foo.js"), "./..foo.js");
    assert_eq!(between("main.js", ".hidden.js"), "./.hidden.js");
    assert_eq!(
        resolve("main.js", &between("main.js", "..foo.js")),
        Some("..foo.js".to_owned())
    );
}

#[test]
fn a_lone_climb_is_relative() {
    assert_eq!(between("src/main.js", ""), "../");
    assert!(is_relative(&between("src/main.js", "")));
    assert!(is_relative(&between("main.js", "")));
}

#[test]
fn only_the_last_segment_has_an_extension() {
    let resolved = resolve("src/main.js", "../v1.2/core").expect("resolves");
    assert_eq!(resolved, "v1.2/core");
    let rewritten = rewrite("src/deep/main.js", "../v1.2/core", &resolved);
    assert_eq!(rewritten, "../../v1.2/core");
    assert_eq!(resolve("src/deep/main.js", &rewritten), Some(resolved));
    assert_eq!(
        rewrite("src/deep/main.js", "../v1.2/core", "v1.2/core.js"),
        "../../v1.2/core"
    );
}

#[test]
fn the_specifier_climbs_no_further_than_it_has_to() {
    assert_eq!(between("a/b/c/main.js", "a/b/x.js"), "../x.js");
    assert_eq!(resolve("a/b/c/main.js", "../../b/x.js"), Some("a/b/x.js".to_owned()));
}

#[test]
fn an_extension_the_author_left_out_stays_out_whatever_the_target() {
    assert_eq!(rewrite("src/deep/main.js", "./core", "src/util.js"), "../util");
    assert_eq!(rewrite("src/deep/main.js", "./core", "src/util"), "../util");
    assert_eq!(rewrite("src/deep/main.js", "./core.js", "src/util.ts"), "../util.ts");
}

#[test]
fn a_directory_reached_by_climbing_keeps_its_dots() {
    let resolved = resolve("v1.2/src/main.js", "..").expect("resolves");
    assert_eq!(resolved, "v1.2");
    let rewritten = rewrite("v1.2/src/deep/main.js", "..", &resolved);
    assert_eq!(resolve("v1.2/src/deep/main.js", &rewritten), Some(resolved));
}
