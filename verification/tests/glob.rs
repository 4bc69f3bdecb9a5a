use sentrux::glob::glob_match;

#[test]
fn glob_star_matches_direct_children() {
    assert!(glob_match("src/ui/*", "src/ui/panel.rs"));
    assert!(!glob_match("src/ui/*", "src/ui/sub/deep.rs"));
    assert!(!glob_match("src/ui/*", "src/app.rs"));
}

#[test]
fn glob_doublestar_matches_any_depth() {
    assert!(glob_match("src/ui/**", "src/ui/panel.rs"));
    assert!(glob_match("src/ui/**", "src/ui/sub/deep.rs"));
    assert!(!glob_match("src/ui/**", "src/app.rs"));
}

#[test]
fn glob_exact_match() {
    assert!(glob_match("src/app.rs", "src/app.rs"));
    assert!(!glob_match("src/app.rs", "src/main.rs"));
}

#[test]
fn glob_prefix_match() {
    assert!(glob_match("src/ui", "src/ui/panel.rs"));
    assert!(!glob_match("src/ui", "src/utils/helper.rs"));
}

#[test]
fn glob_extension_match() {
    assert!(glob_match("*.rs", "src/app.rs"));
    assert!(glob_match("*.rs", "deep/nested/file.rs"));
    assert!(!glob_match("*.rs", "src/app.ts"));
}

#[test]
fn glob_has_no_middle_wildcard_support() {
    // A wildcard works as a trailing segment only: patterns are matched verbatim against paths
    // that are relative to the scanned root, so a crate prefix has to be spelled out.
    assert!(!glob_match("*/src/renderer/*", "sentrux-core/src/renderer/x.rs"));
    assert!(!glob_match("src/renderer/*", "sentrux-core/src/renderer/x.rs"));
    assert!(glob_match("sentrux-core/src/renderer/*", "sentrux-core/src/renderer/x.rs"));
}

#[test]
fn every_path_matches_itself() {
    for path in ["", "a", "src/app.rs", "src/ui/*", "src/**", "*.rs", "*", "**"] {
        assert!(glob_match(path, path));
    }
}

#[test]
fn what_is_directly_in_a_directory_is_below_it() {
    for path in ["src/a", "src/ui/b", "a", "src", "src/", "/a", ""] {
        for dir in ["src", "src/ui", "", "a"] {
            if glob_match(&format!("{}/*", dir), path) {
                assert!(glob_match(&format!("{}/**", dir), path));
                assert!(glob_match(dir, path));
            }
        }
    }
    assert!(glob_match("src/*", "src/"));
    assert!(!glob_match("src/*", "src"));
    assert!(!glob_match("src/**", "src"));
}

#[test]
fn patterns_match_from_the_start_of_a_path() {
    assert!(!glob_match("ui", "src/ui"));
    assert!(!glob_match("ui/**", "src/ui/a"));
    assert!(!glob_match("*/ui", "src/ui"));
    assert!(!glob_match("src/ui", "src/uix"));
    assert!(glob_match("*.tar.gz", "a/b.tar.gz"));
    assert!(!glob_match("a*.rs", "ab.rs"));
}
