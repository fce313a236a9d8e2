use zenoh_keyexpr::{keyexpr, KeyExprError, SetIntersectionLevel};

fn ke(s: &str) -> keyexpr {
    keyexpr::new(s).unwrap()
}

#[test]
fn intersection_level_cmp() {
    assert!(SetIntersectionLevel::Disjoint < SetIntersectionLevel::Intersects);
    assert!(SetIntersectionLevel::Intersects < SetIntersectionLevel::Includes);
    assert!(SetIntersectionLevel::Includes < SetIntersectionLevel::Equals);
}

#[test]
fn autocanon() {
    assert_eq!(keyexpr::autocanonize("hello/**/*").unwrap().as_str(), "hello/*/**");
}

#[test]
fn test_keyexpr_strip_prefix() {
    let expectations: [((&str, &str), &[&str]); 10] = [
        (("demo/example/test/**", "demo/example/test"), &["**"][..]),
        (("demo/example/**", "demo/example/test"), &["**"]),
        (("**", "demo/example/test"), &["**"]),
        (("demo/example/test/**/x$*/**", "demo/example/test"), &["**/x$*/**"]),
        (("demo/**/xyz", "demo/example/test"), &["**/xyz"]),
        (("demo/**/test/**", "demo/example/test"), &["**"]),
        (("demo/**/ex$*/*/xyz", "demo/example/test"), &["xyz", "**/ex$*/*/xyz"]),
        (("demo/**/ex$*/t$*/xyz", "demo/example/test"), &["xyz", "**/ex$*/t$*/xyz"]),
        (("demo/**/te$*/*/xyz", "demo/example/test"), &["*/xyz", "**/te$*/*/xyz"]),
        (("demo/example/test", "demo/example/test"), &[]),
    ];
    for ((a, b), expected) in expectations {
        let got: Vec<String> = ke(a).strip_prefix(&ke(b)).iter().map(|k| k.as_str()).collect();
        let want: Vec<String> = expected.iter().map(|s| s.to_string()).collect();
        assert_eq!(got, want);
    }
}

#[test]
fn strip_prefix_no_match_is_empty() {
    assert!(ke("demo/example/test/**").strip_prefix(&ke("not/a/prefix")).is_empty());
}

#[test]
fn canonization_is_idempotent() {
    for s in ["hello/**/*", "a/$*/b", "x/**/**/y", "**/**", "a/**/*/*/b", "already/canon/**"] {
        let once = keyexpr::autocanonize(s).unwrap().as_str();
        let twice = keyexpr::autocanonize(&once).unwrap().as_str();
        assert_eq!(once, twice);
    }
}

#[test]
fn canonization_normalizes_misordered_wildcards() {
    assert_eq!(keyexpr::autocanonize("hello/**/*").unwrap().as_str(), "hello/*/**");
    assert_eq!(keyexpr::autocanonize("a/**/**").unwrap().as_str(), "a/**");
    assert_eq!(keyexpr::autocanonize("a/$*/b").unwrap().as_str(), "a/*/b");
    assert_eq!(keyexpr::autocanonize("**/*/**").unwrap().as_str(), "*/**");
}

#[test]
fn validation_rejects_non_canonical_text() {
    for s in ["a//b", "/a", "a/", "a/$*", "a/**/**", "a/**/*", "a#b", "a?b"] {
        assert!(keyexpr::new(s).is_err(), "{} was accepted", s);
    }
}

#[test]
fn validation_reports_the_offending_construct() {
    assert_eq!(keyexpr::new("a//b").unwrap_err(), KeyExprError::EmptyChunk);
    assert_eq!(keyexpr::new("/a").unwrap_err(), KeyExprError::EmptyChunk);
    assert_eq!(keyexpr::new("a/").unwrap_err(), KeyExprError::EmptyChunk);
    assert_eq!(keyexpr::new("a/$*").unwrap_err(), KeyExprError::BareSubstringWildcard);
    assert_eq!(keyexpr::new("a/**/**").unwrap_err(), KeyExprError::RepeatedFullWildcard);
    assert_eq!(keyexpr::new("a/**/*").unwrap_err(), KeyExprError::MisorderedWildcards);
    assert_eq!(keyexpr::new("a/x**").unwrap_err(), KeyExprError::MalformedFullWildcard);
    assert_eq!(keyexpr::new("a#b").unwrap_err(), KeyExprError::ForbiddenCharacter);
    assert_eq!(keyexpr::new("a?b").unwrap_err(), KeyExprError::ForbiddenCharacter);
    assert_eq!(keyexpr::new("a$b").unwrap_err(), KeyExprError::ForbiddenCharacter);
    assert_eq!(keyexpr::new("a$*$*b").unwrap_err(), KeyExprError::ForbiddenCharacter);
}

#[test]
fn validation_accepts_canonical_text() {
    for s in ["a", "a/b/c", "*", "**", "*/**", "a/*/b", "ex$*", "a/ex$*ample/b", "demo/**/xyz"] {
        let k = keyexpr::new(s).unwrap();
        assert_eq!(k.as_str(), s);
    }
}

#[test]
fn string_equality_matches_set_equality() {
    let pairs = [("a/**", "a/**"), ("a/*/**", "a/*/**"), ("demo/example", "demo/example")];
    for (a, b) in pairs {
        assert_eq!(ke(a).relation_to(&ke(b)), SetIntersectionLevel::Equals);
    }
    let different = [("a/**", "a/*/**"), ("a/*", "*/a"), ("a", "b")];
    for (a, b) in different {
        assert_ne!(ke(a).relation_to(&ke(b)), SetIntersectionLevel::Equals);
    }
}

#[test]
fn relation_levels() {
    assert_eq!(ke("a/b").relation_to(&ke("c/d")), SetIntersectionLevel::Disjoint);
    assert_eq!(ke("a/*").relation_to(&ke("*/a")), SetIntersectionLevel::Intersects);
    assert_eq!(ke("a/*/**").relation_to(&ke("a/b/**")), SetIntersectionLevel::Includes);
    assert_eq!(ke("a/**").relation_to(&ke("a/**")), SetIntersectionLevel::Equals);
    for s in ["a", "a/*/b", "**", "a/**/b$*"] {
        assert_eq!(ke(s).relation_to(&ke(s)), SetIntersectionLevel::Equals);
    }
}

#[test]
fn intersection_is_symmetric() {
    let cases = [
        ("a/*", "*/a"),
        ("a/**", "b/**"),
        ("demo/**/xyz", "demo/example/test"),
        ("ex$*", "example"),
        ("**", "a/b/c"),
        ("a/*/b", "a/**"),
    ];
    for (a, b) in cases {
        assert_eq!(ke(a).intersects(&ke(b)), ke(b).intersects(&ke(a)), "{} vs {}", a, b);
    }
}

#[test]
fn intersection_examples() {
    assert!(ke("a/*").intersects(&ke("*/a")));
    assert!(!ke("a/**").intersects(&ke("b/**")));
    assert!(ke("demo/example/**").intersects(&ke("demo/example/test")));
    assert!(!ke("demo/**/xyz").intersects(&ke("demo/example/test")));
    assert!(ke("ex$*").intersects(&ke("example")));
    assert!(ke("ex$*/*/xyz").intersects(&ke("example/test/xyz")));
    assert!(ke("a$*").intersects(&ke("a$*b")));
    assert!(!ke("ex$*").intersects(&ke("axample")));
    assert!(ke("**").intersects(&ke("a")));
    assert!(ke("a/**").intersects(&ke("a")));
}

#[test]
fn inclusion_examples() {
    assert!(ke("a/*/**").includes(&ke("a/b/**")));
    assert!(ke("**").includes(&ke("a/b/c")));
    assert!(ke("a/**").includes(&ke("a")));
    assert!(!ke("a/b").includes(&ke("a/*")));
    assert!(ke("a/*").includes(&ke("a/b")));
    assert!(ke("ex$*").includes(&ke("example")));
    assert!(ke("ex$*").includes(&ke("exa$*ple")));
    assert!(!ke("exa$*ple").includes(&ke("ex$*")));
    assert!(!ke("a/*").includes(&ke("a/**")));
}

#[test]
fn inclusion_implies_intersection() {
    let cases = [("a/*/**", "a/b/**"), ("**", "x/y"), ("a/**", "a"), ("ex$*", "example")];
    for (a, b) in cases {
        assert!(ke(a).includes(&ke(b)));
        assert!(ke(a).intersects(&ke(b)));
    }
}

#[test]
fn nonwild_prefix_examples() {
    let some = |s: &keyexpr| s.get_nonwild_prefix().map(|p| p.as_str());
    assert_eq!(some(&ke("demo/example/**")), Some("demo/example".to_string()));
    assert_eq!(some(&ke("demo/**/test/**")), Some("demo".to_string()));
    assert_eq!(some(&ke("demo/example/test")), Some("demo/example/test".to_string()));
    assert_eq!(some(&ke("demo/ex$*/**")), Some("demo".to_string()));
    assert_eq!(some(&ke("**")), None);
    assert_eq!(some(&ke("dem$*")), None);
}

#[test]
fn join_inserts_separator_and_canonizes() {
    let workspace = ke("some/workspace");
    assert_eq!(workspace.join("some/topic").unwrap().as_str(), "some/workspace/some/topic");
    assert_eq!(ke("a/**").join("**").unwrap().as_str(), "a/**");
    assert_eq!(ke("a/**").join("*").unwrap().as_str(), "a/*/**");
    assert!(ke("a").join("b//c").is_err());
}

#[test]
fn substring_wildcard_at_end_of_text() {
    // end of text is a valid terminator for a `$*` unit
    assert_eq!(keyexpr::new("a$*").unwrap().as_str(), "a$*");
    assert_eq!(keyexpr::new("x/a$*").unwrap().as_str(), "x/a$*");
    // a `$` with no `*` after it is not
    assert_eq!(keyexpr::new("a$").unwrap_err(), KeyExprError::ForbiddenCharacter);
    assert_eq!(keyexpr::new("a$/b").unwrap_err(), KeyExprError::ForbiddenCharacter);
}

#[test]
fn is_wild_examples() {
    assert!(!ke("demo/example").is_wild());
    assert!(ke("demo/*").is_wild());
    assert!(ke("demo/**").is_wild());
    assert!(ke("dem$*").is_wild());
}

#[test]
fn strip_prefix_overlapping_matches() {
    // the prefix can match "a/**/c" or just "a/**", so both residuals remain
    let got: Vec<String> =
        ke("a/**/c/*").strip_prefix(&ke("a/b/c")).iter().map(|k| k.as_str()).collect();
    assert_eq!(got, vec!["*".to_string(), "**/c/*".to_string()]);
}
