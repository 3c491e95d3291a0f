use pallas::path::{name, path, Name, Path};

fn ordinary(n: &str, nested: Option<Path>) -> Path {
    Path::Ordinary(Name(n.to_string()), nested.map(Box::new))
}

#[test]
fn name_is_the_identifier_rule() {
    let (rest, n) = name("abc1 rest").unwrap();
    assert_eq!(n, Name("abc1".to_string()));
    assert_eq!(rest, " rest");
    assert!(name("1abc").is_none());
}

#[test]
fn bare_wildcard() {
    let (rest, p) = path("*").unwrap();
    assert_eq!(rest, "");
    assert_eq!(p, Path::WildCard);
}

#[test]
fn single_name_path() {
    let (rest, p) = path("a").unwrap();
    assert_eq!(rest, "");
    assert_eq!(p, ordinary("a", None));
}

#[test]
fn dotted_path_nests_to_the_right() {
    let (rest, p) = path("a::b::c").unwrap();
    assert_eq!(rest, "");
    assert_eq!(
        p,
        ordinary("a", Some(ordinary("b", Some(ordinary("c", None)))))
    );
}

#[test]
fn dangling_separator_is_left_unconsumed() {
    let (rest, p) = path("a::").unwrap();
    assert_eq!(rest, "::");
    assert_eq!(p, ordinary("a", None));
}

#[test]
fn wildcard_tail() {
    let (rest, p) = path("a::*").unwrap();
    assert_eq!(rest, "");
    assert_eq!(p, ordinary("a", Some(Path::WildCard)));
}

#[test]
fn alias_form() {
    let (rest, p) = path("a::b as c").unwrap();
    assert_eq!(rest, "");
    assert_eq!(
        p,
        Path::PathAs(
            Box::new(ordinary("a", Some(ordinary("b", None)))),
            Name("c".to_string()),
        )
    );
}

#[test]
fn alias_needs_whitespace_around_the_keyword() {
    let (rest, p) = path("a asb").unwrap();
    assert_eq!(p, ordinary("a", None));
    assert_eq!(rest, " asb");
}

#[test]
fn grouped_multi_path() {
    let (rest, p) = path("{a, b::c}").unwrap();
    assert_eq!(rest, "");
    assert_eq!(
        p,
        Path::MultiPath(vec![
            ordinary("a", None),
            ordinary("b", Some(ordinary("c", None))),
        ])
    );
}

#[test]
fn group_tolerates_whitespace() {
    let (rest, p) = path("{ a , b }").unwrap();
    assert_eq!(rest, "");
    assert_eq!(
        p,
        Path::MultiPath(vec![ordinary("a", None), ordinary("b", None)])
    );
}

#[test]
fn group_may_hold_wildcards_and_groups() {
    let (rest, p) = path("{a, *, {b}}").unwrap();
    assert_eq!(rest, "");
    assert_eq!(
        p,
        Path::MultiPath(vec![
            ordinary("a", None),
            Path::WildCard,
            Path::MultiPath(vec![ordinary("b", None)]),
        ])
    );
}

#[test]
fn empty_group_is_rejected() {
    assert!(path("{}").is_none());
    assert!(path("").is_none());
    assert!(path("::a").is_none());
}

#[test]
fn group_requires_its_closing_brace() {
    assert!(path("{a, b").is_none());
}

#[test]
fn path_name_stops_at_an_interior_underscore() {
    let (rest, p) = path("a_b").unwrap();
    assert_eq!(p, ordinary("a", None));
    assert_eq!(rest, "_b");
}
