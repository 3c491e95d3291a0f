use pallas::chars::{Alnum, IdentStart, White};
use pallas::combinator::{
    AnyN, AnyUntil, AnyWhere, AnyWhile, CharCount, Exact, HeadSatisfies, MinChars,
    MinMaxRepetition, MinRepetition, Optional, Or, Parser, Repetition,
};

#[test]
fn exact_consumes_its_literal() {
    let p = Exact("abc".to_string());
    let (rest, ()) = p.invoke("abcdef").unwrap();
    assert_eq!(rest, "def");
}

#[test]
fn exact_full_input_leaves_nothing() {
    let p = Exact("abc".to_string());
    let (rest, ()) = p.invoke("abc").unwrap();
    assert_eq!(rest, "");
}

#[test]
fn exact_is_case_sensitive() {
    let p = Exact("abc".to_string());
    assert!(p.invoke("Abcdef").is_none());
}

#[test]
fn exact_fails_on_short_input() {
    let p = Exact("abc".to_string());
    assert!(p.invoke("ab").is_none());
}

#[test]
fn any_n_consumes_exactly_n() {
    let p = AnyN(3);
    let (rest, v) = p.invoke("abcde").unwrap();
    assert_eq!(v, "abc");
    assert_eq!(rest, "de");
}

#[test]
fn any_n_fails_when_too_few_remain() {
    let p = AnyN(3);
    assert!(p.invoke("ab").is_none());
}

#[test]
fn any_n_zero_consumes_nothing() {
    let p = AnyN(0);
    let (rest, v) = p.invoke("ab").unwrap();
    assert_eq!(v, "");
    assert_eq!(rest, "ab");
}

#[test]
fn anywhere_takes_longest_satisfying_prefix() {
    let p = AnyWhere(Alnum);
    let (rest, v) = p.invoke("ab1 cd").unwrap();
    assert_eq!(v, "ab1");
    assert_eq!(rest, " cd");
}

#[test]
fn anywhere_never_fails_even_with_zero_consumed() {
    let p = AnyWhere(White);
    let (rest, v) = p.invoke("xy").unwrap();
    assert_eq!(v, "");
    assert_eq!(rest, "xy");
}

#[test]
fn anywhere_can_consume_everything() {
    let p = AnyWhere(IdentStart);
    let (rest, v) = p.invoke("ab_cd").unwrap();
    assert_eq!(v, "ab_cd");
    assert_eq!(rest, "");
}

#[test]
fn anywhile_head_behaves_like_anywhere() {
    let a = AnyWhile(HeadSatisfies(Alnum));
    let b = AnyWhere(Alnum);
    let (rest_a, v_a) = a.invoke("ab1 cd").unwrap();
    let (rest_b, v_b) = b.invoke("ab1 cd").unwrap();
    assert_eq!(rest_a, rest_b);
    assert_eq!(v_a, v_b);
}

#[test]
fn anywhile_zero_consumed_still_succeeds() {
    let p = AnyWhile(HeadSatisfies(White));
    let (rest, v) = p.invoke("abc").unwrap();
    assert_eq!(v, "");
    assert_eq!(rest, "abc");
}

#[test]
fn min_chars_turns_zero_or_more_into_one_or_more() {
    let p = MinChars(AnyWhere(White), 1);
    assert!(p.invoke("abc").is_none());
    let (rest, v) = p.invoke("  abc").unwrap();
    assert_eq!(v, "  ");
    assert_eq!(rest, "abc");
}

#[test]
fn min_chars_fails_below_minimum() {
    let p = MinChars(AnyN(2), 3);
    assert!(p.invoke("abcd").is_none());
}

#[test]
fn optional_wraps_success() {
    let p = Optional(Exact("ab".to_string()));
    let (rest, v) = p.invoke("abc").unwrap();
    assert_eq!(v, Some(()));
    assert_eq!(rest, "c");
}

#[test]
fn optional_absorbs_failure_with_zero_consumption() {
    let p = Optional(Exact("ab".to_string()));
    let (rest, v) = p.invoke("xyz").unwrap();
    assert_eq!(v, None);
    assert_eq!(rest, "xyz");
}

#[test]
fn any_until_returns_skipped_prefix_and_terminator_value() {
    let p = AnyUntil(Exact("}".to_string()));
    let (rest, (skipped, ())) = p.invoke("abc}def").unwrap();
    assert_eq!(skipped, "abc");
    assert_eq!(rest, "def");
}

#[test]
fn any_until_tries_the_very_first_boundary() {
    let p = AnyUntil(Exact("}".to_string()));
    let (rest, (skipped, ())) = p.invoke("}def").unwrap();
    assert_eq!(skipped, "");
    assert_eq!(rest, "def");
}

#[test]
fn any_until_never_matching_terminator_fails_whole_input() {
    let p = AnyUntil(Exact("}".to_string()));
    assert!(p.invoke("abcdef").is_none());
    assert!(p.invoke("").is_none());
}

#[test]
fn repetition_collects_in_order_until_failure() {
    let p = Repetition(AnyN(2));
    let (rest, vs) = p.invoke("abcde").unwrap();
    assert_eq!(vs, vec!["ab".to_string(), "cd".to_string()]);
    assert_eq!(rest, "e");
}

#[test]
fn repetition_of_nothing_matching_is_empty() {
    let p = Repetition(Exact("ab".to_string()));
    let (rest, vs) = p.invoke("xyz").unwrap();
    assert!(vs.is_empty());
    assert_eq!(rest, "xyz");
}

#[test]
fn repetition_rerun_on_remainder_adds_nothing() {
    let p = Repetition(AnyN(2));
    let (rest, vs) = p.invoke("abcde").unwrap();
    let (rest2, vs2) = p.invoke(rest).unwrap();
    assert!(vs2.is_empty());
    assert_eq!(rest2, rest);
    let mut together = vs.clone();
    together.extend(vs2);
    assert_eq!(together, vs);
}

#[test]
fn min_repetition_enforces_its_minimum() {
    let p = MinRepetition(Exact("ab".to_string()), 2);
    assert!(p.invoke("abxy").is_none());
    let (rest, vs) = p.invoke("ababxy").unwrap();
    assert_eq!(vs.len(), 2);
    assert_eq!(rest, "xy");
}

#[test]
fn min_max_repetition_enforces_both_bounds() {
    let p = MinMaxRepetition(Exact("a".to_string()), (Some(2), Some(3)));
    assert!(p.invoke("abb").is_none());
    assert!(p.invoke("aaaab").is_none());
    let (rest, vs) = p.invoke("aaab").unwrap();
    assert_eq!(vs.len(), 3);
    assert_eq!(rest, "b");
}

#[test]
fn min_max_repetition_unbounded_sides() {
    let p = MinMaxRepetition(Exact("a".to_string()), (None, None));
    let (rest, vs) = p.invoke("b").unwrap();
    assert!(vs.is_empty());
    assert_eq!(rest, "b");
}

#[test]
fn or_is_left_biased() {
    let p = Or(AnyN(1), AnyN(2));
    let (rest, v) = p.invoke("abc").unwrap();
    assert_eq!(v, "a");
    assert_eq!(rest, "bc");
}

#[test]
fn or_falls_through_to_the_right() {
    let p = Or(Exact("xy".to_string()), Exact("ab".to_string()));
    let (rest, ()) = p.invoke("abc").unwrap();
    assert_eq!(rest, "c");
    assert!(p.invoke("zzz").is_none());
}

#[test]
fn mapped_transforms_the_success_value() {
    let p = AnyWhere(Alnum).map(CharCount);
    let (rest, n) = p.invoke("ab1 cd").unwrap();
    assert_eq!(n, 3);
    assert_eq!(rest, " cd");
}

#[test]
fn mapped_is_a_no_op_on_failure() {
    let p = AnyN(5).map(CharCount);
    assert!(p.invoke("abc").is_none());
}

#[test]
fn sequencing_runs_children_in_order() {
    let p = (Exact("ab".to_string()), AnyN(2));
    let (rest, ((), v)) = p.invoke("abcde").unwrap();
    assert_eq!(v, "cd");
    assert_eq!(rest, "e");
}

#[test]
fn sequencing_fails_wholly_at_any_child() {
    let p = (Exact("ab".to_string()), Exact("cd".to_string()));
    assert!(p.invoke("abxy").is_none());
    assert!(p.invoke("xycd").is_none());
    let t = (AnyN(1), AnyN(1), AnyN(3));
    assert!(t.invoke("abcd").is_none());
    let (rest, (x, y, z)) = t.invoke("abcde").unwrap();
    assert_eq!((x.as_str(), y.as_str(), z.as_str()), ("a", "b", "cde"));
    assert_eq!(rest, "");
}

#[test]
fn exact_counts_characters_not_bytes() {
    let p = Exact("αβ".to_string());
    let (rest, ()) = p.invoke("αβγ").unwrap();
    assert_eq!(rest, "γ");
    assert!(p.invoke("αx").is_none());
}

#[test]
fn sequencing_longer_bundles() {
    let five = (AnyN(1), AnyN(1), AnyN(1), AnyN(1), AnyN(1));
    let (rest, (a, b, c, d, e)) = five.invoke("abcdef").unwrap();
    assert_eq!(
        format!("{a}{b}{c}{d}{e}"),
        "abcde".to_string()
    );
    assert_eq!(rest, "f");
    assert!(five.invoke("abcd").is_none());

    let eight = (
        AnyN(1),
        AnyN(1),
        AnyN(1),
        AnyN(1),
        AnyN(1),
        AnyN(1),
        AnyN(1),
        Exact("h".to_string()),
    );
    let (rest, vs) = eight.invoke("abcdefgh!").unwrap();
    assert_eq!(vs.6, "g");
    assert_eq!(rest, "!");
    assert!(eight.invoke("abcdefgx").is_none());
}

#[test]
fn sequencing_four_and_six() {
    let four = (AnyN(2), Exact(",".to_string()), AnyN(2), Exact(";".to_string()));
    let (rest, (a, (), b, ())) = four.invoke("ab,cd;e").unwrap();
    assert_eq!((a.as_str(), b.as_str()), ("ab", "cd"));
    assert_eq!(rest, "e");

    let six = (AnyN(1), AnyN(1), AnyN(1), AnyN(1), AnyN(1), AnyN(1));
    let (rest, vs) = six.invoke("abcdef").unwrap();
    assert_eq!(vs.5, "f");
    assert_eq!(rest, "");
}
