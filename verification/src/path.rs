//! The module-import path grammar: wildcards, dotted paths, aliasing, and
//! brace-grouped multi-imports.
//!
//! A standalone entry point parallel to the definition grammar. In priority
//! order a path is a bare wildcard `*`; an aliasing form `p as n`; an
//! ordinary `::`-separated path (whose nested tail excludes the aliasing
//! form); or a brace-delimited, comma-separated, whitespace-tolerant group of
//! sub-paths.

use vstd::prelude::*;

use crate::chars::White;
use crate::combinator::{
    lemma_pred_count_bounds, lemma_skip_skip, seq_starts_with, Exact, Parser,
};
use crate::grammar::{
    identity, lemma_spec_identifier_bounds, spec_identifier, spec_ws, whitespace0, whitespace1,
};

verus! {

broadcast use vstd::seq::group_seq_axioms;

/// A path segment or alias name; the same rule as the grammar's identifier.
#[derive(Debug, PartialEq, Eq)]
pub struct Name(pub String);

/// A module-import path expression.
#[derive(Debug, PartialEq, Eq)]
pub enum Path {
    /// A bare wildcard import.
    WildCard,
    /// An ordinary path renamed with `as`.
    PathAs(Box<Path>, Name),
    /// A brace-grouped list of sub-paths.
    MultiPath(Vec<Path>),
    /// A name, optionally followed by `::` and a nested path.
    Ordinary(Name, Option<Box<Path>>),
}

/// The model of a path expression.
pub enum SpecPath {
    WildCard,
    PathAs(Box<SpecPath>, Seq<char>),
    MultiPath(Seq<SpecPath>),
    Ordinary(Seq<char>, Option<Box<SpecPath>>),
}

/// The parsed path is exactly what the model describes.
pub open spec fn path_matches(p: Path, m: SpecPath) -> bool
    decreases m,
{
    match (p, m) {
        (Path::WildCard, SpecPath::WildCard) => true,
        (Path::PathAs(b, n), SpecPath::PathAs(bm, nm)) => n.0@ == nm && path_matches(*b, *bm),
        (Path::MultiPath(v), SpecPath::MultiPath(l)) => paths_match(v@, l),
        (Path::Ordinary(n, o), SpecPath::Ordinary(nm, om)) => n.0@ == nm && match (o, om) {
            (None, None) => true,
            (Some(b), Some(bm)) => path_matches(*b, *bm),
            _ => false,
        },
        _ => false,
    }
}

pub open spec fn paths_match(ps: Seq<Path>, ms: Seq<SpecPath>) -> bool
    decreases ms,
{
    ps.len() == ms.len() && forall|i: int|
        0 <= i < ms.len() ==> path_matches(#[trigger] ps[i], ms[i])
}

proof fn lemma_paths_match_push(ps: Seq<Path>, ms: Seq<SpecPath>, p: Path, m: SpecPath)
    requires
        paths_match(ps, ms),
        path_matches(p, m),
    ensures
        paths_match(ps.push(p), ms.push(m)),
{
    assert forall|i: int| 0 <= i < ms.push(m).len() implies path_matches(
        #[trigger] ps.push(p)[i],
        ms.push(m)[i],
    ) by {
        if i < ms.len() {
            assert(ps.push(p)[i] == ps[i]);
        }
    }
}

/// The single-path rule: a name, optionally `::` and another single path;
/// the nested levels admit neither grouping nor aliasing.
pub open spec fn spec_single_path(s: Seq<char>) -> Option<(int, SpecPath)>
    decreases s.len(), 0int,
{
    match spec_identifier(s) {
        None => None,
        Some((n, nm)) => {
            if 0 <= n && n + 2 <= s.len() && s[n] == ':' && s[n + 1] == ':' {
                match spec_single_path(s.skip(n + 2)) {
                    Some((n2, p2)) => Some(
                        (n + 2 + n2, SpecPath::Ordinary(nm, Some(Box::new(p2)))),
                    ),
                    None => Some((n, SpecPath::Ordinary(nm, None))),
                }
            } else {
                Some((n, SpecPath::Ordinary(nm, None)))
            }
        },
    }
}

/// The ordinary-path rule: a name, optionally `::` and a nested path, where
/// the nested path may also be a group or a wildcard but not an alias.
pub open spec fn spec_path_ordinary(s: Seq<char>) -> Option<(int, SpecPath)>
    decreases s.len(), 1int,
{
    match spec_identifier(s) {
        None => None,
        Some((n, nm)) => {
            if 0 <= n && n + 2 <= s.len() && s[n] == ':' && s[n + 1] == ':' {
                match spec_path_not_as(s.skip(n + 2)) {
                    Some((n2, p2)) => Some(
                        (n + 2 + n2, SpecPath::Ordinary(nm, Some(Box::new(p2)))),
                    ),
                    None => Some((n, SpecPath::Ordinary(nm, None))),
                }
            } else {
                Some((n, SpecPath::Ordinary(nm, None)))
            }
        },
    }
}

/// The remaining items of a group: a repetition of comma-separated paths,
/// each comma wrapped in optional whitespace. Stops, consuming nothing of
/// the failed attempt, when no further separator-and-path matches.
pub open spec fn spec_multi_rest(s: Seq<char>) -> (int, Seq<SpecPath>)
    decreases s.len(), 0int,
{
    let w = spec_ws(s) as int;
    if !(w + 1 <= s.len() && s[w] == ',') {
        (0, seq![])
    } else {
        let t = s.skip(w + 1);
        let w2 = spec_ws(t) as int;
        if !(w2 <= t.len()) {
            (0, seq![])
        } else {
            let u = t.skip(w2);
            match spec_path(u) {
                None => (0, seq![]),
                Some((n, p)) => {
                    if !(0 <= n && n <= u.len()) {
                        (0, seq![])
                    } else {
                        let r = spec_multi_rest(u.skip(n));
                        (w + 1 + w2 + n + r.0, seq![p] + r.1)
                    }
                },
            }
        }
    }
}

/// The multi-path rule: a brace-delimited, comma-separated,
/// whitespace-tolerant group of one or more sub-paths.
pub open spec fn spec_multi_path(s: Seq<char>) -> Option<(int, SpecPath)>
    decreases s.len(), 2int,
{
    if !(s.len() >= 1 && s[0] == '{') {
        None
    } else {
        let w = spec_ws(s.skip(1)) as int;
        if !(1 + w <= s.len()) {
            None
        } else {
            let t = s.skip(1 + w);
            match spec_path(t) {
                None => None,
                Some((n1, p1)) => {
                    if !(0 <= n1 && n1 <= t.len()) {
                        None
                    } else {
                        let u = t.skip(n1);
                        let r = spec_multi_rest(u);
                        if !(0 <= r.0 && r.0 <= u.len()) {
                            None
                        } else {
                            let v = u.skip(r.0);
                            let w2 = spec_ws(v) as int;
                            if w2 + 1 <= v.len() && v[w2] == '}' {
                                Some(
                                    (
                                        1 + w + n1 + r.0 + w2 + 1,
                                        SpecPath::MultiPath(seq![p1] + r.1),
                                    ),
                                )
                            } else {
                                None
                            }
                        }
                    }
                },
            }
        }
    }
}

/// The non-aliasing alternatives, in priority order: an ordinary path, a
/// group, or a bare wildcard.
pub open spec fn spec_path_not_as(s: Seq<char>) -> Option<(int, SpecPath)>
    decreases s.len(), 3int,
{
    match spec_path_ordinary(s) {
        Some(r) => Some(r),
        None => match spec_multi_path(s) {
            Some(r) => Some(r),
            None => if s.len() >= 1 && s[0] == '*' {
                Some((1, SpecPath::WildCard))
            } else {
                None
            },
        },
    }
}

/// The aliasing rule: a single path, mandatory whitespace, the keyword `as`,
/// mandatory whitespace, and the new name.
pub open spec fn spec_path_as(s: Seq<char>) -> Option<(int, SpecPath)>
    decreases s.len(), 2int,
{
    match spec_single_path(s) {
        None => None,
        Some((n1, p1)) => {
            if !(0 <= n1 && n1 <= s.len()) {
                None
            } else {
                let t = s.skip(n1);
                let w1 = spec_ws(t) as int;
                if !(1 <= w1 && w1 <= t.len()) {
                    None
                } else {
                    let u = t.skip(w1);
                    if !(u.len() >= 2 && u[0] == 'a' && u[1] == 's') {
                        None
                    } else {
                        let v = u.skip(2);
                        let w2 = spec_ws(v) as int;
                        if !(1 <= w2 && w2 <= v.len()) {
                            None
                        } else {
                            match spec_identifier(v.skip(w2)) {
                                None => None,
                                Some((n3, nm)) => Some(
                                    (
                                        n1 + w1 + 2 + w2 + n3,
                                        SpecPath::PathAs(Box::new(p1), nm),
                                    ),
                                ),
                            }
                        }
                    }
                }
            }
        },
    }
}

/// The path entry rule, in priority order: a bare wildcard, an aliasing
/// form, an ordinary path, or a group.
pub open spec fn spec_path(s: Seq<char>) -> Option<(int, SpecPath)>
    decreases s.len(), 4int,
{
    if s.len() >= 1 && s[0] == '*' {
        Some((1, SpecPath::WildCard))
    } else {
        match spec_path_as(s) {
            Some(r) => Some(r),
            None => match spec_path_ordinary(s) {
                Some(r) => Some(r),
                None => spec_multi_path(s),
            },
        }
    }
}

pub proof fn lemma_spec_single_path_bounds(s: Seq<char>)
    ensures
        spec_single_path(s) matches Some((n, _)) ==> 1 <= n <= s.len(),
    decreases s.len(), 0int,
{
    lemma_spec_identifier_bounds(s);
    match spec_identifier(s) {
        None => {},
        Some((n, nm)) => {
            if 0 <= n && n + 2 <= s.len() && s[n] == ':' && s[n + 1] == ':' {
                lemma_spec_single_path_bounds(s.skip(n + 2));
            }
        },
    }
}

pub proof fn lemma_spec_path_ordinary_bounds(s: Seq<char>)
    ensures
        spec_path_ordinary(s) matches Some((n, _)) ==> 1 <= n <= s.len(),
    decreases s.len(), 1int,
{
    lemma_spec_identifier_bounds(s);
    match spec_identifier(s) {
        None => {},
        Some((n, nm)) => {
            if 0 <= n && n + 2 <= s.len() && s[n] == ':' && s[n + 1] == ':' {
                lemma_spec_path_not_as_bounds(s.skip(n + 2));
            }
        },
    }
}

pub proof fn lemma_spec_multi_rest_bounds(s: Seq<char>)
    ensures
        0 <= spec_multi_rest(s).0 <= s.len(),
    decreases s.len(), 0int,
{
    lemma_pred_count_bounds(White, s);
    let w = spec_ws(s) as int;
    if w + 1 <= s.len() && s[w] == ',' {
        let t = s.skip(w + 1);
        lemma_pred_count_bounds(White, t);
        let w2 = spec_ws(t) as int;
        if w2 <= t.len() {
            let u = t.skip(w2);
            lemma_spec_path_bounds(u);
            match spec_path(u) {
                None => {},
                Some((n, p)) => {
                    if 0 <= n && n <= u.len() {
                        lemma_spec_multi_rest_bounds(u.skip(n));
                    }
                },
            }
        }
    }
}

pub proof fn lemma_spec_multi_path_bounds(s: Seq<char>)
    ensures
        spec_multi_path(s) matches Some((n, _)) ==> 1 <= n <= s.len(),
    decreases s.len(), 2int,
{
    if s.len() >= 1 && s[0] == '{' {
        lemma_pred_count_bounds(White, s.skip(1));
        let w = spec_ws(s.skip(1)) as int;
        if 1 + w <= s.len() {
            let t = s.skip(1 + w);
            lemma_spec_path_bounds(t);
            match spec_path(t) {
                None => {},
                Some((n1, p1)) => {
                    if 0 <= n1 && n1 <= t.len() {
                        let u = t.skip(n1);
                        lemma_spec_multi_rest_bounds(u);
                        let r = spec_multi_rest(u);
                        if 0 <= r.0 && r.0 <= u.len() {
                            lemma_pred_count_bounds(White, u.skip(r.0));
                        }
                    }
                },
            }
        }
    }
}

pub proof fn lemma_spec_path_as_bounds(s: Seq<char>)
    ensures
        spec_path_as(s) matches Some((n, _)) ==> 1 <= n <= s.len(),
    decreases s.len(), 2int,
{
    lemma_spec_single_path_bounds(s);
    match spec_single_path(s) {
        None => {},
        Some((n1, p1)) => {
            if 0 <= n1 && n1 <= s.len() {
                let t = s.skip(n1);
                lemma_pred_count_bounds(White, t);
                let w1 = spec_ws(t) as int;
                if 1 <= w1 && w1 <= t.len() {
                    let u = t.skip(w1);
                    if u.len() >= 2 && u[0] == 'a' && u[1] == 's' {
                        let v = u.skip(2);
                        lemma_pred_count_bounds(White, v);
                        let w2 = spec_ws(v) as int;
                        if 1 <= w2 && w2 <= v.len() {
                            lemma_spec_identifier_bounds(v.skip(w2));
                        }
                    }
                }
            }
        },
    }
}

pub proof fn lemma_spec_path_not_as_bounds(s: Seq<char>)
    ensures
        spec_path_not_as(s) matches Some((n, _)) ==> 1 <= n <= s.len(),
    decreases s.len(), 3int,
{
    lemma_spec_path_ordinary_bounds(s);
    lemma_spec_multi_path_bounds(s);
}

pub proof fn lemma_spec_path_bounds(s: Seq<char>)
    ensures
        spec_path(s) matches Some((n, _)) ==> 1 <= n <= s.len(),
    decreases s.len(), 4int,
{
    if !(s.len() >= 1 && s[0] == '*') {
        lemma_spec_path_as_bounds(s);
        lemma_spec_path_ordinary_bounds(s);
        lemma_spec_multi_path_bounds(s);
    }
}

proof fn lemma_starts_with_one(s: Seq<char>, c: char)
    ensures
        seq_starts_with(s, seq![c]) <==> (s.len() >= 1 && s[0] == c),
{
    if s.len() >= 1 && s[0] == c {
        assert(s.take(1) =~= seq![c]);
    }
    if seq_starts_with(s, seq![c]) {
        assert(s[0] == s.take(1)[0]);
    }
}

proof fn lemma_starts_with_two(s: Seq<char>, c0: char, c1: char)
    ensures
        seq_starts_with(s, seq![c0, c1]) <==> (s.len() >= 2 && s[0] == c0 && s[1] == c1),
{
    if s.len() >= 2 && s[0] == c0 && s[1] == c1 {
        assert(s.take(2) =~= seq![c0, c1]);
    }
    if seq_starts_with(s, seq![c0, c1]) {
        assert(s[0] == s.take(2)[0]);
        assert(s[1] == s.take(2)[1]);
    }
}

/// Parses a path segment or alias name; the identifier rule under the path
/// grammar's own value type.
pub fn name<'a>(input: &'a str) -> (r: Option<(&'a str, Name)>)
    ensures
        r matches Some((rest, v)) ==> {
            &&& spec_identifier(input@) matches Some((n, m))
            &&& v.0@ == m
            &&& rest@ == input@.skip(n)
        },
        r is None ==> spec_identifier(input@) is None,
{
    match identity(input) {
        Some((rest, id)) => Some((rest, Name(id.0))),
        None => None,
    }
}

fn single_path_ordinary<'a>(input: &'a str) -> (r: Option<(&'a str, Path)>)
    ensures
        r matches Some((rest, v)) ==> {
            &&& spec_single_path(input@) matches Some((n, m))
            &&& path_matches(v, m)
            &&& rest@ == input@.skip(n)
        },
        r is None ==> spec_single_path(input@) is None,
    decreases input@.len(), 0int,
{
    let (rest1, nm) = match name(input) {
        Some(x) => x,
        None => {
            return None;
        },
    };
    let ghost n = spec_identifier(input@)->Some_0.0;
    proof {
        lemma_spec_identifier_bounds(input@);
    }
    let dc = Exact("::".to_owned());
    proof {
        reveal_strlit("::");
        assert(dc.0@ =~= seq![':', ':']);
        lemma_starts_with_two(rest1@, ':', ':');
    }
    match dc.invoke(rest1) {
        Some((rest2, _)) => {
            proof {
                lemma_skip_skip(input@, n, 2);
            }
            match single_path_ordinary(rest2) {
                Some((rest3, p2)) => {
                    proof {
                        lemma_spec_single_path_bounds(rest2@);
                        let n2 = spec_single_path(rest2@)->Some_0.0;
                        lemma_skip_skip(input@, n + 2, n2);
                    }
                    Some((rest3, Path::Ordinary(nm, Some(Box::new(p2)))))
                },
                None => Some((rest1, Path::Ordinary(nm, None))),
            }
        },
        None => Some((rest1, Path::Ordinary(nm, None))),
    }
}

fn path_ordinary<'a>(input: &'a str) -> (r: Option<(&'a str, Path)>)
    ensures
        r matches Some((rest, v)) ==> {
            &&& spec_path_ordinary(input@) matches Some((n, m))
            &&& path_matches(v, m)
            &&& rest@ == input@.skip(n)
        },
        r is None ==> spec_path_ordinary(input@) is None,
    decreases input@.len(), 1int,
{
    let (rest1, nm) = match name(input) {
        Some(x) => x,
        None => {
            return None;
        },
    };
    let ghost n = spec_identifier(input@)->Some_0.0;
    proof {
        lemma_spec_identifier_bounds(input@);
    }
    let dc = Exact("::".to_owned());
    proof {
        reveal_strlit("::");
        assert(dc.0@ =~= seq![':', ':']);
        lemma_starts_with_two(rest1@, ':', ':');
    }
    match dc.invoke(rest1) {
        Some((rest2, _)) => {
            proof {
                lemma_skip_skip(input@, n, 2);
            }
            match path_not_as(rest2) {
                Some((rest3, p2)) => {
                    proof {
                        lemma_spec_path_not_as_bounds(rest2@);
                        let n2 = spec_path_not_as(rest2@)->Some_0.0;
                        lemma_skip_skip(input@, n + 2, n2);
                    }
                    Some((rest3, Path::Ordinary(nm, Some(Box::new(p2)))))
                },
                None => Some((rest1, Path::Ordinary(nm, None))),
            }
        },
        None => Some((rest1, Path::Ordinary(nm, None))),
    }
}

fn multi_path<'a>(input: &'a str) -> (r: Option<(&'a str, Path)>)
    ensures
        r matches Some((rest, v)) ==> {
            &&& spec_multi_path(input@) matches Some((n, m))
            &&& path_matches(v, m)
            &&& rest@ == input@.skip(n)
        },
        r is None ==> spec_multi_path(input@) is None,
    decreases input@.len(), 2int,
{
    let lb = Exact("{".to_owned());
    proof {
        reveal_strlit("{");
        assert(lb.0@ =~= seq!['{']);
        lemma_starts_with_one(input@, '{');
    }
    let rest1 = match lb.invoke(input) {
        Some((r1, _)) => r1,
        None => {
            return None;
        },
    };
    let rest2 = whitespace0(rest1);
    let ghost w = spec_ws(rest1@) as int;
    proof {
        lemma_pred_count_bounds(White, rest1@);
        lemma_skip_skip(input@, 1, w);
    }
    let (rest3, p1) = match path(rest2) {
        Some(x) => x,
        None => {
            return None;
        },
    };
    let ghost t = input@.skip(1 + w);
    let ghost n1 = spec_path(t)->Some_0.0;
    let ghost p1m = spec_path(t)->Some_0.1;
    proof {
        lemma_spec_path_bounds(t);
    }
    let ghost u0 = t.skip(n1);
    let mut items: Vec<Path> = Vec::new();
    items.push(p1);
    let mut cur = rest3;
    let ghost mut c: int = 0;
    let ghost mut msr: Seq<SpecPath> = Seq::empty();
    proof {
        assert(u0.skip(0) =~= u0);
        assert(msr + spec_multi_rest(u0).1 =~= spec_multi_rest(u0).1);
        assert(paths_match(items@, seq![p1m] + msr)) by {
            assert((seq![p1m] + msr).len() == 1);
            assert(items@[0] == p1);
            assert((seq![p1m] + msr)[0] == p1m);
        }
        assert(u0.len() < input@.len());
    }
    loop
        invariant
            0 <= c <= u0.len(),
            u0.len() < input@.len(),
            cur@ == u0.skip(c),
            spec_multi_rest(u0).0 == c + spec_multi_rest(cur@).0,
            spec_multi_rest(u0).1 == msr + spec_multi_rest(cur@).1,
            paths_match(items@, seq![p1m] + msr),
        ensures
            cur@ == u0.skip(spec_multi_rest(u0).0),
            paths_match(items@, seq![p1m] + spec_multi_rest(u0).1),
        decreases cur@.len(),
    {
        proof {
            lemma_spec_multi_rest_bounds(cur@);
        }
        let ghost wc = spec_ws(cur@) as int;
        proof {
            lemma_pred_count_bounds(White, cur@);
        }
        let after_ws = whitespace0(cur);
        let comma = Exact(",".to_owned());
        proof {
            reveal_strlit(",");
            assert(comma.0@ =~= seq![',']);
            lemma_starts_with_one(after_ws@, ',');
        }
        match comma.invoke(after_ws) {
            None => {
                proof {
                    assert(msr + spec_multi_rest(cur@).1 =~= msr);
                }
                break ;
            },
            Some((after_comma, _)) => {
                proof {
                    lemma_skip_skip(cur@, wc, 1);
                }
                let ghost w2 = spec_ws(after_comma@) as int;
                proof {
                    lemma_pred_count_bounds(White, after_comma@);
                }
                let after_ws2 = whitespace0(after_comma);
                proof {
                    lemma_skip_skip(cur@, wc + 1, w2);
                }
                match path(after_ws2) {
                    None => {
                        proof {
                            assert(msr + spec_multi_rest(cur@).1 =~= msr);
                        }
                        break ;
                    },
                    Some((after_path, p)) => {
                        let ghost uu = cur@.skip(wc + 1 + w2);
                        let ghost n = spec_path(uu)->Some_0.0;
                        let ghost pm = spec_path(uu)->Some_0.1;
                        proof {
                            lemma_spec_path_bounds(uu);
                            let step = wc + 1 + w2 + n;
                            lemma_skip_skip(cur@, wc + 1 + w2, n);
                            lemma_spec_multi_rest_bounds(cur@.skip(step));
                            lemma_skip_skip(u0, c, step);
                            assert(msr + (seq![pm] + spec_multi_rest(cur@.skip(step)).1)
                                =~= msr.push(pm) + spec_multi_rest(cur@.skip(step)).1);
                            lemma_paths_match_push(items@, seq![p1m] + msr, p, pm);
                            assert(seq![p1m] + msr.push(pm) =~= (seq![p1m] + msr).push(pm));
                            c = c + step;
                            msr = msr.push(pm);
                        }
                        items.push(p);
                        cur = after_path;
                    },
                }
            },
        }
    }
    let ghost r0 = spec_multi_rest(u0).0;
    proof {
        lemma_spec_multi_rest_bounds(u0);
    }
    let ghost w2f = spec_ws(cur@) as int;
    proof {
        lemma_pred_count_bounds(White, cur@);
    }
    let after_ws_final = whitespace0(cur);
    let rb = Exact("}".to_owned());
    proof {
        reveal_strlit("}");
        assert(rb.0@ =~= seq!['}']);
        lemma_starts_with_one(after_ws_final@, '}');
    }
    match rb.invoke(after_ws_final) {
        Some((res, _)) => {
            proof {
                lemma_skip_skip(cur@, w2f, 1);
                lemma_skip_skip(input@, 1 + w, n1);
                lemma_skip_skip(input@, 1 + w + n1, r0);
                lemma_skip_skip(input@, 1 + w + n1 + r0, w2f + 1);
                assert(spec_multi_path(input@) matches Some((n, m)) && m == SpecPath::MultiPath(
                    seq![p1m] + spec_multi_rest(u0).1,
                ) && n == 1 + w + n1 + r0 + w2f + 1);
            }
            Some((res, Path::MultiPath(items)))
        },
        None => None,
    }
}

fn path_not_as<'a>(input: &'a str) -> (r: Option<(&'a str, Path)>)
    ensures
        r matches Some((rest, v)) ==> {
            &&& spec_path_not_as(input@) matches Some((n, m))
            &&& path_matches(v, m)
            &&& rest@ == input@.skip(n)
        },
        r is None ==> spec_path_not_as(input@) is None,
    decreases input@.len(), 3int,
{
    match path_ordinary(input) {
        Some(x) => Some(x),
        None => match multi_path(input) {
            Some(x) => Some(x),
            None => {
                let star = Exact("*".to_owned());
                proof {
                    reveal_strlit("*");
                    assert(star.0@ =~= seq!['*']);
                    lemma_starts_with_one(input@, '*');
                }
                match star.invoke(input) {
                    Some((rest, _)) => Some((rest, Path::WildCard)),
                    None => None,
                }
            },
        },
    }
}

fn path_as<'a>(input: &'a str) -> (r: Option<(&'a str, Path)>)
    ensures
        r matches Some((rest, v)) ==> {
            &&& spec_path_as(input@) matches Some((n, m))
            &&& path_matches(v, m)
            &&& rest@ == input@.skip(n)
        },
        r is None ==> spec_path_as(input@) is None,
    decreases input@.len(), 2int,
{
    let (rest1, p1) = match single_path_ordinary(input) {
        Some(x) => x,
        None => {
            return None;
        },
    };
    let ghost n1 = spec_single_path(input@)->Some_0.0;
    proof {
        lemma_spec_single_path_bounds(input@);
    }
    let rest2 = match whitespace1(rest1) {
        Some(r2) => r2,
        None => {
            return None;
        },
    };
    let ghost w1 = spec_ws(rest1@) as int;
    proof {
        lemma_pred_count_bounds(White, rest1@);
        lemma_skip_skip(input@, n1, w1);
    }
    let kw = Exact("as".to_owned());
    proof {
        reveal_strlit("as");
        assert(kw.0@ =~= seq!['a', 's']);
        lemma_starts_with_two(rest2@, 'a', 's');
    }
    let rest3 = match kw.invoke(rest2) {
        Some((r3, _)) => r3,
        None => {
            return None;
        },
    };
    proof {
        lemma_skip_skip(input@, n1 + w1, 2);
    }
    let rest4 = match whitespace1(rest3) {
        Some(r4) => r4,
        None => {
            return None;
        },
    };
    let ghost w2 = spec_ws(rest3@) as int;
    proof {
        lemma_pred_count_bounds(White, rest3@);
        lemma_skip_skip(input@, n1 + w1 + 2, w2);
    }
    match name(rest4) {
        Some((rest5, nm)) => {
            proof {
                lemma_spec_identifier_bounds(rest4@);
                let n3 = spec_identifier(rest4@)->Some_0.0;
                lemma_skip_skip(input@, n1 + w1 + 2 + w2, n3);
            }
            Some((rest5, Path::PathAs(Box::new(p1), nm)))
        },
        None => None,
    }
}

/// Parses a module-import path: a bare wildcard, an aliasing form, an
/// ordinary dotted path, or a brace-grouped multi-import, tried in that
/// order.
pub fn path<'a>(input: &'a str) -> (r: Option<(&'a str, Path)>)
    ensures
        r matches Some((rest, v)) ==> {
            &&& spec_path(input@) matches Some((n, m))
            &&& path_matches(v, m)
            &&& rest@ == input@.skip(n)
        },
        r is None ==> spec_path(input@) is None,
    decreases input@.len(), 4int,
{
    let star = Exact("*".to_owned());
    proof {
        reveal_strlit("*");
        assert(star.0@ =~= seq!['*']);
        lemma_starts_with_one(input@, '*');
    }
    match star.invoke(input) {
        Some((rest, _)) => Some((rest, Path::WildCard)),
        None => match path_as(input) {
            Some(x) => Some(x),
            None => match path_ordinary(input) {
                Some(x) => Some(x),
                None => multi_path(input),
            },
        },
    }
}

} // verus!
