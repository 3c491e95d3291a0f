//! The definition-language grammar: identifiers, sigil-prefixed internal
//! values with re-parsed payloads, expressions, `define` statements, and
//! whole files.
//!
//! Each rule has a specification-level parse function over `Seq<char>`; the
//! executable rules are recursive-descent functions built from the
//! combinators and verified against those functions.

use vstd::prelude::*;

use crate::chars::{char_alphabetic, Alnum, White};
use crate::combinator::{
    lemma_pred_count_bounds, lemma_skip_skip, lemma_take_concat, pred_count, seq_starts_with,
    until_from, AnyUntil, AnyWhere, Exact, Parser,
};

verus! {

/// A parsed identifier: one leading alphabetic-or-underscore character, then
/// zero or more alphanumeric characters.
#[derive(Debug, PartialEq, Eq)]
pub struct Identifier(pub String);

/// A sigil-prefixed name: `$` immediately followed by an identifier.
#[derive(Debug, PartialEq, Eq)]
pub struct InternalName(pub Identifier);

/// An internal value: a sigil-prefixed name and a brace-delimited payload,
/// captured verbatim, together with the payload re-parsed as an expression
/// when that re-parse succeeds and consumes the payload completely.
#[derive(Debug, PartialEq, Eq)]
pub struct InternalValue {
    pub name: InternalName,
    pub value: (String, Option<Box<Expr>>),
}

/// An expression: an internal value, else a bare identifier used as a
/// variable reference.
#[derive(Debug, PartialEq, Eq)]
pub enum Expr {
    InternalValue(InternalValue),
    Variable(Identifier),
}

/// A top-level `define` statement binding a name to an expression.
#[derive(Debug, PartialEq, Eq)]
pub struct Definition {
    pub name: Identifier,
    pub value: Expr,
}

/// A parsed source file: the definitions in source order, whitespace-only
/// spans discarded.
#[derive(Debug, PartialEq, Eq)]
pub struct File(pub Vec<Definition>);

/// The model of an internal value: its name, the verbatim payload, and the
/// re-parsed payload when it parses completely.
pub struct SpecInternalValue {
    pub name: Seq<char>,
    pub raw: Seq<char>,
    pub sub: Option<Box<SpecExpr>>,
}

/// The model of an expression.
pub enum SpecExpr {
    InternalValue(SpecInternalValue),
    Variable(Seq<char>),
}

/// The model of a definition.
pub struct SpecDefinition {
    pub name: Seq<char>,
    pub value: SpecExpr,
}

/// The parsed internal value is exactly what the model describes.
pub open spec fn internal_value_matches(v: InternalValue, m: SpecInternalValue) -> bool
    decreases m,
{
    &&& v.name.0.0@ == m.name
    &&& v.value.0@ == m.raw
    &&& match (v.value.1, m.sub) {
        (None, None) => true,
        (Some(b), Some(bm)) => expr_matches(*b, *bm),
        _ => false,
    }
}

/// The parsed expression is exactly what the model describes.
pub open spec fn expr_matches(e: Expr, m: SpecExpr) -> bool
    decreases m,
{
    match (e, m) {
        (Expr::InternalValue(v), SpecExpr::InternalValue(mv)) => internal_value_matches(v, mv),
        (Expr::Variable(i), SpecExpr::Variable(s)) => i.0@ == s,
        _ => false,
    }
}

/// The parsed definition is exactly what the model describes.
pub open spec fn definition_matches(d: Definition, m: SpecDefinition) -> bool {
    d.name.0@ == m.name && expr_matches(d.value, m.value)
}

pub open spec fn definitions_match(ds: Seq<Definition>, ms: Seq<SpecDefinition>) -> bool {
    ds.len() == ms.len() && forall|i: int|
        0 <= i < ms.len() ==> definition_matches(#[trigger] ds[i], ms[i])
}

/// The length of the whitespace prefix of `s`.
pub open spec fn spec_ws(s: Seq<char>) -> nat {
    pred_count(White, s)
}

/// Consumes zero or more whitespace characters; never fails.
pub fn whitespace0<'a>(input: &'a str) -> (rest: &'a str)
    ensures
        rest@ == input@.skip(spec_ws(input@) as int),
{
    match (AnyWhere(White)).invoke(input) {
        Some((rest, _)) => rest,
        None => {
            proof {
                assert(false);
            }
            input
        },
    }
}

/// Consumes one or more whitespace characters; fails when the input does not
/// start with whitespace.
pub fn whitespace1<'a>(input: &'a str) -> (r: Option<&'a str>)
    ensures
        r matches Some(rest) ==> spec_ws(input@) >= 1 && rest@ == input@.skip(
            spec_ws(input@) as int,
        ),
        r is None ==> spec_ws(input@) == 0,
{
    let rest = whitespace0(input);
    proof {
        lemma_pred_count_bounds(White, input@);
    }
    if rest.unicode_len() < input.unicode_len() {
        Some(rest)
    } else {
        None
    }
}

/// The identifier rule: exactly one leading alphabetic-or-underscore
/// character, then the longest alphanumeric run after it; consumes both and
/// yields their concatenation. An underscore after the first position stops
/// the identifier, since `_` is not alphanumeric.
pub open spec fn spec_identifier(s: Seq<char>) -> Option<(int, Seq<char>)> {
    if s.len() >= 1 && (char_alphabetic(s[0]) || s[0] == '_') {
        let k = pred_count(Alnum, s.skip(1)) as int;
        Some((1 + k, s.take(1 + k)))
    } else {
        None
    }
}

pub proof fn lemma_spec_identifier_bounds(s: Seq<char>)
    ensures
        spec_identifier(s) matches Some((n, m)) ==> 1 <= n <= s.len() && m == s.take(n),
{
    if s.len() >= 1 {
        lemma_pred_count_bounds(Alnum, s.skip(1));
    }
}

/// Parses an identifier: one leading alphabetic-or-underscore character,
/// then zero or more alphanumeric characters.
pub fn identity<'a>(input: &'a str) -> (r: Option<(&'a str, Identifier)>)
    ensures
        r matches Some((rest, v)) ==> {
            &&& spec_identifier(input@) matches Some((n, m))
            &&& v.0@ == m
            &&& rest@ == input@.skip(n)
        },
        r is None ==> spec_identifier(input@) is None,
{
    let len = input.unicode_len();
    if len == 0 {
        return None;
    }
    let c = input.get_char(0);
    if !(c.is_alphabetic() || c == '_') {
        return None;
    }
    let tail_region = input.substring_char(1, len);
    proof {
        assert(tail_region@ =~= input@.skip(1));
    }
    match (AnyWhere(Alnum)).invoke(tail_region) {
        Some((rest, tail)) => {
            let ghost k = pred_count(Alnum, input@.skip(1)) as int;
            proof {
                lemma_pred_count_bounds(Alnum, input@.skip(1));
                lemma_skip_skip(input@, 1, k);
                lemma_take_concat(input@, 1, k);
            }
            let head = input.substring_char(0, 1).to_owned();
            let joined = head.concat(tail.as_str());
            Some((rest, Identifier(joined)))
        },
        None => {
            proof {
                assert(false);
            }
            None
        },
    }
}

/// The internal-name rule: the `$` sigil immediately followed by an
/// identifier, no intervening whitespace.
pub open spec fn spec_internal_name(s: Seq<char>) -> Option<(int, Seq<char>)> {
    if s.len() >= 1 && s[0] == '$' {
        match spec_identifier(s.skip(1)) {
            Some((n, m)) => Some((1 + n, m)),
            None => None,
        }
    } else {
        None
    }
}

pub proof fn lemma_spec_internal_name_bounds(s: Seq<char>)
    ensures
        spec_internal_name(s) matches Some((n, _)) ==> 2 <= n <= s.len(),
{
    if s.len() >= 1 && s[0] == '$' {
        lemma_spec_identifier_bounds(s.skip(1));
    }
}

/// Parses an internal name: `$` immediately followed by an identifier.
pub fn internal_name<'a>(input: &'a str) -> (r: Option<(&'a str, InternalName)>)
    ensures
        r matches Some((rest, v)) ==> {
            &&& spec_internal_name(input@) matches Some((n, m))
            &&& v.0.0@ == m
            &&& rest@ == input@.skip(n)
        },
        r is None ==> spec_internal_name(input@) is None,
{
    let sigil = Exact("$".to_owned());
    proof {
        reveal_strlit("$");
        assert(sigil.0@ =~= seq!['$']);
        if input@.len() >= 1 && input@[0] == '$' {
            assert(input@.take(1) =~= seq!['$']);
        }
        if seq_starts_with(input@, sigil.0@) {
            assert(input@[0] == input@.take(1)[0]);
        }
    }
    match sigil.invoke(input) {
        Some((rest1, _)) => {
            match identity(rest1) {
                Some((rest2, id)) => {
                    proof {
                        lemma_spec_identifier_bounds(rest1@);
                        let n = spec_identifier(rest1@)->Some_0.0;
                        lemma_skip_skip(input@, 1, n);
                    }
                    Some((rest2, InternalName(id)))
                },
                None => None,
            }
        },
        None => None,
    }
}

/// The first position at or after `k` holding a closing brace; brace
/// matching is not nesting-aware.
pub open spec fn spec_find_close(s: Seq<char>, k: int) -> Option<int>
    decreases s.len() - k,
{
    if k < 0 || k >= s.len() {
        None
    } else if s[k] == '}' {
        Some(k)
    } else {
        spec_find_close(s, k + 1)
    }
}

pub proof fn lemma_spec_find_close_bounds(s: Seq<char>, k: int)
    requires
        0 <= k,
    ensures
        spec_find_close(s, k) matches Some(j) ==> k <= j < s.len() && s[j] == '}',
    decreases s.len() - k,
{
    if 0 <= k < s.len() && s[k] != '}' {
        lemma_spec_find_close_bounds(s, k + 1);
    }
}

/// Scanning for a single-character `}` terminator is finding the first
/// closing brace: relates [`AnyUntil`] over `Exact` to [`spec_find_close`].
proof fn lemma_until_close(e: &Exact, s: Seq<char>, k: int)
    requires
        e.0@ == seq!['}'],
        0 <= k <= s.len(),
    ensures
        until_from(e, s, k) == match spec_find_close(s, k) {
            Some(j) => Some((j + 1, (s.take(j), ()))),
            None => None::<(int, (Seq<char>, ()))>,
        },
    decreases s.len() - k,
{
    if k < s.len() {
        assert(s.skip(k).len() == s.len() - k);
        if s[k] == '}' {
            assert(s.skip(k).take(1) =~= seq!['}']);
            assert(seq_starts_with(s.skip(k), e.0@));
        } else {
            if seq_starts_with(s.skip(k), e.0@) {
                assert(s.skip(k).take(1)[0] == s[k]);
                assert(false);
            }
            lemma_until_close(e, s, k + 1);
        }
    }
}

/// The internal-value rule: an internal name, optional whitespace, an
/// opening brace, then everything up to (not including) the first closing
/// brace, captured verbatim. The captured payload is additionally re-parsed
/// as an expression; the sub-expression is attached only when that re-parse
/// succeeds and consumes the payload exactly.
pub open spec fn spec_internal_value(s: Seq<char>) -> Option<(int, SpecInternalValue)>
    decreases s.len(), 0int,
{
    match spec_internal_name(s) {
        None => None,
        Some((n0, name)) => {
            if !(0 <= n0 && n0 <= s.len()) {
                None
            } else {
                let w = spec_ws(s.skip(n0)) as int;
                let p = n0 + w;
                if !(p < s.len() && s[p] == '{') {
                    None
                } else {
                    let rem = s.skip(p + 1);
                    match spec_find_close(rem, 0) {
                        None => None,
                        Some(k) => {
                            if !(0 <= k && k < rem.len()) {
                                None
                            } else {
                                let raw = rem.take(k);
                                let sub = match spec_expr(raw) {
                                    Some((n2, e)) => if n2 == raw.len() {
                                        Some(Box::new(e))
                                    } else {
                                        None
                                    },
                                    None => None,
                                };
                                Some(
                                    (
                                        p + 1 + k + 1,
                                        SpecInternalValue { name: name, raw: raw, sub: sub },
                                    ),
                                )
                            }
                        },
                    }
                }
            }
        },
    }
}

/// The expression rule: an internal value, else a bare identifier as a
/// variable reference, tried in that order.
pub open spec fn spec_expr(s: Seq<char>) -> Option<(int, SpecExpr)>
    decreases s.len(), 1int,
{
    match spec_internal_value(s) {
        Some((n, v)) => Some((n, SpecExpr::InternalValue(v))),
        None => match spec_identifier(s) {
            Some((n, m)) => Some((n, SpecExpr::Variable(m))),
            None => None,
        },
    }
}

pub proof fn lemma_spec_internal_value_bounds(s: Seq<char>)
    ensures
        spec_internal_value(s) matches Some((n, _)) ==> 4 <= n <= s.len(),
{
    lemma_spec_internal_name_bounds(s);
    match spec_internal_name(s) {
        Some((n0, name)) => {
            if 0 <= n0 <= s.len() {
                let w = spec_ws(s.skip(n0)) as int;
                let p = n0 + w;
                if p < s.len() && s[p] == '{' {
                    lemma_spec_find_close_bounds(s.skip(p + 1), 0);
                }
            }
        },
        None => {},
    }
}

pub proof fn lemma_spec_expr_bounds(s: Seq<char>)
    ensures
        spec_expr(s) matches Some((n, _)) ==> 1 <= n <= s.len(),
{
    lemma_spec_internal_value_bounds(s);
    lemma_spec_identifier_bounds(s);
}

/// Parses an internal value: `$name`, optional whitespace, and a
/// brace-delimited payload, re-parsed as a sub-expression when it parses
/// completely.
pub fn internal_value<'a>(input: &'a str) -> (r: Option<(&'a str, InternalValue)>)
    ensures
        r matches Some((rest, v)) ==> {
            &&& spec_internal_value(input@) matches Some((n, m))
            &&& internal_value_matches(v, m)
            &&& rest@ == input@.skip(n)
        },
        r is None ==> spec_internal_value(input@) is None,
    decreases input@.len(), 0int,
{
    let (rest1, iname) = match internal_name(input) {
        Some(x) => x,
        None => {
            return None;
        },
    };
    proof {
        lemma_spec_internal_name_bounds(input@);
    }
    let ghost n0 = spec_internal_name(input@)->Some_0.0;
    let rest2 = whitespace0(rest1);
    let ghost w = spec_ws(rest1@) as int;
    proof {
        lemma_pred_count_bounds(White, rest1@);
        lemma_skip_skip(input@, n0, w);
    }
    let ghost p = n0 + w;
    let brace = Exact("{".to_owned());
    proof {
        reveal_strlit("{");
        assert(brace.0@ =~= seq!['{']);
        if rest2@.len() >= 1 && rest2@[0] == '{' {
            assert(rest2@.take(1) =~= seq!['{']);
        }
        if seq_starts_with(rest2@, brace.0@) {
            assert(rest2@[0] == rest2@.take(1)[0]);
        }
        assert(rest2@.len() >= 1 ==> rest2@[0] == input@[p]);
    }
    let rest3 = match brace.invoke(rest2) {
        Some((r3, _)) => r3,
        None => {
            return None;
        },
    };
    proof {
        lemma_skip_skip(input@, p, 1);
    }
    let term = Exact("}".to_owned());
    proof {
        reveal_strlit("}");
        assert(term.0@ =~= seq!['}']);
        lemma_until_close(&term, rest3@, 0);
        lemma_spec_find_close_bounds(rest3@, 0);
    }
    match (AnyUntil(term)).invoke(rest3) {
        None => None,
        Some((res, (data, _))) => {
            let ghost k = spec_find_close(rest3@, 0)->Some_0;
            proof {
                lemma_skip_skip(input@, p + 1, k + 1);
            }
            let sub: Option<Box<Expr>> = match expr(data.as_str()) {
                Some((r2, e)) => {
                    if r2.is_empty() {
                        Some(Box::new(e))
                    } else {
                        None
                    }
                },
                None => None,
            };
            proof {
                lemma_spec_expr_bounds(data@);
            }
            Some((res, InternalValue { name: iname, value: (data, sub) }))
        },
    }
}

/// Parses an expression: an internal value, else a bare identifier as a
/// variable reference.
pub fn expr<'a>(input: &'a str) -> (r: Option<(&'a str, Expr)>)
    ensures
        r matches Some((rest, v)) ==> {
            &&& spec_expr(input@) matches Some((n, m))
            &&& expr_matches(v, m)
            &&& rest@ == input@.skip(n)
        },
        r is None ==> spec_expr(input@) is None,
    decreases input@.len(), 1int,
{
    match internal_value(input) {
        Some((rest, v)) => Some((rest, Expr::InternalValue(v))),
        None => match identity(input) {
            Some((rest, id)) => Some((rest, Expr::Variable(id))),
            None => None,
        },
    }
}

/// The sub-expression attached to an internal value is exactly the complete
/// re-parse of its raw payload: present precisely when the payload parses as
/// an expression with nothing left over, and then structurally equal to that
/// parse.
pub proof fn lemma_internal_value_subexpr(s: Seq<char>)
    ensures
        spec_internal_value(s) matches Some((n, m)) ==> m.sub == (match spec_expr(m.raw) {
            Some((n2, e)) => if n2 == m.raw.len() {
                Some(Box::new(e))
            } else {
                None::<Box<SpecExpr>>
            },
            None => None::<Box<SpecExpr>>,
        }),
{
}

/// The `define` keyword.
pub open spec fn kw_define() -> Seq<char> {
    seq!['d', 'e', 'f', 'i', 'n', 'e']
}

/// The definition rule: the keyword `define`, mandatory whitespace, an
/// identifier (the bound name), optional whitespace, an expression (the
/// bound value), and a terminating `;`.
pub open spec fn spec_definition(s: Seq<char>) -> Option<(int, SpecDefinition)> {
    if !seq_starts_with(s, kw_define()) {
        None
    } else {
        let t1 = s.skip(6);
        let w1 = spec_ws(t1) as int;
        if w1 < 1 {
            None
        } else {
            let t2 = t1.skip(w1);
            match spec_identifier(t2) {
                None => None,
                Some((n1, nm)) => {
                    if !(0 <= n1 && n1 <= t2.len()) {
                        None
                    } else {
                        let t3 = t2.skip(n1);
                        let w2 = spec_ws(t3) as int;
                        if !(w2 <= t3.len()) {
                            None
                        } else {
                            let t4 = t3.skip(w2);
                            match spec_expr(t4) {
                                None => None,
                                Some((n2, e)) => {
                                    if !(0 <= n2 && n2 <= t4.len()) {
                                        None
                                    } else {
                                        let t5 = t4.skip(n2);
                                        if t5.len() >= 1 && t5[0] == ';' {
                                            Some(
                                                (
                                                    6 + w1 + n1 + w2 + n2 + 1,
                                                    SpecDefinition { name: nm, value: e },
                                                ),
                                            )
                                        } else {
                                            None
                                        }
                                    }
                                },
                            }
                        }
                    }
                },
            }
        }
    }
}

pub proof fn lemma_spec_definition_bounds(s: Seq<char>)
    ensures
        spec_definition(s) matches Some((n, _)) ==> 10 <= n <= s.len(),
{
    if seq_starts_with(s, kw_define()) {
        let t1 = s.skip(6);
        lemma_pred_count_bounds(White, t1);
        let w1 = spec_ws(t1) as int;
        if w1 >= 1 {
            let t2 = t1.skip(w1);
            lemma_spec_identifier_bounds(t2);
            match spec_identifier(t2) {
                None => {},
                Some((n1, nm)) => {
                    let t3 = t2.skip(n1);
                    lemma_pred_count_bounds(White, t3);
                    let w2 = spec_ws(t3) as int;
                    if w2 <= t3.len() {
                        let t4 = t3.skip(w2);
                        lemma_spec_expr_bounds(t4);
                    }
                },
            }
        }
    }
}

/// Parses a definition: `define`, whitespace, a name, optional whitespace,
/// an expression, and a closing `;`.
pub fn define<'a>(input: &'a str) -> (r: Option<(&'a str, Definition)>)
    ensures
        r matches Some((rest, v)) ==> {
            &&& spec_definition(input@) matches Some((n, m))
            &&& definition_matches(v, m)
            &&& rest@ == input@.skip(n)
        },
        r is None ==> spec_definition(input@) is None,
{
    let kw = Exact("define".to_owned());
    proof {
        reveal_strlit("define");
        assert(kw.0@ =~= kw_define());
    }
    let rest1 = match kw.invoke(input) {
        Some((r1, _)) => r1,
        None => {
            return None;
        },
    };
    let rest2 = match whitespace1(rest1) {
        Some(r2) => r2,
        None => {
            return None;
        },
    };
    let ghost w1 = spec_ws(rest1@) as int;
    proof {
        lemma_pred_count_bounds(White, rest1@);
        lemma_skip_skip(input@, 6, w1);
    }
    let (rest3, nm) = match identity(rest2) {
        Some(x) => x,
        None => {
            return None;
        },
    };
    let ghost n1 = spec_identifier(rest2@)->Some_0.0;
    proof {
        lemma_spec_identifier_bounds(rest2@);
        lemma_skip_skip(input@, 6 + w1, n1);
    }
    let rest4 = whitespace0(rest3);
    let ghost w2 = spec_ws(rest3@) as int;
    proof {
        lemma_pred_count_bounds(White, rest3@);
        lemma_skip_skip(input@, 6 + w1 + n1, w2);
    }
    let (rest5, e) = match expr(rest4) {
        Some(x) => x,
        None => {
            return None;
        },
    };
    let ghost n2 = spec_expr(rest4@)->Some_0.0;
    proof {
        lemma_spec_expr_bounds(rest4@);
        lemma_skip_skip(input@, 6 + w1 + n1 + w2, n2);
    }
    let semi = Exact(";".to_owned());
    proof {
        reveal_strlit(";");
        assert(semi.0@ =~= seq![';']);
        if rest5@.len() >= 1 && rest5@[0] == ';' {
            assert(rest5@.take(1) =~= seq![';']);
        }
        if seq_starts_with(rest5@, semi.0@) {
            assert(rest5@[0] == rest5@.take(1)[0]);
        }
    }
    match semi.invoke(rest5) {
        Some((res, _)) => {
            proof {
                lemma_skip_skip(input@, 6 + w1 + n1 + w2 + n2, 1);
            }
            Some((res, Definition { name: nm, value: e }))
        },
        None => None,
    }
}

/// The file rule: a repeated choice of a definition or a run of one-or-more
/// whitespace characters, continuing until neither matches. Whitespace-only
/// spans are discarded, definitions kept in source order; the rule never
/// fails, and any unparsable suffix is left unconsumed.
pub open spec fn spec_file(s: Seq<char>) -> (int, Seq<SpecDefinition>)
    decreases s.len(),
{
    match spec_definition(s) {
        Some((n, d)) => if 0 < n <= s.len() {
            let r = spec_file(s.skip(n));
            (n + r.0, seq![d] + r.1)
        } else {
            (0, seq![])
        },
        None => {
            let w = spec_ws(s) as int;
            if 0 < w <= s.len() {
                let r = spec_file(s.skip(w));
                (w + r.0, r.1)
            } else {
                (0, seq![])
            }
        },
    }
}

pub proof fn lemma_spec_file_bounds(s: Seq<char>)
    ensures
        0 <= spec_file(s).0 <= s.len(),
    decreases s.len(),
{
    match spec_definition(s) {
        Some((n, d)) => {
            if 0 < n <= s.len() {
                lemma_spec_file_bounds(s.skip(n));
            }
        },
        None => {
            let w = spec_ws(s) as int;
            if 0 < w <= s.len() {
                lemma_spec_file_bounds(s.skip(w));
            }
        },
    }
}

/// Parses a whole file: definitions and whitespace runs in any order, up to
/// the first position where neither matches. Never fails; the caller decides
/// whether a non-empty remainder matters.
pub fn file<'a>(input: &'a str) -> (r: (&'a str, File))
    ensures
        definitions_match(r.1.0@, spec_file(input@).1),
        r.0@ == input@.skip(spec_file(input@).0),
{
    let mut cur = input;
    let mut acc: Vec<Definition> = Vec::new();
    let ghost mut consumed: int = 0;
    let ghost mut ms: Seq<SpecDefinition> = Seq::empty();
    proof {
        assert(input@.skip(0) =~= input@);
        assert(ms + spec_file(input@).1 =~= spec_file(input@).1);
    }
    loop
        invariant
            0 <= consumed <= input@.len(),
            cur@ == input@.skip(consumed),
            spec_file(input@).0 == consumed + spec_file(cur@).0,
            spec_file(input@).1 == ms + spec_file(cur@).1,
            definitions_match(acc@, ms),
        ensures
            definitions_match(acc@, spec_file(input@).1),
            cur@ == input@.skip(spec_file(input@).0),
        decreases cur@.len(),
    {
        proof {
            lemma_spec_file_bounds(cur@);
        }
        match define(cur) {
            Some((rest, d)) => {
                proof {
                    lemma_spec_definition_bounds(cur@);
                    let n = spec_definition(cur@)->Some_0.0;
                    let dm = spec_definition(cur@)->Some_0.1;
                    lemma_skip_skip(input@, consumed, n);
                    assert(ms + (seq![dm] + spec_file(cur@.skip(n)).1) =~= ms.push(dm) + spec_file(
                        cur@.skip(n),
                    ).1);
                    consumed = consumed + n;
                    ms = ms.push(dm);
                }
                acc.push(d);
                cur = rest;
            },
            None => {
                match whitespace1(cur) {
                    Some(rest) => {
                        proof {
                            lemma_pred_count_bounds(White, cur@);
                            let w = spec_ws(cur@) as int;
                            lemma_skip_skip(input@, consumed, w);
                            consumed = consumed + w;
                        }
                        cur = rest;
                    },
                    None => {
                        proof {
                            assert(ms + spec_file(cur@).1 =~= ms);
                        }
                        break ;
                    },
                }
            },
        }
    }
    (cur, File(acc))
}

} // verus!
