//! Backtracking parser combinators over immutable text.
//!
//! A parser consumes a prefix of its input and yields the suffix together
//! with a typed value, or fails with no information and no observable
//! progress. Each combinator carries a specification-level parse function
//! over `Seq<char>`; the executable `invoke` is verified against it.

use vstd::prelude::*;

verus! {

/// True when `prefix` is an initial segment of `input`.
pub open spec fn seq_starts_with(input: Seq<char>, prefix: Seq<char>) -> bool {
    prefix.len() <= input.len() && input.take(prefix.len() as int) == prefix
}

/// The one-operation interface every combinator implements.
///
/// `spec_parse` is the mathematical meaning of the parser: `None` for
/// failure, or the count of consumed characters paired with the model of the
/// parsed value. `invoke` runs the parser on a borrowed text region and must
/// agree with `spec_parse` exactly; on success the returned remainder is the
/// suffix of the input past the consumed prefix, so consumption is monotonic
/// and a failure leaks no partial progress.
pub trait Parser: Sized {
    type Out: DeepView;

    /// What the parser does, as a function of the input alone.
    spec fn spec_parse(&self, input: Seq<char>) -> Option<(int, <Self::Out as DeepView>::V)>;

    /// A successful parse never consumes more than the input holds.
    proof fn lemma_consumed_bounds(&self, input: Seq<char>)
        ensures
            self.spec_parse(input) matches Some((n, _)) ==> 0 <= n <= input.len(),
    ;

    /// Attempt the parser against a region of text.
    fn invoke<'a>(&self, input: &'a str) -> (r: Option<(&'a str, Self::Out)>)
        ensures
            r matches Some((rest, v)) ==> {
                &&& self.spec_parse(input@) matches Some((n, m))
                &&& v.deep_view() == m
                &&& rest@ == input@.skip(n)
            },
            r is None ==> self.spec_parse(input@) is None,
    ;

    /// Wraps the parser so that its success value is transformed by `f`.
    fn map<F: MapFn<In = Self::Out>>(self, f: F) -> (r: Mapped<Self, F>)
        ensures
            r == (Mapped { inner: self, f: f }),
    {
        Mapped { inner: self, f }
    }
}

/// Consumes exactly the given string.
///
/// Succeeds if and only if the input starts with the string (exact,
/// case-sensitive), consuming precisely its length.
pub struct Exact(pub String);

impl Parser for Exact {
    type Out = ();

    open spec fn spec_parse(&self, input: Seq<char>) -> Option<(int, ())> {
        if seq_starts_with(input, self.0@) {
            Some((self.0@.len() as int, ()))
        } else {
            None
        }
    }

    proof fn lemma_consumed_bounds(&self, input: Seq<char>) {
    }

    fn invoke<'a>(&self, input: &'a str) -> (r: Option<(&'a str, ())>) {
        let n = self.0.as_str().unicode_len();
        let len = input.unicode_len();
        if n > len {
            return None;
        }
        let mut i: usize = 0;
        while i < n
            invariant
                0 <= i <= n,
                n == self.0@.len(),
                n <= len == input@.len(),
                forall|j: int| 0 <= j < i ==> input@[j] == self.0@[j],
            decreases n - i,
        {
            if input.get_char(i) != self.0.as_str().get_char(i) {
                proof {
                    assert(input@.take(n as int)[i as int] != self.0@[i as int]);
                }
                return None;
            }
            i = i + 1;
        }
        proof {
            assert(input@.take(n as int) =~= self.0@);
        }
        Some((input.substring_char(n, len), ()))
    }
}

/// A character predicate with a specification-level meaning.
///
/// `holds` is what the predicate accepts; `test` is its executable decision,
/// proved to agree with `holds` by every implementation.
pub trait CharPred: Sized {
    spec fn holds(&self, c: char) -> bool;

    fn test(&self, c: char) -> (r: bool)
        ensures
            r == self.holds(c),
    ;
}

/// The length of the longest prefix of `s` all of whose characters satisfy
/// `p`.
pub open spec fn pred_count<F: CharPred>(p: F, s: Seq<char>) -> nat
    decreases s.len(),
{
    if s.len() == 0 {
        0
    } else if p.holds(s[0]) {
        1 + pred_count(p, s.skip(1))
    } else {
        0
    }
}

/// Every character before `pred_count` satisfies the predicate, and the
/// character right after it (when one remains) does not.
pub proof fn lemma_pred_count_bounds<F: CharPred>(p: F, s: Seq<char>)
    ensures
        pred_count(p, s) <= s.len(),
        forall|j: int| 0 <= j < pred_count(p, s) ==> p.holds(s[j]),
        pred_count(p, s) < s.len() ==> !p.holds(s[pred_count(p, s) as int]),
    decreases s.len(),
{
    if s.len() != 0 && p.holds(s[0]) {
        lemma_pred_count_bounds(p, s.skip(1));
        assert forall|j: int| 0 <= j < pred_count(p, s) implies p.holds(s[j]) by {
            if j > 0 {
                assert(s.skip(1)[j - 1] == s[j]);
            }
        }
        if pred_count(p, s) < s.len() {
            assert(s.skip(1)[pred_count(p, s) - 1] == s[pred_count(p, s) as int]);
        }
    }
}

/// A boundary that accepts everything before it and rejects what follows is
/// exactly `pred_count`.
pub proof fn lemma_pred_count_is<F: CharPred>(p: F, s: Seq<char>, k: int)
    requires
        0 <= k <= s.len(),
        forall|j: int| 0 <= j < k ==> p.holds(s[j]),
        k < s.len() ==> !p.holds(s[k]),
    ensures
        pred_count(p, s) == k,
    decreases s.len(),
{
    if k == 0 {
    } else {
        assert forall|j: int| 0 <= j < k - 1 implies p.holds(s.skip(1)[j]) by {
            assert(s.skip(1)[j] == s[j + 1]);
        }
        if k - 1 < s.skip(1).len() {
            assert(s.skip(1)[k - 1] == s[k]);
        }
        lemma_pred_count_is(p, s.skip(1), k - 1);
    }
}

/// Consumes exactly `count` characters.
///
/// Succeeds if and only if at least `count` characters remain, returning the
/// consumed prefix.
pub struct AnyN(pub usize);

impl Parser for AnyN {
    type Out = String;

    open spec fn spec_parse(&self, input: Seq<char>) -> Option<(int, Seq<char>)> {
        if input.len() >= self.0 {
            Some((self.0 as int, input.take(self.0 as int)))
        } else {
            None
        }
    }

    proof fn lemma_consumed_bounds(&self, input: Seq<char>) {
    }

    fn invoke<'a>(&self, input: &'a str) -> (r: Option<(&'a str, String)>) {
        let len = input.unicode_len();
        if len >= self.0 {
            let consumed = input.substring_char(0, self.0).to_owned();
            Some((input.substring_char(self.0, len), consumed))
        } else {
            None
        }
    }
}

/// Greedily consumes the longest prefix all of whose characters satisfy the
/// predicate; never fails, even when nothing is consumed.
pub struct AnyWhere<F>(pub F);

impl<F: CharPred> Parser for AnyWhere<F> {
    type Out = String;

    open spec fn spec_parse(&self, input: Seq<char>) -> Option<(int, Seq<char>)> {
        Some((pred_count(self.0, input) as int, input.take(pred_count(self.0, input) as int)))
    }

    proof fn lemma_consumed_bounds(&self, input: Seq<char>) {
        lemma_pred_count_bounds(self.0, input);
    }

    fn invoke<'a>(&self, input: &'a str) -> (r: Option<(&'a str, String)>) {
        let len = input.unicode_len();
        let mut i: usize = 0;
        loop
            invariant
                0 <= i <= len,
                len == input@.len(),
                forall|j: int| 0 <= j < i ==> self.0.holds(input@[j]),
            ensures
                0 <= i <= len,
                forall|j: int| 0 <= j < i ==> self.0.holds(input@[j]),
                i < len ==> !self.0.holds(input@[i as int]),
            decreases len - i,
        {
            if i >= len {
                break ;
            }
            if !self.0.test(input.get_char(i)) {
                break ;
            }
            i = i + 1;
        }
        proof {
            lemma_pred_count_is(self.0, input@, i as int);
        }
        let consumed = input.substring_char(0, i).to_owned();
        Some((input.substring_char(i, len), consumed))
    }
}

/// AnyWhere never fails; it consumes the longest prefix whose characters all
/// satisfy the predicate, and the first character of the remainder, when one
/// exists, does not satisfy it.
pub proof fn lemma_anywhere_characterization<F: CharPred>(p: &AnyWhere<F>, input: Seq<char>)
    ensures
        p.spec_parse(input) matches Some((n, consumed)) && {
            &&& 0 <= n <= input.len()
            &&& consumed == input.take(n)
            &&& forall|j: int| 0 <= j < n ==> p.0.holds(input[j])
            &&& n < input.len() ==> !p.0.holds(input[n])
        },
{
    lemma_pred_count_bounds(p.0, input);
}

/// A predicate over a split of the input: the consumed prefix and the
/// remaining suffix.
pub trait SpanPred: Sized {
    spec fn holds(&self, consumed: Seq<char>, remaining: Seq<char>) -> bool;

    fn test(&self, consumed: &str, remaining: &str) -> (r: bool)
        ensures
            r == self.holds(consumed@, remaining@),
    ;
}

/// The first boundary at or after `k` where `p` rejects the split of `s`, or
/// the full length when every boundary is accepted.
pub open spec fn span_stop<F: SpanPred>(p: F, s: Seq<char>, k: int) -> int
    decreases s.len() - k,
{
    if k < 0 || k >= s.len() {
        s.len() as int
    } else if !p.holds(s.take(k), s.skip(k)) {
        k
    } else {
        span_stop(p, s, k + 1)
    }
}

pub proof fn lemma_span_stop_bounds<F: SpanPred>(p: F, s: Seq<char>, k: int)
    requires
        0 <= k <= s.len(),
    ensures
        k <= span_stop(p, s, k) <= s.len(),
    decreases s.len() - k,
{
    if k < s.len() && p.holds(s.take(k), s.skip(k)) {
        lemma_span_stop_bounds(p, s, k + 1);
    }
}

/// Extends consumption character by character while the predicate, seeing
/// both the consumed prefix and the remaining suffix, holds; stops at the
/// first rejecting boundary. Never fails, even with zero consumed.
pub struct AnyWhile<F>(pub F);

impl<F: SpanPred> Parser for AnyWhile<F> {
    type Out = String;

    open spec fn spec_parse(&self, input: Seq<char>) -> Option<(int, Seq<char>)> {
        Some((span_stop(self.0, input, 0), input.take(span_stop(self.0, input, 0))))
    }

    proof fn lemma_consumed_bounds(&self, input: Seq<char>) {
        lemma_span_stop_bounds(self.0, input, 0);
    }

    fn invoke<'a>(&self, input: &'a str) -> (r: Option<(&'a str, String)>) {
        let len = input.unicode_len();
        let mut i: usize = 0;
        loop
            invariant
                0 <= i <= len,
                len == input@.len(),
                span_stop(self.0, input@, 0) == span_stop(self.0, input@, i as int),
            ensures
                0 <= i <= len,
                span_stop(self.0, input@, 0) == i,
            decreases len - i,
        {
            if i >= len {
                break ;
            }
            if !self.0.test(input.substring_char(0, i), input.substring_char(i, len)) {
                proof {
                    assert(input@.subrange(0, i as int) == input@.take(i as int));
                    assert(input@.subrange(i as int, len as int) == input@.skip(i as int));
                }
                break ;
            }
            proof {
                assert(input@.subrange(0, i as int) == input@.take(i as int));
                assert(input@.subrange(i as int, len as int) == input@.skip(i as int));
            }
            i = i + 1;
        }
        let consumed = input.substring_char(0, i).to_owned();
        Some((input.substring_char(i, len), consumed))
    }
}

/// Lifts a character predicate to a span predicate that looks only at the
/// head of the remaining suffix.
pub struct HeadSatisfies<F>(pub F);

impl<F: CharPred> SpanPred for HeadSatisfies<F> {
    open spec fn holds(&self, consumed: Seq<char>, remaining: Seq<char>) -> bool {
        remaining.len() > 0 && self.0.holds(remaining[0])
    }

    fn test(&self, consumed: &str, remaining: &str) -> (r: bool) {
        if remaining.unicode_len() > 0 {
            self.0.test(remaining.get_char(0))
        } else {
            false
        }
    }
}

/// Scanning while the head of the remainder satisfies a character predicate
/// is the same as scanning the characters that satisfy it: `AnyWhile` over
/// `HeadSatisfies(p)` consumes exactly what `AnyWhere` over `p` consumes.
pub proof fn lemma_anywhile_head_is_anywhere<F: CharPred>(p: F, input: Seq<char>)
    ensures
        span_stop(HeadSatisfies(p), input, 0) == pred_count(p, input) as int,
{
    lemma_pred_count_bounds(p, input);
    lemma_span_stop_agrees(p, input, 0);
}

proof fn lemma_span_stop_agrees<F: CharPred>(p: F, input: Seq<char>, k: int)
    requires
        0 <= k <= input.len(),
        forall|j: int| 0 <= j < k ==> p.holds(input[j]),
        k <= pred_count(p, input),
    ensures
        span_stop(HeadSatisfies(p), input, k) == pred_count(p, input) as int,
    decreases input.len() - k,
{
    lemma_pred_count_bounds(p, input);
    if k >= input.len() {
        lemma_pred_count_is(p, input, k);
    } else if !HeadSatisfies(p).holds(input.take(k), input.skip(k)) {
        assert(input.skip(k)[0] == input[k]);
        lemma_pred_count_is(p, input, k);
    } else {
        assert(input.skip(k)[0] == input[k]);
        if k == pred_count(p, input) {
            assert(!p.holds(input[k]));
        }
        lemma_span_stop_agrees(p, input, k + 1);
    }
}

/// Runs the inner parser and fails unless it consumed at least `minimum`
/// characters; turns zero-or-more acceptance into one-or-more.
pub struct MinChars<P>(pub P, pub usize);

impl<P: Parser> Parser for MinChars<P> {
    type Out = P::Out;

    open spec fn spec_parse(&self, input: Seq<char>) -> Option<
        (int, <P::Out as DeepView>::V),
    > {
        match self.0.spec_parse(input) {
            Some((n, m)) => if n >= self.1 {
                Some((n, m))
            } else {
                None
            },
            None => None,
        }
    }

    proof fn lemma_consumed_bounds(&self, input: Seq<char>) {
        self.0.lemma_consumed_bounds(input);
    }

    fn invoke<'a>(&self, input: &'a str) -> (r: Option<(&'a str, P::Out)>) {
        match self.0.invoke(input) {
            Some((rest, v)) => {
                proof {
                    self.0.lemma_consumed_bounds(input@);
                }
                let len = input.unicode_len();
                let rest_len = rest.unicode_len();
                if len - rest_len >= self.1 {
                    Some((rest, v))
                } else {
                    None
                }
            },
            None => None,
        }
    }
}

/// Always succeeds: yields the inner parser's value when it succeeds, or an
/// absent marker with zero consumption when it fails.
pub struct Optional<P>(pub P);

impl<P: Parser> Parser for Optional<P> {
    type Out = Option<P::Out>;

    open spec fn spec_parse(&self, input: Seq<char>) -> Option<
        (int, Option<<P::Out as DeepView>::V>),
    > {
        match self.0.spec_parse(input) {
            Some((n, m)) => Some((n, Some(m))),
            None => Some((0, None)),
        }
    }

    proof fn lemma_consumed_bounds(&self, input: Seq<char>) {
        self.0.lemma_consumed_bounds(input);
    }

    fn invoke<'a>(&self, input: &'a str) -> (r: Option<(&'a str, Option<P::Out>)>) {
        match self.0.invoke(input) {
            Some((rest, v)) => Some((rest, Some(v))),
            None => {
                proof {
                    assert(input@.skip(0) =~= input@);
                }
                Some((input, None))
            },
        }
    }
}

/// Optional always succeeds: it consumes what the inner parser consumes on
/// success, and exactly zero characters on the inner parser's failure.
pub proof fn lemma_optional_total<P: Parser>(p: &Optional<P>, input: Seq<char>)
    ensures
        p.spec_parse(input) is Some,
        p.0.spec_parse(input) matches Some((n, m)) ==> p.spec_parse(input) == Some(
            (n, Some(m)),
        ),
        p.0.spec_parse(input) is None ==> p.spec_parse(input) == Some(
            (0int, None::<<P::Out as DeepView>::V>),
        ),
{
}

/// Tries the first parser; if it fails, tries the second. Left-biased: once
/// the first succeeds its result is final, even if the second would also
/// match.
pub struct Or<A, B>(pub A, pub B);

impl<A: Parser, B: Parser<Out = A::Out>> Parser for Or<A, B> {
    type Out = A::Out;

    open spec fn spec_parse(&self, input: Seq<char>) -> Option<
        (int, <A::Out as DeepView>::V),
    > {
        match self.0.spec_parse(input) {
            Some(r) => Some(r),
            None => self.1.spec_parse(input),
        }
    }

    proof fn lemma_consumed_bounds(&self, input: Seq<char>) {
        self.0.lemma_consumed_bounds(input);
        self.1.lemma_consumed_bounds(input);
    }

    fn invoke<'a>(&self, input: &'a str) -> (r: Option<(&'a str, A::Out)>) {
        match self.0.invoke(input) {
            Some((rest, v)) => Some((rest, v)),
            None => self.1.invoke(input),
        }
    }
}

/// Sequencing: a pair of parsers run one after the other on the shrinking
/// region. The whole bundle fails at the first child failure, discarding all
/// partial progress; longer bundles nest pairs and triples.
impl<A: Parser, B: Parser> Parser for (A, B) {
    type Out = (A::Out, B::Out);

    open spec fn spec_parse(&self, input: Seq<char>) -> Option<
        (int, (<A::Out as DeepView>::V, <B::Out as DeepView>::V)),
    > {
        match self.0.spec_parse(input) {
            None => None,
            Some((n1, m1)) => if 0 <= n1 <= input.len() {
                match self.1.spec_parse(input.skip(n1)) {
                    None => None,
                    Some((n2, m2)) => Some((n1 + n2, (m1, m2))),
                }
            } else {
                None
            },
        }
    }

    proof fn lemma_consumed_bounds(&self, input: Seq<char>) {
        self.0.lemma_consumed_bounds(input);
        match self.0.spec_parse(input) {
            None => {},
            Some((n1, m1)) => {
                self.1.lemma_consumed_bounds(input.skip(n1));
            },
        }
    }

    fn invoke<'a>(&self, input: &'a str) -> (r: Option<(&'a str, (A::Out, B::Out))>) {
        match self.0.invoke(input) {
            None => None,
            Some((rest1, v1)) => {
                proof {
                    self.0.lemma_consumed_bounds(input@);
                }
                match self.1.invoke(rest1) {
                    None => None,
                    Some((rest2, v2)) => {
                        proof {
                            self.1.lemma_consumed_bounds(rest1@);
                            let n1 = self.0.spec_parse(input@)->Some_0.0;
                            let n2 = self.1.spec_parse(rest1@)->Some_0.0;
                            lemma_skip_skip(input@, n1, n2);
                        }
                        Some((rest2, (v1, v2)))
                    },
                }
            },
        }
    }
}

/// Sequencing of three parsers; as the pair, with the same all-or-nothing
/// failure.
impl<A: Parser, B: Parser, C: Parser> Parser for (A, B, C) {
    type Out = (A::Out, B::Out, C::Out);

    open spec fn spec_parse(&self, input: Seq<char>) -> Option<
        (int, (<A::Out as DeepView>::V, <B::Out as DeepView>::V, <C::Out as DeepView>::V)),
    > {
        match self.0.spec_parse(input) {
            None => None,
            Some((n1, m1)) => if 0 <= n1 <= input.len() {
                match self.1.spec_parse(input.skip(n1)) {
                    None => None,
                    Some((n2, m2)) => if 0 <= n2 <= input.len() - n1 {
                        match self.2.spec_parse(input.skip(n1 + n2)) {
                            None => None,
                            Some((n3, m3)) => Some((n1 + n2 + n3, (m1, m2, m3))),
                        }
                    } else {
                        None
                    },
                }
            } else {
                None
            },
        }
    }

    proof fn lemma_consumed_bounds(&self, input: Seq<char>) {
        self.0.lemma_consumed_bounds(input);
        match self.0.spec_parse(input) {
            None => {},
            Some((n1, m1)) => {
                self.1.lemma_consumed_bounds(input.skip(n1));
                if 0 <= n1 <= input.len() {
                    match self.1.spec_parse(input.skip(n1)) {
                        None => {},
                        Some((n2, m2)) => {
                            self.2.lemma_consumed_bounds(input.skip(n1 + n2));
                        },
                    }
                }
            },
        }
    }

    fn invoke<'a>(&self, input: &'a str) -> (r: Option<
        (&'a str, (A::Out, B::Out, C::Out)),
    >) {
        match self.0.invoke(input) {
            None => None,
            Some((rest1, v1)) => {
                proof {
                    self.0.lemma_consumed_bounds(input@);
                }
                match self.1.invoke(rest1) {
                    None => None,
                    Some((rest2, v2)) => {
                        proof {
                            self.1.lemma_consumed_bounds(rest1@);
                            let n1 = self.0.spec_parse(input@)->Some_0.0;
                            let n2 = self.1.spec_parse(rest1@)->Some_0.0;
                            lemma_skip_skip(input@, n1, n2);
                        }
                        match self.2.invoke(rest2) {
                            None => None,
                            Some((rest3, v3)) => {
                                proof {
                                    self.2.lemma_consumed_bounds(rest2@);
                                    let n1 = self.0.spec_parse(input@)->Some_0.0;
                                    let n2 = self.1.spec_parse(rest1@)->Some_0.0;
                                    let n3 = self.2.spec_parse(rest2@)->Some_0.0;
                                    lemma_skip_skip(input@, n1 + n2, n3);
                                }
                                Some((rest3, (v1, v2, v3)))
                            },
                        }
                    },
                }
            },
        }
    }
}

/// A reference to a parser is a parser; lets a combinator run borrowed
/// children.
impl<'x, P: Parser> Parser for &'x P {
    type Out = P::Out;

    open spec fn spec_parse(&self, input: Seq<char>) -> Option<(int, <P::Out as DeepView>::V)> {
        (**self).spec_parse(input)
    }

    proof fn lemma_consumed_bounds(&self, input: Seq<char>) {
        (**self).lemma_consumed_bounds(input);
    }

    fn invoke<'a>(&self, input: &'a str) -> (r: Option<(&'a str, P::Out)>) {
        (**self).invoke(input)
    }
}

/// Sequencing of four parsers: a pair of pairs, flattened.
impl<A: Parser, B: Parser, C: Parser, D: Parser> Parser for (A, B, C, D) {
    type Out = (A::Out, B::Out, C::Out, D::Out);

    open spec fn spec_parse(&self, input: Seq<char>) -> Option<
        (
            int,
            (
                <A::Out as DeepView>::V,
                <B::Out as DeepView>::V,
                <C::Out as DeepView>::V,
                <D::Out as DeepView>::V,
            ),
        ),
    > {
        match ((&self.0, &self.1), (&self.2, &self.3)).spec_parse(input) {
            Some((n, ((m1, m2), (m3, m4)))) => Some((n, (m1, m2, m3, m4))),
            None => None,
        }
    }

    proof fn lemma_consumed_bounds(&self, input: Seq<char>) {
        ((&self.0, &self.1), (&self.2, &self.3)).lemma_consumed_bounds(input);
    }

    fn invoke<'a>(&self, input: &'a str) -> (r: Option<
        (&'a str, (A::Out, B::Out, C::Out, D::Out)),
    >) {
        match ((&self.0, &self.1), (&self.2, &self.3)).invoke(input) {
            Some((rest, ((v1, v2), (v3, v4)))) => Some((rest, (v1, v2, v3, v4))),
            None => None,
        }
    }
}

/// Sequencing of five parsers: two pairs and a fifth, flattened.
impl<A: Parser, B: Parser, C: Parser, D: Parser, E: Parser> Parser for (A, B, C, D, E) {
    type Out = (A::Out, B::Out, C::Out, D::Out, E::Out);

    open spec fn spec_parse(&self, input: Seq<char>) -> Option<
        (
            int,
            (
                <A::Out as DeepView>::V,
                <B::Out as DeepView>::V,
                <C::Out as DeepView>::V,
                <D::Out as DeepView>::V,
                <E::Out as DeepView>::V,
            ),
        ),
    > {
        match ((&self.0, &self.1), (&self.2, &self.3), &self.4).spec_parse(input) {
            Some((n, ((m1, m2), (m3, m4), m5))) => Some((n, (m1, m2, m3, m4, m5))),
            None => None,
        }
    }

    proof fn lemma_consumed_bounds(&self, input: Seq<char>) {
        ((&self.0, &self.1), (&self.2, &self.3), &self.4).lemma_consumed_bounds(input);
    }

    fn invoke<'a>(&self, input: &'a str) -> (r: Option<
        (&'a str, (A::Out, B::Out, C::Out, D::Out, E::Out)),
    >) {
        match ((&self.0, &self.1), (&self.2, &self.3), &self.4).invoke(input) {
            Some((rest, ((v1, v2), (v3, v4), v5))) => Some((rest, (v1, v2, v3, v4, v5))),
            None => None,
        }
    }
}

/// Sequencing of six parsers: three pairs, flattened.
impl<A: Parser, B: Parser, C: Parser, D: Parser, E: Parser, F: Parser> Parser for (
    A,
    B,
    C,
    D,
    E,
    F,
) {
    type Out = (A::Out, B::Out, C::Out, D::Out, E::Out, F::Out);

    open spec fn spec_parse(&self, input: Seq<char>) -> Option<
        (
            int,
            (
                <A::Out as DeepView>::V,
                <B::Out as DeepView>::V,
                <C::Out as DeepView>::V,
                <D::Out as DeepView>::V,
                <E::Out as DeepView>::V,
                <F::Out as DeepView>::V,
            ),
        ),
    > {
        match ((&self.0, &self.1), (&self.2, &self.3), (&self.4, &self.5)).spec_parse(input) {
            Some((n, ((m1, m2), (m3, m4), (m5, m6)))) => Some((n, (m1, m2, m3, m4, m5, m6))),
            None => None,
        }
    }

    proof fn lemma_consumed_bounds(&self, input: Seq<char>) {
        ((&self.0, &self.1), (&self.2, &self.3), (&self.4, &self.5)).lemma_consumed_bounds(input);
    }

    fn invoke<'a>(&self, input: &'a str) -> (r: Option<
        (&'a str, (A::Out, B::Out, C::Out, D::Out, E::Out, F::Out)),
    >) {
        match ((&self.0, &self.1), (&self.2, &self.3), (&self.4, &self.5)).invoke(input) {
            Some((rest, ((v1, v2), (v3, v4), (v5, v6)))) => Some(
                (rest, (v1, v2, v3, v4, v5, v6)),
            ),
            None => None,
        }
    }
}

/// Sequencing of seven parsers: two triples and a seventh, flattened.
impl<A: Parser, B: Parser, C: Parser, D: Parser, E: Parser, F: Parser, G: Parser> Parser for (
    A,
    B,
    C,
    D,
    E,
    F,
    G,
) {
    type Out = (A::Out, B::Out, C::Out, D::Out, E::Out, F::Out, G::Out);

    open spec fn spec_parse(&self, input: Seq<char>) -> Option<
        (
            int,
            (
                <A::Out as DeepView>::V,
                <B::Out as DeepView>::V,
                <C::Out as DeepView>::V,
                <D::Out as DeepView>::V,
                <E::Out as DeepView>::V,
                <F::Out as DeepView>::V,
                <G::Out as DeepView>::V,
            ),
        ),
    > {
        match ((&self.0, &self.1, &self.2), (&self.3, &self.4, &self.5), &self.6).spec_parse(
            input,
        ) {
            Some((n, ((m1, m2, m3), (m4, m5, m6), m7))) => Some(
                (n, (m1, m2, m3, m4, m5, m6, m7)),
            ),
            None => None,
        }
    }

    proof fn lemma_consumed_bounds(&self, input: Seq<char>) {
        ((&self.0, &self.1, &self.2), (&self.3, &self.4, &self.5), &self.6).lemma_consumed_bounds(
            input,
        );
    }

    fn invoke<'a>(&self, input: &'a str) -> (r: Option<
        (&'a str, (A::Out, B::Out, C::Out, D::Out, E::Out, F::Out, G::Out)),
    >) {
        match ((&self.0, &self.1, &self.2), (&self.3, &self.4, &self.5), &self.6).invoke(input) {
            Some((rest, ((v1, v2, v3), (v4, v5, v6), v7))) => Some(
                (rest, (v1, v2, v3, v4, v5, v6, v7)),
            ),
            None => None,
        }
    }
}

/// Sequencing of eight parsers: two triples and a pair, flattened.
impl<
    A: Parser,
    B: Parser,
    C: Parser,
    D: Parser,
    E: Parser,
    F: Parser,
    G: Parser,
    H: Parser,
> Parser for (A, B, C, D, E, F, G, H) {
    type Out = (A::Out, B::Out, C::Out, D::Out, E::Out, F::Out, G::Out, H::Out);

    open spec fn spec_parse(&self, input: Seq<char>) -> Option<
        (
            int,
            (
                <A::Out as DeepView>::V,
                <B::Out as DeepView>::V,
                <C::Out as DeepView>::V,
                <D::Out as DeepView>::V,
                <E::Out as DeepView>::V,
                <F::Out as DeepView>::V,
                <G::Out as DeepView>::V,
                <H::Out as DeepView>::V,
            ),
        ),
    > {
        match ((&self.0, &self.1, &self.2), (&self.3, &self.4, &self.5), (
            &self.6,
            &self.7,
        )).spec_parse(input) {
            Some((n, ((m1, m2, m3), (m4, m5, m6), (m7, m8)))) => Some(
                (n, (m1, m2, m3, m4, m5, m6, m7, m8)),
            ),
            None => None,
        }
    }

    proof fn lemma_consumed_bounds(&self, input: Seq<char>) {
        ((&self.0, &self.1, &self.2), (&self.3, &self.4, &self.5), (
            &self.6,
            &self.7,
        )).lemma_consumed_bounds(input);
    }

    fn invoke<'a>(&self, input: &'a str) -> (r: Option<
        (&'a str, (A::Out, B::Out, C::Out, D::Out, E::Out, F::Out, G::Out, H::Out)),
    >) {
        match ((&self.0, &self.1, &self.2), (&self.3, &self.4, &self.5), (
            &self.6,
            &self.7,
        )).invoke(input) {
            Some((rest, ((v1, v2, v3), (v4, v5, v6), (v7, v8)))) => Some(
                (rest, (v1, v2, v3, v4, v5, v6, v7, v8)),
            ),
            None => None,
        }
    }
}

/// A value transformation with a specification-level meaning, for use with
/// [`Mapped`].
pub trait MapFn: Sized {
    type In: DeepView;

    type Out: DeepView;

    /// What the transformation does to the model of the value.
    spec fn spec_apply(&self, m: <Self::In as DeepView>::V) -> <Self::Out as DeepView>::V;

    fn apply(&self, v: Self::In) -> (r: Self::Out)
        ensures
            r.deep_view() == self.spec_apply(v.deep_view()),
    ;
}

/// Transforms the success value of the inner parser; a no-op on failure.
pub struct Mapped<P, F> {
    pub inner: P,
    pub f: F,
}

impl<P: Parser, F: MapFn<In = P::Out>> Parser for Mapped<P, F> {
    type Out = F::Out;

    open spec fn spec_parse(&self, input: Seq<char>) -> Option<
        (int, <F::Out as DeepView>::V),
    > {
        match self.inner.spec_parse(input) {
            Some((n, m)) => Some((n, self.f.spec_apply(m))),
            None => None,
        }
    }

    proof fn lemma_consumed_bounds(&self, input: Seq<char>) {
        self.inner.lemma_consumed_bounds(input);
    }

    fn invoke<'a>(&self, input: &'a str) -> (r: Option<(&'a str, F::Out)>) {
        match self.inner.invoke(input) {
            Some((rest, v)) => Some((rest, self.f.apply(v))),
            None => None,
        }
    }
}

/// Counts the characters of a scanned string; a sample [`MapFn`].
pub struct CharCount;

impl MapFn for CharCount {
    type In = String;

    type Out = usize;

    open spec fn spec_apply(&self, m: Seq<char>) -> usize {
        m.len() as usize
    }

    fn apply(&self, v: String) -> (r: usize) {
        v.as_str().unicode_len()
    }
}

/// The meaning of [`AnyUntil`] from boundary `k` on: at each boundary of the
/// input, starting with `k`, try the terminator on the remaining suffix; stop
/// at the first boundary where it succeeds.
pub open spec fn until_from<P: Parser>(p: &P, input: Seq<char>, k: int) -> Option<
    (int, (Seq<char>, <P::Out as DeepView>::V)),
>
    decreases input.len() - k,
{
    if k < 0 || k >= input.len() {
        None
    } else {
        match p.spec_parse(input.skip(k)) {
            Some((n, m)) => Some((k + n, (input.take(k), m))),
            None => until_from(p, input, k + 1),
        }
    }
}

pub proof fn lemma_until_bounds<P: Parser>(p: &P, input: Seq<char>, k: int)
    requires
        0 <= k,
    ensures
        until_from(p, input, k) matches Some((n, _)) ==> k <= n <= input.len(),
    decreases input.len() - k,
{
    if 0 <= k < input.len() {
        if p.spec_parse(input.skip(k)) is Some {
            p.lemma_consumed_bounds(input.skip(k));
        } else {
            lemma_until_bounds(p, input, k + 1);
        }
    }
}

/// Scanning past boundaries where the terminator fails does not change the
/// outcome.
pub proof fn lemma_until_advance<P: Parser>(p: &P, input: Seq<char>, k: int)
    requires
        0 <= k <= input.len(),
        forall|j: int| 0 <= j < k ==> p.spec_parse(#[trigger] input.skip(j)) is None,
    ensures
        until_from(p, input, 0) == until_from(p, input, k),
    decreases k,
{
    if k > 0 {
        lemma_until_advance(p, input, k - 1);
    }
}

/// Consumes characters until the terminating parser succeeds on the
/// remaining suffix; yields the skipped prefix together with the
/// terminator's value. Tries every boundary from the very first on, and
/// fails only if no boundary short of full exhaustion satisfies the
/// terminator.
pub struct AnyUntil<P>(pub P);

impl<P: Parser> Parser for AnyUntil<P> {
    type Out = (String, P::Out);

    open spec fn spec_parse(&self, input: Seq<char>) -> Option<
        (int, (Seq<char>, <P::Out as DeepView>::V)),
    > {
        until_from(&self.0, input, 0)
    }

    proof fn lemma_consumed_bounds(&self, input: Seq<char>) {
        lemma_until_bounds(&self.0, input, 0);
    }

    fn invoke<'a>(&self, input: &'a str) -> (r: Option<(&'a str, (String, P::Out))>) {
        let len = input.unicode_len();
        let mut k: usize = 0;
        while k < len
            invariant
                0 <= k <= len,
                len == input@.len(),
                forall|j: int| 0 <= j < k ==> self.0.spec_parse(#[trigger] input@.skip(j)) is None,
            decreases len - k,
        {
            let suffix = input.substring_char(k, len);
            proof {
                assert(suffix@ =~= input@.skip(k as int));
            }
            match self.0.invoke(suffix) {
                Some((rest, t)) => {
                    proof {
                        lemma_until_advance(&self.0, input@, k as int);
                        self.0.lemma_consumed_bounds(input@.skip(k as int));
                        let n = self.0.spec_parse(input@.skip(k as int))->Some_0.0;
                        assert(input@.skip(k as int).skip(n) =~= input@.skip(k + n));
                    }
                    let consumed = input.substring_char(0, k).to_owned();
                    return Some((rest, (consumed, t)));
                },
                None => {
                    k = k + 1;
                },
            }
        }
        proof {
            lemma_until_advance(&self.0, input@, len as int);
        }
        None
    }
}

/// When the terminator succeeds at no boundary of the input, AnyUntil fails
/// outright: no partial consumption is observable.
pub proof fn lemma_anyuntil_never_matching<P: Parser>(p: &AnyUntil<P>, input: Seq<char>)
    requires
        forall|j: int| 0 <= j < input.len() ==> p.0.spec_parse(#[trigger] input.skip(j)) is None,
    ensures
        p.spec_parse(input) is None,
{
    lemma_until_advance(&p.0, input, input.len() as int);
}

/// The meaning of the repetition family: run the inner parser as long as it
/// succeeds and makes progress, collecting the consumed total and the values
/// in order. A success that consumes nothing stops the repetition, keeping
/// it well-defined where a blind rerun would never terminate.
pub open spec fn rep_parse<P: Parser>(p: &P, input: Seq<char>) -> (
    int,
    Seq<<P::Out as DeepView>::V>,
)
    decreases input.len(),
{
    match p.spec_parse(input) {
        Some((n, m)) => if 0 < n <= input.len() {
            let r = rep_parse(p, input.skip(n));
            (n + r.0, seq![m] + r.1)
        } else {
            (0, seq![])
        },
        None => (0, seq![]),
    }
}

pub proof fn lemma_rep_bounds<P: Parser>(p: &P, input: Seq<char>)
    ensures
        0 <= rep_parse(p, input).0 <= input.len(),
    decreases input.len(),
{
    match p.spec_parse(input) {
        Some((n, m)) => {
            if 0 < n <= input.len() {
                lemma_rep_bounds(p, input.skip(n));
            }
        },
        None => {},
    }
}

/// Repetition is deterministic and exhaustive: one call collects everything,
/// so a second call on the remainder of the first consumes nothing and
/// collects nothing, and the two calls together reproduce exactly the
/// sequence of the one.
pub proof fn lemma_repetition_exhaustive<P: Parser>(p: &P, input: Seq<char>)
    ensures
        rep_parse(p, input.skip(rep_parse(p, input).0)).0 == 0,
        rep_parse(p, input.skip(rep_parse(p, input).0)).1 == Seq::<
            <P::Out as DeepView>::V,
        >::empty(),
        rep_parse(p, input).1 + rep_parse(p, input.skip(rep_parse(p, input).0)).1 == rep_parse(
            p,
            input,
        ).1,
    decreases input.len(),
{
    match p.spec_parse(input) {
        Some((n, m)) => {
            if 0 < n <= input.len() {
                lemma_rep_bounds(p, input.skip(n));
                lemma_repetition_exhaustive(p, input.skip(n));
                let total = rep_parse(p, input).0;
                assert(input.skip(n).skip(rep_parse(p, input.skip(n)).0) =~= input.skip(total));
            } else {
                assert(input.skip(0) =~= input);
            }
        },
        None => {
            assert(input.skip(0) =~= input);
        },
    }
    assert(rep_parse(p, input).1 + rep_parse(p, input.skip(rep_parse(p, input).0)).1 =~= rep_parse(
        p,
        input,
    ).1);
}

/// Runs `p` repeatedly on the shrinking remainder, collecting the values;
/// shared by the repetition combinators.
fn run_repetition<'a, P: Parser>(p: &P, input: &'a str) -> (r: (&'a str, Vec<P::Out>))
    ensures
        r.1.deep_view() == rep_parse(p, input@).1,
        r.0@ == input@.skip(rep_parse(p, input@).0),
{
    let mut cur = input;
    let mut acc: Vec<P::Out> = Vec::new();
    proof {
        assert(input@.skip(0) =~= input@);
        assert(acc.deep_view() =~= Seq::<<P::Out as DeepView>::V>::empty());
    }
    let ghost mut consumed: int = 0;
    loop
        invariant
            0 <= consumed <= input@.len(),
            cur@ == input@.skip(consumed),
            rep_parse(p, input@).0 == consumed + rep_parse(p, cur@).0,
            rep_parse(p, input@).1 == acc.deep_view() + rep_parse(p, cur@).1,
        ensures
            rep_parse(p, cur@).0 == 0,
            rep_parse(p, cur@).1 == Seq::<<P::Out as DeepView>::V>::empty(),
            cur@ == input@.skip(rep_parse(p, input@).0),
            acc.deep_view() == rep_parse(p, input@).1,
        decreases cur@.len(),
    {
        proof {
            assert(acc.deep_view() + rep_parse(p, cur@).1 =~= rep_parse(p, input@).1);
        }
        match p.invoke(cur) {
            Some((rest, v)) => {
                proof {
                    p.lemma_consumed_bounds(cur@);
                }
                let cur_len = cur.unicode_len();
                let rest_len = rest.unicode_len();
                if rest_len < cur_len {
                    proof {
                        let n = p.spec_parse(cur@)->Some_0.0;
                        let m = p.spec_parse(cur@)->Some_0.1;
                        assert(cur@.skip(n) =~= input@.skip(consumed + n));
                        assert(acc.deep_view().push(m) + rep_parse(p, cur@.skip(n)).1
                            =~= acc.deep_view() + (seq![m] + rep_parse(p, cur@.skip(n)).1));
                        consumed = consumed + n;
                    }
                    let ghost old_acc = acc.deep_view();
                    let ghost mv = v.deep_view();
                    acc.push(v);
                    proof {
                        assert(acc.deep_view() =~= old_acc.push(mv));
                    }
                    cur = rest;
                } else {
                    proof {
                        let n = p.spec_parse(cur@)->Some_0.0;
                        assert(cur@.len() == input@.len() - consumed);
                        assert(rest@.len() == cur@.len() - n);
                        assert(n == 0);
                        assert(acc.deep_view() + rep_parse(p, cur@).1 =~= acc.deep_view());
                    }
                    break ;
                }
            },
            None => {
                proof {
                    assert(acc.deep_view() + rep_parse(p, cur@).1 =~= acc.deep_view());
                }
                break ;
            },
        }
    }
    (cur, acc)
}

/// Repeats the inner parser until it fails, collecting the ordered results;
/// possibly empty, never failing. A repetition whose inner parser succeeds
/// without consuming anything stops rather than rerunning it forever.
pub struct Repetition<P>(pub P);

impl<P: Parser> Parser for Repetition<P> {
    type Out = Vec<P::Out>;

    open spec fn spec_parse(&self, input: Seq<char>) -> Option<
        (int, Seq<<P::Out as DeepView>::V>),
    > {
        Some(rep_parse(&self.0, input))
    }

    proof fn lemma_consumed_bounds(&self, input: Seq<char>) {
        lemma_rep_bounds(&self.0, input);
    }

    fn invoke<'a>(&self, input: &'a str) -> (r: Option<(&'a str, Vec<P::Out>)>) {
        let (rest, acc) = run_repetition(&self.0, input);
        Some((rest, acc))
    }
}

/// As [`Repetition`], but fails when fewer than `minimum` repetitions
/// succeeded.
pub struct MinRepetition<P>(pub P, pub usize);

impl<P: Parser> Parser for MinRepetition<P> {
    type Out = Vec<P::Out>;

    open spec fn spec_parse(&self, input: Seq<char>) -> Option<
        (int, Seq<<P::Out as DeepView>::V>),
    > {
        let r = rep_parse(&self.0, input);
        if r.1.len() >= self.1 {
            Some(r)
        } else {
            None
        }
    }

    proof fn lemma_consumed_bounds(&self, input: Seq<char>) {
        lemma_rep_bounds(&self.0, input);
    }

    fn invoke<'a>(&self, input: &'a str) -> (r: Option<(&'a str, Vec<P::Out>)>) {
        let (rest, acc) = run_repetition(&self.0, input);
        if acc.len() >= self.1 {
            Some((rest, acc))
        } else {
            None
        }
    }
}

/// As [`Repetition`], but bounded on both ends; an absent bound leaves that
/// side unconstrained. Fails when the realized count of repetitions falls
/// outside the configured bounds.
pub struct MinMaxRepetition<P>(pub P, pub (Option<usize>, Option<usize>));

impl<P: Parser> Parser for MinMaxRepetition<P> {
    type Out = Vec<P::Out>;

    open spec fn spec_parse(&self, input: Seq<char>) -> Option<
        (int, Seq<<P::Out as DeepView>::V>),
    > {
        let r = rep_parse(&self.0, input);
        let min_ok = match self.1.0 {
            Some(min) => r.1.len() >= min,
            None => true,
        };
        let max_ok = match self.1.1 {
            Some(max) => r.1.len() <= max,
            None => true,
        };
        if min_ok && max_ok {
            Some(r)
        } else {
            None
        }
    }

    proof fn lemma_consumed_bounds(&self, input: Seq<char>) {
        lemma_rep_bounds(&self.0, input);
    }

    fn invoke<'a>(&self, input: &'a str) -> (r: Option<(&'a str, Vec<P::Out>)>) {
        let (rest, acc) = run_repetition(&self.0, input);
        let min_ok = match self.1.0 {
            Some(min) => acc.len() >= min,
            None => true,
        };
        let max_ok = match self.1.1 {
            Some(max) => acc.len() <= max,
            None => true,
        };
        if min_ok && max_ok {
            Some((rest, acc))
        } else {
            None
        }
    }
}

/// Dropping `a` characters and then `b` more is dropping `a + b` at once.
pub proof fn lemma_skip_skip(s: Seq<char>, a: int, b: int)
    requires
        0 <= a,
        0 <= b,
        a + b <= s.len(),
    ensures
        s.skip(a).skip(b) == s.skip(a + b),
{
    assert(s.skip(a).skip(b) =~= s.skip(a + b));
}

/// A prefix of `a` characters followed by the next `b` characters is the
/// prefix of `a + b` characters.
pub proof fn lemma_take_concat(s: Seq<char>, a: int, b: int)
    requires
        0 <= a,
        0 <= b,
        a + b <= s.len(),
    ensures
        s.take(a) + s.skip(a).take(b) == s.take(a + b),
{
    assert(s.take(a) + s.skip(a).take(b) =~= s.take(a + b));
}

/// Exact succeeds on every input that starts with its literal, consuming
/// exactly the literal's length; the remainder is the input minus that
/// prefix. On any other input it fails.
pub proof fn lemma_exact_characterization(e: &Exact, input: Seq<char>)
    ensures
        seq_starts_with(input, e.0@) ==> e.spec_parse(input) == Some::<(int, ())>(
            (e.0@.len() as int, ()),
        ),
        !seq_starts_with(input, e.0@) ==> e.spec_parse(input) is None,
{
}

} // verus!
