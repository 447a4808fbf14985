//! The matching engine.
//!
//! A compiled matcher holds the pattern's flattened token stream together
//! with a parallel list that maps each token to its capture group, if any.
//! Matching consumes tokens left to right against successive prefixes of the
//! input.  A wildcard's span is the least length from which the tokens after
//! it consume the rest of the input exactly; the overall match succeeds only
//! when the spans cover the input exactly.

use crate::matching_pattern::{
    element_tokens, flat_tokens, lemma_flat_tokens_push, token_models, Element, Pattern,
    SpecElement, SpecToken, Token,
};
use vstd::prelude::*;

verus! {

/// One capture group produced at match time: the substring of the input that
/// the group's tokens consumed, in token order.
#[derive(Debug, PartialEq, Eq)]
pub struct CaptureGroup {
    /// The captured substring.
    pub contents: String,
}

impl View for CaptureGroup {
    type V = Seq<char>;

    open spec fn view(&self) -> Seq<char> {
        self.contents@
    }
}

/// The span of the first token of `tokens` against `input`: how many leading
/// characters it consumes, or `None` when it cannot consume.  A `Text` token
/// consumes its own length when `input` starts with it; a `FixedLength`
/// token consumes its length when enough input remains; a trailing
/// `Wildcard` consumes everything, and a non-trailing one consumes up to the
/// first split point from which the tokens after it consume the rest of the
/// input exactly.
pub open spec fn head_span(tokens: Seq<SpecToken>, input: Seq<char>) -> Option<int>
    recommends
        tokens.len() >= 1,
    decreases tokens.len(), input.len(), 0int,
{
    if tokens.len() == 0 {
        None
    } else {
        match tokens[0] {
            SpecToken::Text(t) => if t.len() <= input.len() && input.take(t.len() as int) == t {
                Some(t.len() as int)
            } else {
                None
            },
            SpecToken::FixedLength(n) => if n <= input.len() {
                Some(n as int)
            } else {
                None
            },
            SpecToken::Wildcard => if tokens.len() == 1 {
                Some(input.len() as int)
            } else {
                first_feasible(tokens.drop_first(), input, 0)
            },
        }
    }
}

/// Whether the tokens consume `input` exactly: every token consumes, and
/// the spans cover the whole input with no leftover and no shortfall.
pub open spec fn covers(tokens: Seq<SpecToken>, input: Seq<char>) -> bool
    decreases tokens.len(), input.len(), 2int,
{
    match token_spans(tokens, input) {
        Some(spans) => sum_of(spans) == input.len(),
        None => false,
    }
}

/// The least split point `j >= k`, at any character boundary of `input` up
/// to and including its end, from which `tail` consumes the rest of the
/// input exactly; `None` when no split point works.
pub open spec fn first_feasible(tail: Seq<SpecToken>, input: Seq<char>, k: nat) -> Option<int>
    decreases tail.len(), input.len() - k + 1, 3int,
{
    if k > input.len() {
        None
    } else if covers(tail, input.skip(k as int)) {
        Some(k as int)
    } else {
        first_feasible(tail, input, k + 1)
    }
}

/// The spans of all tokens against `input`, consumed left to right, or
/// `None` as soon as one token cannot consume.  The spans need not cover
/// `input` — the overall match checks that separately — though a
/// non-trailing wildcard only ever commits to a split point from which the
/// rest of the input is covered.
pub open spec fn token_spans(tokens: Seq<SpecToken>, input: Seq<char>) -> Option<Seq<int>>
    decreases tokens.len(), input.len(), 1int,
{
    if tokens.len() == 0 {
        Some(Seq::empty())
    } else {
        match head_span(tokens, input) {
            Some(sp) => match token_spans(tokens.drop_first(), input.skip(sp)) {
                Some(rest) => Some(seq![sp] + rest),
                None => None,
            },
            None => None,
        }
    }
}

/// The sum of a sequence of spans.
pub open spec fn sum_of(s: Seq<int>) -> int
    decreases s.len(),
{
    if s.len() == 0 {
        0
    } else {
        s[0] + sum_of(s.drop_first())
    }
}

/// How many capture groups a pattern has: one per `Group` element.
pub open spec fn group_count(elements: Seq<SpecElement>) -> nat
    decreases elements.len(),
{
    if elements.len() == 0 {
        0
    } else {
        (match elements[0] {
            SpecElement::Group(_) => 1 as nat,
            SpecElement::Token(_) => 0 as nat,
        }) + group_count(elements.drop_first())
    }
}

/// The capture-group index of each flattened token, groups numbered from
/// `g` on in order of appearance; tokens outside any group map to `None`.
pub open spec fn flat_indices_from(elements: Seq<SpecElement>, g: int) -> Seq<Option<int>>
    decreases elements.len(),
{
    if elements.len() == 0 {
        Seq::empty()
    } else {
        match elements[0] {
            SpecElement::Token(_) => seq![None] + flat_indices_from(elements.drop_first(), g),
            SpecElement::Group(ts) => Seq::new(ts.len(), |i: int| Some(g)) + flat_indices_from(
                elements.drop_first(),
                g + 1,
            ),
        }
    }
}

/// The capture-group index of each flattened token, groups numbered from 0.
pub open spec fn flat_indices(elements: Seq<SpecElement>) -> Seq<Option<int>> {
    flat_indices_from(elements, 0)
}

/// The content captured for group `g`: the concatenation, over the tokens
/// from position `i` on (token `i` starting at input position `pos`), of the
/// input each token tagged `g` consumed.
pub open spec fn captured_from(
    idx: Seq<Option<int>>,
    spans: Seq<int>,
    input: Seq<char>,
    g: int,
    i: int,
    pos: int,
) -> Seq<char>
    recommends
        idx.len() == spans.len(),
    decreases idx.len() - i,
{
    if i < 0 || i >= idx.len() {
        Seq::empty()
    } else {
        (if idx[i] == Some(g) {
            input.subrange(pos, pos + spans[i])
        } else {
            Seq::empty()
        }) + captured_from(idx, spans, input, g, i + 1, pos + spans[i])
    }
}

/// What matching a pattern against an input yields: `None` when the match
/// fails, otherwise one captured string per group, ordered by group index.
/// The match succeeds exactly when every flattened token consumes and the
/// spans cover the input exactly.
pub open spec fn match_result(elements: Seq<SpecElement>, input: Seq<char>) -> Option<
    Seq<Seq<char>>,
> {
    match token_spans(flat_tokens(elements), input) {
        Some(spans) => if sum_of(spans) == input.len() {
            Some(
                Seq::new(
                    group_count(elements),
                    |g: int| captured_from(flat_indices(elements), spans, input, g, 0, 0),
                ),
            )
        } else {
            None
        },
        None => None,
    }
}

proof fn lemma_first_feasible_bounds(tail: Seq<SpecToken>, input: Seq<char>, k: nat)
    ensures
        first_feasible(tail, input, k) matches Some(j) ==> k <= j <= input.len(),
    decreases input.len() - k + 1,
{
    if k > input.len() {
    } else if covers(tail, input.skip(k as int)) {
    } else {
        lemma_first_feasible_bounds(tail, input, k + 1);
    }
}

proof fn lemma_head_span_bounds(tokens: Seq<SpecToken>, input: Seq<char>)
    ensures
        head_span(tokens, input) matches Some(sp) ==> 0 <= sp <= input.len(),
{
    if tokens.len() >= 1 && tokens[0] is Wildcard && tokens.len() != 1 {
        lemma_first_feasible_bounds(tokens.drop_first(), input, 0);
    }
}

proof fn lemma_token_spans_bounds(tokens: Seq<SpecToken>, input: Seq<char>)
    ensures
        token_spans(tokens, input) matches Some(s) ==> s.len() == tokens.len() && (forall|i: int|
            0 <= i < s.len() ==> 0 <= #[trigger] s[i]) && sum_of(s) <= input.len(),
    decreases tokens.len(),
{
    if tokens.len() == 0 {
    } else {
        match head_span(tokens, input) {
            Some(sp) => {
                lemma_head_span_bounds(tokens, input);
                lemma_token_spans_bounds(tokens.drop_first(), input.skip(sp));
                match token_spans(tokens.drop_first(), input.skip(sp)) {
                    Some(rest) => {
                        let s = seq![sp] + rest;
                        assert(s.drop_first() =~= rest);
                        assert(s[0] == sp);
                        assert(input.skip(sp).len() == input.len() - sp);
                    },
                    None => {},
                }
            },
            None => {},
        }
    }
}

proof fn lemma_sum_push(s: Seq<int>, x: int)
    ensures
        sum_of(s.push(x)) == sum_of(s) + x,
    decreases s.len(),
{
    if s.len() == 0 {
        assert(s.push(x).drop_first() =~= Seq::<int>::empty());
        assert(sum_of(Seq::<int>::empty()) == 0);
        assert(s.push(x)[0] == x);
    } else {
        assert(s.push(x).drop_first() =~= s.drop_first().push(x));
        lemma_sum_push(s.drop_first(), x);
    }
}

proof fn lemma_sum_concat(a: Seq<int>, b: Seq<int>)
    ensures
        sum_of(a + b) == sum_of(a) + sum_of(b),
    decreases a.len(),
{
    if a.len() == 0 {
        assert(a + b =~= b);
    } else {
        assert((a + b).drop_first() =~= a.drop_first() + b);
        assert((a + b)[0] == a[0]);
        lemma_sum_concat(a.drop_first(), b);
    }
}

proof fn lemma_sum_nonneg(s: Seq<int>)
    requires
        forall|i: int| 0 <= i < s.len() ==> 0 <= #[trigger] s[i],
    ensures
        sum_of(s) >= 0,
    decreases s.len(),
{
    if s.len() > 0 {
        lemma_sum_nonneg(s.drop_first());
    }
}

/// The sum of a prefix of non-negative spans is bounded by the whole sum,
/// and taking one more span adds exactly that span.
proof fn lemma_sum_take(s: Seq<int>, i: int)
    requires
        0 <= i < s.len(),
        forall|k: int| 0 <= k < s.len() ==> 0 <= #[trigger] s[k],
    ensures
        sum_of(s.take(i + 1)) == sum_of(s.take(i)) + s[i],
        sum_of(s.take(i + 1)) <= sum_of(s),
{
    assert(s.take(i + 1) =~= s.take(i).push(s[i]));
    lemma_sum_push(s.take(i), s[i]);
    assert(s =~= s.take(i + 1) + s.skip(i + 1));
    lemma_sum_concat(s.take(i + 1), s.skip(i + 1));
    assert(forall|k: int| 0 <= k < s.skip(i + 1).len() ==> 0 <= #[trigger] s.skip(i + 1)[k]);
    lemma_sum_nonneg(s.skip(i + 1));
}

/// The total of a list of spans.
fn sum_spans(spans: &Vec<usize>) -> (r: usize)
    requires
        sum_of(spans@.map_values(|x: usize| x as int)) <= usize::MAX,
    ensures
        r == sum_of(spans@.map_values(|x: usize| x as int)),
{
    let ghost spans_m = spans@.map_values(|x: usize| x as int);
    proof {
        assert(spans_m.take(0) =~= Seq::<int>::empty());
    }
    let mut total: usize = 0;
    let mut i: usize = 0;
    while i < spans.len()
        invariant
            i <= spans@.len(),
            spans_m == spans@.map_values(|x: usize| x as int),
            forall|k: int| 0 <= k < spans_m.len() ==> 0 <= #[trigger] spans_m[k],
            sum_of(spans_m) <= usize::MAX,
            total == sum_of(spans_m.take(i as int)),
        decreases spans@.len() - i,
    {
        proof {
            lemma_sum_take(spans_m, i as int);
        }
        total = total + spans[i];
        i = i + 1;
    }
    proof {
        assert(spans_m.take(spans_m.len() as int) =~= spans_m);
    }
    total
}

/// Consumes `text` against `input` at position `pos`: the next characters
/// of the input must be exactly `text`.
fn consume_text_token(text: &str, input: &str, pos: usize) -> (r: Result<usize, ()>)
    requires
        pos <= input@.len(),
        input@.len() <= usize::MAX,
    ensures
        ({
            let fits = text@.len() <= input@.len() - pos && input@.skip(pos as int).take(
                text@.len() as int,
            ) == text@;
            match r {
                Ok(sp) => sp == text@.len() && fits,
                Err(()) => !fits,
            }
        }),
{
    let tlen = text.unicode_len();
    let ilen = input.unicode_len();
    if ilen - pos < tlen {
        return Err(());
    }
    let mut j: usize = 0;
    while j < tlen
        invariant
            j <= tlen,
            tlen == text@.len(),
            pos + tlen <= input@.len(),
            input@.len() <= usize::MAX,
            forall|k: int| 0 <= k < j ==> input@[pos + k] == text@[k],
        decreases tlen - j,
    {
        if input.get_char(pos + j) != text.get_char(j) {
            proof {
                assert(input@.skip(pos as int).take(tlen as int)[j as int] != text@[j as int]);
            }
            return Err(());
        }
        j = j + 1;
    }
    proof {
        assert(input@.skip(pos as int).take(tlen as int) =~= text@);
    }
    Ok(tlen)
}

/// Consumes a fixed-length token: `length` characters of arbitrary content.
fn consume_fixed_length_token(length: usize, input: &str, pos: usize) -> (r: Result<usize, ()>)
    requires
        pos <= input@.len(),
    ensures
        match r {
            Ok(sp) => sp == length && length <= input@.len() - pos,
            Err(()) => !(length <= input@.len() - pos),
        },
{
    let ilen = input.unicode_len();
    if ilen - pos >= length {
        Ok(length)
    } else {
        Err(())
    }
}

/// Consumes a wildcard at position `ti` of the token list: everything that
/// remains when it is the last token, otherwise up to the first split point
/// from which the tokens after it consume the rest of the input exactly.
fn consume_wildcard_token(tokens: &Vec<Token>, ti: usize, input: &str, pos: usize) -> (r: Result<
    usize,
    (),
>)
    requires
        ti < tokens@.len(),
        pos <= input@.len(),
        input@.len() <= usize::MAX,
        token_models(tokens@)[ti as int] is Wildcard,
    ensures
        ({
            let hs = head_span(token_models(tokens@).skip(ti as int), input@.skip(pos as int));
            match r {
                Ok(sp) => hs == Some(sp as int) && pos + sp <= input@.len(),
                Err(()) => hs is None,
            }
        }),
    decreases tokens@.len() - ti, input@.len() - pos, 0int,
{
    let ghost toks = token_models(tokens@).skip(ti as int);
    let ghost isfx = input@.skip(pos as int);
    proof {
        assert(toks[0] == token_models(tokens@)[ti as int]);
    }
    let ilen = input.unicode_len();
    let n = tokens.len();
    if ti + 1 == n {
        proof {
            assert(toks.len() == 1);
            assert(isfx.len() == ilen - pos);
        }
        return Ok(ilen - pos);
    }
    let ghost tail = token_models(tokens@).skip(ti as int + 1);
    proof {
        assert(toks.len() > 1);
        assert(toks.drop_first() =~= tail);
    }
    let mut k: usize = pos;
    while k < ilen
        invariant
            pos <= k <= ilen,
            ilen == input@.len(),
            ti + 1 < tokens@.len(),
            tokens@.len() <= usize::MAX,
            token_models(tokens@)[ti as int] is Wildcard,
            tail == token_models(tokens@).skip(ti as int + 1),
            isfx == input@.skip(pos as int),
            first_feasible(tail, isfx, 0) == first_feasible(tail, isfx, (k - pos) as nat),
        decreases ilen - k,
    {
        let ghost rel = (k - pos) as nat;
        proof {
            assert(isfx.skip(rel as int) =~= input@.skip(k as int));
            assert(isfx.len() == ilen - pos);
        }
        match consume_tokens(tokens, ti + 1, input, k) {
            Ok(spans) => {
                proof {
                    assert(token_spans(tail, isfx.skip(rel as int)) is Some);
                    lemma_token_spans_bounds(tail, input@.skip(k as int));
                    assert(input@.skip(k as int).len() == ilen - k);
                }
                let total = sum_spans(&spans);
                if total == ilen - k {
                    proof {
                        assert(covers(tail, isfx.skip(rel as int)));
                        assert(first_feasible(tail, isfx, rel) == Some(rel as int));
                        let toks2 = token_models(tokens@).skip(ti as int);
                        assert(toks2[0] == token_models(tokens@)[ti as int]);
                        assert(toks2.len() == tokens@.len() - ti);
                        assert(toks2.drop_first() =~= tail);
                        assert(isfx =~= input@.skip(pos as int));
                    }
                    return Ok(k - pos);
                } else {
                    proof {
                        assert(!covers(tail, isfx.skip(rel as int)));
                        assert(first_feasible(tail, isfx, rel) == first_feasible(
                            tail,
                            isfx,
                            rel + 1,
                        ));
                    }
                    k = k + 1;
                }
            },
            Err(()) => {
                proof {
                    assert(token_spans(tail, isfx.skip(rel as int)) is None);
                    assert(!covers(tail, isfx.skip(rel as int)));
                    assert(first_feasible(tail, isfx, rel) == first_feasible(tail, isfx, rel + 1));
                }
                k = k + 1;
            },
        }
    }
    // the last candidate split point: the end of the input, with an empty
    // remainder for the later tokens
    let ghost rel = (k - pos) as nat;
    proof {
        assert(isfx.len() == ilen - pos);
        assert(rel == isfx.len());
        assert(isfx.skip(rel as int) =~= input@.skip(k as int));
        let toks2 = token_models(tokens@).skip(ti as int);
        assert(toks2[0] == token_models(tokens@)[ti as int]);
        assert(toks2.len() == tokens@.len() - ti);
        assert(toks2.drop_first() =~= tail);
    }
    match consume_tokens(tokens, ti + 1, input, k) {
        Ok(spans) => {
            proof {
                assert(token_spans(tail, isfx.skip(rel as int)) is Some);
                lemma_token_spans_bounds(tail, input@.skip(k as int));
                assert(input@.skip(k as int).len() == 0);
            }
            let total = sum_spans(&spans);
            if total == 0 {
                proof {
                    assert(covers(tail, isfx.skip(rel as int)));
                    assert(first_feasible(tail, isfx, rel) == Some(rel as int));
                }
                return Ok(k - pos);
            }
            proof {
                assert(!covers(tail, isfx.skip(rel as int)));
                assert(first_feasible(tail, isfx, rel) == first_feasible(tail, isfx, rel + 1));
                assert(first_feasible(tail, isfx, rel + 1) is None);
            }
            Err(())
        },
        Err(()) => {
            proof {
                assert(token_spans(tail, isfx.skip(rel as int)) is None);
                assert(!covers(tail, isfx.skip(rel as int)));
                assert(first_feasible(tail, isfx, rel) == first_feasible(tail, isfx, rel + 1));
                assert(first_feasible(tail, isfx, rel + 1) is None);
            }
            Err(())
        },
    }
}

/// Consumes the token at position `ti`, dispatching on its kind.
fn consume_token(tokens: &Vec<Token>, ti: usize, input: &str, pos: usize) -> (r: Result<usize, ()>)
    requires
        ti < tokens@.len(),
        pos <= input@.len(),
        input@.len() <= usize::MAX,
    ensures
        ({
            let hs = head_span(token_models(tokens@).skip(ti as int), input@.skip(pos as int));
            match r {
                Ok(sp) => hs == Some(sp as int) && pos + sp <= input@.len(),
                Err(()) => hs is None,
            }
        }),
    decreases tokens@.len() - ti, input@.len() - pos, 1int,
{
    let ghost toks = token_models(tokens@).skip(ti as int);
    proof {
        assert(toks[0] == token_models(tokens@)[ti as int]);
        assert(token_models(tokens@)[ti as int] == tokens@[ti as int]@);
    }
    match &tokens[ti] {
        Token::Text(text) => {
            let r = consume_text_token(text.as_str(), input, pos);
            proof {
                let isfx = input@.skip(pos as int);
                assert(isfx.len() == input@.len() - pos);
                if r is Ok {
                    assert(isfx.take(text@.len() as int) == text@);
                }
            }
            r
        },
        Token::FixedLength(n) => consume_fixed_length_token(*n, input, pos),
        Token::Wildcard => consume_wildcard_token(tokens, ti, input, pos),
    }
}

/// Consumes the tokens from position `ti` on against `input` from position
/// `pos` on, returning each token's span in order.
fn consume_tokens(tokens: &Vec<Token>, ti: usize, input: &str, pos: usize) -> (r: Result<
    Vec<usize>,
    (),
>)
    requires
        ti <= tokens@.len(),
        pos <= input@.len(),
        input@.len() <= usize::MAX,
    ensures
        ({
            let expected = token_spans(
                token_models(tokens@).skip(ti as int),
                input@.skip(pos as int),
            );
            match r {
                Ok(v) => expected matches Some(s) && v@.map_values(|x: usize| x as int) == s,
                Err(()) => expected is None,
            }
        }),
    decreases tokens@.len() - ti, input@.len() - pos, 2int,
{
    let ghost toks = token_models(tokens@).skip(ti as int);
    let ghost isfx = input@.skip(pos as int);
    if ti == tokens.len() {
        let empty: Vec<usize> = Vec::new();
        proof {
            assert(toks =~= Seq::<SpecToken>::empty());
            assert(empty@.map_values(|x: usize| x as int) =~= Seq::<int>::empty());
        }
        return Ok(empty);
    }
    let span = match consume_token(tokens, ti, input, pos) {
        Ok(sp) => sp,
        Err(()) => {
            return Err(());
        },
    };
    proof {
        assert(toks.drop_first() =~= token_models(tokens@).skip(ti as int + 1));
        assert(isfx.skip(span as int) =~= input@.skip(pos as int + span as int));
    }
    let rest = match consume_tokens(tokens, ti + 1, input, pos + span) {
        Ok(v) => v,
        Err(()) => {
            return Err(());
        },
    };
    let ghost rest_spans = rest@.map_values(|x: usize| x as int);
    let mut result = rest;
    result.insert(0, span);
    proof {
        assert(result@.map_values(|x: usize| x as int) =~= seq![span as int] + rest_spans);
    }
    Ok(result)
}

/// The capture-group indices one element contributes to the flattened
/// index list, its group (if it is one) numbered `g`.
pub open spec fn element_indices(e: SpecElement, g: int) -> Seq<Option<int>> {
    match e {
        SpecElement::Token(_) => seq![None],
        SpecElement::Group(ts) => Seq::new(ts.len(), |i: int| Some(g)),
    }
}

/// How many capture groups one element contributes.
pub open spec fn element_group_count(e: SpecElement) -> nat {
    match e {
        SpecElement::Token(_) => 0,
        SpecElement::Group(_) => 1,
    }
}

/// The models of a list of optional capture-group indices.
pub open spec fn index_models(s: Seq<Option<usize>>) -> Seq<Option<int>> {
    s.map_values(
        |o: Option<usize>|
            match o {
                Some(g) => Some(g as int),
                None => None,
            },
    )
}

proof fn lemma_group_count_push(elements: Seq<SpecElement>, e: SpecElement)
    ensures
        group_count(elements.push(e)) == group_count(elements) + element_group_count(e),
    decreases elements.len(),
{
    if elements.len() == 0 {
        assert(elements.push(e).drop_first() =~= Seq::<SpecElement>::empty());
        assert(elements.push(e)[0] == e);
        assert(group_count(Seq::<SpecElement>::empty()) == 0);
    } else {
        assert(elements.push(e).drop_first() =~= elements.drop_first().push(e));
        lemma_group_count_push(elements.drop_first(), e);
    }
}

proof fn lemma_group_count_le_len(elements: Seq<SpecElement>)
    ensures
        group_count(elements) <= elements.len(),
    decreases elements.len(),
{
    if elements.len() > 0 {
        lemma_group_count_le_len(elements.drop_first());
    }
}

proof fn lemma_flat_indices_push(elements: Seq<SpecElement>, e: SpecElement, g: int)
    ensures
        flat_indices_from(elements.push(e), g) == flat_indices_from(elements, g)
            + element_indices(e, g + group_count(elements)),
    decreases elements.len(),
{
    if elements.len() == 0 {
        assert(elements.push(e).drop_first() =~= Seq::<SpecElement>::empty());
        assert(elements.push(e)[0] == e);
        assert(flat_indices_from(Seq::<SpecElement>::empty(), g) =~= Seq::<Option<int>>::empty());
        assert(flat_indices_from(Seq::<SpecElement>::empty(), g + 1) =~= Seq::<
            Option<int>,
        >::empty());
        match e {
            SpecElement::Token(_) => {
                assert(flat_indices_from(elements.push(e), g) =~= element_indices(e, g));
            },
            SpecElement::Group(ts) => {
                assert(flat_indices_from(elements.push(e), g) =~= element_indices(e, g));
            },
        }
        assert(flat_indices_from(elements, g) + element_indices(e, g) =~= element_indices(e, g));
    } else {
        assert(elements.push(e).drop_first() =~= elements.drop_first().push(e));
        assert(elements.push(e)[0] == elements[0]);
        match elements[0] {
            SpecElement::Token(_) => {
                lemma_flat_indices_push(elements.drop_first(), e, g);
                assert(flat_indices_from(elements.push(e), g) =~= flat_indices_from(elements, g)
                    + element_indices(e, g + group_count(elements)));
            },
            SpecElement::Group(ts) => {
                lemma_flat_indices_push(elements.drop_first(), e, g + 1);
                assert(flat_indices_from(elements.push(e), g) =~= flat_indices_from(elements, g)
                    + element_indices(e, g + group_count(elements)));
            },
        }
    }
}

proof fn lemma_flat_lens(elements: Seq<SpecElement>, g: int)
    ensures
        flat_indices_from(elements, g).len() == flat_tokens(elements).len(),
    decreases elements.len(),
{
    if elements.len() > 0 {
        match elements[0] {
            SpecElement::Token(_) => lemma_flat_lens(elements.drop_first(), g),
            SpecElement::Group(ts) => lemma_flat_lens(elements.drop_first(), g + 1),
        }
    }
}

/// A copy of a token with the same model.
fn clone_token(t: &Token) -> (r: Token)
    ensures
        r@ == t@,
{
    match t {
        Token::Text(s) => Token::Text(s.clone()),
        Token::FixedLength(n) => Token::FixedLength(*n),
        Token::Wildcard => Token::Wildcard,
    }
}

/// A compiled matcher: the pattern's flattened token stream, the parallel
/// capture-group index of each token, and the number of capture groups.
pub struct MatcherImpl {
    tokens: Vec<Token>,
    capture_group_indices: Vec<Option<usize>>,
    num_groups: usize,
    pattern: Ghost<Seq<SpecElement>>,
}

impl MatcherImpl {
    /// The pattern this matcher was compiled from.
    pub closed spec fn pattern(&self) -> Seq<SpecElement> {
        self.pattern@
    }

    /// The compiled fields agree with the pattern.
    pub closed spec fn wf(&self) -> bool {
        &&& token_models(self.tokens@) == flat_tokens(self.pattern@)
        &&& index_models(self.capture_group_indices@) == flat_indices(self.pattern@)
        &&& self.capture_group_indices@.len() == self.tokens@.len()
        &&& self.num_groups == group_count(self.pattern@)
    }

    /// Compiles a pattern once: its flattened token stream and, for each
    /// token, the index of the capture group it belongs to, groups numbered
    /// by order of appearance from 0; tokens outside any group map to none.
    fn compile(pattern: Pattern) -> (r: (Vec<Token>, Vec<Option<usize>>))
        ensures
            token_models(r.0@) == flat_tokens(pattern@),
            index_models(r.1@) == flat_indices(pattern@),
    {
        let mut tokens: Vec<Token> = Vec::new();
        let mut indices: Vec<Option<usize>> = Vec::new();
        let mut group: usize = 0;
        let mut e: usize = 0;
        proof {
            assert(pattern@.take(0) =~= Seq::<SpecElement>::empty());
            assert(token_models(tokens@) =~= Seq::<SpecToken>::empty());
            assert(index_models(indices@) =~= Seq::<Option<int>>::empty());
        }
        while e < pattern.elements.len()
            invariant
                e <= pattern.elements@.len(),
                group <= e,
                token_models(tokens@) == flat_tokens(pattern@.take(e as int)),
                index_models(indices@) == flat_indices_from(pattern@.take(e as int), 0),
                group == group_count(pattern@.take(e as int)),
            decreases pattern.elements@.len() - e,
        {
            let ghost prefix = pattern@.take(e as int);
            let ghost elem = pattern@[e as int];
            proof {
                assert(pattern@[e as int] == pattern.elements@[e as int]@);
                assert(prefix.push(elem) =~= pattern@.take(e as int + 1));
                lemma_flat_tokens_push(prefix, elem);
                lemma_flat_indices_push(prefix, elem, 0);
                lemma_group_count_push(prefix, elem);
            }
            match &pattern.elements[e] {
                Element::Token(t) => {
                    let ghost old_tokens = tokens@;
                    let ghost old_indices = indices@;
                    tokens.push(clone_token(t));
                    indices.push(None);
                    proof {
                        assert(token_models(tokens@) =~= token_models(old_tokens).push(t@));
                        assert(element_tokens(elem) =~= seq![t@]);
                        assert(token_models(old_tokens).push(t@) =~= token_models(old_tokens)
                            + seq![t@]);
                        assert(index_models(indices@) =~= index_models(old_indices) + seq![
                            None::<int>,
                        ]);
                        assert(element_indices(elem, group_count(prefix) as int) =~= seq![
                            None::<int>,
                        ]);
                    }
                },
                Element::Group(ts) => {
                    let mut j: usize = 0;
                    proof {
                        assert(token_models(ts@).take(0) =~= Seq::<SpecToken>::empty());
                        assert(token_models(tokens@) + token_models(ts@).take(0) =~= token_models(
                            tokens@,
                        ));
                        assert(Seq::new(0, |i: int| Some(group as int))
                            =~= Seq::<Option<int>>::empty());
                        assert(index_models(indices@) + Seq::<Option<int>>::empty() =~=
                            index_models(indices@));
                    }
                    while j < ts.len()
                        invariant
                            j <= ts@.len(),
                            token_models(tokens@) == flat_tokens(prefix) + token_models(ts@).take(
                                j as int,
                            ),
                            index_models(indices@) == flat_indices_from(prefix, 0) + Seq::new(
                                j as nat,
                                |i: int| Some(group as int),
                            ),
                        decreases ts@.len() - j,
                    {
                        let ghost old_tokens = tokens@;
                        let ghost old_indices = indices@;
                        tokens.push(clone_token(&ts[j]));
                        indices.push(Some(group));
                        proof {
                            assert(token_models(tokens@) =~= token_models(old_tokens).push(
                                ts@[j as int]@,
                            ));
                            assert(token_models(ts@).take(j as int + 1) =~= token_models(
                                ts@,
                            ).take(j as int).push(ts@[j as int]@));
                            assert(flat_tokens(prefix) + token_models(ts@).take(j as int + 1)
                                =~= (flat_tokens(prefix) + token_models(ts@).take(j as int)).push(
                                ts@[j as int]@,
                            ));
                            assert(index_models(indices@) =~= index_models(old_indices).push(
                                Some(group as int),
                            ));
                            assert(Seq::new(j as nat + 1, |i: int| Some(group as int)) =~= Seq::new(
                                j as nat,
                                |i: int| Some(group as int),
                            ).push(Some(group as int)));
                            assert(flat_indices_from(prefix, 0) + Seq::new(
                                j as nat + 1,
                                |i: int| Some(group as int),
                            ) =~= (flat_indices_from(prefix, 0) + Seq::new(
                                j as nat,
                                |i: int| Some(group as int),
                            )).push(Some(group as int)));
                        }
                        j = j + 1;
                    }
                    proof {
                        assert(token_models(ts@).take(ts@.len() as int) =~= token_models(ts@));
                        assert(element_tokens(elem) =~= token_models(ts@));
                        assert(element_indices(elem, group_count(prefix) as int) =~= Seq::new(
                            ts@.len(),
                            |i: int| Some(group as int),
                        ));
                    }
                    group = group + 1;
                },
            }
            e = e + 1;
        }
        proof {
            assert(pattern@.take(pattern@.len() as int) =~= pattern@);
        }
        (tokens, indices)
    }

    /// Counts the pattern's capture groups: one per `Group` element.
    fn count_groups(pattern: &Pattern) -> (r: usize)
        ensures
            r == group_count(pattern@),
    {
        let mut count: usize = 0;
        let mut e: usize = 0;
        proof {
            assert(pattern@.take(0) =~= Seq::<SpecElement>::empty());
        }
        while e < pattern.elements.len()
            invariant
                e <= pattern.elements@.len(),
                count <= e,
                count == group_count(pattern@.take(e as int)),
            decreases pattern.elements@.len() - e,
        {
            proof {
                assert(pattern@[e as int] == pattern.elements@[e as int]@);
                assert(pattern@.take(e as int).push(pattern@[e as int]) =~= pattern@.take(
                    e as int + 1,
                ));
                lemma_group_count_push(pattern@.take(e as int), pattern@[e as int]);
            }
            match &pattern.elements[e] {
                Element::Group(_) => {
                    count = count + 1;
                },
                Element::Token(_) => {},
            }
            e = e + 1;
        }
        proof {
            assert(pattern@.take(pattern@.len() as int) =~= pattern@);
        }
        count
    }

    /// Compiles `pattern` into a matcher that can be used against many
    /// candidate names.
    pub fn new(pattern: Pattern) -> (r: Self)
        ensures
            r.wf(),
            r.pattern() == pattern@,
    {
        let ghost p = pattern@;
        let num_groups = Self::count_groups(&pattern);
        let (tokens, capture_group_indices) = Self::compile(pattern);
        proof {
            lemma_flat_lens(p, 0);
        }
        MatcherImpl { tokens, capture_group_indices, num_groups, pattern: Ghost(p) }
    }
}

/// The concatenation, in token order, of the input pieces the tokens from
/// position `i` on consumed, token `i` starting at input position `pos`.
pub open spec fn matched_pieces(spans: Seq<int>, input: Seq<char>, i: int, pos: int) -> Seq<char>
    decreases spans.len() - i,
{
    if i < 0 || i >= spans.len() {
        Seq::empty()
    } else {
        input.subrange(pos, pos + spans[i]) + matched_pieces(spans, input, i + 1, pos + spans[i])
    }
}

proof fn lemma_pieces_cover(spans: Seq<int>, input: Seq<char>, i: int, pos: int)
    requires
        0 <= i <= spans.len(),
        0 <= pos,
        forall|k: int| 0 <= k < spans.len() ==> 0 <= #[trigger] spans[k],
        pos + sum_of(spans.skip(i)) <= input.len(),
    ensures
        matched_pieces(spans, input, i, pos) == input.subrange(pos, pos + sum_of(spans.skip(i))),
    decreases spans.len() - i,
{
    if i == spans.len() {
        assert(spans.skip(i) =~= Seq::<int>::empty());
        assert(sum_of(Seq::<int>::empty()) == 0);
        assert(matched_pieces(spans, input, i, pos) =~= input.subrange(pos, pos));
    } else {
        assert(spans.skip(i).drop_first() =~= spans.skip(i + 1));
        assert(spans.skip(i)[0] == spans[i]);
        assert(sum_of(spans.skip(i)) == spans[i] + sum_of(spans.skip(i + 1)));
        assert(forall|k: int|
            0 <= k < spans.skip(i + 1).len() ==> 0 <= #[trigger] spans.skip(i + 1)[k]);
        lemma_sum_nonneg(spans.skip(i + 1));
        lemma_pieces_cover(spans, input, i + 1, pos + spans[i]);
        assert(input.subrange(pos, pos + spans[i]) + input.subrange(
            pos + spans[i],
            pos + spans[i] + sum_of(spans.skip(i + 1)),
        ) =~= input.subrange(pos, pos + sum_of(spans.skip(i))));
    }
}

/// Every successful match covers the input exactly: concatenating, in token
/// order, the substrings the tokens consumed reconstructs the whole input,
/// with no gap and no overlap.
pub proof fn theorem_match_covers_input(elements: Seq<SpecElement>, input: Seq<char>)
    requires
        match_result(elements, input) is Some,
    ensures
        matched_pieces(token_spans(flat_tokens(elements), input)->Some_0, input, 0, 0) == input,
{
    let toks = flat_tokens(elements);
    lemma_token_spans_bounds(toks, input);
    let spans = token_spans(toks, input)->Some_0;
    assert(spans.skip(0) =~= spans);
    assert(sum_of(spans) == input.len());
    lemma_pieces_cover(spans, input, 0, 0);
    assert(input.subrange(0, input.len() as int) =~= input);
}

/// A token stream of literal text tokens only.
pub open spec fn all_text(toks: Seq<SpecToken>) -> bool {
    forall|i: int| 0 <= i < toks.len() ==> toks[i] is Text
}

/// The concatenation of the literal text of a stream of text tokens.
pub open spec fn text_concat(toks: Seq<SpecToken>) -> Seq<char>
    decreases toks.len(),
{
    if toks.len() == 0 {
        Seq::empty()
    } else {
        (match toks[0] {
            SpecToken::Text(t) => t,
            _ => Seq::empty(),
        }) + text_concat(toks.drop_first())
    }
}

proof fn lemma_text_only_spans(toks: Seq<SpecToken>, input: Seq<char>)
    requires
        all_text(toks),
    ensures
        (token_spans(toks, input) matches Some(spans) && sum_of(spans) == input.len()) <==> input
            == text_concat(toks),
    decreases toks.len(),
{
    if toks.len() == 0 {
        assert(token_spans(toks, input) == Some(Seq::<int>::empty()));
        assert(sum_of(Seq::<int>::empty()) == 0);
        if input.len() == 0 {
            assert(input =~= text_concat(toks));
        }
    } else {
        assert(toks[0] is Text);
        let t = (match toks[0] {
            SpecToken::Text(t0) => t0,
            _ => Seq::empty(),
        });
        assert(forall|i: int|
            0 <= i < toks.drop_first().len() ==> #[trigger] toks.drop_first()[i] is Text);
        lemma_text_only_spans(toks.drop_first(), input.skip(t.len() as int));
        if input == text_concat(toks) {
            assert(input == t + text_concat(toks.drop_first()));
            assert(t.len() <= input.len());
            assert(input.take(t.len() as int) =~= t);
            assert(input.skip(t.len() as int) =~= text_concat(toks.drop_first()));
            assert(head_span(toks, input) == Some(t.len() as int));
            match token_spans(toks.drop_first(), input.skip(t.len() as int)) {
                Some(rest) => {
                    let spans = seq![t.len() as int] + rest;
                    assert(token_spans(toks, input) == Some(spans));
                    assert(spans.drop_first() =~= rest);
                    assert(sum_of(spans) == t.len() + sum_of(rest));
                    assert(sum_of(rest) == input.skip(t.len() as int).len());
                    assert(sum_of(spans) == input.len());
                },
                None => {
                    assert(false);
                },
            }
        }
        match token_spans(toks, input) {
            Some(spans) => {
                if sum_of(spans) == input.len() {
                    assert(head_span(toks, input) == Some(t.len() as int));
                    assert(t.len() <= input.len() && input.take(t.len() as int) == t);
                    match token_spans(toks.drop_first(), input.skip(t.len() as int)) {
                        Some(rest) => {
                            assert(spans == seq![t.len() as int] + rest);
                            assert(spans.drop_first() =~= rest);
                            assert(sum_of(rest) == input.len() - t.len());
                            assert(sum_of(rest) == input.skip(t.len() as int).len());
                            assert(input.skip(t.len() as int) == text_concat(toks.drop_first()));
                            assert(input =~= t + text_concat(toks.drop_first()));
                        },
                        None => {
                            assert(false);
                        },
                    }
                }
            },
            None => {},
        }
    }
}

/// For a pattern with no wildcards and no fixed-length tokens, matching
/// succeeds exactly when the input equals the pattern's literal text: the
/// concatenation of its text tokens.
pub proof fn theorem_text_only_round_trip(elements: Seq<SpecElement>, input: Seq<char>)
    requires
        all_text(flat_tokens(elements)),
    ensures
        (match_result(elements, input) is Some) <==> input == text_concat(flat_tokens(elements)),
{
    lemma_text_only_spans(flat_tokens(elements), input);
}

impl MatcherImpl {
    /// Matches `input` against the compiled pattern: an exact full-string
    /// match, not a substring search.  On success the result holds one entry
    /// per capture group, ordered by group index, each the concatenation in
    /// token order of what the group's tokens consumed; on failure the
    /// outcome is an opaque no-match.
    pub fn match_against(&self, input: &str) -> (r: Result<Vec<CaptureGroup>, ()>)
        requires
            self.wf(),
        ensures
            ({
                let res = match_result(self.pattern(), input@);
                match r {
                    Ok(caps) => res matches Some(expected) && caps@.map_values(
                        |c: CaptureGroup| c@,
                    ) == expected,
                    Err(()) => res is None,
                }
            }),
    {
        let ghost p = self.pattern@;
        let ghost toks = flat_tokens(p);
        let ghost idx = flat_indices(p);
        let input_len = input.unicode_len();
        proof {
            assert(token_models(self.tokens@).skip(0) =~= toks);
            assert(input@.skip(0) =~= input@);
            lemma_flat_lens(p, 0);
        }
        let spans = match consume_tokens(&self.tokens, 0, input, 0) {
            Ok(v) => v,
            Err(()) => {
                return Err(());
            },
        };
        let ghost spans_m = spans@.map_values(|x: usize| x as int);
        proof {
            lemma_token_spans_bounds(toks, input@);
        }
        let total = sum_spans(&spans);
        if total != input_len {
            return Err(());
        }
        let mut caps: Vec<CaptureGroup> = Vec::new();
        let mut g: usize = 0;
        while g < self.num_groups
            invariant
                g <= self.num_groups,
                self.wf(),
                p == self.pattern@,
                toks == flat_tokens(p),
                idx == flat_indices(p),
                idx.len() == self.tokens@.len(),
                token_spans(toks, input@) == Some(spans_m),
                spans_m == spans@.map_values(|x: usize| x as int),
                spans_m.len() == self.tokens@.len(),
                forall|k: int| 0 <= k < spans_m.len() ==> 0 <= #[trigger] spans_m[k],
                sum_of(spans_m) == input@.len(),
                input@.len() <= usize::MAX,
                caps@.len() == g,
                forall|h: int|
                    0 <= h < g ==> #[trigger] caps@[h]@ == captured_from(
                        idx,
                        spans_m,
                        input@,
                        h,
                        0,
                        0,
                    ),
            decreases self.num_groups - g,
        {
            let mut contents = String::new();
            let mut ti: usize = 0;
            let mut pos: usize = 0;
            proof {
                assert(spans_m.take(0) =~= Seq::<int>::empty());
                assert(contents@ + captured_from(idx, spans_m, input@, g as int, 0, 0)
                    =~= captured_from(idx, spans_m, input@, g as int, 0, 0));
            }
            while ti < self.tokens.len()
                invariant
                    self.wf(),
                    p == self.pattern@,
                    idx == flat_indices(p),
                    idx.len() == self.tokens@.len(),
                    spans_m == spans@.map_values(|x: usize| x as int),
                    spans_m.len() == self.tokens@.len(),
                    forall|k: int| 0 <= k < spans_m.len() ==> 0 <= #[trigger] spans_m[k],
                    sum_of(spans_m) == input@.len(),
                    input@.len() <= usize::MAX,
                    ti <= self.tokens@.len(),
                    pos == sum_of(spans_m.take(ti as int)),
                    pos <= input@.len(),
                    contents@ + captured_from(idx, spans_m, input@, g as int, ti as int, pos as int)
                        == captured_from(idx, spans_m, input@, g as int, 0, 0),
                decreases self.tokens@.len() - ti,
            {
                proof {
                    lemma_sum_take(spans_m, ti as int);
                }
                let sp = spans[ti];
                let next_pos = pos + sp;
                let ghost piece = (if idx[ti as int] == Some(g as int) {
                    input@.subrange(pos as int, pos as int + spans_m[ti as int])
                } else {
                    Seq::<char>::empty()
                });
                proof {
                    assert(idx[ti as int] == (match self.capture_group_indices@[ti as int] {
                        Some(x) => Some(x as int),
                        None => None::<int>,
                    }));
                }
                let is_mine = match self.capture_group_indices[ti] {
                    Some(gi) => gi == g,
                    None => false,
                };
                let ghost old_contents = contents@;
                if is_mine {
                    let part = input.substring_char(pos, next_pos);
                    contents.append(part);
                }
                proof {
                    assert(contents@ =~= old_contents + piece);
                    assert(captured_from(idx, spans_m, input@, g as int, ti as int, pos as int)
                        == piece + captured_from(
                        idx,
                        spans_m,
                        input@,
                        g as int,
                        ti as int + 1,
                        pos as int + spans_m[ti as int],
                    ));
                    assert((old_contents + piece) + captured_from(
                        idx,
                        spans_m,
                        input@,
                        g as int,
                        ti as int + 1,
                        next_pos as int,
                    ) =~= old_contents + (piece + captured_from(
                        idx,
                        spans_m,
                        input@,
                        g as int,
                        ti as int + 1,
                        next_pos as int,
                    )));
                }
                pos = next_pos;
                ti = ti + 1;
            }
            proof {
                assert(captured_from(
                    idx,
                    spans_m,
                    input@,
                    g as int,
                    self.tokens@.len() as int,
                    pos as int,
                ) == Seq::<char>::empty());
                assert(contents@ + Seq::<char>::empty() =~= contents@);
            }
            caps.push(CaptureGroup { contents });
            g = g + 1;
        }
        proof {
            assert(caps@.map_values(|c: CaptureGroup| c@) =~= Seq::new(
                group_count(p),
                |gg: int| captured_from(idx, spans_m, input@, gg, 0, 0),
            ));
        }
        Ok(caps)
    }
}

} // verus!
