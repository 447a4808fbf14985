//! The matching side of the pattern language: token and element types and
//! their mathematical models.
//!
//! A matching pattern is an ordered sequence of elements.  An element is a
//! bare token or a parenthesized group of tokens forming one capture group.
//! A token matches literal text, a fixed number of characters, or a
//! variable-length run of characters.

use vstd::prelude::*;

verus! {

/// The smallest unit of the matching grammar.
#[derive(Debug, PartialEq, Eq, Clone)]
pub enum Token {
    /// Matches exactly this literal string.
    Text(String),
    /// Matches exactly this many characters of arbitrary content.
    FixedLength(usize),
    /// Matches a variable-length run of arbitrary content.
    Wildcard,
}

/// A bare token, or a group of tokens that together form one capture group.
#[derive(Debug, PartialEq, Eq, Clone)]
pub enum Element {
    /// A token outside any capture group.
    Token(Token),
    /// One capture group: a non-empty run of tokens.
    Group(Vec<Token>),
}

/// A parsed matching pattern: an ordered sequence of elements.
#[derive(Debug, PartialEq, Eq, Clone)]
pub struct Pattern {
    /// The elements, in the order they appear in the pattern string.
    pub elements: Vec<Element>,
}

/// The mathematical model of a [`Token`]: text as a sequence of characters,
/// a fixed length as a natural number.
pub enum SpecToken {
    Text(Seq<char>),
    FixedLength(nat),
    Wildcard,
}

/// The mathematical model of an [`Element`].
pub enum SpecElement {
    Token(SpecToken),
    Group(Seq<SpecToken>),
}

impl View for Token {
    type V = SpecToken;

    open spec fn view(&self) -> SpecToken {
        match self {
            Token::Text(s) => SpecToken::Text(s@),
            Token::FixedLength(n) => SpecToken::FixedLength(*n as nat),
            Token::Wildcard => SpecToken::Wildcard,
        }
    }
}

impl View for Element {
    type V = SpecElement;

    open spec fn view(&self) -> SpecElement {
        match self {
            Element::Token(t) => SpecElement::Token(t@),
            Element::Group(ts) => SpecElement::Group(token_models(ts@)),
        }
    }
}

impl View for Pattern {
    type V = Seq<SpecElement>;

    open spec fn view(&self) -> Seq<SpecElement> {
        self.elements@.map_values(|e: Element| e@)
    }
}

/// The models of a sequence of tokens.
pub open spec fn token_models(ts: Seq<Token>) -> Seq<SpecToken> {
    ts.map_values(|t: Token| t@)
}

/// The tokens an element contributes to the flattened token stream.
pub open spec fn element_tokens(e: SpecElement) -> Seq<SpecToken> {
    match e {
        SpecElement::Token(t) => seq![t],
        SpecElement::Group(ts) => ts,
    }
}

/// The flattened token stream of a pattern: every element's tokens in order,
/// with group boundaries erased.
pub open spec fn flat_tokens(elements: Seq<SpecElement>) -> Seq<SpecToken>
    decreases elements.len(),
{
    if elements.len() == 0 {
        Seq::empty()
    } else {
        element_tokens(elements[0]) + flat_tokens(elements.drop_first())
    }
}

/// The surface form of one token in the glob projection: `Text` verbatim,
/// `FixedLength(n)` as `n` question marks, `Wildcard` as an asterisk.
pub open spec fn token_glob(t: SpecToken) -> Seq<char> {
    match t {
        SpecToken::Text(s) => s,
        SpecToken::FixedLength(n) => Seq::new(n, |i: int| '?'),
        SpecToken::Wildcard => seq!['*'],
    }
}

/// The glob projection of a token stream: each token's surface form,
/// concatenated.
pub open spec fn glob_of_tokens(ts: Seq<SpecToken>) -> Seq<char>
    decreases ts.len(),
{
    if ts.len() == 0 {
        Seq::empty()
    } else {
        token_glob(ts[0]) + glob_of_tokens(ts.drop_first())
    }
}

/// The glob projection of a pattern: the glob projection of its flattened
/// token stream, so group boundaries are erased.
pub open spec fn glob_of(elements: Seq<SpecElement>) -> Seq<char> {
    glob_of_tokens(flat_tokens(elements))
}

/// Flattening distributes over appending one element.
pub proof fn lemma_flat_tokens_push(elements: Seq<SpecElement>, e: SpecElement)
    ensures
        flat_tokens(elements.push(e)) == flat_tokens(elements) + element_tokens(e),
    decreases elements.len(),
{
    if elements.len() == 0 {
        assert(elements.push(e).drop_first() =~= Seq::<SpecElement>::empty());
        assert(flat_tokens(Seq::<SpecElement>::empty()) =~= Seq::<SpecToken>::empty());
        assert(elements.push(e)[0] == e);
        assert(flat_tokens(elements.push(e)) =~= element_tokens(e));
        assert(flat_tokens(elements) + element_tokens(e) =~= element_tokens(e));
    } else {
        assert(elements.push(e).drop_first() =~= elements.drop_first().push(e));
        lemma_flat_tokens_push(elements.drop_first(), e);
        assert(flat_tokens(elements.push(e)) =~= flat_tokens(elements) + element_tokens(e));
    }
}

proof fn lemma_glob_of_tokens_push(ts: Seq<SpecToken>, t: SpecToken)
    ensures
        glob_of_tokens(ts.push(t)) == glob_of_tokens(ts) + token_glob(t),
    decreases ts.len(),
{
    if ts.len() == 0 {
        assert(ts.push(t).drop_first() =~= Seq::<SpecToken>::empty());
        assert(glob_of_tokens(Seq::<SpecToken>::empty()) =~= Seq::<char>::empty());
        assert(ts.push(t)[0] == t);
        assert(glob_of_tokens(ts.push(t)) =~= token_glob(t));
        assert(glob_of_tokens(ts) + token_glob(t) =~= token_glob(t));
    } else {
        assert(ts.push(t).drop_first() =~= ts.drop_first().push(t));
        lemma_glob_of_tokens_push(ts.drop_first(), t);
        assert(glob_of_tokens(ts.push(t)) =~= glob_of_tokens(ts) + token_glob(t));
    }
}

/// The error both parsers report: the pattern string does not decompose
/// into the grammar, or it is semantically ambiguous.
#[derive(Debug, PartialEq, Eq, Clone)]
pub enum ParsingError {
    /// The given pattern is not valid.
    InvalidSyntax,
}

/// Whether a token stream holds two wildcards that are adjacent once all
/// fixed-length tokens are ignored.  Such a pattern is rejected at parse
/// time: fixed-length tokens have unambiguous width, so they cannot settle
/// which wildcard owns which characters.
pub open spec fn has_adjacent_wildcards(toks: Seq<SpecToken>) -> bool {
    exists|i: int, j: int|
        #![trigger toks[i], toks[j]]
        0 <= i < j < toks.len() && toks[i] is Wildcard && toks[j] is Wildcard && (forall|k: int|
            i < k < j ==> toks[k] is FixedLength)
}

/// Whether the stream ends in a wildcard followed only by fixed-length
/// tokens: one more wildcard would then be adjacent to it.
pub open spec fn open_wildcard(toks: Seq<SpecToken>) -> bool {
    exists|i: int|
        0 <= i < toks.len() && #[trigger] toks[i] is Wildcard && (forall|k: int|
            i < k < toks.len() ==> toks[k] is FixedLength)
}

/// How one more token changes the two predicates above.
proof fn lemma_adjacent_step(prefix: Seq<SpecToken>, t: SpecToken)
    ensures
        open_wildcard(prefix.push(t)) == (t is Wildcard || (t is FixedLength && open_wildcard(
            prefix,
        ))),
        has_adjacent_wildcards(prefix.push(t)) == (has_adjacent_wildcards(prefix) || (
        t is Wildcard && open_wildcard(prefix))),
{
    let ext = prefix.push(t);
    let n = prefix.len() as int;
    assert(forall|k: int| 0 <= k < n ==> ext[k] == prefix[k]);
    assert(ext[n] == t);

    // open_wildcard, sufficient conditions
    if t is Wildcard {
        assert(ext[n] is Wildcard);
        assert(open_wildcard(ext));
    }
    if t is FixedLength && open_wildcard(prefix) {
        let i = choose|i: int|
            0 <= i < prefix.len() && #[trigger] prefix[i] is Wildcard && (forall|k: int|
                i < k < prefix.len() ==> prefix[k] is FixedLength);
        assert(ext[i] is Wildcard);
        assert(forall|k: int| i < k < ext.len() ==> ext[k] is FixedLength);
        assert(open_wildcard(ext));
    }
    // open_wildcard, necessary condition
    if open_wildcard(ext) {
        let i = choose|i: int|
            0 <= i < ext.len() && #[trigger] ext[i] is Wildcard && (forall|k: int|
                i < k < ext.len() ==> ext[k] is FixedLength);
        if i == n {
            assert(t is Wildcard);
        } else {
            assert(ext[n] is FixedLength);
            assert(t is FixedLength);
            assert(prefix[i] is Wildcard);
            assert(forall|k: int| i < k < prefix.len() ==> prefix[k] is FixedLength);
            assert(open_wildcard(prefix));
        }
    }

    // has_adjacent_wildcards, sufficient conditions
    if has_adjacent_wildcards(prefix) {
        let (i, j) = choose|i: int, j: int|
            #![trigger prefix[i], prefix[j]]
            0 <= i < j < prefix.len() && prefix[i] is Wildcard && prefix[j] is Wildcard && (
            forall|k: int| i < k < j ==> prefix[k] is FixedLength);
        assert(ext[i] is Wildcard && ext[j] is Wildcard);
        assert(forall|k: int| i < k < j ==> ext[k] is FixedLength);
        assert(has_adjacent_wildcards(ext));
    }
    if t is Wildcard && open_wildcard(prefix) {
        let i = choose|i: int|
            0 <= i < prefix.len() && #[trigger] prefix[i] is Wildcard && (forall|k: int|
                i < k < prefix.len() ==> prefix[k] is FixedLength);
        assert(ext[i] is Wildcard && ext[n] is Wildcard);
        assert(forall|k: int| i < k < n ==> ext[k] is FixedLength);
        assert(has_adjacent_wildcards(ext));
    }
    // has_adjacent_wildcards, necessary condition
    if has_adjacent_wildcards(ext) {
        let (i, j) = choose|i: int, j: int|
            #![trigger ext[i], ext[j]]
            0 <= i < j < ext.len() && ext[i] is Wildcard && ext[j] is Wildcard && (forall|k: int|
                i < k < j ==> ext[k] is FixedLength);
        if j < n {
            assert(prefix[i] is Wildcard && prefix[j] is Wildcard);
            assert(forall|k: int| i < k < j ==> prefix[k] is FixedLength);
            assert(has_adjacent_wildcards(prefix));
        } else {
            assert(j == n);
            assert(t is Wildcard);
            assert(prefix[i] is Wildcard);
            assert(forall|k: int| i < k < prefix.len() ==> prefix[k] is FixedLength);
            assert(open_wildcard(prefix));
        }
    }
}

/// Whether the pattern holds two wildcards that are adjacent once all
/// fixed-length tokens are ignored, within one group or across group
/// boundaries.
pub fn contains_repeated_wildcards(pattern: &Pattern) -> (r: bool)
    ensures
        r == has_adjacent_wildcards(flat_tokens(pattern@)),
{
    let mut found: bool = false;
    let mut wild: bool = false;
    let mut e: usize = 0;
    let ghost whole = flat_tokens(pattern@);
    proof {
        assert(pattern@.take(0) =~= Seq::<SpecElement>::empty());
        assert(!open_wildcard(flat_tokens(pattern@.take(0))));
        assert(!has_adjacent_wildcards(flat_tokens(pattern@.take(0))));
    }
    while e < pattern.elements.len()
        invariant
            e <= pattern.elements@.len(),
            found == has_adjacent_wildcards(flat_tokens(pattern@.take(e as int))),
            wild == open_wildcard(flat_tokens(pattern@.take(e as int))),
        decreases pattern.elements@.len() - e,
    {
        let ghost prefix = flat_tokens(pattern@.take(e as int));
        proof {
            assert(pattern@[e as int] == pattern.elements@[e as int]@);
            assert(pattern@.take(e as int).push(pattern@[e as int]) =~= pattern@.take(e as int + 1));
            lemma_flat_tokens_push(pattern@.take(e as int), pattern@[e as int]);
        }
        match &pattern.elements[e] {
            Element::Token(t) => {
                proof {
                    assert(element_tokens(pattern@[e as int]) =~= seq![t@]);
                    assert(prefix + seq![t@] =~= prefix.push(t@));
                    lemma_adjacent_step(prefix, t@);
                }
                match t {
                    Token::Wildcard => {
                        if wild {
                            found = true;
                        }
                        wild = true;
                    },
                    Token::FixedLength(_) => {},
                    Token::Text(_) => {
                        wild = false;
                    },
                }
            },
            Element::Group(ts) => {
                proof {
                    assert(element_tokens(pattern@[e as int]) =~= token_models(ts@));
                }
                let mut j: usize = 0;
                proof {
                    assert(token_models(ts@).take(0) =~= Seq::<SpecToken>::empty());
                    assert(prefix + token_models(ts@).take(0) =~= prefix);
                }
                while j < ts.len()
                    invariant
                        j <= ts@.len(),
                        found == has_adjacent_wildcards(prefix + token_models(ts@).take(j as int)),
                        wild == open_wildcard(prefix + token_models(ts@).take(j as int)),
                    decreases ts@.len() - j,
                {
                    let ghost sofar = prefix + token_models(ts@).take(j as int);
                    proof {
                        assert(token_models(ts@).take(j as int + 1) =~= token_models(ts@).take(
                            j as int,
                        ).push(ts@[j as int]@));
                        assert(prefix + token_models(ts@).take(j as int + 1) =~= sofar.push(
                            ts@[j as int]@,
                        ));
                        lemma_adjacent_step(sofar, ts@[j as int]@);
                    }
                    match &ts[j] {
                        Token::Wildcard => {
                            if wild {
                                found = true;
                            }
                            wild = true;
                        },
                        Token::FixedLength(_) => {},
                        Token::Text(_) => {
                            wild = false;
                        },
                    }
                    j = j + 1;
                }
                proof {
                    assert(token_models(ts@).take(ts@.len() as int) =~= token_models(ts@));
                }
            },
        }
        e = e + 1;
    }
    proof {
        assert(pattern@.take(pattern@.len() as int) =~= pattern@);
    }
    found
}

/// One character step on the token run of an open group, with maximal-munch
/// merging: `?` extends a trailing fixed-length token, a literal character
/// extends a trailing text token, and `*` always stands alone.
pub open spec fn push_token(ts: Seq<SpecToken>, c: char) -> Seq<SpecToken> {
    if c == '*' {
        ts.push(SpecToken::Wildcard)
    } else if c == '?' {
        if ts.len() > 0 {
            match ts.last() {
                SpecToken::FixedLength(n) => ts.drop_last().push(SpecToken::FixedLength(n + 1)),
                _ => ts.push(SpecToken::FixedLength(1)),
            }
        } else {
            ts.push(SpecToken::FixedLength(1))
        }
    } else {
        if ts.len() > 0 {
            match ts.last() {
                SpecToken::Text(t) => ts.drop_last().push(SpecToken::Text(t.push(c))),
                _ => ts.push(SpecToken::Text(seq![c])),
            }
        } else {
            ts.push(SpecToken::Text(seq![c]))
        }
    }
}

/// One character step on the top-level element list, merging into a trailing
/// bare token as `push_token` does within a group.
pub open spec fn push_top(elems: Seq<SpecElement>, c: char) -> Seq<SpecElement> {
    if c == '*' {
        elems.push(SpecElement::Token(SpecToken::Wildcard))
    } else if c == '?' {
        if elems.len() > 0 {
            match elems.last() {
                SpecElement::Token(SpecToken::FixedLength(n)) => elems.drop_last().push(
                    SpecElement::Token(SpecToken::FixedLength(n + 1)),
                ),
                _ => elems.push(SpecElement::Token(SpecToken::FixedLength(1))),
            }
        } else {
            elems.push(SpecElement::Token(SpecToken::FixedLength(1)))
        }
    } else {
        if elems.len() > 0 {
            match elems.last() {
                SpecElement::Token(SpecToken::Text(t)) => elems.drop_last().push(
                    SpecElement::Token(SpecToken::Text(t.push(c))),
                ),
                _ => elems.push(SpecElement::Token(SpecToken::Text(seq![c]))),
            }
        } else {
            elems.push(SpecElement::Token(SpecToken::Text(seq![c])))
        }
    }
}

/// The structural decomposition of `s` from position `i` on, given the
/// elements parsed so far and the tokens of the currently open group, if
/// one is open.  `(` opens a group (groups do not nest), `)` closes a
/// non-empty one, and any other character extends the current run.  The
/// decomposition fails on a dangling or unmatched parenthesis, an empty
/// group, or a wholly empty pattern.
pub open spec fn parse_from(
    s: Seq<char>,
    i: int,
    elems: Seq<SpecElement>,
    group: Option<Seq<SpecToken>>,
) -> Option<Seq<SpecElement>>
    decreases s.len() - i,
{
    if i < 0 || i >= s.len() {
        match group {
            Some(_) => None,
            None => if elems.len() == 0 {
                None
            } else {
                Some(elems)
            },
        }
    } else {
        let c = s[i];
        if c == '(' {
            match group {
                Some(_) => None,
                None => parse_from(s, i + 1, elems, Some(Seq::empty())),
            }
        } else if c == ')' {
            match group {
                Some(ts) => if ts.len() == 0 {
                    None
                } else {
                    parse_from(s, i + 1, elems.push(SpecElement::Group(ts)), None)
                },
                None => None,
            }
        } else {
            match group {
                Some(ts) => parse_from(s, i + 1, elems, Some(push_token(ts, c))),
                None => parse_from(s, i + 1, push_top(elems, c), None),
            }
        }
    }
}

/// What parsing a matching-pattern string yields: its structural
/// decomposition, unless the decomposition fails or the pattern holds
/// adjacent wildcards, which is rejected as ambiguous.
pub open spec fn spec_parse(s: Seq<char>) -> Option<Seq<SpecElement>> {
    match parse_from(s, 0, Seq::empty(), None) {
        Some(elems) => if has_adjacent_wildcards(flat_tokens(elems)) {
            None
        } else {
            Some(elems)
        },
        None => None,
    }
}

/// The token run the parser is currently scanning: nothing, a literal text
/// run that began at a character position, or a counted run of `?`.
#[derive(Clone, Copy)]
enum Run {
    Idle,
    Text { start: usize },
    Fixed { count: usize },
}

spec fn run_wf(run: Run, i: int) -> bool {
    match run {
        Run::Idle => true,
        Run::Text { start } => (start as int) < i,
        Run::Fixed { count } => 1 <= count <= i,
    }
}

spec fn run_model(run: Run, s: Seq<char>, i: int) -> Seq<SpecToken> {
    match run {
        Run::Idle => Seq::empty(),
        Run::Text { start } => seq![SpecToken::Text(s.subrange(start as int, i))],
        Run::Fixed { count } => seq![SpecToken::FixedLength(count as nat)],
    }
}

/// The models of a sequence of elements.
pub open spec fn element_models(es: Seq<Element>) -> Seq<SpecElement> {
    es.map_values(|e: Element| e@)
}

spec fn run_elements(run: Run, s: Seq<char>, i: int) -> Seq<SpecElement> {
    run_model(run, s, i).map_values(|t: SpecToken| SpecElement::Token(t))
}

/// The element list the parser state stands for: the finished elements,
/// with the current run appended as a bare token when no group is open.
spec fn state_elems(es: Seq<Element>, in_group: bool, run: Run, s: Seq<char>, i: int) -> Seq<
    SpecElement,
> {
    if in_group {
        element_models(es)
    } else {
        element_models(es) + run_elements(run, s, i)
    }
}

/// The open group the parser state stands for: its finished tokens with the
/// current run appended.
spec fn state_group(in_group: bool, gt: Seq<Token>, run: Run, s: Seq<char>, i: int) -> Option<
    Seq<SpecToken>,
> {
    if in_group {
        Some(token_models(gt) + run_model(run, s, i))
    } else {
        None
    }
}

/// A token run that nothing further can merge into: empty or ending in a
/// wildcard.
spec fn fresh_tokens(ts: Seq<SpecToken>) -> bool {
    ts.len() == 0 || ts.last() is Wildcard
}

/// An element list that nothing further can merge into: empty or ending in
/// a group or a bare wildcard.
spec fn fresh_top(elems: Seq<SpecElement>) -> bool {
    elems.len() == 0 || (match elems.last() {
        SpecElement::Token(SpecToken::Text(_)) => false,
        SpecElement::Token(SpecToken::FixedLength(_)) => false,
        _ => true,
    })
}

/// Materialises the current run as a token, if it holds one.
fn run_token(run: &Run, input: &str, i: usize) -> (r: Option<Token>)
    requires
        run_wf(*run, i as int),
        i <= input@.len(),
    ensures
        match r {
            Some(t) => run_model(*run, input@, i as int) == seq![t@],
            None => run_model(*run, input@, i as int) == Seq::<SpecToken>::empty(),
        },
{
    match run {
        Run::Idle => None,
        Run::Text { start } => {
            let piece = input.substring_char(*start, i);
            Some(Token::Text(String::from_str(piece)))
        },
        Run::Fixed { count } => Some(Token::FixedLength(*count)),
    }
}

/// Flushes the current run into the open group's tokens, or into the
/// element list as a bare token when no group is open.
fn flush_run(
    elements: &mut Vec<Element>,
    gtokens: &mut Vec<Token>,
    in_group: bool,
    run: &Run,
    input: &str,
    i: usize,
)
    requires
        run_wf(*run, i as int),
        i <= input@.len(),
    ensures
        in_group ==> token_models(final(gtokens)@) == token_models(old(gtokens)@) + run_model(
            *run,
            input@,
            i as int,
        ) && final(elements)@ == old(elements)@,
        !in_group ==> element_models(final(elements)@) == element_models(old(elements)@)
            + run_elements(*run, input@, i as int) && final(gtokens)@ == old(gtokens)@,
{
    match run_token(run, input, i) {
        Some(t) => {
            let ghost te = t@;
            if in_group {
                gtokens.push(t);
                proof {
                    assert(token_models(gtokens@) =~= token_models(old(gtokens)@).push(te));
                    assert(token_models(old(gtokens)@) + run_model(*run, input@, i as int)
                        =~= token_models(old(gtokens)@).push(te));
                }
            } else {
                elements.push(Element::Token(t));
                proof {
                    assert(element_models(elements@) =~= element_models(old(elements)@).push(
                        SpecElement::Token(te),
                    ));
                    assert(run_elements(*run, input@, i as int) =~= seq![SpecElement::Token(te)]);
                    assert(element_models(old(elements)@) + run_elements(*run, input@, i as int)
                        =~= element_models(old(elements)@).push(SpecElement::Token(te)));
                }
            }
        },
        None => {
            proof {
                assert(token_models(gtokens@) + run_model(*run, input@, i as int) =~= token_models(
                    gtokens@,
                ));
                assert(run_elements(*run, input@, i as int) =~= Seq::<SpecElement>::empty());
                assert(element_models(elements@) + run_elements(*run, input@, i as int)
                    =~= element_models(elements@));
            }
        },
    }
}

/// A metacharacter of the matching-pattern surface syntax.
pub open spec fn is_meta(c: char) -> bool {
    c == '*' || c == '?' || c == '(' || c == ')'
}

/// A token as the parser produces it: literal text is non-empty and free of
/// metacharacters, and a fixed-length token spans at least one character.
pub open spec fn wf_token(t: SpecToken) -> bool {
    match t {
        SpecToken::Text(s) => s.len() >= 1 && (forall|i: int|
            0 <= i < s.len() ==> !is_meta(#[trigger] s[i])),
        SpecToken::FixedLength(n) => n >= 1,
        SpecToken::Wildcard => true,
    }
}

/// Every token of the run is well formed.
pub open spec fn wf_tokens(ts: Seq<SpecToken>) -> bool {
    forall|i: int| 0 <= i < ts.len() ==> wf_token(#[trigger] ts[i])
}

/// An element as the parser produces it: a well-formed bare token, or a
/// non-empty group of well-formed tokens.
pub open spec fn wf_element(e: SpecElement) -> bool {
    match e {
        SpecElement::Token(t) => wf_token(t),
        SpecElement::Group(ts) => ts.len() >= 1 && wf_tokens(ts),
    }
}

/// Every element of the pattern is well formed.
pub open spec fn wf_pattern(elems: Seq<SpecElement>) -> bool {
    forall|i: int| 0 <= i < elems.len() ==> wf_element(#[trigger] elems[i])
}

/// The surface form of one element: a bare token's glob form, a group's
/// tokens between parentheses.
pub open spec fn render_element(e: SpecElement) -> Seq<char> {
    match e {
        SpecElement::Token(t) => token_glob(t),
        SpecElement::Group(ts) => seq!['('] + glob_of_tokens(ts) + seq![')'],
    }
}

/// The surface form of a pattern: its elements' surface forms, concatenated.
pub open spec fn render(elems: Seq<SpecElement>) -> Seq<char>
    decreases elems.len(),
{
    if elems.len() == 0 {
        Seq::empty()
    } else {
        render_element(elems[0]) + render(elems.drop_first())
    }
}

proof fn lemma_render_push(elems: Seq<SpecElement>, e: SpecElement)
    ensures
        render(elems.push(e)) == render(elems) + render_element(e),
    decreases elems.len(),
{
    if elems.len() == 0 {
        assert(elems.push(e).drop_first() =~= Seq::<SpecElement>::empty());
        assert(render(Seq::<SpecElement>::empty()) =~= Seq::<char>::empty());
        assert(elems.push(e)[0] == e);
        assert(render(elems.push(e)) =~= render_element(e));
        assert(render(elems) + render_element(e) =~= render_element(e));
    } else {
        assert(elems.push(e).drop_first() =~= elems.drop_first().push(e));
        lemma_render_push(elems.drop_first(), e);
        assert(render(elems.push(e)) =~= render(elems) + render_element(e));
    }
}

proof fn lemma_push_token_render(ts: Seq<SpecToken>, c: char)
    requires
        c != '(' && c != ')',
        wf_tokens(ts),
    ensures
        glob_of_tokens(push_token(ts, c)) == glob_of_tokens(ts) + seq![c],
        wf_tokens(push_token(ts, c)),
        push_token(ts, c).len() >= 1,
{
    if c == '*' {
        lemma_glob_of_tokens_push(ts, SpecToken::Wildcard);
        assert(token_glob(SpecToken::Wildcard) =~= seq![c]);
    } else if c == '?' {
        if ts.len() > 0 && ts.last() is FixedLength {
            let n = (match ts.last() {
                SpecToken::FixedLength(n0) => n0,
                _ => 0,
            });
            assert(ts =~= ts.drop_last().push(ts.last()));
            lemma_glob_of_tokens_push(ts.drop_last(), ts.last());
            lemma_glob_of_tokens_push(ts.drop_last(), SpecToken::FixedLength(n + 1));
            assert(Seq::new(n + 1, |i: int| '?') =~= Seq::new(n as nat, |i: int| '?') + seq![c]);
            assert(glob_of_tokens(push_token(ts, c)) =~= glob_of_tokens(ts) + seq![c]);
            assert(forall|i: int|
                0 <= i < ts.drop_last().len() ==> wf_token(#[trigger] ts.drop_last()[i]));
        } else {
            lemma_glob_of_tokens_push(ts, SpecToken::FixedLength(1));
            assert(token_glob(SpecToken::FixedLength(1)) =~= seq![c]);
        }
    } else {
        if ts.len() > 0 && ts.last() is Text {
            let t = (match ts.last() {
                SpecToken::Text(t0) => t0,
                _ => Seq::empty(),
            });
            assert(ts =~= ts.drop_last().push(ts.last()));
            lemma_glob_of_tokens_push(ts.drop_last(), ts.last());
            lemma_glob_of_tokens_push(ts.drop_last(), SpecToken::Text(t.push(c)));
            assert(t.push(c) =~= t + seq![c]);
            assert(glob_of_tokens(push_token(ts, c)) =~= glob_of_tokens(ts) + seq![c]);
            assert(wf_token(SpecToken::Text(t.push(c))));
            assert(forall|i: int|
                0 <= i < ts.drop_last().len() ==> wf_token(#[trigger] ts.drop_last()[i]));
        } else {
            lemma_glob_of_tokens_push(ts, SpecToken::Text(seq![c]));
            assert(token_glob(SpecToken::Text(seq![c])) =~= seq![c]);
            assert(wf_token(SpecToken::Text(seq![c])));
        }
    }
}

proof fn lemma_push_top_render(elems: Seq<SpecElement>, c: char)
    requires
        c != '(' && c != ')',
        wf_pattern(elems),
    ensures
        render(push_top(elems, c)) == render(elems) + seq![c],
        wf_pattern(push_top(elems, c)),
        push_top(elems, c).len() >= 1,
{
    if c == '*' {
        lemma_render_push(elems, SpecElement::Token(SpecToken::Wildcard));
        assert(render_element(SpecElement::Token(SpecToken::Wildcard)) =~= seq![c]);
    } else if c == '?' {
        if elems.len() > 0 && (elems.last() matches SpecElement::Token(SpecToken::FixedLength(_))) {
            let n = (match elems.last() {
                SpecElement::Token(SpecToken::FixedLength(n0)) => n0,
                _ => 0,
            });
            assert(elems =~= elems.drop_last().push(elems.last()));
            lemma_render_push(elems.drop_last(), elems.last());
            lemma_render_push(
                elems.drop_last(),
                SpecElement::Token(SpecToken::FixedLength(n + 1)),
            );
            assert(Seq::new(n + 1, |i: int| '?') =~= Seq::new(n as nat, |i: int| '?') + seq![c]);
            assert(render(push_top(elems, c)) =~= render(elems) + seq![c]);
            assert(forall|i: int|
                0 <= i < elems.drop_last().len() ==> wf_element(#[trigger] elems.drop_last()[i]));
        } else {
            lemma_render_push(elems, SpecElement::Token(SpecToken::FixedLength(1)));
            assert(render_element(SpecElement::Token(SpecToken::FixedLength(1))) =~= seq![c]);
        }
    } else {
        if elems.len() > 0 && (elems.last() matches SpecElement::Token(SpecToken::Text(_))) {
            let t = (match elems.last() {
                SpecElement::Token(SpecToken::Text(t0)) => t0,
                _ => Seq::empty(),
            });
            assert(elems =~= elems.drop_last().push(elems.last()));
            lemma_render_push(elems.drop_last(), elems.last());
            lemma_render_push(elems.drop_last(), SpecElement::Token(SpecToken::Text(t.push(c))));
            assert(t.push(c) =~= t + seq![c]);
            assert(render(push_top(elems, c)) =~= render(elems) + seq![c]);
            assert(wf_token(SpecToken::Text(t.push(c))));
            assert(forall|i: int|
                0 <= i < elems.drop_last().len() ==> wf_element(#[trigger] elems.drop_last()[i]));
        } else {
            lemma_render_push(elems, SpecElement::Token(SpecToken::Text(seq![c])));
            assert(render_element(SpecElement::Token(SpecToken::Text(seq![c]))) =~= seq![c]);
            assert(wf_token(SpecToken::Text(seq![c])));
        }
    }
}

proof fn lemma_push_token_separated(ts: Seq<SpecToken>, c: char)
    requires
        c != '(' && c != ')',
        separated_tokens(ts),
    ensures
        separated_tokens(push_token(ts, c)),
{
    let res = push_token(ts, c);
    if c == '*' {
        assert forall|i: int| 0 <= i && i + 1 < res.len() implies !merge_pair(
            #[trigger] res[i],
            res[i + 1],
        ) by {
            if i + 1 < ts.len() {
                assert(res[i] == ts[i] && res[i + 1] == ts[i + 1]);
            } else {
                assert(res[i + 1] == SpecToken::Wildcard);
            }
        };
    } else if c == '?' {
        if ts.len() > 0 && ts.last() is FixedLength {
            let n = (match ts.last() {
                SpecToken::FixedLength(n0) => n0,
                _ => 0,
            });
            assert(res == ts.drop_last().push(SpecToken::FixedLength(n + 1)));
            assert(res.len() == ts.len());
            assert forall|i: int| 0 <= i && i + 1 < res.len() implies !merge_pair(
                #[trigger] res[i],
                res[i + 1],
            ) by {
                assert(res[i] == ts[i]);
                if i + 1 < ts.len() - 1 {
                    assert(res[i + 1] == ts[i + 1]);
                    assert(!merge_pair(ts[i], ts[i + 1]));
                } else {
                    assert(res[i + 1] == SpecToken::FixedLength(n + 1));
                    assert(!merge_pair(ts[i], ts[i + 1]));
                    assert(!(ts[i] is FixedLength));
                }
            };
        } else {
            assert forall|i: int| 0 <= i && i + 1 < res.len() implies !merge_pair(
                #[trigger] res[i],
                res[i + 1],
            ) by {
                if i + 1 < ts.len() {
                    assert(res[i] == ts[i] && res[i + 1] == ts[i + 1]);
                } else {
                    assert(res[i] == ts.last());
                    assert(res[i + 1] == SpecToken::FixedLength(1));
                    assert(!(ts.last() is FixedLength));
                }
            };
        }
    } else {
        if ts.len() > 0 && ts.last() is Text {
            let t0 = (match ts.last() {
                SpecToken::Text(t1) => t1,
                _ => Seq::empty(),
            });
            assert(res == ts.drop_last().push(SpecToken::Text(t0.push(c))));
            assert(res.len() == ts.len());
            assert forall|i: int| 0 <= i && i + 1 < res.len() implies !merge_pair(
                #[trigger] res[i],
                res[i + 1],
            ) by {
                assert(res[i] == ts[i]);
                if i + 1 < ts.len() - 1 {
                    assert(res[i + 1] == ts[i + 1]);
                    assert(!merge_pair(ts[i], ts[i + 1]));
                } else {
                    assert(res[i + 1] == SpecToken::Text(t0.push(c)));
                    assert(!merge_pair(ts[i], ts[i + 1]));
                    assert(!(ts[i] is Text));
                }
            };
        } else {
            assert forall|i: int| 0 <= i && i + 1 < res.len() implies !merge_pair(
                #[trigger] res[i],
                res[i + 1],
            ) by {
                if i + 1 < ts.len() {
                    assert(res[i] == ts[i] && res[i + 1] == ts[i + 1]);
                } else {
                    assert(res[i] == ts.last());
                    assert(res[i + 1] matches SpecToken::Text(_));
                    assert(!(ts.last() is Text));
                }
            };
        }
    }
}

proof fn lemma_push_top_canonical(elems: Seq<SpecElement>, c: char)
    requires
        c != '(' && c != ')',
        canonical(elems),
    ensures
        canonical(push_top(elems, c)),
{
    lemma_push_top_render(elems, c);
    let res = push_top(elems, c);
    assert forall|i: int| 0 <= i < res.len() implies match #[trigger] res[i] {
        SpecElement::Group(ts) => separated_tokens(ts),
        SpecElement::Token(_) => true,
    } by {
        if i < elems.len() && res.len() == elems.len() {
            assert(res[i] == elems[i] || i == elems.len() - 1);
            if i == elems.len() - 1 {
                assert(res[i] matches SpecElement::Token(_));
            }
        } else if i < elems.len() {
            assert(res[i] == elems[i]);
        } else {
            assert(res[i] matches SpecElement::Token(_));
        }
    };
    assert forall|i: int|
        #![trigger res[i], res[i + 1]]
        0 <= i && i + 1 < res.len() implies match (res[i], res[i + 1]) {
        (SpecElement::Token(a), SpecElement::Token(b)) => !merge_pair(a, b),
        _ => true,
    } by {
        if res.len() == elems.len() {
            // a trailing bare token was extended in place
            assert(res[i] == elems[i]);
            if i + 1 < elems.len() - 1 {
                assert(res[i + 1] == elems[i + 1]);
            } else {
                match (elems[i], elems[i + 1], res[i + 1]) {
                    (
                        SpecElement::Token(a),
                        SpecElement::Token(b),
                        SpecElement::Token(b2),
                    ) => {
                        assert(!merge_pair(a, b));
                        assert((b is Text && b2 is Text) || (b is FixedLength
                            && b2 is FixedLength));
                    },
                    _ => {},
                }
            }
        } else {
            // a fresh token element was appended
            assert(res[i] == elems[i]);
            if i + 1 < elems.len() {
                assert(res[i + 1] == elems[i + 1]);
            } else {
                assert(res[i] == elems.last());
                match (elems.last(), res[i + 1]) {
                    (SpecElement::Token(a), SpecElement::Token(b)) => {
                        if c == '*' {
                            assert(!merge_pair(a, b));
                        } else if c == '?' {
                            assert(!(a is FixedLength));
                            assert(!merge_pair(a, b));
                        } else {
                            assert(!(a is Text));
                            assert(!merge_pair(a, b));
                        }
                    },
                    _ => {},
                }
            }
        }
    };
}

proof fn lemma_parse_from_render(
    s: Seq<char>,
    i: int,
    elems: Seq<SpecElement>,
    group: Option<Seq<SpecToken>>,
    res: Seq<SpecElement>,
)
    requires
        0 <= i <= s.len(),
        parse_from(s, i, elems, group) == Some(res),
        canonical(elems),
        group matches Some(ts) ==> wf_tokens(ts) && separated_tokens(ts),
    ensures
        canonical(res),
        render(res) == render(elems) + (match group {
            None => Seq::<char>::empty(),
            Some(ts) => seq!['('] + glob_of_tokens(ts),
        }) + s.skip(i),
    decreases s.len() - i,
{
    if i >= s.len() {
        assert(group is None);
        assert(res == elems);
        assert(s.skip(i) =~= Seq::<char>::empty());
        assert(render(elems) + Seq::<char>::empty() + Seq::<char>::empty() =~= render(elems));
    } else {
        let c = s[i];
        assert(s.skip(i) =~= seq![c] + s.skip(i + 1));
        if c == '(' {
            assert(group is None);
            lemma_parse_from_render(s, i + 1, elems, Some(Seq::empty()), res);
            assert(glob_of_tokens(Seq::<SpecToken>::empty()) =~= Seq::<char>::empty());
            assert(render(elems) + (seq!['('] + glob_of_tokens(Seq::<SpecToken>::empty())) + s.skip(
                i + 1,
            ) =~= render(elems) + Seq::<char>::empty() + s.skip(i));
        } else if c == ')' {
            match group {
                Some(ts) => {
                    assert(ts.len() >= 1);
                    let closed = elems.push(SpecElement::Group(ts));
                    assert(canonical(closed)) by {
                        assert(forall|k: int| 0 <= k < elems.len() ==> closed[k] == elems[k]);
                        assert(closed[elems.len() as int] == SpecElement::Group(ts));
                        assert(forall|k: int|
                            0 <= k < elems.len() ==> wf_element(#[trigger] closed[k]));
                    }
                    lemma_parse_from_render(s, i + 1, closed, None, res);
                    lemma_render_push(elems, SpecElement::Group(ts));
                    assert(render(closed) + Seq::<char>::empty() + s.skip(i + 1) =~= render(elems)
                        + (seq!['('] + glob_of_tokens(ts)) + s.skip(i));
                },
                None => {
                    assert(false);
                },
            }
        } else {
            match group {
                Some(ts) => {
                    lemma_push_token_render(ts, c);
                    lemma_push_token_separated(ts, c);
                    lemma_parse_from_render(s, i + 1, elems, Some(push_token(ts, c)), res);
                    assert(render(elems) + (seq!['('] + glob_of_tokens(push_token(ts, c)))
                        + s.skip(i + 1) =~= render(elems) + (seq!['('] + glob_of_tokens(ts))
                        + s.skip(i));
                },
                None => {
                    lemma_push_top_render(elems, c);
                    lemma_push_top_canonical(elems, c);
                    lemma_parse_from_render(s, i + 1, push_top(elems, c), None, res);
                    assert(render(push_top(elems, c)) + Seq::<char>::empty() + s.skip(i + 1)
                        =~= render(elems) + Seq::<char>::empty() + s.skip(i));
                },
            }
        }
    }
}

/// What the parser accepts renders back to its own input: replaying the
/// pattern's surface form — text verbatim, `n` question marks for a
/// fixed-length token, `*` for a wildcard, groups between parentheses —
/// reconstructs the pattern string exactly, and the pattern is well formed:
/// text tokens are non-empty and free of metacharacters, fixed-length
/// tokens span at least one character, groups are non-empty.
pub proof fn theorem_parse_renders_input(s: Seq<char>, p: Seq<SpecElement>)
    requires
        spec_parse(s) == Some(p),
    ensures
        render(p) == s,
        canonical(p),
{
    assert(canonical(Seq::<SpecElement>::empty()));
    lemma_parse_from_render(s, 0, Seq::empty(), None, p);
    assert(s.skip(0) =~= s);
    assert(render(Seq::<SpecElement>::empty()) =~= Seq::<char>::empty());
    assert(render(Seq::<SpecElement>::empty()) + Seq::<char>::empty() + s =~= s);
}

/// Two tokens maximal munch would have read as one.
pub open spec fn merge_pair(a: SpecToken, b: SpecToken) -> bool {
    (a is Text && b is Text) || (a is FixedLength && b is FixedLength)
}

/// No two adjacent tokens of the run could have been read as one.
pub open spec fn separated_tokens(ts: Seq<SpecToken>) -> bool {
    forall|i: int| 0 <= i && i + 1 < ts.len() ==> !merge_pair(#[trigger] ts[i], ts[i + 1])
}

/// A pattern in the form the parser produces: well formed, and with maximal
/// runs — no two adjacent tokens, inside a group or bare at the top level,
/// that maximal munch would have read as one.
pub open spec fn canonical(elems: Seq<SpecElement>) -> bool {
    &&& wf_pattern(elems)
    &&& (forall|i: int|
        0 <= i < elems.len() ==> match #[trigger] elems[i] {
            SpecElement::Group(ts) => separated_tokens(ts),
            SpecElement::Token(_) => true,
        })
    &&& (forall|i: int|
        #![trigger elems[i], elems[i + 1]]
        0 <= i && i + 1 < elems.len() ==> match (elems[i], elems[i + 1]) {
            (SpecElement::Token(a), SpecElement::Token(b)) => !merge_pair(a, b),
            _ => true,
        })
}

proof fn lemma_subrange_split(s: Seq<char>, i: int, a: Seq<char>, b: Seq<char>)
    requires
        0 <= i,
        i + a.len() + b.len() <= s.len(),
        s.subrange(i, i + a.len() + b.len()) == a + b,
    ensures
        s.subrange(i, i + a.len() as int) == a,
        s.subrange(i + a.len() as int, i + a.len() + b.len()) == b,
{
    let whole = s.subrange(i, i + a.len() + b.len());
    assert forall|j: int| 0 <= j < a.len() implies s.subrange(i, i + a.len() as int)[j]
        == a[j] by {
        assert(whole[j] == (a + b)[j]);
    };
    assert(s.subrange(i, i + a.len() as int) =~= a);
    assert forall|j: int| 0 <= j < b.len() implies s.subrange(
        i + a.len() as int,
        i + a.len() + b.len(),
    )[j] == b[j] by {
        assert(whole[a.len() + j] == (a + b)[a.len() + j]);
    };
    assert(s.subrange(i + a.len() as int, i + a.len() + b.len()) =~= b);
}

proof fn lemma_group_fixed_run(
    s: Seq<char>,
    i: int,
    elems: Seq<SpecElement>,
    ts: Seq<SpecToken>,
    k: nat,
    m: nat,
)
    requires
        k >= 1,
        0 <= i,
        i + m <= s.len(),
        forall|j: int| i <= j < i + m ==> s[j] == '?',
    ensures
        parse_from(s, i, elems, Some(ts.push(SpecToken::FixedLength(k)))) == parse_from(
            s,
            i + m,
            elems,
            Some(ts.push(SpecToken::FixedLength(k + m))),
        ),
    decreases m,
{
    if m == 0 {
        assert(k + m == k);
    } else {
        let cur = ts.push(SpecToken::FixedLength(k));
        assert(cur.last() == SpecToken::FixedLength(k));
        assert(cur.drop_last() =~= ts);
        assert(push_token(cur, s[i]) == ts.push(SpecToken::FixedLength(k + 1)));
        lemma_group_fixed_run(s, i + 1, elems, ts, k + 1, (m - 1) as nat);
        assert(k + 1 + (m - 1) == k + m);
    }
}

proof fn lemma_group_text_run(
    s: Seq<char>,
    i: int,
    elems: Seq<SpecElement>,
    ts: Seq<SpecToken>,
    t0: Seq<char>,
    m: nat,
)
    requires
        t0.len() >= 1,
        0 <= i,
        i + m <= s.len(),
        forall|j: int| i <= j < i + m ==> !is_meta(#[trigger] s[j]),
    ensures
        parse_from(s, i, elems, Some(ts.push(SpecToken::Text(t0)))) == parse_from(
            s,
            i + m,
            elems,
            Some(ts.push(SpecToken::Text(t0 + s.subrange(i, i + m)))),
        ),
    decreases m,
{
    if m == 0 {
        assert(t0 + s.subrange(i, i) =~= t0);
    } else {
        let c = s[i];
        let cur = ts.push(SpecToken::Text(t0));
        assert(cur.last() == SpecToken::Text(t0));
        assert(cur.drop_last() =~= ts);
        assert(push_token(cur, c) == ts.push(SpecToken::Text(t0.push(c))));
        lemma_group_text_run(s, i + 1, elems, ts, t0.push(c), (m - 1) as nat);
        assert(t0.push(c) + s.subrange(i + 1, i + m) =~= t0 + s.subrange(i, i + m));
    }
}

proof fn lemma_group_token(
    s: Seq<char>,
    i: int,
    elems: Seq<SpecElement>,
    ts: Seq<SpecToken>,
    t: SpecToken,
)
    requires
        wf_token(t),
        ts.len() == 0 || !merge_pair(ts.last(), t),
        0 <= i,
        i + token_glob(t).len() <= s.len(),
        s.subrange(i, i + token_glob(t).len() as int) == token_glob(t),
    ensures
        parse_from(s, i, elems, Some(ts)) == parse_from(
            s,
            i + token_glob(t).len() as int,
            elems,
            Some(ts.push(t)),
        ),
{
    match t {
        SpecToken::Wildcard => {
            assert(s[i] == token_glob(t)[0]);
            assert(s[i] == '*');
            assert(push_token(ts, '*') == ts.push(SpecToken::Wildcard));
        },
        SpecToken::FixedLength(n) => {
            assert(forall|j: int| i <= j < i + n ==> s[j] == token_glob(t)[j - i]);
            assert(forall|j: int| i <= j < i + n ==> s[j] == '?');
            assert(s[i] == '?');
            if ts.len() > 0 {
                assert(!(ts.last() is FixedLength));
            }
            assert(push_token(ts, '?') == ts.push(SpecToken::FixedLength(1)));
            lemma_group_fixed_run(s, i + 1, elems, ts, 1, (n - 1) as nat);
            assert(1 + (n - 1) == n);
        },
        SpecToken::Text(t0) => {
            assert(forall|j: int| i <= j < i + t0.len() ==> s[j] == token_glob(t)[j - i]);
            assert(forall|j: int| i <= j < i + t0.len() ==> !is_meta(#[trigger] s[j]));
            let c = s[i];
            assert(c == t0[0]);
            assert(!is_meta(c));
            if ts.len() > 0 {
                assert(!(ts.last() is Text));
            }
            assert(push_token(ts, c) == ts.push(SpecToken::Text(seq![c])));
            lemma_group_text_run(s, i + 1, elems, ts, seq![c], (t0.len() - 1) as nat);
            assert(seq![c] + s.subrange(i + 1, i + t0.len()) =~= t0);
        },
    }
}

proof fn lemma_group_tokens(
    s: Seq<char>,
    i: int,
    elems: Seq<SpecElement>,
    done: Seq<SpecToken>,
    rest: Seq<SpecToken>,
)
    requires
        wf_tokens(rest),
        separated_tokens(done + rest),
        0 <= i,
        i + glob_of_tokens(rest).len() <= s.len(),
        s.subrange(i, i + glob_of_tokens(rest).len() as int) == glob_of_tokens(rest),
    ensures
        parse_from(s, i, elems, Some(done)) == parse_from(
            s,
            i + glob_of_tokens(rest).len() as int,
            elems,
            Some(done + rest),
        ),
    decreases rest.len(),
{
    if rest.len() == 0 {
        assert(done + rest =~= done);
    } else {
        let t = rest[0];
        let tlen = token_glob(t).len() as int;
        assert(glob_of_tokens(rest) == token_glob(t) + glob_of_tokens(rest.drop_first()));
        lemma_subrange_split(s, i, token_glob(t), glob_of_tokens(rest.drop_first()));
        if done.len() > 0 {
            let di = done.len() - 1;
            assert((done + rest)[di] == done.last());
            assert((done + rest)[di + 1] == t);
            assert(!merge_pair(done.last(), t));
        }
        assert(wf_token(t));
        lemma_group_token(s, i, elems, done, t);
        let done2 = done.push(t);
        assert(done2 + rest.drop_first() =~= done + rest);
        assert(forall|j: int|
            0 <= j < rest.drop_first().len() ==> wf_token(#[trigger] rest.drop_first()[j]));
        lemma_group_tokens(s, i + tlen, elems, done2, rest.drop_first());
    }
}

proof fn lemma_top_fixed_run(s: Seq<char>, i: int, elems: Seq<SpecElement>, k: nat, m: nat)
    requires
        k >= 1,
        0 <= i,
        i + m <= s.len(),
        forall|j: int| i <= j < i + m ==> s[j] == '?',
    ensures
        parse_from(s, i, elems.push(SpecElement::Token(SpecToken::FixedLength(k))), None)
            == parse_from(
            s,
            i + m,
            elems.push(SpecElement::Token(SpecToken::FixedLength(k + m))),
            None,
        ),
    decreases m,
{
    if m == 0 {
        assert(k + m == k);
    } else {
        let cur = elems.push(SpecElement::Token(SpecToken::FixedLength(k)));
        assert(cur.last() == SpecElement::Token(SpecToken::FixedLength(k)));
        assert(cur.drop_last() =~= elems);
        assert(push_top(cur, s[i]) == elems.push(
            SpecElement::Token(SpecToken::FixedLength(k + 1)),
        ));
        lemma_top_fixed_run(s, i + 1, elems, k + 1, (m - 1) as nat);
        assert(k + 1 + (m - 1) == k + m);
    }
}

proof fn lemma_top_text_run(s: Seq<char>, i: int, elems: Seq<SpecElement>, t0: Seq<char>, m: nat)
    requires
        t0.len() >= 1,
        0 <= i,
        i + m <= s.len(),
        forall|j: int| i <= j < i + m ==> !is_meta(#[trigger] s[j]),
    ensures
        parse_from(s, i, elems.push(SpecElement::Token(SpecToken::Text(t0))), None) == parse_from(
            s,
            i + m,
            elems.push(SpecElement::Token(SpecToken::Text(t0 + s.subrange(i, i + m)))),
            None,
        ),
    decreases m,
{
    if m == 0 {
        assert(t0 + s.subrange(i, i) =~= t0);
        assert(SpecToken::Text(t0 + s.subrange(i, i)) == SpecToken::Text(t0));
    } else {
        let c = s[i];
        let cur = elems.push(SpecElement::Token(SpecToken::Text(t0)));
        assert(cur.last() == SpecElement::Token(SpecToken::Text(t0)));
        assert(cur.drop_last() =~= elems);
        assert(push_top(cur, c) == elems.push(SpecElement::Token(SpecToken::Text(t0.push(c)))));
        lemma_top_text_run(s, i + 1, elems, t0.push(c), (m - 1) as nat);
        assert(t0.push(c) + s.subrange(i + 1, i + m) =~= t0 + s.subrange(i, i + m));
        assert(SpecToken::Text(t0.push(c) + s.subrange(i + 1, i + m)) == SpecToken::Text(
            t0 + s.subrange(i, i + m),
        ));
    }
}

proof fn lemma_top_token(s: Seq<char>, i: int, elems: Seq<SpecElement>, t: SpecToken)
    requires
        wf_token(t),
        elems.len() == 0 || (match elems.last() {
            SpecElement::Token(u) => !merge_pair(u, t),
            SpecElement::Group(_) => true,
        }),
        0 <= i,
        i + token_glob(t).len() <= s.len(),
        s.subrange(i, i + token_glob(t).len() as int) == token_glob(t),
    ensures
        parse_from(s, i, elems, None) == parse_from(
            s,
            i + token_glob(t).len() as int,
            elems.push(SpecElement::Token(t)),
            None,
        ),
{
    match t {
        SpecToken::Wildcard => {
            assert(s[i] == token_glob(t)[0]);
            assert(s[i] == '*');
            assert(push_top(elems, '*') == elems.push(SpecElement::Token(SpecToken::Wildcard)));
        },
        SpecToken::FixedLength(n) => {
            assert(forall|j: int| i <= j < i + n ==> s[j] == token_glob(t)[j - i]);
            assert(forall|j: int| i <= j < i + n ==> s[j] == '?');
            assert(s[i] == '?');
            if elems.len() > 0 {
                assert(!(elems.last() matches SpecElement::Token(SpecToken::FixedLength(_))));
            }
            assert(push_top(elems, '?') == elems.push(
                SpecElement::Token(SpecToken::FixedLength(1)),
            ));
            lemma_top_fixed_run(s, i + 1, elems, 1, (n - 1) as nat);
            assert(1 + (n - 1) == n);
        },
        SpecToken::Text(t0) => {
            assert(forall|j: int| i <= j < i + t0.len() ==> s[j] == token_glob(t)[j - i]);
            assert(forall|j: int| i <= j < i + t0.len() ==> !is_meta(#[trigger] s[j]));
            let c = s[i];
            assert(c == t0[0]);
            assert(!is_meta(c));
            if elems.len() > 0 {
                assert(!(elems.last() matches SpecElement::Token(SpecToken::Text(_))));
            }
            assert(push_top(elems, c) == elems.push(SpecElement::Token(SpecToken::Text(seq![c]))));
            lemma_top_text_run(s, i + 1, elems, seq![c], (t0.len() - 1) as nat);
            assert(seq![c] + s.subrange(i + 1, i + t0.len()) =~= t0);
            assert(SpecToken::Text(seq![c] + s.subrange(i + 1, i + t0.len())) == SpecToken::Text(
                t0,
            ));
        },
    }
}

proof fn lemma_top_element(s: Seq<char>, i: int, elems: Seq<SpecElement>, e: SpecElement)
    requires
        wf_element(e),
        (match e {
            SpecElement::Group(ts) => separated_tokens(ts),
            SpecElement::Token(_) => true,
        }),
        elems.len() == 0 || (match (elems.last(), e) {
            (SpecElement::Token(a), SpecElement::Token(b)) => !merge_pair(a, b),
            _ => true,
        }),
        0 <= i,
        i + render_element(e).len() <= s.len(),
        s.subrange(i, i + render_element(e).len() as int) == render_element(e),
    ensures
        parse_from(s, i, elems, None) == parse_from(
            s,
            i + render_element(e).len() as int,
            elems.push(e),
            None,
        ),
{
    match e {
        SpecElement::Token(t) => {
            lemma_top_token(s, i, elems, t);
        },
        SpecElement::Group(ts) => {
            let glen = glob_of_tokens(ts).len() as int;
            assert(render_element(e).len() == glen + 2);
            assert(render_element(e) =~= seq!['('] + (glob_of_tokens(ts) + seq![')']));
            lemma_subrange_split(s, i, seq!['('], glob_of_tokens(ts) + seq![')']);
            assert(s.subrange(i, i + 1)[0] == s[i]);
            assert(s[i] == '(');
            lemma_subrange_split(s, i + 1, glob_of_tokens(ts), seq![')']);
            assert(s.subrange(i + 1 + glen, i + glen + 2)[0] == s[i + glen + 1]);
            assert(s[i + glen + 1] == ')');
            assert(parse_from(s, i, elems, None) == parse_from(
                s,
                i + 1,
                elems,
                Some(Seq::<SpecToken>::empty()),
            ));
            assert(Seq::<SpecToken>::empty() + ts =~= ts);
            assert(separated_tokens(Seq::<SpecToken>::empty() + ts));
            assert(forall|j: int| 0 <= j < ts.len() ==> wf_token(#[trigger] ts[j]));
            lemma_group_tokens(s, i + 1, elems, Seq::empty(), ts);
            assert(ts.len() >= 1);
            assert(parse_from(s, i + 1 + glen, elems, Some(ts)) == parse_from(
                s,
                i + glen + 2,
                elems.push(SpecElement::Group(ts)),
                None,
            ));
        },
    }
}

proof fn lemma_top_elements(
    s: Seq<char>,
    i: int,
    done: Seq<SpecElement>,
    rest: Seq<SpecElement>,
)
    requires
        canonical(done + rest),
        0 <= i,
        i + render(rest).len() <= s.len(),
        s.subrange(i, i + render(rest).len() as int) == render(rest),
    ensures
        parse_from(s, i, done, None) == parse_from(
            s,
            i + render(rest).len() as int,
            done + rest,
            None,
        ),
    decreases rest.len(),
{
    if rest.len() == 0 {
        assert(done + rest =~= done);
    } else {
        let e = rest[0];
        let elen = render_element(e).len() as int;
        assert(render(rest) == render_element(e) + render(rest.drop_first()));
        lemma_subrange_split(s, i, render_element(e), render(rest.drop_first()));
        assert((done + rest)[done.len() as int] == e);
        assert(wf_element(e));
        assert(match e {
            SpecElement::Group(ts) => separated_tokens(ts),
            SpecElement::Token(_) => true,
        });
        if done.len() > 0 {
            let di = done.len() - 1;
            assert((done + rest)[di] == done.last());
            assert((done + rest)[di + 1] == e);
        }
        lemma_top_element(s, i, done, e);
        let done2 = done.push(e);
        assert(done2 + rest.drop_first() =~= done + rest);
        lemma_top_elements(s, i + elen, done2, rest.drop_first());
    }
}

/// The parser accepts exactly what it renders: a well-formed pattern in
/// maximal-munch form decomposes its own surface string back to itself, and
/// is then accepted unless its wildcards are adjacent once fixed-length
/// tokens are ignored.
pub proof fn theorem_render_parses_back(p: Seq<SpecElement>)
    requires
        canonical(p),
        p.len() >= 1,
    ensures
        spec_parse(render(p)) == (if has_adjacent_wildcards(flat_tokens(p)) {
            None
        } else {
            Some(p)
        }),
{
    let s = render(p);
    assert(Seq::<SpecElement>::empty() + p =~= p);
    assert(s.subrange(0, s.len() as int) =~= s);
    lemma_top_elements(s, 0, Seq::empty(), p);
    assert(parse_from(s, 0, Seq::empty(), None) == parse_from(s, s.len() as int, p, None));
    assert(parse_from(s, s.len() as int, p, None) == Some(p));
}

/// The matching-pattern parser.
#[derive(Debug)]
pub struct ParserImpl {}

impl ParserImpl {
    /// A new parser.
    pub fn new() -> (r: Self) {
        ParserImpl {  }
    }

    /// Parses a matching-pattern string: `*` is a wildcard, a run of `?` a
    /// fixed-length token, `(` and `)` delimit a capture group, and any
    /// other characters are literal text.  Rejects input that does not
    /// decompose into that grammar — an unmatched parenthesis, an empty
    /// group, an empty pattern — and patterns whose wildcards are adjacent
    /// once fixed-length tokens are ignored.
    pub fn parse(&self, input: &str) -> (r: Result<Pattern, ParsingError>)
        ensures
            match r {
                Ok(p) => spec_parse(input@) == Some(p@) && p@.len() >= 1 && canonical(p@)
                    && render(p@) == input@ && !has_adjacent_wildcards(flat_tokens(p@)),
                Err(e) => spec_parse(input@) is None && e == ParsingError::InvalidSyntax,
            },
    {
        let ghost s = input@;
        let ilen = input.unicode_len();
        let mut elements: Vec<Element> = Vec::new();
        let mut gtokens: Vec<Token> = Vec::new();
        let mut in_group: bool = false;
        let mut run = Run::Idle;
        let mut i: usize = 0;
        proof {
            assert(state_elems(elements@, false, run, s, 0) =~= Seq::<SpecElement>::empty());
        }
        while i < ilen
            invariant
                i <= ilen,
                ilen == s.len(),
                s == input@,
                run_wf(run, i as int),
                parse_from(s, 0, Seq::empty(), None) == parse_from(
                    s,
                    i as int,
                    state_elems(elements@, in_group, run, s, i as int),
                    state_group(in_group, gtokens@, run, s, i as int),
                ),
                !in_group ==> gtokens@.len() == 0,
                !in_group && run is Idle ==> fresh_top(element_models(elements@)),
                in_group && run is Idle ==> fresh_tokens(token_models(gtokens@)),
            decreases ilen - i,
        {
            let ghost st = state_elems(elements@, in_group, run, s, i as int);
            let ghost gr = state_group(in_group, gtokens@, run, s, i as int);
            let ghost base = element_models(elements@);
            let ghost gbase = token_models(gtokens@);
            let c = input.get_char(i);
            if c == '(' {
                if in_group {
                    proof {
                        assert(parse_from(s, i as int, st, gr) is None);
                        assert(spec_parse(s) is None);
                    }
                    return Err(ParsingError::InvalidSyntax);
                }
                flush_run(&mut elements, &mut gtokens, false, &run, input, i);
                run = Run::Idle;
                in_group = true;
                proof {
                    assert(state_elems(elements@, true, run, s, i as int + 1) =~= st);
                    assert(state_group(true, gtokens@, run, s, i as int + 1) == Some(
                        token_models(gtokens@) + run_model(run, s, i as int + 1),
                    ));
                    assert(token_models(gtokens@) + run_model(run, s, i as int + 1) =~= Seq::<
                        SpecToken,
                    >::empty());
                    assert(parse_from(s, i as int, st, gr) == parse_from(
                        s,
                        i as int + 1,
                        st,
                        Some(Seq::<SpecToken>::empty()),
                    ));
                    assert(fresh_tokens(token_models(gtokens@)));
                }
            } else if c == ')' {
                if !in_group {
                    proof {
                        assert(parse_from(s, i as int, st, gr) is None);
                        assert(spec_parse(s) is None);
                    }
                    return Err(ParsingError::InvalidSyntax);
                }
                flush_run(&mut elements, &mut gtokens, true, &run, input, i);
                run = Run::Idle;
                let ghost ts = gr->Some_0;
                proof {
                    assert(token_models(gtokens@) =~= ts);
                }
                if gtokens.len() == 0 {
                    proof {
                        assert(ts.len() == 0);
                        assert(parse_from(s, i as int, st, gr) is None);
                        assert(spec_parse(s) is None);
                    }
                    return Err(ParsingError::InvalidSyntax);
                }
                let group_tokens = gtokens;
                gtokens = Vec::new();
                elements.push(Element::Group(group_tokens));
                in_group = false;
                proof {
                    assert(element_models(elements@) =~= base.push(SpecElement::Group(ts)));
                    assert(state_elems(elements@, false, run, s, i as int + 1) =~= base.push(
                        SpecElement::Group(ts),
                    ));
                    assert(st =~= base);
                    assert(parse_from(s, i as int, st, gr) == parse_from(
                        s,
                        i as int + 1,
                        st.push(SpecElement::Group(ts)),
                        None,
                    ));
                    assert(fresh_top(element_models(elements@)));
                }
            } else if c == '*' {
                if in_group {
                    flush_run(&mut elements, &mut gtokens, true, &run, input, i);
                    run = Run::Idle;
                    let ghost ts = gr->Some_0;
                    proof {
                        assert(token_models(gtokens@) =~= ts);
                    }
                    gtokens.push(Token::Wildcard);
                    proof {
                        assert(token_models(gtokens@) =~= ts.push(SpecToken::Wildcard));
                        assert(push_token(ts, '*') == ts.push(SpecToken::Wildcard));
                        assert(state_group(true, gtokens@, run, s, i as int + 1) == Some(
                            token_models(gtokens@) + run_model(run, s, i as int + 1),
                        ));
                        assert(token_models(gtokens@) + run_model(run, s, i as int + 1)
                            =~= token_models(gtokens@));
                        assert(state_elems(elements@, true, run, s, i as int + 1) =~= st);
                        assert(parse_from(s, i as int, st, gr) == parse_from(
                            s,
                            i as int + 1,
                            st,
                            Some(push_token(ts, '*')),
                        ));
                        assert(fresh_tokens(token_models(gtokens@)));
                    }
                } else {
                    flush_run(&mut elements, &mut gtokens, false, &run, input, i);
                    run = Run::Idle;
                    let ghost flushed = element_models(elements@);
                    proof {
                        assert(flushed =~= st);
                    }
                    elements.push(Element::Token(Token::Wildcard));
                    proof {
                        assert(element_models(elements@) =~= st.push(
                            SpecElement::Token(SpecToken::Wildcard),
                        ));
                        assert(push_top(st, '*') == st.push(SpecElement::Token(SpecToken::Wildcard)));
                        assert(state_elems(elements@, false, run, s, i as int + 1)
                            =~= element_models(elements@));
                        assert(parse_from(s, i as int, st, gr) == parse_from(
                            s,
                            i as int + 1,
                            push_top(st, '*'),
                            None,
                        ));
                        assert(fresh_top(element_models(elements@)));
                    }
                }
            } else if c == '?' {
                match run {
                    Run::Fixed { count } => {
                        run = Run::Fixed { count: count + 1 };
                        proof {
                            if in_group {
                                let ts = gr->Some_0;
                                assert(ts =~= gbase.push(
                                    SpecToken::FixedLength(count as nat),
                                ));
                                assert(ts.last() == SpecToken::FixedLength(count as nat));
                                assert(ts.drop_last() =~= gbase);
                                assert(push_token(ts, '?') =~= gbase.push(
                                    SpecToken::FixedLength(count as nat + 1),
                                ));
                                assert(state_group(true, gtokens@, run, s, i as int + 1)
                                    == Some(gbase + run_model(run, s, i as int + 1)));
                                assert(gbase + run_model(run, s, i as int + 1) =~= gbase.push(
                                    SpecToken::FixedLength(count as nat + 1),
                                ));
                                assert(state_elems(elements@, true, run, s, i as int + 1) =~= st);
                                assert(parse_from(s, i as int, st, gr) == parse_from(
                                    s,
                                    i as int + 1,
                                    st,
                                    Some(push_token(ts, '?')),
                                ));
                            } else {
                                assert(st =~= base.push(
                                    SpecElement::Token(SpecToken::FixedLength(count as nat)),
                                ));
                                assert(st.last() == SpecElement::Token(
                                    SpecToken::FixedLength(count as nat),
                                ));
                                assert(st.drop_last() =~= base);
                                assert(push_top(st, '?') =~= base.push(
                                    SpecElement::Token(SpecToken::FixedLength(count as nat + 1)),
                                ));
                                assert(state_elems(elements@, false, run, s, i as int + 1)
                                    =~= base.push(
                                    SpecElement::Token(SpecToken::FixedLength(count as nat + 1)),
                                ));
                                assert(parse_from(s, i as int, st, gr) == parse_from(
                                    s,
                                    i as int + 1,
                                    push_top(st, '?'),
                                    None,
                                ));
                            }
                        }
                    },
                    _ => {
                        flush_run(&mut elements, &mut gtokens, in_group, &run, input, i);
                        run = Run::Fixed { count: 1 };
                        proof {
                            if in_group {
                                let ts = gr->Some_0;
                                assert(token_models(gtokens@) =~= ts);
                                assert(ts.len() > 0 ==> !(ts.last() is FixedLength));
                                assert(push_token(ts, '?') =~= ts.push(SpecToken::FixedLength(1)));
                                assert(state_group(true, gtokens@, run, s, i as int + 1)
                                    == Some(ts + run_model(run, s, i as int + 1)));
                                assert(ts + run_model(run, s, i as int + 1) =~= ts.push(
                                    SpecToken::FixedLength(1),
                                ));
                                assert(state_elems(elements@, true, run, s, i as int + 1) =~= st);
                                assert(parse_from(s, i as int, st, gr) == parse_from(
                                    s,
                                    i as int + 1,
                                    st,
                                    Some(push_token(ts, '?')),
                                ));
                            } else {
                                assert(element_models(elements@) =~= st);
                                assert(st.len() > 0 ==> !(st.last() matches SpecElement::Token(
                                    SpecToken::FixedLength(_),
                                )));
                                assert(push_top(st, '?') =~= st.push(
                                    SpecElement::Token(SpecToken::FixedLength(1)),
                                ));
                                assert(state_elems(elements@, false, run, s, i as int + 1) =~= st
                                    .push(SpecElement::Token(SpecToken::FixedLength(1))));
                                assert(parse_from(s, i as int, st, gr) == parse_from(
                                    s,
                                    i as int + 1,
                                    push_top(st, '?'),
                                    None,
                                ));
                            }
                        }
                    },
                }
            } else {
                match run {
                    Run::Text { start } => {
                        proof {
                            let piece = s.subrange(start as int, i as int);
                            assert(piece.push(c) =~= s.subrange(start as int, i as int + 1));
                            if in_group {
                                let ts = gr->Some_0;
                                assert(ts =~= gbase.push(SpecToken::Text(piece)));
                                assert(ts.last() == SpecToken::Text(piece));
                                assert(ts.drop_last() =~= gbase);
                                assert(push_token(ts, c) =~= gbase.push(
                                    SpecToken::Text(piece.push(c)),
                                ));
                                assert(state_group(true, gtokens@, run, s, i as int + 1)
                                    == Some(gbase + run_model(run, s, i as int + 1)));
                                assert(gbase + run_model(run, s, i as int + 1) =~= gbase.push(
                                    SpecToken::Text(s.subrange(start as int, i as int + 1)),
                                ));
                                assert(state_elems(elements@, true, run, s, i as int + 1) =~= st);
                                assert(parse_from(s, i as int, st, gr) == parse_from(
                                    s,
                                    i as int + 1,
                                    st,
                                    Some(push_token(ts, c)),
                                ));
                            } else {
                                assert(st =~= base.push(
                                    SpecElement::Token(SpecToken::Text(piece)),
                                ));
                                assert(st.last() == SpecElement::Token(SpecToken::Text(piece)));
                                assert(st.drop_last() =~= base);
                                assert(push_top(st, c) =~= base.push(
                                    SpecElement::Token(SpecToken::Text(piece.push(c))),
                                ));
                                assert(state_elems(elements@, false, run, s, i as int + 1)
                                    =~= base.push(SpecElement::Token(
                                    SpecToken::Text(s.subrange(start as int, i as int + 1)),
                                )));
                                assert(parse_from(s, i as int, st, gr) == parse_from(
                                    s,
                                    i as int + 1,
                                    push_top(st, c),
                                    None,
                                ));
                            }
                        }
                    },
                    _ => {
                        flush_run(&mut elements, &mut gtokens, in_group, &run, input, i);
                        run = Run::Text { start: i };
                        proof {
                            assert(seq![c] =~= s.subrange(i as int, i as int + 1));
                            if in_group {
                                let ts = gr->Some_0;
                                assert(token_models(gtokens@) =~= ts);
                                assert(ts.len() > 0 ==> !(ts.last() is Text));
                                assert(push_token(ts, c) =~= ts.push(SpecToken::Text(seq![c])));
                                assert(state_group(true, gtokens@, run, s, i as int + 1)
                                    == Some(ts + run_model(run, s, i as int + 1)));
                                assert(ts + run_model(run, s, i as int + 1) =~= ts.push(
                                    SpecToken::Text(seq![c]),
                                ));
                                assert(state_elems(elements@, true, run, s, i as int + 1) =~= st);
                                assert(parse_from(s, i as int, st, gr) == parse_from(
                                    s,
                                    i as int + 1,
                                    st,
                                    Some(push_token(ts, c)),
                                ));
                            } else {
                                assert(element_models(elements@) =~= st);
                                assert(st.len() > 0 ==> !(st.last() matches SpecElement::Token(
                                    SpecToken::Text(_),
                                )));
                                assert(push_top(st, c) =~= st.push(
                                    SpecElement::Token(SpecToken::Text(seq![c])),
                                ));
                                assert(state_elems(elements@, false, run, s, i as int + 1) =~= st
                                    .push(SpecElement::Token(SpecToken::Text(seq![c]))));
                                assert(parse_from(s, i as int, st, gr) == parse_from(
                                    s,
                                    i as int + 1,
                                    push_top(st, c),
                                    None,
                                ));
                            }
                        }
                    },
                }
            }
            i = i + 1;
        }
        let ghost st = state_elems(elements@, in_group, run, s, i as int);
        let ghost gr = state_group(in_group, gtokens@, run, s, i as int);
        if in_group {
            proof {
                assert(parse_from(s, i as int, st, gr) is None);
                assert(spec_parse(s) is None);
            }
            return Err(ParsingError::InvalidSyntax);
        }
        flush_run(&mut elements, &mut gtokens, false, &run, input, ilen);
        proof {
            assert(element_models(elements@) =~= st);
        }
        if elements.len() == 0 {
            proof {
                assert(st.len() == 0);
                assert(parse_from(s, i as int, st, gr) is None);
                assert(spec_parse(s) is None);
            }
            return Err(ParsingError::InvalidSyntax);
        }
        let pattern = Pattern { elements };
        proof {
            assert(pattern@ =~= st);
            assert(parse_from(s, i as int, st, gr) == Some(st));
            assert(parse_from(s, 0, Seq::empty(), None) == Some(pattern@));
        }
        if contains_repeated_wildcards(&pattern) {
            proof {
                assert(spec_parse(s) is None);
            }
            return Err(ParsingError::InvalidSyntax);
        }
        proof {
            assert(spec_parse(s) == Some(pattern@));
            theorem_parse_renders_input(s, pattern@);
        }
        Ok(pattern)
    }
}

/// Appends the glob form of one token to `out`.
fn append_token_glob(out: &mut String, t: &Token)
    ensures
        final(out)@ == old(out)@ + token_glob(t@),
{
    match t {
        Token::Text(s) => {
            out.append(s.as_str());
        },
        Token::FixedLength(n) => {
            proof {
                reveal_strlit("?");
            }
            let mut i: usize = 0;
            while i < *n
                invariant
                    i <= *n,
                    out@ == old(out)@ + Seq::new(i as nat, |k: int| '?'),
                    "?"@ == seq!['?'],
                decreases *n - i,
            {
                out.append("?");
                i = i + 1;
                proof {
                    assert(out@ =~= old(out)@ + Seq::new(i as nat, |k: int| '?'));
                }
            }
            proof {
                assert(Seq::new(*n as nat, |k: int| '?') =~= token_glob(t@));
            }
        },
        Token::Wildcard => {
            proof {
                reveal_strlit("*");
                assert("*"@ =~= seq!['*']);
            }
            out.append("*");
        },
    }
}

impl Pattern {
    /// The glob projection of the pattern: every `Wildcard` becomes `*`,
    /// every `FixedLength(n)` becomes `n` repetitions of `?`, literal text is
    /// copied verbatim, and group boundaries are erased.  The projection is a
    /// coarse pre-filter only; the matcher remains the source of truth.
    pub fn as_glob(&self) -> (r: String)
        ensures
            r@ == glob_of(self@),
    {
        let mut result = String::new();
        let mut e: usize = 0;
        while e < self.elements.len()
            invariant
                e <= self.elements.len(),
                result@ == glob_of_tokens(flat_tokens(self@.take(e as int))),
            decreases self.elements.len() - e,
        {
            let ghost prefix = flat_tokens(self@.take(e as int));
            match &self.elements[e] {
                Element::Token(t) => {
                    append_token_glob(&mut result, t);
                    proof {
                        lemma_flat_tokens_push(self@.take(e as int), self@[e as int]);
                        lemma_glob_of_tokens_push(prefix, t@);
                        assert(self@.take(e as int).push(self@[e as int]) =~= self@.take(
                            e as int + 1,
                        ));
                        assert(element_tokens(self@[e as int]) =~= seq![t@]);
                        assert(prefix.push(t@) =~= prefix + seq![t@]);
                    }
                },
                Element::Group(ts) => {
                    let mut j: usize = 0;
                    while j < ts.len()
                        invariant
                            j <= ts.len(),
                            result@ == glob_of_tokens(prefix + token_models(ts@).take(j as int)),
                        decreases ts.len() - j,
                    {
                        append_token_glob(&mut result, &ts[j]);
                        proof {
                            lemma_glob_of_tokens_push(
                                prefix + token_models(ts@).take(j as int),
                                ts@[j as int]@,
                            );
                            assert((prefix + token_models(ts@).take(j as int)).push(
                                ts@[j as int]@,
                            ) =~= prefix + token_models(ts@).take(j as int + 1));
                        }
                        j = j + 1;
                    }
                    proof {
                        lemma_flat_tokens_push(self@.take(e as int), self@[e as int]);
                        assert(self@.take(e as int).push(self@[e as int]) =~= self@.take(
                            e as int + 1,
                        ));
                        assert(token_models(ts@).take(ts@.len() as int) =~= token_models(ts@));
                        assert(element_tokens(self@[e as int]) =~= token_models(ts@));
                    }
                },
            }
            e = e + 1;
        }
        proof {
            assert(self@.take(self@.len() as int) =~= self@);
        }
        result
    }
}

} // verus!
