//! The replacement side of the pattern language: literal text interleaved
//! with capture-group references.
//!
//! In the surface syntax `$` followed by one or more digits names a capture
//! group, 1-based; any other character is literal.  References are
//! normalized to the 0-based numbering the matcher produces, so `$1` becomes
//! index 0, and a reference to group 0 is a syntax error.

use vstd::prelude::*;

verus! {

/// One element of a replacement pattern.
#[derive(Debug, PartialEq, Eq, Clone)]
pub enum Element {
    /// Literal text, copied verbatim into the new name.
    Text(String),
    /// A capture-group reference, as a 0-based index into the capture
    /// groups the matcher produced.
    CaptureGroup(usize),
}

/// A parsed replacement pattern: an ordered sequence of elements.
#[derive(Debug, PartialEq, Eq, Clone)]
pub struct Pattern {
    /// The elements, in the order they appear in the pattern string.
    pub elements: Vec<Element>,
}

/// The error the replacement parser reports.
#[derive(Debug, PartialEq, Eq, Clone)]
pub enum ParsingError {
    /// The given pattern is not valid.
    InvalidSyntax,
}

/// The mathematical model of an [`Element`].
pub enum SpecElement {
    Text(Seq<char>),
    CaptureGroup(int),
}

impl View for Element {
    type V = SpecElement;

    open spec fn view(&self) -> SpecElement {
        match self {
            Element::Text(s) => SpecElement::Text(s@),
            Element::CaptureGroup(i) => SpecElement::CaptureGroup(*i as int),
        }
    }
}

impl View for Pattern {
    type V = Seq<SpecElement>;

    open spec fn view(&self) -> Seq<SpecElement> {
        self.elements@.map_values(|e: Element| e@)
    }
}

/// The models of a sequence of elements.
pub open spec fn element_models(es: Seq<Element>) -> Seq<SpecElement> {
    es.map_values(|e: Element| e@)
}

/// A decimal digit.
pub open spec fn is_digit(c: char) -> bool {
    48 <= c as int && c as int <= 57
}

/// The value of a decimal digit.
pub open spec fn digit_value(c: char) -> int {
    c as int - 48
}

/// One literal character appended to the element list, extending a trailing
/// text element when there is one.
pub open spec fn push_text(elems: Seq<SpecElement>, c: char) -> Seq<SpecElement> {
    if elems.len() > 0 {
        match elems.last() {
            SpecElement::Text(t) => elems.drop_last().push(SpecElement::Text(t.push(c))),
            _ => elems.push(SpecElement::Text(seq![c])),
        }
    } else {
        elems.push(SpecElement::Text(seq![c]))
    }
}

/// Closes a `$`-reference whose digits read as `acc`: the reference must
/// have at least one digit, name a group of the 1-based surface numbering
/// (so 0 is rejected), and fit the machine's index range.  The stored index
/// is normalized to 0-based.
pub open spec fn complete_reference(elems: Seq<SpecElement>, acc: nat, digits: nat) -> Option<
    Seq<SpecElement>,
> {
    if digits == 0 || acc == 0 || acc > usize::MAX {
        None
    } else {
        Some(elems.push(SpecElement::CaptureGroup(acc - 1)))
    }
}

/// What the replacement parser is reading: literal text, or the digits of a
/// `$`-reference.
pub enum SpecMode {
    Plain,
    Num { acc: nat, digits: nat },
}

/// The decomposition of `s` from position `i` on, given the elements parsed
/// so far and the current mode.  Fails on a `$` that is not followed by at
/// least one digit, a reference to group 0, a reference too large for the
/// machine, or a wholly empty pattern.
pub open spec fn parse_from(
    s: Seq<char>,
    i: int,
    elems: Seq<SpecElement>,
    mode: SpecMode,
) -> Option<Seq<SpecElement>>
    decreases s.len() - i,
{
    if i < 0 || i >= s.len() {
        match mode {
            SpecMode::Plain => if elems.len() == 0 {
                None
            } else {
                Some(elems)
            },
            SpecMode::Num { acc, digits } => complete_reference(elems, acc, digits),
        }
    } else {
        let c = s[i];
        match mode {
            SpecMode::Plain => if c == '$' {
                parse_from(s, i + 1, elems, SpecMode::Num { acc: 0, digits: 0 })
            } else {
                parse_from(s, i + 1, push_text(elems, c), SpecMode::Plain)
            },
            SpecMode::Num { acc, digits } => if is_digit(c) {
                parse_from(
                    s,
                    i + 1,
                    elems,
                    SpecMode::Num { acc: (acc * 10 + digit_value(c)) as nat, digits: digits + 1 },
                )
            } else {
                match complete_reference(elems, acc, digits) {
                    Some(done) => if c == '$' {
                        parse_from(s, i + 1, done, SpecMode::Num { acc: 0, digits: 0 })
                    } else {
                        parse_from(s, i + 1, push_text(done, c), SpecMode::Plain)
                    },
                    None => None,
                }
            },
        }
    }
}

/// What parsing a replacement-pattern string yields.
pub open spec fn spec_parse(s: Seq<char>) -> Option<Seq<SpecElement>> {
    parse_from(s, 0, Seq::empty(), SpecMode::Plain)
}

/// What the parser is scanning over: nothing yet, a literal text run that
/// began at a character position, or the digits of a reference.  The
/// accumulated value saturates at the machine's index range; `too_big`
/// records that it overflowed.
#[derive(Clone, Copy)]
enum Scan {
    Plain,
    Text { start: usize },
    Num { acc: usize, too_big: bool, has_digit: bool },
}

/// The replacement-pattern parser.
#[derive(Debug)]
pub struct ParserImpl {}

impl ParserImpl {
    /// A new parser.
    pub fn new() -> (r: Self) {
        ParserImpl {  }
    }

    /// Parses a replacement-pattern string: `$` followed by one or more
    /// digits is a 1-based capture-group reference, normalized here to the
    /// matcher's 0-based numbering; any other character is literal text.
    /// Rejects a `$` without digits, a reference to group 0 or one too
    /// large for the machine, and the empty pattern.
    pub fn parse(&self, input: &str) -> (r: Result<Pattern, ParsingError>)
        ensures
            match r {
                Ok(p) => spec_parse(input@) == Some(p@) && p@.len() >= 1,
                Err(e) => spec_parse(input@) is None && e == ParsingError::InvalidSyntax,
            },
    {
        let ghost s = input@;
        let ilen = input.unicode_len();
        let mut elements: Vec<Element> = Vec::new();
        let mut scan = Scan::Plain;
        let ghost mut acc_g: nat = 0;
        let ghost mut digits_g: nat = 0;
        let mut i: usize = 0;
        proof {
            assert(element_models(elements@) =~= Seq::<SpecElement>::empty());
        }
        while i < ilen
            invariant
                i <= ilen,
                ilen == s.len(),
                s == input@,
                scan is Plain ==> elements@.len() == 0 && parse_from(
                    s,
                    0,
                    Seq::empty(),
                    SpecMode::Plain,
                ) == parse_from(s, i as int, element_models(elements@), SpecMode::Plain),
                scan matches Scan::Text { start } ==> (start as int) < i && parse_from(
                    s,
                    0,
                    Seq::empty(),
                    SpecMode::Plain,
                ) == parse_from(
                    s,
                    i as int,
                    element_models(elements@).push(
                        SpecElement::Text(s.subrange(start as int, i as int)),
                    ),
                    SpecMode::Plain,
                ),
                scan matches Scan::Num { acc, too_big, has_digit } ==> parse_from(
                    s,
                    0,
                    Seq::empty(),
                    SpecMode::Plain,
                ) == parse_from(
                    s,
                    i as int,
                    element_models(elements@),
                    SpecMode::Num { acc: acc_g, digits: digits_g },
                ) && (!too_big ==> acc == acc_g) && (too_big ==> acc_g > usize::MAX) && has_digit
                    == (digits_g > 0),
            decreases ilen - i,
        {
            let ghost base = element_models(elements@);
            let c = input.get_char(i);
            match scan {
                Scan::Plain => {
                    if c == '$' {
                        scan = Scan::Num { acc: 0, too_big: false, has_digit: false };
                        proof {
                            acc_g = 0;
                            digits_g = 0;
                        }
                    } else {
                        scan = Scan::Text { start: i };
                        proof {
                            assert(seq![c] =~= s.subrange(i as int, i as int + 1));
                            assert(push_text(base, c) =~= base.push(SpecElement::Text(seq![c])));
                        }
                    }
                },
                Scan::Text { start } => {
                    if c == '$' {
                        let piece = input.substring_char(start, i);
                        elements.push(Element::Text(String::from_str(piece)));
                        scan = Scan::Num { acc: 0, too_big: false, has_digit: false };
                        proof {
                            acc_g = 0;
                            digits_g = 0;
                            assert(element_models(elements@) =~= base.push(
                                SpecElement::Text(s.subrange(start as int, i as int)),
                            ));
                        }
                    } else {
                        proof {
                            let piece = s.subrange(start as int, i as int);
                            let st = base.push(SpecElement::Text(piece));
                            assert(st.last() == SpecElement::Text(piece));
                            assert(st.drop_last() =~= base);
                            assert(piece.push(c) =~= s.subrange(start as int, i as int + 1));
                            assert(push_text(st, c) =~= base.push(
                                SpecElement::Text(s.subrange(start as int, i as int + 1)),
                            ));
                        }
                    }
                },
                Scan::Num { acc, too_big, has_digit } => {
                    let code = c as u32;
                    if 48 <= code && code <= 57 {
                        let d = (code - 48) as usize;
                        let ghost acc_old: nat = acc_g;
                        proof {
                            acc_g = (acc_old * 10 + digit_value(c)) as nat;
                            digits_g = digits_g + 1;
                            assert(digit_value(c) == d);
                        }
                        if too_big {
                            scan = Scan::Num { acc, too_big: true, has_digit: true };
                            proof {
                                assert(acc_old * 10 > usize::MAX);
                                assert(acc_g > usize::MAX);
                            }
                        } else {
                            match acc.checked_mul(10) {
                                Some(x) => {
                                    match x.checked_add(d) {
                                        Some(y) => {
                                            scan = Scan::Num {
                                                acc: y,
                                                too_big: false,
                                                has_digit: true,
                                            };
                                        },
                                        None => {
                                            scan = Scan::Num {
                                                acc,
                                                too_big: true,
                                                has_digit: true,
                                            };
                                        },
                                    }
                                },
                                None => {
                                    scan = Scan::Num { acc, too_big: true, has_digit: true };
                                },
                            }
                        }
                    } else {
                        if !has_digit {
                            proof {
                                assert(complete_reference(base, acc_g, digits_g) is None);
                                assert(parse_from(
                                    s,
                                    i as int,
                                    base,
                                    SpecMode::Num { acc: acc_g, digits: digits_g },
                                ) is None);
                            }
                            return Err(ParsingError::InvalidSyntax);
                        }
                        if too_big {
                            proof {
                                assert(complete_reference(base, acc_g, digits_g) is None);
                            }
                            return Err(ParsingError::InvalidSyntax);
                        }
                        if acc == 0 {
                            proof {
                                assert(complete_reference(base, acc_g, digits_g) is None);
                            }
                            return Err(ParsingError::InvalidSyntax);
                        }
                        elements.push(Element::CaptureGroup(acc - 1));
                        let ghost done = base.push(SpecElement::CaptureGroup(acc_g - 1));
                        proof {
                            assert(element_models(elements@) =~= done);
                            assert(complete_reference(base, acc_g, digits_g) == Some(done));
                        }
                        if c == '$' {
                            scan = Scan::Num { acc: 0, too_big: false, has_digit: false };
                            proof {
                                acc_g = 0;
                                digits_g = 0;
                            }
                        } else {
                            scan = Scan::Text { start: i };
                            proof {
                                assert(seq![c] =~= s.subrange(i as int, i as int + 1));
                                assert(done.last() == SpecElement::CaptureGroup(acc_g - 1));
                                assert(push_text(done, c) =~= done.push(
                                    SpecElement::Text(seq![c]),
                                ));
                            }
                        }
                    }
                },
            }
            i = i + 1;
        }
        match scan {
            Scan::Plain => {
                proof {
                    assert(parse_from(s, i as int, element_models(elements@), SpecMode::Plain)
                        is None);
                }
                return Err(ParsingError::InvalidSyntax);
            },
            Scan::Text { start } => {
                let ghost base = element_models(elements@);
                let piece = input.substring_char(start, ilen);
                elements.push(Element::Text(String::from_str(piece)));
                proof {
                    assert(element_models(elements@) =~= base.push(
                        SpecElement::Text(s.subrange(start as int, ilen as int)),
                    ));
                }
            },
            Scan::Num { acc, too_big, has_digit } => {
                let ghost base = element_models(elements@);
                if !has_digit {
                    proof {
                        assert(complete_reference(base, acc_g, digits_g) is None);
                    }
                    return Err(ParsingError::InvalidSyntax);
                }
                if too_big {
                    proof {
                        assert(complete_reference(base, acc_g, digits_g) is None);
                    }
                    return Err(ParsingError::InvalidSyntax);
                }
                if acc == 0 {
                    proof {
                        assert(complete_reference(base, acc_g, digits_g) is None);
                    }
                    return Err(ParsingError::InvalidSyntax);
                }
                elements.push(Element::CaptureGroup(acc - 1));
                proof {
                    assert(element_models(elements@) =~= base.push(
                        SpecElement::CaptureGroup(acc_g - 1),
                    ));
                    assert(complete_reference(base, acc_g, digits_g) == Some(
                        element_models(elements@),
                    ));
                }
            },
        }
        let pattern = Pattern { elements };
        proof {
            assert(pattern@ =~= element_models(pattern.elements@));
            assert(spec_parse(s) == Some(pattern@));
        }
        Ok(pattern)
    }
}

} // verus!
