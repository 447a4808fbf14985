//! The name generator: assembles the new file name from a replacement
//! pattern and the capture groups one match produced.

use crate::matcher::CaptureGroup;
use crate::replacement_pattern::{Element, Pattern, SpecElement};
use vstd::prelude::*;

verus! {

/// The error the name generator reports: the replacement pattern referenced
/// a capture group the matching pattern never produced.
#[derive(Debug, PartialEq, Eq, Clone)]
pub enum NameGeneratorError {
    /// The 0-based index of the first out-of-range reference, in element
    /// order.
    MissingCaptureGroup(usize),
}

/// What generating a name yields: the concatenation, in element order, of
/// literal text and referenced capture-group contents; or, on the first
/// reference out of range of the supplied groups, that reference's index.
pub open spec fn spec_generate(elems: Seq<SpecElement>, caps: Seq<Seq<char>>) -> Result<
    Seq<char>,
    int,
>
    decreases elems.len(),
{
    if elems.len() == 0 {
        Ok(Seq::empty())
    } else {
        match elems[0] {
            SpecElement::Text(t) => match spec_generate(elems.drop_first(), caps) {
                Ok(rest) => Ok(t + rest),
                Err(e) => Err(e),
            },
            SpecElement::CaptureGroup(idx) => if 0 <= idx < caps.len() {
                match spec_generate(elems.drop_first(), caps) {
                    Ok(rest) => Ok(caps[idx] + rest),
                    Err(e) => Err(e),
                }
            } else {
                Err(idx)
            },
        }
    }
}

/// Generates new names from one replacement pattern.
#[derive(Debug)]
pub struct NameGeneratorImpl {
    replacement_pattern: Pattern,
}

impl NameGeneratorImpl {
    /// The replacement pattern the generator was built from.
    pub closed spec fn pattern(&self) -> Seq<SpecElement> {
        self.replacement_pattern@
    }

    /// A generator for `replacement_pattern`.
    pub fn new(replacement_pattern: Pattern) -> (r: Self)
        ensures
            r.pattern() == replacement_pattern@,
    {
        Self { replacement_pattern }
    }

    /// Walks the replacement pattern's elements in order, appending literal
    /// text verbatim and, for each reference, the referenced group's
    /// contents; fails fast on the first reference whose index is out of
    /// range of `capture_groups`, reporting that index.
    pub fn generate_name(&self, capture_groups: Vec<CaptureGroup>) -> (r: Result<
        String,
        NameGeneratorError,
    >)
        ensures
            ({
                let res = spec_generate(
                    self.pattern(),
                    capture_groups@.map_values(|c: CaptureGroup| c@),
                );
                match r {
                    Ok(name) => res == Ok::<Seq<char>, int>(name@),
                    Err(e) => e matches NameGeneratorError::MissingCaptureGroup(idx) && res
                        == Err::<Seq<char>, int>(idx as int),
                }
            }),
    {
        let ghost elems = self.pattern();
        let ghost caps = capture_groups@.map_values(|c: CaptureGroup| c@);
        let mut result = String::new();
        let mut e: usize = 0;
        proof {
            assert(elems.skip(0) =~= elems);
        }
        while e < self.replacement_pattern.elements.len()
            invariant
                e <= elems.len(),
                elems == self.pattern(),
                caps == capture_groups@.map_values(|c: CaptureGroup| c@),
                (match spec_generate(elems.skip(e as int), caps) {
                    Ok(t) => spec_generate(elems, caps) == Ok::<Seq<char>, int>(result@ + t),
                    Err(x) => spec_generate(elems, caps) == Err::<Seq<char>, int>(x),
                }),
            decreases elems.len() - e,
        {
            let ghost suffix = elems.skip(e as int);
            let ghost before = result@;
            proof {
                assert(suffix[0] == self.replacement_pattern.elements@[e as int]@);
                assert(suffix.drop_first() =~= elems.skip(e as int + 1));
            }
            match &self.replacement_pattern.elements[e] {
                Element::Text(t) => {
                    result.append(t.as_str());
                    proof {
                        match spec_generate(suffix.drop_first(), caps) {
                            Ok(rest) => {
                                assert((before + t@) + rest =~= before + (t@ + rest));
                            },
                            Err(_) => {},
                        }
                    }
                },
                Element::CaptureGroup(idx) => {
                    if *idx >= capture_groups.len() {
                        proof {
                            assert(spec_generate(suffix, caps) == Err::<Seq<char>, int>(
                                *idx as int,
                            ));
                        }
                        return Err(NameGeneratorError::MissingCaptureGroup(*idx));
                    }
                    result.append(capture_groups[*idx].contents.as_str());
                    proof {
                        assert(caps[*idx as int] == capture_groups@[*idx as int]@);
                        match spec_generate(suffix.drop_first(), caps) {
                            Ok(rest) => {
                                assert((before + caps[*idx as int]) + rest =~= before + (
                                caps[*idx as int] + rest));
                            },
                            Err(_) => {},
                        }
                    }
                },
            }
            e = e + 1;
        }
        proof {
            assert(elems.skip(elems.len() as int) =~= Seq::<SpecElement>::empty());
            assert(spec_generate(Seq::<SpecElement>::empty(), caps) == Ok::<Seq<char>, int>(
                Seq::empty(),
            ));
            assert(result@ + Seq::<char>::empty() =~= result@);
        }
        Ok(result)
    }
}

} // verus!
