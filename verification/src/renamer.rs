//! The per-file renaming step: match one candidate name, then generate its
//! replacement.  Enumerating files and performing the rename are left to
//! the caller.

use crate::matcher::{match_result, MatcherImpl};
use crate::name_generator::{spec_generate, NameGeneratorError, NameGeneratorImpl};
use crate::matching_pattern::SpecElement;
use vstd::prelude::*;

verus! {

/// Why one candidate name got no replacement.
#[derive(Debug, PartialEq, Eq, Clone)]
pub enum RenamerError {
    /// The name does not fit the matching pattern; the caller skips the
    /// file.
    MatcherError,
    /// The replacement pattern referenced a capture group the matching
    /// pattern never produced; the caller skips the file.
    NameGeneratorError(NameGeneratorError),
}

/// The renaming core for one pattern pairing: a compiled matcher, the name
/// generator, and the matching pattern's glob projection for callers that
/// pre-filter candidate names with it.
pub struct RenamerImpl {
    matching_pattern_glob: String,
    matcher: MatcherImpl,
    name_generator: NameGeneratorImpl,
}

impl RenamerImpl {
    /// The matching pattern the held matcher was compiled from.
    pub closed spec fn matching_pattern(&self) -> Seq<SpecElement> {
        self.matcher.pattern()
    }

    /// The replacement pattern the held generator was built from.
    pub closed spec fn replacement_pattern(&self) -> Seq<
        crate::replacement_pattern::SpecElement,
    > {
        self.name_generator.pattern()
    }

    /// The held matcher is well formed.
    pub closed spec fn wf(&self) -> bool {
        self.matcher.wf()
    }

    /// The stored glob projection.
    pub closed spec fn glob(&self) -> Seq<char> {
        self.matching_pattern_glob@
    }

    /// The glob projection of the matching pattern, a coarse pre-filter
    /// only; the matcher remains the source of truth.
    pub fn matching_pattern_glob(&self) -> (r: &String)
        ensures
            r@ == self.glob(),
    {
        &self.matching_pattern_glob
    }

    /// A renaming core from a compiled matcher and a name generator.
    pub fn new(
        matching_pattern_glob: String,
        matcher: MatcherImpl,
        name_generator: NameGeneratorImpl,
    ) -> (r: Self)
        requires
            matcher.wf(),
        ensures
            r.wf(),
            r.matching_pattern() == matcher.pattern(),
            r.replacement_pattern() == name_generator.pattern(),
            r.glob() == matching_pattern_glob@,
    {
        Self { matching_pattern_glob, matcher, name_generator }
    }

    /// The new name for one candidate: the old name is matched against the
    /// matching pattern, and on a match the captured substrings fill the
    /// replacement pattern.  Both failures are per-file and recoverable.
    pub fn create_new_name(&self, old_name: &str) -> (r: Result<String, RenamerError>)
        requires
            self.wf(),
        ensures
            ({
                match match_result(self.matching_pattern(), old_name@) {
                    None => r == Err::<String, RenamerError>(RenamerError::MatcherError),
                    Some(caps) => match spec_generate(self.replacement_pattern(), caps) {
                        Ok(name) => r matches Ok(n) && n@ == name,
                        Err(idx) => r matches Err(RenamerError::NameGeneratorError(
                            NameGeneratorError::MissingCaptureGroup(i),
                        )) && i as int == idx,
                    },
                }
            }),
    {
        let capture_groups = match self.matcher.match_against(old_name) {
            Ok(caps) => caps,
            Err(()) => {
                return Err(RenamerError::MatcherError);
            },
        };
        match self.name_generator.generate_name(capture_groups) {
            Ok(name) => Ok(name),
            Err(e) => Err(RenamerError::NameGeneratorError(e)),
        }
    }
}

} // verus!
