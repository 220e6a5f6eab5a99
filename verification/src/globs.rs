//! Glob patterns. Matching itself is an outside primitive: the compiled
//! pattern is opaque, and what it matches is named, never restated here.

use vstd::prelude::*;

verus! {

/// Declares glob::Pattern, the outside crate's compiled pattern, as an
/// opaque type so it can stand in fields.
#[verifier::external_type_specification]
#[verifier::external_body]
pub struct ExPattern(glob::Pattern);

/// Whether `glob::Pattern::new` accepts this pattern text.
pub uninterp spec fn glob_pattern_ok(pattern: Seq<char>) -> bool;

/// Whether a pattern matches a string, with a literal path separator required.
pub uninterp spec fn glob_matches(pattern: Seq<char>, s: Seq<char>) -> bool;

/// A compiled glob pattern, kept together with its source text; the text is
/// what contracts speak about.
pub struct GlobPattern {
    pattern: glob::Pattern,
    text: String,
}

impl View for GlobPattern {
    type V = Seq<char>;

    closed spec fn view(&self) -> Seq<char> {
        self.text@
    }
}

impl GlobPattern {
    /// Relies on glob::Pattern::new: compiles the pattern; `None` exactly when
    /// the pattern text is invalid.
    #[verifier::external_body]
    pub fn new(pattern: &str) -> (r: Option<GlobPattern>)
        ensures
            match r {
                Some(g) => g@ == pattern@ && glob_pattern_ok(pattern@),
                None => !glob_pattern_ok(pattern@),
            },
    {
        match glob::Pattern::new(pattern) {
            Ok(p) => Some(
                GlobPattern { pattern: p, text: pattern.to_owned() },
            ),
            Err(_) => None,
        }
    }

    /// Relies on glob::Pattern::matches_with, with `require_literal_separator`
    /// set, as every call site of the packer uses it.
    #[verifier::external_body]
    pub fn matches(&self, s: &str) -> (r: bool)
        ensures
            r == glob_matches(self@, s@),
    {
        let mut opt = glob::MatchOptions::new();
        opt.require_literal_separator = true;
        self.pattern.matches_with(s, opt)
    }

    /// The source text of the pattern.
    pub fn as_str(&self) -> (r: &str)
        ensures
            r@ == self@,
    {
        self.text.as_str()
    }
}

impl PartialEq for GlobPattern {
    /// Patterns are compared by their source text.
    fn eq(&self, other: &Self) -> (r: bool) {
        self.text == other.text
    }
}

impl vstd::std_specs::cmp::PartialEqSpecImpl for GlobPattern {
    open spec fn obeys_eq_spec() -> bool {
        true
    }

    open spec fn eq_spec(&self, other: &Self) -> bool {
        self@ == other@
    }
}

impl Eq for GlobPattern {

}

impl Clone for GlobPattern {
    /// Relies on glob::Pattern's derived Clone: a field-for-field copy of the
    /// compiled pattern.
    #[verifier::external_body]
    fn clone(&self) -> (r: Self)
        ensures
            r@ == self@,
    {
        GlobPattern { pattern: self.pattern.clone(), text: self.text.clone() }
    }
}

} // verus!
