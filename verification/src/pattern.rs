//! Compiled regular expressions for `/regex/` query terms.
//!
//! A [`CompiledRegex`] can only be made by [`compile_regex`], which builds the
//! engine with `regex::bytes::Regex::new` from the pattern it keeps beside it.
//! Its matching is therefore a function of that pattern alone.

use vstd::prelude::*;

verus! {

#[verifier::external_type_specification]
#[verifier::external_body]
pub struct ExRegex(regex::bytes::Regex);

#[verifier::external_type_specification]
#[verifier::external_body]
pub struct ExRegexError(regex::Error);

/// Whether `regex::bytes::Regex::new` accepts `pattern`.
pub uninterp spec fn regex_accepts(pattern: Seq<char>) -> bool;

/// Whether the regex that `regex::bytes::Regex::new(pattern)` builds matches
/// somewhere in `haystack`.
pub uninterp spec fn regex_is_match(pattern: Seq<char>, haystack: Seq<u8>) -> bool;

/// A regex built by `regex::bytes::Regex::new` from `pattern`, with no other
/// options. The fields are private: [`compile_regex`] is the only way to
/// make one.
pub struct CompiledRegex {
    re: regex::bytes::Regex,
    pattern: String,
}

impl CompiledRegex {
    /// The pattern the regex was built from.
    pub closed spec fn pattern(&self) -> Seq<char> {
        self.pattern@
    }
}

/// `regex::bytes::Regex::new`: compiles `pattern` with the default options.
#[verifier::external_body]
pub(crate) fn compile_regex(pattern: String) -> (res: Result<CompiledRegex, regex::Error>)
    ensures
        res is Ok <==> regex_accepts(pattern@),
        res matches Ok(c) ==> c.pattern() == pattern@,
{
    match regex::bytes::Regex::new(pattern.as_str()) {
        Ok(re) => Ok(CompiledRegex { re, pattern }),
        Err(e) => Err(e),
    }
}

/// `regex::bytes::Regex::is_match`: whether the regex matches somewhere in
/// `haystack`.
#[verifier::external_body]
pub(crate) fn regex_matches(c: &CompiledRegex, haystack: &[u8]) -> (res: bool)
    ensures
        res == regex_is_match(c.pattern(), haystack@),
{
    c.re.is_match(haystack)
}

/// `regex::Error`'s `Display`: the error message. Nothing is stated about it.
#[verifier::external_body]
pub(crate) fn regex_error_text(e: &regex::Error) -> String {
    e.to_string()
}

} // verus!
