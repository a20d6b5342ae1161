use vstd::prelude::*;

verus! {

/// The text without its leading and trailing white space.
pub uninterp spec fn trimmed(s: Seq<char>) -> Seq<char>;

/// The text in lower case, as Unicode defines it.
pub uninterp spec fn lowercased(s: Seq<char>) -> Seq<char>;

/// `pattern` is a valid regular expression for the regex crate.
pub uninterp spec fn regex_compiles(pattern: Seq<char>, case_insensitive: bool) -> bool;

/// The regular expression `pattern` matches somewhere in `text`.
pub uninterp spec fn regex_finds(pattern: Seq<char>, case_insensitive: bool, text: Seq<char>) -> bool;

#[verifier::external_type_specification]
#[verifier::external_body]
pub struct ExRegex(regex::Regex);

/// Relies on str::trim: leading and trailing white space removed; the
/// result depends on the text alone.
#[verifier::external_body]
pub(crate) fn trim_text(s: &str) -> (r: String)
    ensures
        r@ == trimmed(s@),
{
    s.trim().to_string()
}

/// Relies on str::to_lowercase: the lower-case form, which depends on the
/// text alone.
#[verifier::external_body]
pub(crate) fn lowercase(s: &str) -> (r: String)
    ensures
        r@ == lowercased(s@),
{
    s.to_lowercase()
}

/// Relies on regex::RegexBuilder::build, with case folding as asked:
/// whether the pattern compiles depends on the pattern and the flag alone.
#[verifier::external_body]
fn build_regex(pattern: &str, case_insensitive: bool) -> (r: Option<regex::Regex>)
    ensures
        r is Some <==> regex_compiles(pattern@, case_insensitive),
{
    regex::RegexBuilder::new(pattern).case_insensitive(case_insensitive).build().ok()
}

/// A compiled regular expression together with the pattern and flag it was
/// built from.
pub struct PathRegex {
    pattern: String,
    case_insensitive: bool,
    compiled: regex::Regex,
}

impl PathRegex {
    pub closed spec fn source(&self) -> Seq<char> {
        self.pattern@
    }

    pub closed spec fn ignores_case(&self) -> bool {
        self.case_insensitive
    }

    pub fn compile(pattern: &str, case_insensitive: bool) -> (r: Option<PathRegex>)
        ensures
            r is Some <==> regex_compiles(pattern@, case_insensitive),
            r matches Some(x) ==> x.source() == pattern@ && x.ignores_case() == case_insensitive,
    {
        match build_regex(pattern, case_insensitive) {
            Some(compiled) => Some(PathRegex { pattern: pattern.to_owned(), case_insensitive, compiled }),
            None => None,
        }
    }

    pub fn is_match(&self, text: &str) -> (r: bool)
        ensures
            r == regex_finds(self.source(), self.ignores_case(), text@),
    {
        regex_is_match(self, text)
    }
}

/// Relies on regex::Regex::is_match: whether the expression, compiled from
/// `re`'s pattern and flag, matches anywhere in `text`.
#[verifier::external_body]
fn regex_is_match(re: &PathRegex, text: &str) -> (r: bool)
    ensures
        r == regex_finds(re.pattern@, re.case_insensitive, text@),
{
    re.compiled.is_match(text)
}

} // verus!
