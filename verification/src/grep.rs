//! Field filters: a field name plus a regular expression.
//!
//! A filter is written `field:pattern`.  The field half must be one of the
//! nine recognized names (checked eagerly, at construction); the pattern
//! half must compile as a regular expression.  Matching is an unanchored
//! search in the named field's value, as `regex::Regex::is_match` does it.

use crate::grammar::{first_from, lemma_first_from_bounds, LineFields};
use crate::logline::{is_field_name, is_valid_field, scan_to, spec_get_field, LogLine};
use crate::AppError;
use vstd::prelude::*;
use vstd::string::*;

verus! {

#[verifier::external_type_specification]
#[verifier::external_body]
pub struct ExRegex(regex::Regex);

/// The pattern text a compiled regular expression was built from
/// (`regex::Regex::as_str` returns it).
pub uninterp spec fn regex_source(re: regex::Regex) -> Seq<char>;

/// Whether `regex::Regex::new` accepts `pattern`.  Compilation is a
/// function of the pattern text alone.
pub uninterp spec fn regex_ok(pattern: Seq<char>) -> bool;

/// Whether the expression compiled from `pattern` matches anywhere in
/// `text`, as `regex::Regex::is_match` decides it.  The result is a
/// function of the pattern and the text alone.
pub uninterp spec fn regex_match(pattern: Seq<char>, text: Seq<char>) -> bool;

/// Relies on regex::Regex::new: it compiles the pattern, or reports an
/// error, depending on the pattern text alone, and the compiled value keeps
/// that text.
#[verifier::external_body]
fn regex_new(pattern: &str) -> (r: Option<regex::Regex>)
    ensures
        (r is Some) == regex_ok(pattern@),
        r matches Some(re) ==> regex_source(re) == pattern@,
{
    regex::Regex::new(pattern).ok()
}

/// Relies on regex::Regex::is_match: true exactly when the compiled pattern
/// matches somewhere in `text`.
#[verifier::external_body]
fn regex_is_match(re: &regex::Regex, text: &str) -> (r: bool)
    ensures
        r == regex_match(regex_source(*re), text@),
{
    re.is_match(text)
}

/// One filter: a recognized field name and a compiled pattern.
pub struct Grep {
    pub field: String,
    pub pattern: regex::Regex,
}

/// The field half of a filter option: everything before the first `:`.
pub open spec fn grep_field_part(s: Seq<char>) -> Seq<char> {
    s.take(first_from(s, 0, ':'))
}

/// The pattern half of a filter option: everything after the first `:`.
pub open spec fn grep_pattern_part(s: Seq<char>) -> Seq<char> {
    s.skip(first_from(s, 0, ':') + 1)
}

/// Whether the filter matches a line: an unanchored search of the pattern
/// in the named field's value.
pub open spec fn spec_matches(g: Grep, f: LineFields) -> bool {
    regex_match(regex_source(g.pattern), spec_get_field(f, g.field@))
}

impl Grep {
    /// A well-formed filter names a recognized field.
    pub open spec fn wf(&self) -> bool {
        is_field_name(self.field@)
    }

    /// Build a filter from a `field:pattern` option.  Fails with `Parse`
    /// when no `:` is present, with `UnknownField` when the field half is
    /// not a recognized name, and with `Regex` when the pattern half does
    /// not compile; succeeds otherwise.
    pub fn parse(s: &str) -> (r: Result<Grep, AppError>)
        ensures
            (r is Ok) == (s@.contains(':') && is_field_name(grep_field_part(s@)) && regex_ok(
                grep_pattern_part(s@),
            )),
            r matches Ok(g) ==> {
                &&& g.field@ == grep_field_part(s@)
                &&& regex_source(g.pattern) == grep_pattern_part(s@)
                &&& g.wf()
            },
            r matches Err(e) ==> match e {
                AppError::Parse(_) => !s@.contains(':'),
                AppError::UnknownField(fld) => s@.contains(':') && !is_field_name(
                    grep_field_part(s@),
                ) && fld@ == grep_field_part(s@),
                AppError::Regex(pat) => s@.contains(':') && is_field_name(grep_field_part(s@))
                    && !regex_ok(grep_pattern_part(s@)) && pat@ == grep_pattern_part(s@),
            },
    {
        let n = s.unicode_len();
        let i = scan_to(s, n, 0, ':');
        if i == n {
            proof {
                assert(!s@.contains(':')) by {
                    lemma_first_from_bounds(s@, 0, ':');
                }
            }
            return Err(AppError::Parse(String::from_str("invalid grep option")));
        }
        let field = String::from_str(s.substring_char(0, i));
        let pattern = String::from_str(s.substring_char(i + 1, n));
        proof {
            assert(s@.contains(':')) by {
                lemma_first_from_bounds(s@, 0, ':');
                assert(s@[i as int] == ':');
            }
            assert(field@ == grep_field_part(s@));
            assert(pattern@ =~= grep_pattern_part(s@));
        }
        if !is_valid_field(field.as_str()) {
            return Err(AppError::UnknownField(field));
        }
        match regex_new(pattern.as_str()) {
            Some(re) => Ok(Grep { field, pattern: re }),
            None => Err(AppError::Regex(pattern)),
        }
    }

    /// Whether this filter matches the line.
    pub fn matches(&self, pl: &LogLine) -> (r: bool)
        requires
            self.wf(),
        ensures
            r == spec_matches(*self, pl@),
    {
        regex_is_match(&self.pattern, pl.get_field(self.field.as_str()))
    }
}

} // verus!
