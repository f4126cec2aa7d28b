//! Filter evaluation and field projection.
//!
//! A `Config` carries the run's read-only settings: the fields to print, a
//! delimiter, an optional quote, the filters, and the invert flag.
//! `passes` combines the filters with AND (an empty set lets every line
//! through, whatever the invert flag says; a non-empty set's combined
//! verdict is negated when the flag is set).  `join_fields` renders the
//! chosen fields of a line, each wrapped in the quote on both sides, joined
//! by the delimiter.

use crate::grammar::LineFields;
use crate::grep::{spec_matches, Grep};
use crate::logline::{is_field_name, spec_get_field, LogLine};
use vstd::prelude::*;
use vstd::string::*;

verus! {

/// The read-only configuration of one run.
pub struct Config {
    pub fields: Vec<String>,
    pub delimiter: String,
    pub greps: Vec<Grep>,
    pub invert_match: bool,
    pub quote: String,
}

impl Config {
    /// Every configured field name and every filter's field name is one of
    /// the nine recognized names.
    pub open spec fn wf(&self) -> bool {
        &&& forall|i: int| 0 <= i < self.fields@.len() ==> is_field_name(#[trigger] self.fields@[i]@)
        &&& forall|i: int| 0 <= i < self.greps@.len() ==> (#[trigger] self.greps@[i]).wf()
    }
}

/// Every filter in the sequence matches the line.
pub open spec fn all_match(greps: Seq<Grep>, f: LineFields) -> bool {
    forall|i: int| 0 <= i < greps.len() ==> spec_matches(#[trigger] greps[i], f)
}

/// Whether a line passes the configured filters: with no filters every line
/// passes; otherwise the filters' AND-combination, negated when
/// `invert_match` is set.
pub open spec fn spec_passes(c: Config, f: LineFields) -> bool {
    if c.greps@.len() == 0 {
        true
    } else if c.invert_match {
        !all_match(c.greps@, f)
    } else {
        all_match(c.greps@, f)
    }
}

/// Whether the line passes the configuration's filters.
pub fn passes(c: &Config, pl: &LogLine) -> (r: bool)
    requires
        c.wf(),
    ensures
        r == spec_passes(*c, pl@),
{
    if c.greps.len() == 0 {
        return true;
    }
    let mut all = true;
    let mut i: usize = 0;
    while i < c.greps.len() && all
        invariant
            c.wf(),
            i <= c.greps@.len(),
            all == all_match(c.greps@.take(i as int), pl@),
        decreases c.greps@.len() - i,
    {
        if !c.greps[i].matches(pl) {
            all = false;
            proof {
                assert(!spec_matches(c.greps@[i as int], pl@));
                assert(!all_match(c.greps@.take(i as int + 1), pl@)) by {
                    assert(c.greps@.take(i as int + 1)[i as int] == c.greps@[i as int]);
                }
            }
        } else {
            proof {
                assert(all_match(c.greps@.take(i as int + 1), pl@)) by {
                    assert(forall|j: int|
                        0 <= j < i + 1 ==> c.greps@.take(i as int + 1)[j] == c.greps@.take(
                            i as int,
                        )[j] || j == i);
                }
            }
        }
        i += 1;
    }
    proof {
        if all {
            assert(i == c.greps@.len());
            assert(c.greps@.take(i as int) =~= c.greps@);
        } else {
            assert(!all_match(c.greps@, pl@)) by {
                let k = choose|k: int|
                    0 <= k < c.greps@.take(i as int).len() && !spec_matches(
                        #[trigger] c.greps@.take(i as int)[k],
                        pl@,
                    );
                assert(c.greps@.take(i as int)[k] == c.greps@[k]);
            }
        }
    }
    if c.invert_match {
        !all
    } else {
        all
    }
}

/// The value of `field` in the line, wrapped in `quote` on both sides.
pub open spec fn spec_quoted(quote: Seq<char>, value: Seq<char>) -> Seq<char> {
    quote + value + quote
}

/// The named field's value wrapped in the quote on both sides.
pub fn quoted_field(pl: &LogLine, field: &str, quote: &str) -> (r: String)
    requires
        is_field_name(field@),
    ensures
        r@ == spec_quoted(quote@, spec_get_field(pl@, field@)),
{
    let mut out = String::from_str(quote);
    out.append(pl.get_field(field));
    out.append(quote);
    out
}

/// The projection of a line: each named field's value, quoted, in the order
/// the names are given, joined by the delimiter.  No name renders to the
/// empty sequence.
pub open spec fn spec_render(
    names: Seq<String>,
    delim: Seq<char>,
    quote: Seq<char>,
    f: LineFields,
) -> Seq<char>
    decreases names.len(),
{
    if names.len() == 0 {
        Seq::<char>::empty()
    } else if names.len() == 1 {
        spec_quoted(quote, spec_get_field(f, names[0]@))
    } else {
        spec_render(names.drop_last(), delim, quote, f) + delim + spec_quoted(
            quote,
            spec_get_field(f, names.last()@),
        )
    }
}

/// Render the configured fields of the line.
pub fn join_fields(c: &Config, pl: &LogLine) -> (r: String)
    requires
        c.wf(),
    ensures
        r@ == spec_render(c.fields@, c.delimiter@, c.quote@, pl@),
{
    let mut out = String::new();
    let mut i: usize = 0;
    while i < c.fields.len()
        invariant
            c.wf(),
            i <= c.fields@.len(),
            out@ == spec_render(c.fields@.take(i as int), c.delimiter@, c.quote@, pl@),
        decreases c.fields@.len() - i,
    {
        if i > 0 {
            out.append(c.delimiter.as_str());
        }
        let piece = quoted_field(pl, c.fields[i].as_str(), c.quote.as_str());
        out.append(piece.as_str());
        proof {
            let taken = c.fields@.take(i as int + 1);
            assert(taken.drop_last() =~= c.fields@.take(i as int));
            assert(taken.last() == c.fields@[i as int]);
        }
        i += 1;
    }
    proof {
        assert(c.fields@.take(c.fields@.len() as int) =~= c.fields@);
    }
    out
}

/// Process one parsed line: the rendered projection when the line passes
/// the filters, nothing when it does not.
pub fn process_line(c: &Config, pl: &LogLine) -> (r: Option<String>)
    requires
        c.wf(),
    ensures
        (r is Some) == spec_passes(*c, pl@),
        r matches Some(out) ==> out@ == spec_render(c.fields@, c.delimiter@, c.quote@, pl@),
{
    if passes(c, pl) {
        Some(join_fields(c, pl))
    } else {
        None
    }
}

/// With no filters configured, every line passes, whatever the invert flag
/// says.
pub proof fn lemma_empty_filters_pass(c: Config, f: LineFields)
    requires
        c.greps@.len() == 0,
    ensures
        spec_passes(c, f),
{
}

/// With at least one filter, setting the invert flag negates the answer:
/// two configurations that differ only in the flag disagree on every line.
/// (With no filters both let every line through, so the flag does nothing
/// there.)
pub proof fn lemma_invert_negates(c1: Config, c2: Config, f: LineFields)
    requires
        c1.greps == c2.greps,
        c1.greps@.len() > 0,
        c1.invert_match == !c2.invert_match,
    ensures
        spec_passes(c1, f) == !spec_passes(c2, f),
{
}

} // verus!
