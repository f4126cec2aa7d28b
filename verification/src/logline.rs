//! Parsed log lines and the field model.
//!
//! `LogLine::parse` applies the grammar of `crate::grammar` to one line of
//! text.  `get_field` maps one of the nine recognized field names to the
//! value it holds; the set of names is closed and `is_field_name` is its
//! specification.

use crate::grammar::{
    first_from, lemma_not_parses, lemma_parse_fields_sound, line_shape, parse_fields, parses,
    LineFields,
};
use crate::AppError;
use vstd::prelude::*;
use vstd::string::*;

verus! {

/// One parsed line: the nine fields, all present, with the two optional
/// trailers empty when the source line lacked them.
pub struct LogLine {
    pub ip_address: String,
    pub identity: String,
    pub user: String,
    pub timestamp: String,
    pub request_line: String,
    pub status_code: String,
    pub size: String,
    pub referer: String,
    pub user_agent: String,
}

impl View for LogLine {
    type V = LineFields;

    open spec fn view(&self) -> LineFields {
        LineFields {
            ip_address: self.ip_address@,
            identity: self.identity@,
            user: self.user@,
            timestamp: self.timestamp@,
            request_line: self.request_line@,
            status_code: self.status_code@,
            size: self.size@,
            referer: self.referer@,
            user_agent: self.user_agent@,
        }
    }
}

/// The closed set of recognized field names.
pub open spec fn is_field_name(name: Seq<char>) -> bool {
    ||| name == "address"@
    ||| name == "identity"@
    ||| name == "user"@
    ||| name == "timestamp"@
    ||| name == "request"@
    ||| name == "status"@
    ||| name == "size"@
    ||| name == "referer"@
    ||| name == "user_agent"@
}

/// The value a recognized field name selects from a line.
pub open spec fn spec_get_field(f: LineFields, name: Seq<char>) -> Seq<char>
    recommends
        is_field_name(name),
{
    if name == "address"@ {
        f.ip_address
    } else if name == "identity"@ {
        f.identity
    } else if name == "user"@ {
        f.user
    } else if name == "timestamp"@ {
        f.timestamp
    } else if name == "request"@ {
        f.request_line
    } else if name == "status"@ {
        f.status_code
    } else if name == "size"@ {
        f.size
    } else if name == "referer"@ {
        f.referer
    } else if name == "user_agent"@ {
        f.user_agent
    } else {
        Seq::<char>::empty()
    }
}

/// Character-by-character string equality, specified against the views.
fn str_eq(a: &str, b: &str) -> (r: bool)
    ensures
        r == (a@ == b@),
{
    let n = a.unicode_len();
    if n != b.unicode_len() {
        return false;
    }
    let mut i: usize = 0;
    while i < n
        invariant
            n == a@.len(),
            n == b@.len(),
            i <= n,
            forall|j: int| 0 <= j < i ==> a@[j] == b@[j],
        decreases n - i,
    {
        if a.get_char(i) != b.get_char(i) {
            return false;
        }
        i += 1;
    }
    proof {
        assert(a@ =~= b@);
    }
    true
}

/// Whether `field` is one of the nine recognized field names.
pub fn is_valid_field(field: &str) -> (r: bool)
    ensures
        r == is_field_name(field@),
{
    str_eq(field, "address") || str_eq(field, "identity") || str_eq(field, "user") || str_eq(
        field,
        "timestamp",
    ) || str_eq(field, "request") || str_eq(field, "status") || str_eq(field, "size") || str_eq(
        field,
        "referer",
    ) || str_eq(field, "user_agent")
}

/// Scan `s` from `start` for the first occurrence of `c`; returns `n`
/// (the length of `s`) when no occurrence is left.
pub(crate) fn scan_to(s: &str, n: usize, start: usize, c: char) -> (r: usize)
    requires
        n == s@.len(),
        start <= n,
    ensures
        start <= r <= n,
        r == first_from(s@, start as int, c),
{
    let mut i: usize = start;
    while i < n
        invariant
            n == s@.len(),
            start <= i <= n,
            forall|j: int| start <= j < i ==> s@[j] != c,
        decreases n - i,
    {
        if s.get_char(i) == c {
            proof {
                crate::grammar::lemma_first_from_is(s@, start as int, i as int, c);
            }
            return i;
        }
        i += 1;
    }
    proof {
        crate::grammar::lemma_first_from_is(s@, start as int, n as int, c);
    }
    n
}

fn parse_failure() -> (r: AppError)
    ensures
        r matches AppError::Parse(_),
{
    AppError::Parse(String::from_str("invalid log line"))
}

impl LogLine {
    /// Parse one line of text against the grammar.  Succeeds exactly on the
    /// lines the grammar admits, and then returns the unique reading: the
    /// result's fields are the matched segments, with the absent optional
    /// trailers left empty.
    pub fn parse(line: &str) -> (r: Result<LogLine, AppError>)
        ensures
            (r is Ok) == parses(line@),
            r matches Ok(pl) ==> line_shape(line@, pl@),
            r matches Err(e) ==> e matches AppError::Parse(_),
    {
        let n = line.unicode_len();
        let i1 = scan_to(line, n, 0, ' ');
        if i1 == 0 || i1 >= n {
            proof {
                lemma_not_parses(line@);
            }
            return Err(parse_failure());
        }
        let i2 = scan_to(line, n, i1 + 1, ' ');
        if i2 == i1 + 1 || i2 >= n {
            proof {
                lemma_not_parses(line@);
            }
            return Err(parse_failure());
        }
        let i3 = scan_to(line, n, i2 + 1, ' ');
        if i3 == i2 + 1 || i3 >= n {
            proof {
                lemma_not_parses(line@);
            }
            return Err(parse_failure());
        }
        if i3 + 1 >= n || line.get_char(i3 + 1) != '[' {
            proof {
                lemma_not_parses(line@);
            }
            return Err(parse_failure());
        }
        let i4 = scan_to(line, n, i3 + 2, ']');
        if i4 == i3 + 2 || i4 >= n {
            proof {
                lemma_not_parses(line@);
            }
            return Err(parse_failure());
        }
        if i4 + 1 >= n || line.get_char(i4 + 1) != ' ' {
            proof {
                lemma_not_parses(line@);
            }
            return Err(parse_failure());
        }
        if i4 + 2 >= n || line.get_char(i4 + 2) != '"' {
            proof {
                lemma_not_parses(line@);
            }
            return Err(parse_failure());
        }
        let i5 = scan_to(line, n, i4 + 3, '"');
        if i5 == i4 + 3 || i5 >= n {
            proof {
                lemma_not_parses(line@);
            }
            return Err(parse_failure());
        }
        if i5 + 1 >= n || line.get_char(i5 + 1) != ' ' {
            proof {
                lemma_not_parses(line@);
            }
            return Err(parse_failure());
        }
        let i6 = scan_to(line, n, i5 + 2, ' ');
        if i6 == i5 + 2 || i6 >= n {
            proof {
                lemma_not_parses(line@);
            }
            return Err(parse_failure());
        }
        let p = i6 + 1;
        let i7 = scan_to(line, n, p, ' ');
        if i7 == p {
            proof {
                lemma_not_parses(line@);
            }
            return Err(parse_failure());
        }
        if i7 >= n {
            let pl = LogLine {
                ip_address: String::from_str(line.substring_char(0, i1)),
                identity: String::from_str(line.substring_char(i1 + 1, i2)),
                user: String::from_str(line.substring_char(i2 + 1, i3)),
                timestamp: String::from_str(line.substring_char(i3 + 2, i4)),
                request_line: String::from_str(line.substring_char(i4 + 3, i5)),
                status_code: String::from_str(line.substring_char(i5 + 2, i6)),
                size: String::from_str(line.substring_char(p, n)),
                referer: String::new(),
                user_agent: String::new(),
            };
            proof {
                assert(parse_fields(line@) == Some(pl@));
                lemma_parse_fields_sound(line@, pl@);
            }
            return Ok(pl);
        }
        if i7 + 1 >= n || line.get_char(i7 + 1) != '"' {
            proof {
                lemma_not_parses(line@);
            }
            return Err(parse_failure());
        }
        let i8 = scan_to(line, n, i7 + 2, '"');
        if i8 == i7 + 2 || i8 >= n {
            proof {
                lemma_not_parses(line@);
            }
            return Err(parse_failure());
        }
        if i8 + 1 == n {
            let pl = LogLine {
                ip_address: String::from_str(line.substring_char(0, i1)),
                identity: String::from_str(line.substring_char(i1 + 1, i2)),
                user: String::from_str(line.substring_char(i2 + 1, i3)),
                timestamp: String::from_str(line.substring_char(i3 + 2, i4)),
                request_line: String::from_str(line.substring_char(i4 + 3, i5)),
                status_code: String::from_str(line.substring_char(i5 + 2, i6)),
                size: String::from_str(line.substring_char(p, i7)),
                referer: String::from_str(line.substring_char(i7 + 2, i8)),
                user_agent: String::new(),
            };
            proof {
                assert(parse_fields(line@) == Some(pl@));
                lemma_parse_fields_sound(line@, pl@);
            }
            return Ok(pl);
        }
        if i8 + 1 >= n || line.get_char(i8 + 1) != ' ' {
            proof {
                lemma_not_parses(line@);
            }
            return Err(parse_failure());
        }
        if i8 + 2 >= n || line.get_char(i8 + 2) != '"' {
            proof {
                lemma_not_parses(line@);
            }
            return Err(parse_failure());
        }
        let i9 = scan_to(line, n, i8 + 3, '"');
        if i9 == i8 + 3 || i9 >= n || i9 + 1 != n {
            proof {
                lemma_not_parses(line@);
            }
            return Err(parse_failure());
        }
        let pl = LogLine {
            ip_address: String::from_str(line.substring_char(0, i1)),
            identity: String::from_str(line.substring_char(i1 + 1, i2)),
            user: String::from_str(line.substring_char(i2 + 1, i3)),
            timestamp: String::from_str(line.substring_char(i3 + 2, i4)),
            request_line: String::from_str(line.substring_char(i4 + 3, i5)),
            status_code: String::from_str(line.substring_char(i5 + 2, i6)),
            size: String::from_str(line.substring_char(p, i7)),
            referer: String::from_str(line.substring_char(i7 + 2, i8)),
            user_agent: String::from_str(line.substring_char(i8 + 3, i9)),
        };
        proof {
            assert(parse_fields(line@) == Some(pl@));
            lemma_parse_fields_sound(line@, pl@);
        }
        Ok(pl)
    }

    /// The value of the recognized field named `field`.
    pub fn get_field<'a>(&'a self, field: &str) -> (r: &'a str)
        requires
            is_field_name(field@),
        ensures
            r@ == spec_get_field(self@, field@),
    {
        if str_eq(field, "address") {
            self.ip_address.as_str()
        } else if str_eq(field, "identity") {
            self.identity.as_str()
        } else if str_eq(field, "user") {
            self.user.as_str()
        } else if str_eq(field, "timestamp") {
            self.timestamp.as_str()
        } else if str_eq(field, "request") {
            self.request_line.as_str()
        } else if str_eq(field, "status") {
            self.status_code.as_str()
        } else if str_eq(field, "size") {
            self.size.as_str()
        } else if str_eq(field, "referer") {
            self.referer.as_str()
        } else {
            proof {
                assert(field@ == "user_agent"@);
            }
            self.user_agent.as_str()
        }
    }
}

} // verus!
