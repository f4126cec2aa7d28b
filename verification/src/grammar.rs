//! The log-line grammar.
//!
//! A line of the combined log format is nine fields laid out as
//!
//! ```text
//! address identity user [timestamp] "request" status size "referer" "user_agent"
//! ```
//!
//! where the two trailing quoted fields are optional.  `line_shape` states
//! this declaratively: a line matches exactly when it is the concatenation
//! of the field values and the fixed separators, with each plain field a
//! non-empty space-free token, the timestamp free of `]`, and the quoted
//! fields free of `"`.

use vstd::prelude::*;

verus! {

/// The nine field values of one log line, as sequences of characters.
pub struct LineFields {
    pub ip_address: Seq<char>,
    pub identity: Seq<char>,
    pub user: Seq<char>,
    pub timestamp: Seq<char>,
    pub request_line: Seq<char>,
    pub status_code: Seq<char>,
    pub size: Seq<char>,
    pub referer: Seq<char>,
    pub user_agent: Seq<char>,
}

/// A plain token: non-empty and free of spaces.
pub open spec fn token_ok(s: Seq<char>) -> bool {
    s.len() > 0 && !s.contains(' ')
}

/// An optional trailing quoted field renders as ` "value"`, or as nothing
/// when absent (the empty value stands for absence).
pub open spec fn opt_quoted(s: Seq<char>) -> Seq<char> {
    if s.len() == 0 {
        Seq::<char>::empty()
    } else {
        seq![' ', '"'] + s + seq!['"']
    }
}

/// The three leading tokens of a line.
pub open spec fn head_of(f: LineFields) -> Seq<char> {
    f.ip_address + seq![' '] + f.identity + seq![' '] + f.user
}

/// The bracketed timestamp and the quoted request, with their separators.
pub open spec fn mid_of(f: LineFields) -> Seq<char> {
    seq![' ', '['] + f.timestamp + seq![']', ' ', '"'] + f.request_line + seq!['"', ' ']
}

/// The status and size tokens and the optional quoted trailers.
pub open spec fn tail_of(f: LineFields) -> Seq<char> {
    f.status_code + seq![' '] + f.size + opt_quoted(f.referer) + opt_quoted(f.user_agent)
}

/// The unique line that a given assignment of fields renders to.
pub open spec fn line_of(f: LineFields) -> Seq<char> {
    head_of(f) + mid_of(f) + tail_of(f)
}

/// The constraints the grammar puts on the field values themselves.
pub open spec fn fields_ok(f: LineFields) -> bool {
    &&& token_ok(f.ip_address)
    &&& token_ok(f.identity)
    &&& token_ok(f.user)
    &&& f.timestamp.len() > 0 && !f.timestamp.contains(']')
    &&& f.request_line.len() > 0 && !f.request_line.contains('"')
    &&& token_ok(f.status_code)
    &&& token_ok(f.size)
    &&& (f.referer.len() > 0 ==> !f.referer.contains('"'))
    &&& (f.user_agent.len() > 0 ==> !f.user_agent.contains('"'))
    &&& (f.user_agent.len() > 0 ==> f.referer.len() > 0)
}

/// `s` is a well-formed log line whose fields are exactly `f`.
pub open spec fn line_shape(s: Seq<char>, f: LineFields) -> bool {
    fields_ok(f) && s == line_of(f)
}

/// `s` matches the log-line grammar.
pub open spec fn parses(s: Seq<char>) -> bool {
    exists|f: LineFields| line_shape(s, f)
}

/// The first position at or after `i` holding `c`, or `s.len()` if none does.
pub open spec fn first_from(s: Seq<char>, i: int, c: char) -> int
    decreases s.len() - i,
{
    if i < 0 || i >= s.len() {
        s.len() as int
    } else if s[i] == c {
        i
    } else {
        first_from(s, i + 1, c)
    }
}

/// The size token and the optional quoted trailers, read from position `p`.
/// Returns `(size, referer, user_agent)`, with the empty sequence standing
/// for an absent trailer.
pub open spec fn parse_rest(s: Seq<char>, p: int) -> Option<(Seq<char>, Seq<char>, Seq<char>)> {
    let n = s.len() as int;
    let i7 = first_from(s, p, ' ');
    if i7 == p {
        None
    } else if i7 >= n {
        Some((s.subrange(p, n), Seq::<char>::empty(), Seq::<char>::empty()))
    } else if !(i7 + 1 < n && s[i7 + 1] == '"') {
        None
    } else {
        let i8 = first_from(s, i7 + 2, '"');
        if i8 == i7 + 2 || i8 >= n {
            None
        } else if i8 + 1 == n {
            Some((s.subrange(p, i7), s.subrange(i7 + 2, i8), Seq::<char>::empty()))
        } else if !(i8 + 2 < n && s[i8 + 1] == ' ' && s[i8 + 2] == '"') {
            None
        } else {
            let i9 = first_from(s, i8 + 3, '"');
            if i9 == i8 + 3 || i9 >= n || i9 + 1 != n {
                None
            } else {
                Some((s.subrange(p, i7), s.subrange(i7 + 2, i8), s.subrange(i8 + 3, i9)))
            }
        }
    }
}

/// The functional reading of the grammar: scan left to right, cutting each
/// field at the first occurrence of its terminating delimiter.
pub open spec fn parse_fields(s: Seq<char>) -> Option<LineFields> {
    let n = s.len() as int;
    let i1 = first_from(s, 0, ' ');
    let i2 = first_from(s, i1 + 1, ' ');
    let i3 = first_from(s, i2 + 1, ' ');
    if i1 == 0 || i1 >= n || i2 == i1 + 1 || i2 >= n || i3 == i2 + 1 || i3 >= n {
        None
    } else if !(i3 + 1 < n && s[i3 + 1] == '[') {
        None
    } else {
        let i4 = first_from(s, i3 + 2, ']');
        if i4 == i3 + 2 || i4 >= n {
            None
        } else if !(i4 + 2 < n && s[i4 + 1] == ' ' && s[i4 + 2] == '"') {
            None
        } else {
            let i5 = first_from(s, i4 + 3, '"');
            if i5 == i4 + 3 || i5 >= n {
                None
            } else if !(i5 + 1 < n && s[i5 + 1] == ' ') {
                None
            } else {
                let i6 = first_from(s, i5 + 2, ' ');
                if i6 == i5 + 2 || i6 >= n {
                    None
                } else {
                    match parse_rest(s, i6 + 1) {
                        None => None,
                        Some((size, referer, user_agent)) => Some(
                            LineFields {
                                ip_address: s.subrange(0, i1),
                                identity: s.subrange(i1 + 1, i2),
                                user: s.subrange(i2 + 1, i3),
                                timestamp: s.subrange(i3 + 2, i4),
                                request_line: s.subrange(i4 + 3, i5),
                                status_code: s.subrange(i5 + 2, i6),
                                size,
                                referer,
                                user_agent,
                            },
                        ),
                    }
                }
            }
        }
    }
}

pub proof fn lemma_first_from_bounds(s: Seq<char>, i: int, c: char)
    requires
        0 <= i <= s.len(),
    ensures
        i <= first_from(s, i, c) <= s.len(),
        first_from(s, i, c) < s.len() ==> s[first_from(s, i, c)] == c,
        forall|j: int| i <= j < first_from(s, i, c) ==> s[j] != c,
    decreases s.len() - i,
{
    if i < s.len() && s[i] != c {
        lemma_first_from_bounds(s, i + 1, c);
    }
}

/// A scan that saw no `c` in `[i, k)` and stopped at `k` because the
/// sequence ended or `c` stood there pins `first_from` to `k`.
pub proof fn lemma_first_from_is(s: Seq<char>, i: int, k: int, c: char)
    requires
        0 <= i <= k <= s.len(),
        forall|j: int| i <= j < k ==> s[j] != c,
        k == s.len() || s[k] == c,
    ensures
        first_from(s, i, c) == k,
    decreases k - i,
{
    if i < k {
        lemma_first_from_is(s, i + 1, k, c);
    }
}

proof fn lemma_split_subrange(s: Seq<char>, a: int, b: int, c: int)
    requires
        0 <= a <= b <= c <= s.len(),
    ensures
        s.subrange(a, c) == s.subrange(a, b) + s.subrange(b, c),
{
    assert(s.subrange(a, c) =~= s.subrange(a, b) + s.subrange(b, c));
}

proof fn lemma_subrange_free(s: Seq<char>, a: int, b: int, c: char)
    requires
        0 <= a <= b <= s.len(),
        forall|j: int| a <= j < b ==> s[j] != c,
    ensures
        !s.subrange(a, b).contains(c),
{
    assert(forall|k: int| 0 <= k < b - a ==> s.subrange(a, b)[k] != c);
}

proof fn lemma_head_concat(s: Seq<char>, i1: int, i2: int, i3: int, f: LineFields)
    requires
        0 < i1,
        i1 + 1 < i2,
        i2 + 1 < i3 <= s.len(),
        s[i1] == ' ',
        s[i2] == ' ',
        f.ip_address == s.subrange(0, i1),
        f.identity == s.subrange(i1 + 1, i2),
        f.user == s.subrange(i2 + 1, i3),
    ensures
        head_of(f) == s.subrange(0, i3),
{
    assert(head_of(f) =~= s.subrange(0, i3));
}

proof fn lemma_mid_concat(s: Seq<char>, i3: int, i4: int, i5: int, f: LineFields)
    requires
        0 <= i3,
        i3 + 2 < i4,
        i4 + 3 < i5,
        i5 + 2 <= s.len(),
        s[i3] == ' ',
        s[i3 + 1] == '[',
        s[i4] == ']',
        s[i4 + 1] == ' ',
        s[i4 + 2] == '"',
        s[i5] == '"',
        s[i5 + 1] == ' ',
        f.timestamp == s.subrange(i3 + 2, i4),
        f.request_line == s.subrange(i4 + 3, i5),
    ensures
        mid_of(f) == s.subrange(i3, i5 + 2),
{
    assert(mid_of(f) =~= s.subrange(i3, i5 + 2));
}

/// The tail that `parse_rest` accepts from `i6 + 1`, put after the status
/// token `s[st..i6]`, is exactly `tail_of` laid out in `s` from `st` on.
proof fn lemma_rest_tail(s: Seq<char>, st: int, i6: int, f: LineFields)
    requires
        0 <= st < i6,
        i6 + 1 <= s.len(),
        s[i6] == ' ',
        f.status_code == s.subrange(st, i6),
        parse_rest(s, i6 + 1) == Some((f.size, f.referer, f.user_agent)),
    ensures
        token_ok(f.size),
        f.referer.len() > 0 ==> !f.referer.contains('"'),
        f.user_agent.len() > 0 ==> !f.user_agent.contains('"'),
        f.user_agent.len() > 0 ==> f.referer.len() > 0,
        tail_of(f) == s.subrange(st, s.len() as int),
{
    let n = s.len() as int;
    let p = i6 + 1;
    let i7 = first_from(s, p, ' ');
    lemma_first_from_bounds(s, p, ' ');
    assert(p < i7);
    if i7 >= n {
        assert(f.size == s.subrange(p, n));
        lemma_subrange_free(s, p, n, ' ');
        lemma_tail_concat_none(s, st, i6, f);
    } else {
        assert(s[i7] == ' ' && s[i7 + 1] == '"');
        let i8 = first_from(s, i7 + 2, '"');
        lemma_first_from_bounds(s, i7 + 2, '"');
        assert(i7 + 2 < i8 < n && s[i8] == '"');
        assert(f.size == s.subrange(p, i7));
        assert(f.referer == s.subrange(i7 + 2, i8));
        lemma_subrange_free(s, p, i7, ' ');
        lemma_subrange_free(s, i7 + 2, i8, '"');
        if i8 + 1 == n {
            assert(f.user_agent.len() == 0);
            lemma_tail_concat_one(s, st, i6, i7, i8, f);
        } else {
            assert(s[i8 + 1] == ' ' && s[i8 + 2] == '"');
            let i9 = first_from(s, i8 + 3, '"');
            lemma_first_from_bounds(s, i8 + 3, '"');
            assert(i8 + 3 < i9 && s[i9] == '"' && i9 + 1 == n);
            assert(f.user_agent == s.subrange(i8 + 3, i9));
            lemma_subrange_free(s, i8 + 3, i9, '"');
            lemma_tail_concat_two(s, st, i6, i7, i8, i9, f);
        }
    }
}

proof fn lemma_tail_concat_none(s: Seq<char>, st: int, i6: int, f: LineFields)
    requires
        0 <= st < i6,
        i6 + 1 < s.len(),
        s[i6] == ' ',
        f.status_code == s.subrange(st, i6),
        f.size == s.subrange(i6 + 1, s.len() as int),
        f.referer.len() == 0,
        f.user_agent.len() == 0,
    ensures
        tail_of(f) == s.subrange(st, s.len() as int),
{
    assert(tail_of(f) =~= s.subrange(st, s.len() as int));
}

proof fn lemma_tail_concat_one(s: Seq<char>, st: int, i6: int, i7: int, i8: int, f: LineFields)
    requires
        0 <= st < i6,
        i6 + 1 < i7,
        i7 + 2 < i8,
        i8 + 1 == s.len(),
        s[i6] == ' ',
        s[i7] == ' ',
        s[i7 + 1] == '"',
        s[i8] == '"',
        f.status_code == s.subrange(st, i6),
        f.size == s.subrange(i6 + 1, i7),
        f.referer == s.subrange(i7 + 2, i8),
        f.referer.len() > 0,
        f.user_agent.len() == 0,
    ensures
        tail_of(f) == s.subrange(st, s.len() as int),
{
    assert(tail_of(f) =~= s.subrange(st, s.len() as int));
}

proof fn lemma_tail_concat_two(
    s: Seq<char>,
    st: int,
    i6: int,
    i7: int,
    i8: int,
    i9: int,
    f: LineFields,
)
    requires
        0 <= st < i6,
        i6 + 1 < i7,
        i7 + 2 < i8,
        i8 + 3 < i9,
        i9 + 1 == s.len(),
        s[i6] == ' ',
        s[i7] == ' ',
        s[i7 + 1] == '"',
        s[i8] == '"',
        s[i8 + 1] == ' ',
        s[i8 + 2] == '"',
        s[i9] == '"',
        f.status_code == s.subrange(st, i6),
        f.size == s.subrange(i6 + 1, i7),
        f.referer == s.subrange(i7 + 2, i8),
        f.referer.len() > 0,
        f.user_agent == s.subrange(i8 + 3, i9),
        f.user_agent.len() > 0,
    ensures
        tail_of(f) == s.subrange(st, s.len() as int),
{
    assert(tail_of(f) =~= s.subrange(st, s.len() as int));
}

/// A line that the functional scan accepts is a well-formed line with
/// exactly the fields the scan cut out.
#[verifier::rlimit(80)]
pub proof fn lemma_parse_fields_sound(s: Seq<char>, f: LineFields)
    requires
        parse_fields(s) == Some(f),
    ensures
        line_shape(s, f),
{
    let n = s.len() as int;
    let i1 = first_from(s, 0, ' ');
    let i2 = first_from(s, i1 + 1, ' ');
    let i3 = first_from(s, i2 + 1, ' ');
    lemma_first_from_bounds(s, 0, ' ');
    assert(0 < i1 < n && s[i1] == ' ');
    lemma_first_from_bounds(s, i1 + 1, ' ');
    assert(i1 + 1 < i2 < n && s[i2] == ' ');
    lemma_first_from_bounds(s, i2 + 1, ' ');
    assert(i2 + 1 < i3 < n && s[i3] == ' ');
    assert(s[i3 + 1] == '[');
    let i4 = first_from(s, i3 + 2, ']');
    lemma_first_from_bounds(s, i3 + 2, ']');
    assert(i3 + 2 < i4 < n && s[i4] == ']');
    assert(s[i4 + 1] == ' ' && s[i4 + 2] == '"');
    let i5 = first_from(s, i4 + 3, '"');
    lemma_first_from_bounds(s, i4 + 3, '"');
    assert(i4 + 3 < i5 < n && s[i5] == '"');
    assert(s[i5 + 1] == ' ');
    let i6 = first_from(s, i5 + 2, ' ');
    lemma_first_from_bounds(s, i5 + 2, ' ');
    assert(i5 + 2 < i6 < n && s[i6] == ' ');
    assert(f.ip_address == s.subrange(0, i1));
    assert(f.identity == s.subrange(i1 + 1, i2));
    assert(f.user == s.subrange(i2 + 1, i3));
    assert(f.timestamp == s.subrange(i3 + 2, i4));
    assert(f.request_line == s.subrange(i4 + 3, i5));
    assert(f.status_code == s.subrange(i5 + 2, i6));

    // The fields obey their character constraints.
    lemma_subrange_free(s, 0, i1, ' ');
    lemma_subrange_free(s, i1 + 1, i2, ' ');
    lemma_subrange_free(s, i2 + 1, i3, ' ');
    lemma_subrange_free(s, i3 + 2, i4, ']');
    lemma_subrange_free(s, i4 + 3, i5, '"');
    lemma_subrange_free(s, i5 + 2, i6, ' ');

    // The head and middle of the line are the concatenations the grammar asks for.
    lemma_head_concat(s, i1, i2, i3, f);
    lemma_mid_concat(s, i3, i4, i5, f);
    assert(f.status_code.len() == i6 - (i5 + 2));

    // The tail: size and the optional trailers.
    assert(parse_rest(s, i6 + 1) == Some((f.size, f.referer, f.user_agent)));
    lemma_rest_tail(s, i5 + 2, i6, f);
    assert(fields_ok(f));

    // Assemble the three regions, associated as `line_of` is.
    lemma_split_subrange(s, 0, i5 + 2, n);
    lemma_split_subrange(s, 0, i3, i5 + 2);
    assert(s =~= s.subrange(0, n));
    assert(s == head_of(f) + mid_of(f) + tail_of(f));
}

/// A scan started where a delimiter-free piece lies, with the delimiter (or
/// the end of the line) right after it, stops exactly at the piece's end.
proof fn lemma_scan_piece(s: Seq<char>, p: int, piece: Seq<char>, c: char)
    requires
        0 <= p,
        p + piece.len() <= s.len(),
        !piece.contains(c),
        forall|j: int| 0 <= j < piece.len() ==> s[p + j] == piece[j],
        p + piece.len() == s.len() || s[p + piece.len()] == c,
    ensures
        first_from(s, p, c) == p + piece.len(),
{
    assert forall|j: int| p <= j < p + piece.len() implies s[j] != c by {
        assert(s[j] == piece[j - p]);
        if s[j] == c {
            assert(piece.contains(c)) by {
                assert(piece[j - p] == c);
            }
        }
    }
    lemma_first_from_is(s, p, p + piece.len(), c);
}

/// A well-formed line is accepted by the functional scan, with exactly its
/// own fields cut back out.
#[verifier::rlimit(100)]
pub proof fn lemma_parse_fields_complete(s: Seq<char>, f: LineFields)
    requires
        line_shape(s, f),
    ensures
        parse_fields(s) == Some(f),
{
    let n = s.len() as int;
    let a = f.ip_address;
    let b = f.identity;
    let u = f.user;
    let t = f.timestamp;
    let q = f.request_line;
    let stc = f.status_code;
    let sz = f.size;
    let rf = f.referer;
    let ua = f.user_agent;
    let la: int = a.len() as int;
    let lb: int = b.len() as int;
    let lu: int = u.len() as int;
    let lt: int = t.len() as int;
    let lq: int = q.len() as int;
    let lst: int = stc.len() as int;
    let lsz: int = sz.len() as int;
    let lrf: int = rf.len() as int;
    let lua: int = ua.len() as int;
    let h = head_of(f);
    let m = mid_of(f);
    let w = tail_of(f);
    let hl: int = h.len() as int;
    let ml: int = m.len() as int;
    let wl: int = w.len() as int;
    assert(hl == la + lb + lu + 2);
    assert(ml == lt + lq + 7);
    assert(n == hl + ml + wl);

    // Where each region of the line lies.
    assert(forall|j: int| 0 <= j < hl ==> s[j] == h[j]);
    assert(forall|j: int| 0 <= j < ml ==> s[hl + j] == m[j]);
    assert(forall|j: int| 0 <= j < wl ==> s[hl + ml + j] == w[j]);

    // The characters of the head: three tokens and their spaces.
    assert forall|j: int| 0 <= j < la implies s[j] == a[j] by {
        assert(h[j] == a[j]);
    }
    assert(s[la] == ' ') by {
        assert(h[la] == ' ');
    }
    assert forall|j: int| 0 <= j < lb implies s[la + 1 + j] == b[j] by {
        assert(h[la + 1 + j] == b[j]);
    }
    assert(s[la + 1 + lb] == ' ') by {
        assert(h[la + 1 + lb] == ' ');
    }
    let pu: int = la + lb + 2;
    assert forall|j: int| 0 <= j < lu implies s[pu + j] == u[j] by {
        assert(h[pu + j] == u[j]);
    }

    // The characters of the middle: the timestamp and the request.
    assert(s[hl] == ' ') by {
        assert(m[0] == ' ');
    }
    assert(s[hl + 1] == '[') by {
        assert(m[1] == '[');
    }
    let pt: int = hl + 2;
    assert forall|j: int| 0 <= j < lt implies s[pt + j] == t[j] by {
        assert(m[2 + j] == t[j]);
    }
    assert(s[pt + lt] == ']') by {
        assert(m[2 + lt] == ']');
    }
    assert(s[pt + lt + 1] == ' ') by {
        assert(m[3 + lt] == ' ');
    }
    assert(s[pt + lt + 2] == '"') by {
        assert(m[4 + lt] == '"');
    }
    let pq: int = pt + lt + 3;
    assert forall|j: int| 0 <= j < lq implies s[pq + j] == q[j] by {
        assert(m[5 + lt + j] == q[j]);
    }
    assert(s[pq + lq] == '"') by {
        assert(m[5 + lt + lq] == '"');
    }
    assert(s[pq + lq + 1] == ' ') by {
        assert(m[6 + lt + lq] == ' ');
    }

    // The characters of the tail: status, size and the optional trailers.
    let ps: int = pq + lq + 2;
    assert(ps == hl + ml);
    assert forall|j: int| 0 <= j < lst implies s[ps + j] == stc[j] by {
        assert(w[j] == stc[j]);
    }
    assert(s[ps + lst] == ' ') by {
        assert(w[lst] == ' ');
    }
    let pz: int = ps + lst + 1;
    assert forall|j: int| 0 <= j < lsz implies s[pz + j] == sz[j] by {
        assert(w[lst + 1 + j] == sz[j]);
    }

    // The three leading scans.
    lemma_scan_piece(s, 0, a, ' ');
    lemma_scan_piece(s, la + 1, b, ' ');
    lemma_scan_piece(s, pu, u, ' ');
    lemma_scan_piece(s, pt, t, ']');
    lemma_scan_piece(s, pq, q, '"');
    lemma_scan_piece(s, ps, stc, ' ');
    assert(first_from(s, 0, ' ') == la);
    assert(first_from(s, la + 1, ' ') == la + 1 + lb);
    assert(first_from(s, pu, ' ') == hl);
    assert(first_from(s, pt, ']') == pt + lt);
    assert(first_from(s, pq, '"') == pq + lq);
    assert(first_from(s, ps, ' ') == ps + lst);

    // The trailers, in each of the three cases.
    if lrf == 0 {
        assert(lua == 0);
        assert(wl == lst + 1 + lsz);
        assert(n == pz + lsz);
        lemma_scan_piece(s, pz, sz, ' ');
        assert(first_from(s, pz, ' ') == n);
        assert(s.subrange(pz, n) =~= sz);
        assert(rf =~= Seq::<char>::empty());
        assert(ua =~= Seq::<char>::empty());
        assert(parse_rest(s, pz) == Some((sz, rf, ua)));
    } else {
        assert(s[pz + lsz] == ' ') by {
            assert(w[lst + 1 + lsz] == ' ');
        }
        assert(s[pz + lsz + 1] == '"') by {
            assert(w[lst + 2 + lsz] == '"');
        }
        let pr: int = pz + lsz + 2;
        assert forall|j: int| 0 <= j < lrf implies s[pr + j] == rf[j] by {
            assert(w[lst + 3 + lsz + j] == rf[j]);
        }
        assert(s[pr + lrf] == '"') by {
            assert(w[lst + 3 + lsz + lrf] == '"');
        }
        lemma_scan_piece(s, pz, sz, ' ');
        lemma_scan_piece(s, pr, rf, '"');
        assert(first_from(s, pz, ' ') == pz + lsz);
        assert(first_from(s, pr, '"') == pr + lrf);
        assert(s.subrange(pz, pz + lsz) =~= sz);
        assert(s.subrange(pr, pr + lrf) =~= rf);
        if lua == 0 {
            assert(wl == lst + 1 + lsz + 3 + lrf);
            assert(n == pr + lrf + 1);
            assert(ua =~= Seq::<char>::empty());
            assert(parse_rest(s, pz) == Some((sz, rf, ua)));
        } else {
            assert(wl == lst + 1 + lsz + 3 + lrf + 3 + lua);
            assert(s[pr + lrf + 1] == ' ') by {
                assert(w[lst + 4 + lsz + lrf] == ' ');
            }
            assert(s[pr + lrf + 2] == '"') by {
                assert(w[lst + 5 + lsz + lrf] == '"');
            }
            let pa: int = pr + lrf + 3;
            assert forall|j: int| 0 <= j < lua implies s[pa + j] == ua[j] by {
                assert(w[lst + 6 + lsz + lrf + j] == ua[j]);
            }
            assert(s[pa + lua] == '"') by {
                assert(w[lst + 6 + lsz + lrf + lua] == '"');
            }
            assert(n == pa + lua + 1);
            lemma_scan_piece(s, pa, ua, '"');
            assert(first_from(s, pa, '"') == pa + lua);
            assert(s.subrange(pa, pa + lua) =~= ua);
            assert(parse_rest(s, pz) == Some((sz, rf, ua)));
        }
    }

    // The scan accepts and cuts the fields back out.
    assert(s.subrange(0, la) =~= a);
    assert(s.subrange(la + 1, la + 1 + lb) =~= b);
    assert(s.subrange(pu, hl) =~= u);
    assert(s.subrange(pt, pt + lt) =~= t);
    assert(s.subrange(pq, pq + lq) =~= q);
    assert(s.subrange(ps, ps + lst) =~= stc);
    assert(parse_fields(s) == Some(f));
}

/// A line has at most one reading: two assignments of fields that both
/// match it are the same assignment.  With `LogLine::parse`'s contract this
/// says that a parsed line's fields equal the matched segments exactly.
pub proof fn lemma_line_shape_unique(s: Seq<char>, f1: LineFields, f2: LineFields)
    requires
        line_shape(s, f1),
        line_shape(s, f2),
    ensures
        f1 == f2,
{
    lemma_parse_fields_complete(s, f1);
    lemma_parse_fields_complete(s, f2);
}

/// A line that matches the grammar with fields `f` — the two optional
/// trailers present or not — parses, and admits no other reading.  With
/// `LogLine::parse`'s contract: `parse` succeeds on it and returns exactly
/// `f`, so a line of seven mandatory segments comes back with `referer`
/// and `user_agent` empty, and one with both trailers comes back with all
/// nine captured segments unchanged.
pub proof fn lemma_parse_yields_exact_fields(s: Seq<char>, f: LineFields)
    requires
        line_shape(s, f),
    ensures
        parses(s),
        forall|g: LineFields| line_shape(s, g) ==> g == f,
{
    assert forall|g: LineFields| line_shape(s, g) implies g == f by {
        lemma_line_shape_unique(s, f, g);
    }
}

/// The functional scan accepts exactly the lines of the grammar.
pub proof fn lemma_parse_fields_iff(s: Seq<char>)
    ensures
        parses(s) <==> parse_fields(s) is Some,
        parse_fields(s) matches Some(f) ==> line_shape(s, f),
{
    if parses(s) {
        let f = choose|f: LineFields| line_shape(s, f);
        lemma_parse_fields_complete(s, f);
    }
    match parse_fields(s) {
        Some(f) => lemma_parse_fields_sound(s, f),
        None => {},
    }
}

/// A line the functional scan rejects matches no assignment of fields.
pub proof fn lemma_not_parses(s: Seq<char>)
    requires
        parse_fields(s) is None,
    ensures
        !parses(s),
{
    if parses(s) {
        let f = choose|f: LineFields| line_shape(s, f);
        lemma_parse_fields_complete(s, f);
    }
}

/// A line without a closing bracket cannot match the grammar: every
/// well-formed line carries the `]` that ends its timestamp.
pub proof fn lemma_missing_bracket_fails(s: Seq<char>)
    requires
        !s.contains(']'),
    ensures
        !parses(s),
{
    if parses(s) {
        let f = choose|f: LineFields| line_shape(s, f);
        let k: int = head_of(f).len() + 2 + f.timestamp.len() as int;
        assert(s[k as int] == ']') by {
            assert(mid_of(f)[2 + f.timestamp.len() as int] == ']');
        }
        assert(s.contains(']'));
    }
}

/// A line with fewer than two double quotes cannot match the grammar: every
/// well-formed line carries the pair that encloses its request.
pub proof fn lemma_unbalanced_quote_fails(s: Seq<char>)
    requires
        forall|i: int, j: int| 0 <= i < j < s.len() ==> !(s[i] == '"' && s[j] == '"'),
    ensures
        !parses(s),
{
    if parses(s) {
        let f = choose|f: LineFields| line_shape(s, f);
        let hl = head_of(f).len() as int;
        let k1: int = hl + 4 + f.timestamp.len() as int;
        let k2: int = hl + 5 + f.timestamp.len() as int + f.request_line.len() as int;
        assert(s[k1 as int] == '"') by {
            assert(mid_of(f)[4 + f.timestamp.len() as int] == '"');
        }
        assert(s[k2 as int] == '"') by {
            assert(mid_of(f)[5 + f.timestamp.len() as int + f.request_line.len() as int] == '"');
        }
    }
}

} // verus!
