use vstd::prelude::*;
use vstd::string::*;
use crate::session::SessionError;
use crate::ignore::split_lines;

verus! {

broadcast use vstd::seq_lib::group_seq_properties;

/// `c` is a decimal digit.
pub open spec fn is_digit(c: char) -> bool {
    '0' <= c && c <= '9'
}

/// Every character of `s` is a decimal digit.
pub open spec fn all_digits(s: Seq<char>) -> bool {
    forall|i: int| 0 <= i < s.len() ==> is_digit(#[trigger] s[i])
}

/// The number that the decimal digits `s` spell.
pub open spec fn digits_value(s: Seq<char>) -> int
    decreases s.len(),
{
    if s.len() == 0 {
        0
    } else {
        digits_value(s.drop_last()) * 10 + (s.last() as int - '0' as int)
    }
}

/// The revision a token names: a non-empty run of decimal digits whose value
/// fits a `u64`.
pub open spec fn revision_of(s: Seq<char>) -> Option<u64> {
    if s.len() > 0 && all_digits(s) && digits_value(s) <= u64::MAX {
        Some(digits_value(s) as u64)
    } else {
        None
    }
}

/// The revisions of the history `h` from `lo` to `hi`, both included.
pub open spec fn in_range(h: Seq<u64>, lo: u64, hi: u64) -> Seq<u64> {
    h.filter(|r: u64| lo <= r && r <= hi)
}

/// What a `REV` or `REV:REV` token stands for over the history `h`, or `None`
/// where it names no revision. A range may be given in either order.
pub open spec fn resolve(tok: Seq<char>, h: Seq<u64>) -> Option<Seq<u64>> {
    if tok.contains(':') {
        let i = choose|i: int| 0 <= i < tok.len() && tok[i] == ':';
        match (revision_of(tok.subrange(0, i)), revision_of(tok.subrange(i + 1, tok.len() as int))) {
            (Some(a), Some(b)) => Some(
                if a <= b {
                    in_range(h, a, b)
                } else {
                    in_range(h, b, a)
                },
            ),
            _ => None,
        }
    } else {
        match revision_of(tok) {
            Some(n) => Some(seq![n]),
            None => None,
        }
    }
}

proof fn lemma_digits_nonneg(s: Seq<char>)
    requires
        all_digits(s),
    ensures
        digits_value(s) >= 0,
    decreases s.len(),
{
    if s.len() > 0 {
        assert(all_digits(s.drop_last()));
        lemma_digits_nonneg(s.drop_last());
        assert(is_digit(s[s.len() - 1]));
    }
}

proof fn lemma_prefix_le(s: Seq<char>, j: int)
    requires
        all_digits(s),
        0 <= j <= s.len(),
    ensures
        digits_value(s.subrange(0, j)) <= digits_value(s),
    decreases s.len(),
{
    if j < s.len() {
        let d = s.drop_last();
        assert(all_digits(d));
        assert(d.subrange(0, j) == s.subrange(0, j));
        lemma_prefix_le(d, j);
        lemma_digits_nonneg(d);
        assert(is_digit(s[s.len() - 1]));
    } else {
        assert(s.subrange(0, j) == s);
    }
}

/// Reads a revision number written in decimal digits.
pub fn parse_revision(s: &str) -> (r: Option<u64>)
    ensures
        r == revision_of(s@),
{
    let n = s.unicode_len();
    if n == 0 {
        return None;
    }
    let mut value: u64 = 0;
    let mut i: usize = 0;
    while i < n
        invariant
            n == s@.len(),
            0 <= i <= n,
            all_digits(s@.subrange(0, i as int)),
            value as int == digits_value(s@.subrange(0, i as int)),
        decreases n - i,
    {
        let c = s.get_char(i);
        proof {
            assert(s@.subrange(0, i + 1).drop_last() == s@.subrange(0, i as int));
        }
        if c < '0' || c > '9' {
            assert(!all_digits(s@));
            return None;
        }
        let d = (c as u32 - '0' as u32) as u64;
        if value > (u64::MAX - d) / 10 {
            proof {
                assert(all_digits(s@.subrange(0, i + 1)));
                if all_digits(s@) {
                    lemma_prefix_le(s@, i + 1);
                }
            }
            return None;
        }
        value = value * 10 + d;
        assert(all_digits(s@.subrange(0, i + 1)));
        i = i + 1;
    }
    assert(s@.subrange(0, n as int) == s@);
    Some(value)
}

/// The revisions of `h` from `lo` to `hi`, both included.
fn collect_range(h: &Vec<u64>, lo: u64, hi: u64) -> (r: Vec<u64>)
    ensures
        r@ == in_range(h@, lo, hi),
{
    let mut out: Vec<u64> = Vec::new();
    let mut i: usize = 0;
    while i < h.len()
        invariant
            0 <= i <= h.len(),
            out@ == in_range(h@.subrange(0, i as int), lo, hi),
        decreases h.len() - i,
    {
        proof {
            assert(h@.subrange(0, i + 1) == h@.subrange(0, i as int).push(h@[i as int]));
            h@.subrange(0, i as int).lemma_filter_push(h@[i as int], |r: u64| lo <= r && r <= hi);
        }
        if lo <= h[i] && h[i] <= hi {
            out.push(h[i]);
        }
        i = i + 1;
    }
    assert(h@.subrange(0, h@.len() as int) == h@);
    out
}

/// Turns a `REV` or `REV:REV` token into the revisions it names, taking a
/// range's members from `history`, the revisions of the tracked path.
pub fn resolve_token(tok: &str, history: &Vec<u64>) -> (r: Option<Vec<u64>>)
    ensures
        r matches Some(v) ==> resolve(tok@, history@) == Some(v@),
        r is None ==> resolve(tok@, history@) is None,
{
    let n = tok.unicode_len();
    let mut i: usize = 0;
    while i < n
        invariant
            n == tok@.len(),
            0 <= i <= n,
            forall|j: int| 0 <= j < i ==> tok@[j] != ':',
        ensures
            0 <= i <= n,
            forall|j: int| 0 <= j < i ==> tok@[j] != ':',
            i < n ==> tok@[i as int] == ':',
        decreases n - i,
    {
        if tok.get_char(i) == ':' {
            break;
        }
        i = i + 1;
    }
    if i == n {
        assert(!tok@.contains(':'));
        return match parse_revision(tok) {
            Some(rev) => Some(vec![rev]),
            None => None,
        };
    }
    assert(tok@[i as int] == ':');
    let left = tok.substring_char(0, i);
    let right = tok.substring_char(i + 1, n);
    let ghost k = choose|k: int| 0 <= k < tok@.len() && tok@[k] == ':';
    let a = parse_revision(left);
    let b = parse_revision(right);
    match (a, b) {
        (Some(a), Some(b)) => {
            proof {
                if k != i {
                    if k < i {
                    } else {
                        assert(tok@.subrange(i + 1, n as int)[k - i - 1] == ':');
                        assert(!all_digits(right@));
                    }
                }
            }
            if a <= b {
                Some(collect_range(history, a, b))
            } else {
                Some(collect_range(history, b, a))
            }
        },
        _ => {
            proof {
                if k != i {
                    assert(k > i);
                    assert(tok@.subrange(0, k)[i as int] == ':');
                    assert(!all_digits(tok@.subrange(0, k)));
                }
            }
            None
        },
    }
}

/// The revisions that the tokens `tokens` name together, in order, or `None`
/// if one of them names none.
pub open spec fn gather(tokens: Seq<Seq<char>>, h: Seq<u64>) -> Option<Seq<u64>>
    decreases tokens.len(),
{
    if tokens.len() == 0 {
        Some(Seq::empty())
    } else {
        match (gather(tokens.drop_last(), h), resolve(tokens.last(), h)) {
            (Some(a), Some(b)) => Some(a + b),
            _ => None,
        }
    }
}

/// The views of command-line tokens.
pub open spec fn token_views(tokens: Seq<String>) -> Seq<Seq<char>> {
    tokens.map_values(|t: String| t@)
}

proof fn lemma_gather_none_extends(tokens: Seq<Seq<char>>, h: Seq<u64>, i: int)
    requires
        0 <= i <= tokens.len(),
        gather(tokens.subrange(0, i), h) is None,
    ensures
        gather(tokens, h) is None,
    decreases tokens.len() - i,
{
    if i < tokens.len() {
        assert(tokens.subrange(0, i + 1).drop_last() == tokens.subrange(0, i));
        lemma_gather_none_extends(tokens, h, i + 1);
    } else {
        assert(tokens.subrange(0, i) == tokens);
    }
}

/// The revisions that `skip` acts on: those its tokens name, or the working
/// copy's revision `current` when the tokens name none.
pub fn skip_revisions(tokens: &Vec<String>, current: u64, history: &Vec<u64>) -> (r: Result<
    Vec<u64>,
    SessionError,
>)
    ensures
        match gather(token_views(tokens@), history@) {
            None => r == Err::<Vec<u64>, SessionError>(SessionError::InvalidRevision),
            Some(s) => r is Ok && r->Ok_0@ == if s.len() == 0 {
                seq![current]
            } else {
                s
            },
        },
{
    let ghost tv = token_views(tokens@);
    let mut out: Vec<u64> = Vec::new();
    let mut i: usize = 0;
    while i < tokens.len()
        invariant
            0 <= i <= tokens@.len(),
            tv == token_views(tokens@),
            gather(tv.subrange(0, i as int), history@) == Some(out@),
        decreases tokens.len() - i,
    {
        assert(tv.subrange(0, i + 1).drop_last() == tv.subrange(0, i as int));
        assert(tv.subrange(0, i + 1).last() == tokens@[i as int]@);
        match resolve_token(tokens[i].as_str(), history) {
            Some(mut v) => {
                out.append(&mut v);
            },
            None => {
                proof {
                    lemma_gather_none_extends(tv, history@, i + 1);
                }
                return Err(SessionError::InvalidRevision);
            },
        }
        i = i + 1;
    }
    assert(tv.subrange(0, tv.len() as int) == tv);
    if out.len() == 0 {
        Ok(vec![current])
    } else {
        Ok(out)
    }
}

/// The revision that `good` or `bad` acts on: the one its token names, or
/// the working copy's revision `current` when no token is given.
pub fn target_revision(token: &Option<String>, current: u64) -> (r: Result<u64, SessionError>)
    ensures
        token is None ==> r == Ok::<u64, SessionError>(current),
        token matches Some(t) ==> r == match revision_of(t@) {
            Some(n) => Ok::<u64, SessionError>(n),
            None => Err(SessionError::InvalidRevision),
        },
{
    match token {
        None => Ok(current),
        Some(t) => match parse_revision(t.as_str()) {
            Some(n) => Ok(n),
            None => Err(SessionError::InvalidRevision),
        },
    }
}

/// The number of decimal digits at the start of `s`.
pub open spec fn digit_run(s: Seq<char>) -> nat
    decreases s.len(),
{
    if s.len() > 0 && is_digit(s[0]) {
        1 + digit_run(s.drop_first())
    } else {
        0
    }
}

/// The revision a line of a quiet history listing starts with: `r`, digits,
/// then a space or the end of the line.
pub open spec fn line_revision(l: Seq<char>) -> Option<u64> {
    let d = digit_run(l.drop_first()) as int;
    if l.len() > 1 && l[0] == 'r' && d > 0 && (d + 1 == l.len() || l[d + 1] == ' ') {
        revision_of(l.subrange(1, d + 1))
    } else {
        None
    }
}

/// The revisions that the lines of `ls` start with, in order.
pub open spec fn listed_revisions(ls: Seq<Seq<char>>) -> Seq<u64>
    decreases ls.len(),
{
    if ls.len() == 0 {
        Seq::empty()
    } else {
        match line_revision(ls.last()) {
            Some(r) => listed_revisions(ls.drop_last()).push(r),
            None => listed_revisions(ls.drop_last()),
        }
    }
}

proof fn lemma_digit_run_step(s: Seq<char>, k: int)
    requires
        0 <= k < s.len(),
        is_digit(s[k]),
    ensures
        digit_run(s.subrange(k, s.len() as int)) == 1 + digit_run(s.subrange(k + 1, s.len() as int)),
{
    assert(s.subrange(k, s.len() as int).drop_first() == s.subrange(k + 1, s.len() as int));
}

/// The revision that the line `l` of a quiet history listing starts with.
fn revision_of_line(l: &str) -> (r: Option<u64>)
    ensures
        r == line_revision(l@),
{
    let n = l.unicode_len();
    if n < 2 || l.get_char(0) != 'r' {
        return None;
    }
    let mut j: usize = 1;
    assert(l@.subrange(1, n as int) == l@.drop_first());
    while j < n && '0' <= l.get_char(j) && l.get_char(j) <= '9'
        invariant
            n == l@.len(),
            1 <= j <= n,
            digit_run(l@.drop_first()) == (j - 1) + digit_run(l@.subrange(j as int, n as int)),
        decreases n - j,
    {
        proof {
            lemma_digit_run_step(l@, j as int);
        }
        j = j + 1;
    }
    assert(digit_run(l@.subrange(j as int, n as int)) == 0) by {
        if j < n {
            assert(l@.subrange(j as int, n as int)[0] == l@[j as int]);
        }
    }
    if j == 1 || (j < n && l.get_char(j) != ' ') {
        return None;
    }
    parse_revision(l.substring_char(1, j))
}

/// The revisions that the lines of a quiet history listing start with, in
/// the order of the listing; other lines are passed over.
pub fn revisions_in_listing(text: &str) -> (r: Vec<u64>)
    ensures
        r@ == listed_revisions(split_lines(text@)),
{
    let n = text.unicode_len();
    let ghost pieces: Seq<Seq<char>> = Seq::empty();
    let mut out: Vec<u64> = Vec::new();
    let mut start: usize = 0;
    let mut i: usize = 0;
    while i < n
        invariant
            n == text@.len(),
            0 <= start <= i <= n,
            split_lines(text@.subrange(0, i as int)) == pieces.push(
                text@.subrange(start as int, i as int),
            ),
            out@ == listed_revisions(pieces),
        decreases n - i,
    {
        assert(text@.subrange(0, i + 1).drop_last() == text@.subrange(0, i as int));
        if text.get_char(i) == '\n' {
            let line = text.substring_char(start, i);
            let found = revision_of_line(line);
            proof {
                let q = pieces.push(text@.subrange(start as int, i as int));
                assert(q.drop_last() == pieces);
                pieces = q;
                assert(text@.subrange(i + 1, i + 1) == Seq::<char>::empty());
            }
            match found {
                Some(rev) => {
                    out.push(rev);
                },
                None => {},
            }
            start = i + 1;
        } else {
            proof {
                assert(text@.subrange(start as int, i + 1) == text@.subrange(
                    start as int,
                    i as int,
                ).push(text@[i as int]));
                assert(pieces.push(text@.subrange(start as int, i as int)).update(
                    pieces.len() as int,
                    text@.subrange(start as int, i + 1),
                ) == pieces.push(text@.subrange(start as int, i + 1)));
            }
        }
        i = i + 1;
    }
    let line = text.substring_char(start, n);
    let found = revision_of_line(line);
    proof {
        assert(text@.subrange(0, n as int) == text@);
        assert(pieces.push(text@.subrange(start as int, n as int)).drop_last() == pieces);
    }
    match found {
        Some(rev) => {
            out.push(rev);
        },
        None => {},
    }
    out
}

} // verus!
