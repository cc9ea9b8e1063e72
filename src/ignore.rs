use vstd::prelude::*;
use vstd::string::*;
use crate::prefix::{trim_end_slashes, views};

verus! {

broadcast use vstd::seq_lib::group_seq_properties;

/// The `ignore` command: lists a working copy's ignore properties as
/// `.gitignore` entries.
pub struct Ignore;

/// The text that lossy UTF-8 decoding gives for the bytes `b`.
pub uninterp spec fn lossy_text(b: Seq<u8>) -> Seq<char>;

/// `s` without its leading and trailing whitespace.
pub uninterp spec fn trimmed(s: Seq<char>) -> Seq<char>;

/// Relies on `String::from_utf8_lossy`: the text depends on the bytes alone.
#[verifier::external_body]
fn decode_lossy(b: &Vec<u8>) -> (r: String)
    ensures
        r@ == lossy_text(b@),
{
    String::from_utf8_lossy(b.as_slice()).into_owned()
}

/// Relies on `str::trim`: the result depends on the characters alone.
#[verifier::external_body]
fn trim_text(s: &str) -> (r: &str)
    ensures
        r@ == trimmed(s@),
{
    s.trim()
}

/// The pieces of `s` between newlines, as `str::split` gives them.
pub open spec fn split_lines(s: Seq<char>) -> Seq<Seq<char>>
    decreases s.len(),
{
    if s.len() == 0 {
        seq![Seq::empty()]
    } else {
        let p = split_lines(s.drop_last());
        if s.last() == '\n' {
            p.push(Seq::empty())
        } else {
            p.update(p.len() - 1, p.last().push(s.last()))
        }
    }
}

/// The entries of an ignore property's text: its lines trimmed, blank ones left out.
pub open spec fn ignore_entries(s: Seq<char>) -> Seq<Seq<char>> {
    split_lines(s).map_values(|l: Seq<char>| trimmed(l)).filter(|l: Seq<char>| l.len() > 0)
}

/// `s` without the slashes at its start.
pub open spec fn trim_start_slashes(s: Seq<char>) -> Seq<char>
    decreases s.len(),
{
    if s.len() > 0 && s[0] == '/' {
        trim_start_slashes(s.drop_first())
    } else {
        s
    }
}

/// `base` and `leaf` joined by exactly one slash.
pub open spec fn joined(base: Seq<char>, leaf: Seq<char>) -> Seq<char> {
    trim_end_slashes(base) + seq!['/'] + trim_start_slashes(trim_end_slashes(leaf))
}

/// Whether `a` and `b` hold the same characters.
fn same_text(a: &str, b: &str) -> (r: bool)
    ensures
        r == (a@ == b@),
{
    let n = a.unicode_len();
    if n != b.unicode_len() {
        return false;
    }
    let mut i: usize = 0;
    while i < n
        invariant
            n == a@.len() == b@.len(),
            0 <= i <= n,
            forall|j: int| 0 <= j < i ==> a@[j] == b@[j],
        decreases n - i,
    {
        if a.get_char(i) != b.get_char(i) {
            return false;
        }
        i = i + 1;
    }
    assert(a@ =~= b@);
    true
}

/// The end of `s` once its trailing slashes are dropped.
fn end_without_slashes(s: &str) -> (e: usize)
    ensures
        e <= s@.len(),
        s@.subrange(0, e as int) == trim_end_slashes(s@),
{
    let n = s.unicode_len();
    let mut e: usize = n;
    assert(s@.subrange(0, n as int) == s@);
    while e > 0 && s.get_char(e - 1) == '/'
        invariant
            n == s@.len(),
            e <= n,
            trim_end_slashes(s@.subrange(0, e as int)) == trim_end_slashes(s@),
        decreases e,
    {
        assert(s@.subrange(0, e as int).drop_last() == s@.subrange(0, e - 1));
        e = e - 1;
    }
    e
}

proof fn lemma_trim_start(s: Seq<char>, b: int)
    requires
        0 <= b <= s.len(),
        forall|j: int| 0 <= j < b ==> s[j] == '/',
    ensures
        trim_start_slashes(s) == trim_start_slashes(s.subrange(b, s.len() as int)),
    decreases b,
{
    if b > 0 {
        assert(s.drop_first().subrange(b - 1, s.len() - 1) == s.subrange(b, s.len() as int));
        lemma_trim_start(s.drop_first(), b - 1);
    } else {
        assert(s.subrange(0, s.len() as int) == s);
    }
}

impl Ignore {
    /// A path is a working directory when the VCS knows its working-copy
    /// root and reports it as a directory.
    pub fn is_working_directory(wc_path: &Option<String>, kind: &str) -> (r: bool)
        ensures
            r == (wc_path is Some && kind@ == "dir"@),
    {
        wc_path.is_some() && same_text(kind, "dir")
    }

    /// The arguments of the VCS command that reads the ignore property of
    /// `path`: the global one when `global` is set.
    pub fn ignore_args(path: &String, global: bool) -> (r: Vec<String>)
        ensures
            views(r@) == seq![
                "pget"@,
                if global {
                    "svn:global-ignores"@
                } else {
                    "svn:ignore"@
                },
                path@,
            ],
    {
        let prop = if global {
            String::from_str("svn:global-ignores")
        } else {
            String::from_str("svn:ignore")
        };
        let cmd = String::from_str("pget");
        let r = vec![cmd, prop, path.clone()];
        assert(views(r@) =~= seq![cmd@, prop@, path@]);
        r
    }

    /// The property text the command printed, or `None` when it failed.
    pub fn get_ignores(success: bool, stdout: &Vec<u8>) -> (r: Option<String>)
        ensures
            success ==> r is Some && r->Some_0@ == lossy_text(stdout@),
            !success ==> r is None,
    {
        if success {
            Some(decode_lossy(stdout))
        } else {
            None
        }
    }

    /// The entries of an ignore property's text, trimmed, without blank lines.
    pub fn ignore_lines(text: &str) -> (r: Vec<String>)
        ensures
            views(r@) == ignore_entries(text@),
    {
        let n = text.unicode_len();
        let ghost pieces: Seq<Seq<char>> = Seq::empty();
        let ghost p = |l: Seq<char>| l.len() > 0;
        let mut out: Vec<String> = Vec::new();
        let mut start: usize = 0;
        let mut i: usize = 0;
        while i < n
            invariant
                n == text@.len(),
                0 <= start <= i <= n,
                p == (|l: Seq<char>| l.len() > 0),
                split_lines(text@.subrange(0, i as int)) == pieces.push(
                    text@.subrange(start as int, i as int),
                ),
                views(out@) == pieces.map_values(|l: Seq<char>| trimmed(l)).filter(p),
            decreases n - i,
        {
            let ghost sub = text@.subrange(0, i + 1);
            assert(sub.drop_last() == text@.subrange(0, i as int));
            if text.get_char(i) == '\n' {
                let piece = text.substring_char(start, i);
                let t = trim_text(piece);
                proof {
                    let q = pieces.push(text@.subrange(start as int, i as int));
                    assert(q.map_values(|l: Seq<char>| trimmed(l)) == pieces.map_values(
                        |l: Seq<char>| trimmed(l),
                    ).push(t@));
                    pieces.map_values(|l: Seq<char>| trimmed(l)).lemma_filter_push(t@, p);
                    pieces = q;
                    assert(text@.subrange(i + 1, i + 1) == Seq::<char>::empty());
                }
                if t.unicode_len() > 0 {
                    out.push(String::from_str(t));
                    assert(views(out@) =~= pieces.map_values(|l: Seq<char>| trimmed(l)).filter(p));
                }
                start = i + 1;
            } else {
                proof {
                    assert(text@.subrange(start as int, i + 1) == text@.subrange(
                        start as int,
                        i as int,
                    ).push(text@[i as int]));
                    assert(pieces.push(text@.subrange(start as int, i as int)).update(
                        pieces.len() as int,
                        text@.subrange(start as int, i + 1),
                    ) == pieces.push(text@.subrange(start as int, i + 1)));
                }
            }
            i = i + 1;
        }
        let piece = text.substring_char(start, n);
        let t = trim_text(piece);
        proof {
            assert(text@.subrange(0, n as int) == text@);
            let q = pieces.push(text@.subrange(start as int, n as int));
            assert(q.map_values(|l: Seq<char>| trimmed(l)) == pieces.map_values(
                |l: Seq<char>| trimmed(l),
            ).push(t@));
            pieces.map_values(|l: Seq<char>| trimmed(l)).lemma_filter_push(t@, p);
        }
        if t.unicode_len() > 0 {
            out.push(String::from_str(t));
        }
        assert(views(out@) =~= ignore_entries(text@));
        out
    }
}

/// Joins `base` and `leaf` with one slash between them, dropping the slashes
/// at the end of `base` and at both ends of `leaf`.
pub fn join_paths(base: &str, leaf: &str) -> (r: String)
    ensures
        r@ == joined(base@, leaf@),
{
    let be = end_without_slashes(base);
    let le = end_without_slashes(leaf);
    let mut b: usize = 0;
    while b < le && leaf.get_char(b) == '/'
        invariant
            le <= leaf@.len(),
            b <= le,
            forall|j: int| 0 <= j < b ==> leaf@[j] == '/',
        decreases le - b,
    {
        b = b + 1;
    }
    proof {
        let t = leaf@.subrange(0, le as int);
        assert(forall|j: int| 0 <= j < b ==> t[j] == '/');
        lemma_trim_start(t, b as int);
        assert(t.subrange(b as int, t.len() as int) == leaf@.subrange(b as int, le as int));
        if b < le {
            assert(leaf@.subrange(b as int, le as int)[0] != '/');
        }
    }
    let mut path = String::from_str(base.substring_char(0, be));
    path.append("/");
    path.append(leaf.substring_char(b, le));
    proof {
        reveal_strlit("/");
    }
    path
}

/// The `.gitignore` line for `path` below a root whose own path takes
/// `prefix_len` characters: a leading slash, and a trailing one for a directory.
pub fn gitignore_entry(path: &str, prefix_len: usize, is_dir: bool) -> (r: String)
    requires
        prefix_len <= path@.len(),
    ensures
        r@ == seq!['/'] + path@.subrange(prefix_len as int, path@.len() as int) + if is_dir {
            seq!['/']
        } else {
            Seq::empty()
        },
{
    let mut line = String::from_str("/");
    line.append(path.substring_char(prefix_len, path.unicode_len()));
    if is_dir {
        line.append("/");
    }
    proof {
        reveal_strlit("/");
    }
    line
}

} // verus!
