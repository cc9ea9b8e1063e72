use vstd::prelude::*;
use vstd::string::*;

verus! {

broadcast use vstd::seq_lib::group_seq_properties;

/// Why a prefix argument was refused.
#[derive(Clone, Copy, Debug, PartialEq, Eq, Structural)]
pub enum PrefixError {
    /// The prefix does not begin with `^/`.
    NotRooted,
    /// The prefix is `^/` alone, the repository root.
    RepositoryRoot,
}

impl PrefixError {
    /// The message shown to the user.
    pub fn message(&self) -> &'static str {
        match self {
            PrefixError::NotRooted => "Prefix must begin with '^/'",
            PrefixError::RepositoryRoot => "Prefix cannot refer to the repository root",
        }
    }
}

/// The repository locations of trunk, branches and tags, relative to the root.
pub struct Prefixes {
    pub trunk_prefix: String,
    pub branch_prefixes: Vec<String>,
    pub tag_prefixes: Vec<String>,
}

/// The changes asked of the configured prefixes.
pub struct Prefix {
    pub add_branch: Vec<String>,
    pub rem_branch: Vec<String>,
    pub add_tag: Vec<String>,
    pub rem_tag: Vec<String>,
    pub set_trunk: Option<String>,
}

/// `s` without the slashes at its end.
pub open spec fn trim_end_slashes(s: Seq<char>) -> Seq<char>
    decreases s.len(),
{
    if s.len() > 0 && s.last() == '/' {
        trim_end_slashes(s.drop_last())
    } else {
        s
    }
}

/// `s` begins with `^/`.
pub open spec fn is_rooted(s: Seq<char>) -> bool {
    s.len() >= 2 && s[0] == '^' && s[1] == '/'
}

/// The views of a list of strings.
pub open spec fn views(v: Seq<String>) -> Seq<Seq<char>> {
    v.map_values(|s: String| s@)
}

/// A prefix list after adding `add` (what it lacks), removing `rem`, and
/// falling back to `default` if nothing is left.
pub open spec fn updated_list(
    cur: Seq<Seq<char>>,
    add: Seq<Seq<char>>,
    rem: Seq<Seq<char>>,
    default: Seq<char>,
) -> Seq<Seq<char>> {
    let ext = cur + add.filter(|a: Seq<char>| !cur.contains(a));
    let kept = ext.filter(|e: Seq<char>| !rem.contains(e));
    if kept.len() == 0 {
        seq![default]
    } else {
        kept
    }
}

/// Reads a `^/PATH` prefix argument into `PATH` without its trailing slashes.
pub fn parse_prefix(arg: &str) -> (r: Result<String, PrefixError>)
    ensures
        !is_rooted(arg@) ==> r == Err::<String, PrefixError>(PrefixError::NotRooted),
        is_rooted(arg@) && arg@.len() == 2 ==> r == Err::<String, PrefixError>(
            PrefixError::RepositoryRoot,
        ),
        is_rooted(arg@) && arg@.len() > 2 ==> r is Ok && r->Ok_0@ == trim_end_slashes(
            arg@.subrange(2, arg@.len() as int),
        ),
{
    let n = arg.unicode_len();
    if n < 2 || arg.get_char(0) != '^' || arg.get_char(1) != '/' {
        return Err(PrefixError::NotRooted);
    }
    if n == 2 {
        return Err(PrefixError::RepositoryRoot);
    }
    let mut e: usize = n;
    while e > 2 && arg.get_char(e - 1) == '/'
        invariant
            n == arg@.len(),
            2 <= e <= n,
            trim_end_slashes(arg@.subrange(2, e as int)) == trim_end_slashes(
                arg@.subrange(2, n as int),
            ),
        decreases e,
    {
        assert(arg@.subrange(2, e as int).drop_last() == arg@.subrange(2, e - 1));
        e = e - 1;
    }
    let tail = arg.substring_char(2, e);
    Ok(String::from_str(tail))
}

/// Whether `v` holds a string equal to `s`.
fn contains_str(v: &Vec<String>, s: &String) -> (r: bool)
    ensures
        r == views(v@).contains(s@),
{
    let mut i: usize = 0;
    while i < v.len()
        invariant
            0 <= i <= v.len(),
            forall|j: int| 0 <= j < i ==> v@[j]@ != s@,
        decreases v.len() - i,
    {
        if v[i] == *s {
            assert(views(v@)[i as int] == s@);
            return true;
        }
        i = i + 1;
    }
    assert(!views(v@).contains(s@)) by {
        if views(v@).contains(s@) {
            let j = choose|j: int| 0 <= j < views(v@).len() && views(v@)[j] == s@;
            assert(v@[j]@ == s@);
        }
    }
    false
}

/// The strings of `v` that `other` lacks (`keep == false`) or holds (`keep == true`).
fn filter_by(v: &Vec<String>, other: &Vec<String>, keep: bool) -> (r: Vec<String>)
    ensures
        views(r@) == views(v@).filter(|a: Seq<char>| views(other@).contains(a) == keep),
{
    let ghost p = |a: Seq<char>| views(other@).contains(a) == keep;
    let mut out: Vec<String> = Vec::new();
    let mut i: usize = 0;
    while i < v.len()
        invariant
            0 <= i <= v.len(),
            p == (|a: Seq<char>| views(other@).contains(a) == keep),
            views(out@) == views(v@).subrange(0, i as int).filter(p),
        decreases v.len() - i,
    {
        proof {
            assert(views(v@).subrange(0, i + 1) == views(v@).subrange(0, i as int).push(
                v@[i as int]@,
            ));
            views(v@).subrange(0, i as int).lemma_filter_push(v@[i as int]@, p);
        }
        if contains_str(other, &v[i]) == keep {
            let c = v[i].clone();
            out.push(c);
            assert(views(out@) =~= views(v@).subrange(0, i + 1).filter(p));
        }
        i = i + 1;
    }
    assert(views(v@).subrange(0, v@.len() as int) == views(v@));
    out
}

/// Applies additions and removals to one prefix list.
fn update_list(cur: &mut Vec<String>, add: &Vec<String>, rem: &Vec<String>, default: &str)
    ensures
        views(final(cur)@) == updated_list(views(old(cur)@), views(add@), views(rem@), default@),
{
    let mut to_add = filter_by(add, cur, false);
    let ghost before = views(cur@);
    cur.append(&mut to_add);
    assert(views(cur@) =~= before + views(add@).filter(|a: Seq<char>| !before.contains(a))) by {
        assert((|a: Seq<char>| views(old(cur)@).contains(a) == false) == (|a: Seq<char>|
            !before.contains(a)));
    }
    let kept = filter_by(cur, rem, false);
    assert((|a: Seq<char>| views(rem@).contains(a) == false) == (|e: Seq<char>|
        !views(rem@).contains(e)));
    if kept.len() == 0 {
        *cur = vec![String::from_str(default)];
        assert(views(cur@) =~= seq![default@]);
    } else {
        *cur = kept;
    }
}

impl Prefix {
    /// Applies the requested changes to `prefixes` and says whether any was asked.
    /// A list that loses every entry falls back to its standard location.
    pub fn apply(&self, prefixes: &mut Prefixes) -> (modified: bool)
        ensures
            modified == (self.set_trunk is Some || self.add_branch@.len() > 0
                || self.rem_branch@.len() > 0 || self.add_tag@.len() > 0
                || self.rem_tag@.len() > 0),
            final(prefixes).trunk_prefix@ == match self.set_trunk {
                Some(t) => t@,
                None => old(prefixes).trunk_prefix@,
            },
            views(final(prefixes).branch_prefixes@) == if self.add_branch@.len() > 0
                || self.rem_branch@.len() > 0 {
                updated_list(
                    views(old(prefixes).branch_prefixes@),
                    views(self.add_branch@),
                    views(self.rem_branch@),
                    "branches"@,
                )
            } else {
                views(old(prefixes).branch_prefixes@)
            },
            views(final(prefixes).tag_prefixes@) == if self.add_tag@.len() > 0
                || self.rem_tag@.len() > 0 {
                updated_list(
                    views(old(prefixes).tag_prefixes@),
                    views(self.add_tag@),
                    views(self.rem_tag@),
                    "tags"@,
                )
            } else {
                views(old(prefixes).tag_prefixes@)
            },
    {
        let mut modified = false;
        match &self.set_trunk {
            Some(t) => {
                prefixes.trunk_prefix = t.clone();
                modified = true;
            },
            None => {},
        }
        if self.add_branch.len() > 0 || self.rem_branch.len() > 0 {
            update_list(&mut prefixes.branch_prefixes, &self.add_branch, &self.rem_branch, "branches");
            modified = true;
        }
        if self.add_tag.len() > 0 || self.rem_tag.len() > 0 {
            update_list(&mut prefixes.tag_prefixes, &self.add_tag, &self.rem_tag, "tags");
            modified = true;
        }
        modified
    }
}

} // verus!
