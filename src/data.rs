use vstd::prelude::*;

verus! {

broadcast use vstd::seq_lib::group_seq_properties;

/// The classification a revision held before it was reclassified.
#[derive(Clone, Copy, Debug, PartialEq, Eq, Structural)]
pub enum Class {
    Good,
    Bad,
    Skipped,
}

/// The persisted state of one bisect session.
///
/// The three classifications are kept as vectors whose contents are read as
/// sets; `log` holds the recorded command lines in the order they were issued.
pub struct BisectData {
    pub good: Vec<u64>,
    pub bad: Vec<u64>,
    pub skip: Vec<u64>,
    pub log: Vec<String>,
}

/// The abstract view of a session: three sets and a sequence of lines.
pub struct BisectView {
    pub good: Set<u64>,
    pub bad: Set<u64>,
    pub skip: Set<u64>,
    pub log: Seq<Seq<char>>,
}

impl BisectView {
    /// The three classification sets are pairwise disjoint.
    pub open spec fn disjoint(self) -> bool {
        self.good.disjoint(self.bad) && self.good.disjoint(self.skip) && self.bad.disjoint(
            self.skip,
        )
    }

    /// The three classification sets are finite, as those of a stored session are.
    pub open spec fn finite(self) -> bool {
        self.good.finite() && self.bad.finite() && self.skip.finite()
    }

    /// Nothing is classified and nothing is logged.
    pub open spec fn is_empty(self) -> bool {
        self.good =~= Set::empty() && self.bad =~= Set::empty() && self.skip =~= Set::empty()
            && self.log.len() == 0
    }

    /// The class `rev` had in this state, if any.
    pub open spec fn class_of(self, rev: u64) -> Option<Class> {
        if self.good.contains(rev) {
            Some(Class::Good)
        } else if self.bad.contains(rev) {
            Some(Class::Bad)
        } else if self.skip.contains(rev) {
            Some(Class::Skipped)
        } else {
            None
        }
    }

    /// `rev` classified as good; every other revision keeps its class.
    pub open spec fn with_good(self, rev: u64) -> BisectView {
        BisectView {
            good: self.good.insert(rev),
            bad: self.bad.remove(rev),
            skip: self.skip.remove(rev),
            log: self.log,
        }
    }

    /// `rev` classified as bad; every other revision keeps its class.
    pub open spec fn with_bad(self, rev: u64) -> BisectView {
        BisectView {
            good: self.good.remove(rev),
            bad: self.bad.insert(rev),
            skip: self.skip.remove(rev),
            log: self.log,
        }
    }

    /// `rev` classified as skipped; every other revision keeps its class.
    pub open spec fn with_skipped(self, rev: u64) -> BisectView {
        BisectView {
            good: self.good.remove(rev),
            bad: self.bad.remove(rev),
            skip: self.skip.insert(rev),
            log: self.log,
        }
    }

    /// Every revision of `revs`, in order, classified as skipped.
    pub open spec fn with_all_skipped(self, revs: Seq<u64>) -> BisectView
        decreases revs.len(),
    {
        if revs.len() == 0 {
            self
        } else {
            self.with_all_skipped(revs.drop_last()).with_skipped(revs.last())
        }
    }

    /// One more line at the end of the log.
    pub open spec fn with_line(self, line: Seq<char>) -> BisectView {
        BisectView { log: self.log.push(line), ..self }
    }
}

/// The state with nothing classified and nothing logged.
pub open spec fn empty_view() -> BisectView {
    BisectView { good: Set::empty(), bad: Set::empty(), skip: Set::empty(), log: Seq::empty() }
}

/// Removes every occurrence of `rev` from `v`.
fn remove_rev(v: &mut Vec<u64>, rev: u64)
    ensures
        final(v)@.to_set() == old(v)@.to_set().remove(rev),
{
    let mut out: Vec<u64> = Vec::new();
    let mut i: usize = 0;
    while i < v.len()
        invariant
            0 <= i <= v.len(),
            out@.to_set() == v@.subrange(0, i as int).to_set().remove(rev),
        decreases v.len() - i,
    {
        proof {
            assert(v@.subrange(0, i + 1) == v@.subrange(0, i as int).push(v@[i as int]));
            v@.subrange(0, i as int).lemma_push_to_set_commute(v@[i as int]);
        }
        if v[i] != rev {
            proof {
                out@.lemma_push_to_set_commute(v@[i as int]);
            }
            out.push(v[i]);
            assert(out@.to_set() =~= v@.subrange(0, i + 1).to_set().remove(rev));
        } else {
            assert(out@.to_set() =~= v@.subrange(0, i + 1).to_set().remove(rev));
        }
        i = i + 1;
    }
    assert(v@.subrange(0, v@.len() as int) == v@);
    *v = out;
}

/// Adds `rev` to `v` unless it is already there.
fn insert_rev(v: &mut Vec<u64>, rev: u64)
    ensures
        final(v)@.to_set() == old(v)@.to_set().insert(rev),
{
    let mut i: usize = 0;
    while i < v.len()
        invariant
            0 <= i <= v.len(),
            forall|j: int| 0 <= j < i ==> v@[j] != rev,
        decreases v.len() - i,
    {
        if v[i] == rev {
            assert(v@.to_set() =~= v@.to_set().insert(rev));
            return;
        }
        i = i + 1;
    }
    proof {
        v@.lemma_push_to_set_commute(rev);
    }
    v.push(rev);
}

impl BisectData {
    /// The abstract state of this session.
    pub open spec fn view(&self) -> BisectView {
        BisectView {
            good: self.good@.to_set(),
            bad: self.bad@.to_set(),
            skip: self.skip@.to_set(),
            log: self.log@.map_values(|l: String| l@),
        }
    }

    /// The state a store holds when no session has been started.
    pub fn new() -> (r: BisectData)
        ensures
            r.view().is_empty(),
            r.view() == empty_view(),
    {
        let r = BisectData { good: Vec::new(), bad: Vec::new(), skip: Vec::new(), log: Vec::new() };
        assert(r.view().good =~= Set::empty());
        assert(r.view().bad =~= Set::empty());
        assert(r.view().skip =~= Set::empty());
        assert(r.view().log =~= Seq::empty());
        r
    }

    /// True when nothing has been classified and nothing logged.
    pub fn is_empty(&self) -> (r: bool)
        ensures
            r == self.view().is_empty(),
    {
        if self.good.len() == 0 && self.bad.len() == 0 && self.skip.len() == 0 && self.log.len()
            == 0 {
            assert(self.view().good =~= Set::empty());
            assert(self.view().bad =~= Set::empty());
            assert(self.view().skip =~= Set::empty());
            true
        } else {
            if self.good.len() > 0 {
                assert(self.view().good.contains(self.good@[0]));
            }
            if self.bad.len() > 0 {
                assert(self.view().bad.contains(self.bad@[0]));
            }
            if self.skip.len() > 0 {
                assert(self.view().skip.contains(self.skip@[0]));
            }
            false
        }
    }

    /// Whether the three classifications are pairwise disjoint, as every
    /// session built by the methods here is.
    pub fn is_disjoint(&self) -> (r: bool)
        ensures
            r == self.view().disjoint(),
    {
        no_common(&self.good, &self.bad) && no_common(&self.good, &self.skip) && no_common(
            &self.bad,
            &self.skip,
        )
    }

    /// The class `rev` holds now, if any.
    pub fn class_of(&self, rev: u64) -> (r: Option<Class>)
        ensures
            r == self.view().class_of(rev),
    {
        if contains_rev(&self.good, rev) {
            Some(Class::Good)
        } else if contains_rev(&self.bad, rev) {
            Some(Class::Bad)
        } else if contains_rev(&self.skip, rev) {
            Some(Class::Skipped)
        } else {
            None
        }
    }

    /// Classifies `rev` as good, taking it out of any other class.
    /// Returns the class it held before, so that a caller can report a change.
    pub fn mark_good(&mut self, rev: u64) -> (prior: Option<Class>)
        ensures
            prior == old(self).view().class_of(rev),
            final(self).view() == old(self).view().with_good(rev),
            old(self).view().disjoint() ==> final(self).view().disjoint(),
    {
        let prior = self.class_of(rev);
        remove_rev(&mut self.bad, rev);
        remove_rev(&mut self.skip, rev);
        insert_rev(&mut self.good, rev);
        prior
    }

    /// Classifies `rev` as bad, taking it out of any other class.
    /// Returns the class it held before, so that a caller can report a change.
    pub fn mark_bad(&mut self, rev: u64) -> (prior: Option<Class>)
        ensures
            prior == old(self).view().class_of(rev),
            final(self).view() == old(self).view().with_bad(rev),
            old(self).view().disjoint() ==> final(self).view().disjoint(),
    {
        let prior = self.class_of(rev);
        remove_rev(&mut self.good, rev);
        remove_rev(&mut self.skip, rev);
        insert_rev(&mut self.bad, rev);
        prior
    }

    /// Classifies `rev` as skipped, taking it out of any other class.
    /// Returns the class it held before, so that a caller can report a change.
    pub fn mark_skipped(&mut self, rev: u64) -> (prior: Option<Class>)
        ensures
            prior == old(self).view().class_of(rev),
            final(self).view() == old(self).view().with_skipped(rev),
            old(self).view().disjoint() ==> final(self).view().disjoint(),
    {
        let prior = self.class_of(rev);
        remove_rev(&mut self.good, rev);
        remove_rev(&mut self.bad, rev);
        insert_rev(&mut self.skip, rev);
        prior
    }

    /// Classifies every revision of `revs` as skipped.
    pub fn mark_skipped_revisions(&mut self, revs: &Vec<u64>)
        ensures
            final(self).view() == old(self).view().with_all_skipped(revs@),
            old(self).view().disjoint() ==> final(self).view().disjoint(),
    {
        let mut i: usize = 0;
        while i < revs.len()
            invariant
                0 <= i <= revs.len(),
                self.view() == old(self).view().with_all_skipped(revs@.subrange(0, i as int)),
                old(self).view().disjoint() ==> self.view().disjoint(),
            decreases revs.len() - i,
        {
            self.mark_skipped(revs[i]);
            proof {
                let s = revs@.subrange(0, i + 1);
                assert(s.drop_last() == revs@.subrange(0, i as int));
            }
            i = i + 1;
        }
        assert(revs@.subrange(0, revs@.len() as int) == revs@);
    }

    /// Appends one line to the command log; the classifications stay as they are.
    pub fn append_log(&mut self, line: String)
        ensures
            final(self).view() == old(self).view().with_line(line@),
    {
        self.log.push(line);
        assert(self.view().log =~= old(self).view().log.push(line@));
    }

    /// A copy of this session that shares nothing with it.
    pub fn duplicate(&self) -> (r: BisectData)
        ensures
            r.view() == self.view(),
    {
        let mut log: Vec<String> = Vec::new();
        let mut i: usize = 0;
        while i < self.log.len()
            invariant
                0 <= i <= self.log.len(),
                log@.len() == i,
                forall|j: int| 0 <= j < i ==> #[trigger] log@[j]@ == self.log@[j]@,
            decreases self.log.len() - i,
        {
            log.push(self.log[i].clone());
            i = i + 1;
        }
        let r = BisectData {
            good: copy_revs(&self.good),
            bad: copy_revs(&self.bad),
            skip: copy_revs(&self.skip),
            log,
        };
        assert(r.view().log =~= self.view().log);
        r
    }

    /// Forgets the whole session: classifications and log.
    pub fn reset(&mut self)
        ensures
            final(self).view() == empty_view(),
    {
        *self = BisectData::new();
    }
}

/// A copy of `v`.
fn copy_revs(v: &Vec<u64>) -> (r: Vec<u64>)
    ensures
        r@ == v@,
{
    let mut out: Vec<u64> = Vec::new();
    let mut i: usize = 0;
    while i < v.len()
        invariant
            0 <= i <= v.len(),
            out@ == v@.subrange(0, i as int),
        decreases v.len() - i,
    {
        out.push(v[i]);
        i = i + 1;
    }
    out
}

/// Whether no element of `a` is in `b`.
fn no_common(a: &Vec<u64>, b: &Vec<u64>) -> (r: bool)
    ensures
        r == a@.to_set().disjoint(b@.to_set()),
{
    let mut i: usize = 0;
    while i < a.len()
        invariant
            0 <= i <= a.len(),
            forall|j: int| 0 <= j < i ==> !b@.contains(#[trigger] a@[j]),
        decreases a.len() - i,
    {
        if contains_rev(b, a[i]) {
            assert(a@.to_set().contains(a@[i as int]) && b@.to_set().contains(a@[i as int]));
            return false;
        }
        i = i + 1;
    }
    true
}

/// Whether `v` holds `rev`.
pub fn contains_rev(v: &Vec<u64>, rev: u64) -> (r: bool)
    ensures
        r == v@.contains(rev),
{
    let mut i: usize = 0;
    while i < v.len()
        invariant
            0 <= i <= v.len(),
            forall|j: int| 0 <= j < i ==> v@[j] != rev,
        decreases v.len() - i,
    {
        if v[i] == rev {
            return true;
        }
        i = i + 1;
    }
    false
}

} // verus!
