use vstd::prelude::*;
use crate::revision::{gather, revision_of, skip_revisions, target_revision, token_views};
use crate::session::{Command, SessionError};

verus! {

/// `bisect good [REV]`: the revision does not contain the defect.
pub struct Good {
    pub revision: Option<String>,
}

/// `bisect bad [REV]`: the revision contains the defect.
pub struct Bad {
    pub revision: Option<String>,
}

/// `bisect skip [REV|REV:REV ...]`: the revisions are left out of the search.
pub struct Skip {
    pub revisions: Vec<String>,
}

/// `bisect replay FILE`: runs a recorded session again.
pub struct Replay {
    pub log_file: String,
}

/// The revision a `good` or `bad` argument names, `current` when it is absent.
pub open spec fn target_of(token: Option<String>, current: u64) -> Option<u64> {
    match token {
        None => Some(current),
        Some(t) => revision_of(t@),
    }
}

impl Good {
    /// The command this invocation stands for, with `current` the working
    /// copy's revision.
    pub fn command(&self, current: u64) -> (r: Result<Command, SessionError>)
        ensures
            match target_of(self.revision, current) {
                Some(n) => r matches Ok(Command::Good(m)) && m == n,
                None => r matches Err(SessionError::InvalidRevision),
            },
    {
        match target_revision(&self.revision, current) {
            Ok(n) => Ok(Command::Good(n)),
            Err(e) => Err(e),
        }
    }
}

impl Bad {
    /// The command this invocation stands for, with `current` the working
    /// copy's revision.
    pub fn command(&self, current: u64) -> (r: Result<Command, SessionError>)
        ensures
            match target_of(self.revision, current) {
                Some(n) => r matches Ok(Command::Bad(m)) && m == n,
                None => r matches Err(SessionError::InvalidRevision),
            },
    {
        match target_revision(&self.revision, current) {
            Ok(n) => Ok(Command::Bad(n)),
            Err(e) => Err(e),
        }
    }
}

impl Skip {
    /// The command this invocation stands for, with `current` the working
    /// copy's revision and `history` the revisions of the tracked path.
    pub fn command(&self, current: u64, history: &Vec<u64>) -> (r: Result<Command, SessionError>)
        ensures
            match gather(token_views(self.revisions@), history@) {
                None => r matches Err(SessionError::InvalidRevision),
                Some(s) => r matches Ok(Command::Skip(v)) && v@ == if s.len() == 0 {
                    seq![current]
                } else {
                    s
                },
            },
    {
        match skip_revisions(&self.revisions, current, history) {
            Ok(v) => Ok(Command::Skip(v)),
            Err(e) => Err(e),
        }
    }
}

} // verus!
