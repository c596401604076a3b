use vstd::prelude::*;
use crate::commit::{Commit, CommitV, clone_opt_bytes};
use crate::digest::{hex_chars_of, hex_encode};
use crate::errors::WTSError;
use crate::repo::Repository;

verus! {

/// What one step of the history walk yields: nothing when the walk has
/// ended, a record when the current digest is stored, and the missing hex
/// key when it is not.
pub open spec fn step_output(r: Repository, cur: Option<Seq<u8>>) -> Option<
    Result<CommitV, Seq<char>>,
> {
    match cur {
        None => None,
        Some(h) => if r.commits_map().contains_key(hex_chars_of(h)) {
            Some(Ok(r.commits_map()[hex_chars_of(h)]))
        } else {
            Some(Err(hex_chars_of(h)))
        },
    }
}

/// Where the walk stands after one step: at the parent after a hit, and
/// terminated after a miss or at the end.
pub open spec fn step_state(r: Repository, cur: Option<Seq<u8>>) -> Option<Seq<u8>> {
    match cur {
        None => None,
        Some(h) => if r.commits_map().contains_key(hex_chars_of(h)) {
            r.commits_map()[hex_chars_of(h)].parent_hash
        } else {
            None
        },
    }
}

/// A lazy, forward-only walk of a commit history: it starts at a digest and
/// follows parent links until a root commit, yielding each record in turn
/// and a final failure when a link points at nothing.
pub struct CommitIterator<'a> {
    repo: &'a Repository,
    current_hash: Option<Vec<u8>>,
}

impl<'a> CommitIterator<'a> {
    /// The repository being walked.
    pub closed spec fn repo_view(self) -> Repository {
        *self.repo
    }

    /// The digest the walk stands at, if it has not terminated.
    pub closed spec fn cur(self) -> Option<Seq<u8>> {
        match self.current_hash {
            Some(v) => Some(v@),
            None => None,
        }
    }

    /// Starts a walk at the given digest.
    pub fn new(repo: &'a Repository, start: Vec<u8>) -> (r: Self)
        ensures
            r.repo_view() == *repo,
            r.cur() == Some(start@),
    {
        CommitIterator { repo, current_hash: Some(start) }
    }

    /// Takes one step: yields the record under the current digest and moves
    /// to its parent, or yields the miss and terminates.
    pub fn next(&mut self) -> (r: Option<Result<Commit, WTSError>>)
        ensures
            final(self).repo_view() == old(self).repo_view(),
            final(self).cur() == step_state(old(self).repo_view(), old(self).cur()),
            match r {
                None => step_output(old(self).repo_view(), old(self).cur()) is None,
                Some(Ok(c)) => (step_output(old(self).repo_view(), old(self).cur()) matches Some(
                    Ok(cv),
                ) && c@ == cv),
                Some(Err(e)) => (step_output(old(self).repo_view(), old(self).cur()) matches Some(
                    Err(hx),
                ) && e matches WTSError::ObjectNotFound(s) && s@ == hx),
            },
    {
        match &self.current_hash {
            None => None,
            Some(h) => {
                let hex = hex_encode(h.as_slice());
                let looked = self.repo.get_commit(hex.as_str());
                match looked {
                    Ok(c) => {
                        self.current_hash = clone_opt_bytes(&c.parent_hash);
                        Some(Ok(c))
                    },
                    Err(e) => {
                        self.current_hash = None;
                        Some(Err(e))
                    },
                }
            },
        }
    }
}

/// A walk started at a commit with no parent yields exactly that one record
/// and then ends: the first step yields the record and terminates the walk,
/// and the next step yields nothing.
pub proof fn lemma_history_single(r: Repository, h: Seq<u8>)
    requires
        r.commits_map().contains_key(hex_chars_of(h)),
        r.commits_map()[hex_chars_of(h)].parent_hash is None,
    ensures
        step_output(r, Some(h)) == Some(Result::<CommitV, Seq<char>>::Ok(
            r.commits_map()[hex_chars_of(h)],
        )),
        step_state(r, Some(h)) is None,
        step_output(r, step_state(r, Some(h))) is None,
{
}

/// A walk started at a commit whose parent digest is not stored yields that
/// commit, then the miss naming the parent's hex key, and then ends: no
/// silent truncation and no endless loop.
pub proof fn lemma_history_missing_parent(r: Repository, h: Seq<u8>, p: Seq<u8>)
    requires
        r.commits_map().contains_key(hex_chars_of(h)),
        r.commits_map()[hex_chars_of(h)].parent_hash == Some(p),
        !r.commits_map().contains_key(hex_chars_of(p)),
    ensures
        step_output(r, Some(h)) == Some(Result::<CommitV, Seq<char>>::Ok(
            r.commits_map()[hex_chars_of(h)],
        )),
        step_state(r, Some(h)) == Some(p),
        step_output(r, Some(p)) == Some(Result::<CommitV, Seq<char>>::Err(hex_chars_of(p))),
        step_state(r, Some(p)) is None,
        step_output(r, step_state(r, Some(p))) is None,
{
}

} // verus!
