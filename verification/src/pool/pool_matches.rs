use vstd::prelude::*;

use crate::pool::PoolError;

verus! {

/// One bout between rival teams at a given stage.  A match with a single
/// rival is a bye: the lone team advances automatically, so its winner is
/// assigned at creation and equals the sole rival.
#[derive(Debug)]
pub struct PoolMatch {
    /// Synthesized identifier: the match's index in the pool's match log.
    pub id: usize,
    /// The round this match belongs to.
    pub stage: u32,
    /// Team ids competing in this match, in grouping order; never empty.
    pub rivals: Vec<String>,
    /// The recorded winner, one of the rivals; immutable once set.
    pub winner: Option<String>,
}

impl PoolMatch {
    /// Whether `id` names one of this match's rivals.
    pub open spec fn has_rival(self, id: Seq<char>) -> bool {
        exists|i: int| 0 <= i < self.rivals@.len() && #[trigger] self.rivals@[i]@ == id
    }

    /// A bye is a one-rival match.
    pub open spec fn is_bye(self) -> bool {
        self.rivals@.len() == 1
    }

    pub open spec fn resolved(self) -> bool {
        self.winner is Some
    }

    /// Rivals are never empty and a recorded winner is one of them.
    pub open spec fn wf(self) -> bool {
        &&& self.rivals@.len() >= 1
        &&& match self.winner {
            Some(w) => self.has_rival(w@),
            None => true,
        }
    }

    pub fn new(id: usize, stage: u32, rivals: Vec<String>) -> (m: PoolMatch)
        requires
            rivals@.len() >= 1,
        ensures
            m.id == id,
            m.stage == stage,
            m.rivals == rivals,
            m.winner is None,
            m.wf(),
    {
        PoolMatch { id, stage, rivals, winner: None }
    }

    /// Records the winner: fails with `TeamNotRival` if `team_id` is not
    /// among the rivals, and with `WinnerAlreadySet` if a winner was already
    /// recorded; in both failure cases the match is unchanged.
    pub fn set_winner(&mut self, team_id: String) -> (r: Result<(), PoolError>)
        requires
            old(self).wf(),
        ensures
            final(self).wf(),
            final(self).id == old(self).id,
            final(self).stage == old(self).stage,
            final(self).rivals == old(self).rivals,
            old(self).resolved() ==> r == Err::<(), PoolError>(PoolError::WinnerAlreadySet)
                && final(self).winner == old(self).winner,
            !old(self).resolved() && !old(self).has_rival(team_id@)
                ==> r == Err::<(), PoolError>(PoolError::TeamNotRival)
                    && final(self).winner == old(self).winner,
            !old(self).resolved() && old(self).has_rival(team_id@)
                ==> r is Ok && final(self).winner == Some(team_id),
    {
        if self.winner.is_some() {
            return Err(PoolError::WinnerAlreadySet);
        }
        let n = self.rivals.len();
        let mut i: usize = 0;
        while i < n
            invariant
                *self == *old(self),
                !old(self).resolved(),
                n == self.rivals@.len(),
                0 <= i <= n,
                forall|j: int| 0 <= j < i ==> #[trigger] self.rivals@[j]@ != team_id@,
            decreases n - i,
        {
            if self.rivals[i] == team_id {
                self.winner = Some(team_id);
                return Ok(());
            }
            i = i + 1;
        }
        Err(PoolError::TeamNotRival)
    }
}

} // verus!
