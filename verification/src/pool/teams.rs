use vstd::prelude::*;

use crate::pool::PoolError;

verus! {

/// A roster container: a team accumulates member ids up to a fixed capacity
/// and carries a counter of the rounds it has advanced through.
#[derive(Debug)]
pub struct Team {
    /// Caller-supplied opaque identifier.
    pub id: String,
    /// Rounds-won counter; starts at 1 and grows once per stage the team wins.
    pub stage: u32,
    /// Fixed roster capacity, immutable after creation.
    pub players_in_team: u32,
    /// Ordered roster of member ids; never longer than the capacity.
    pub users: Vec<String>,
}

impl Team {
    /// The roster never exceeds the capacity.
    pub open spec fn wf(self) -> bool {
        self.users@.len() <= self.players_in_team
    }

    /// A team is complete exactly when its roster is at capacity.
    pub open spec fn spec_is_complete(self) -> bool {
        self.users@.len() == self.players_in_team
    }

    pub fn new(id: String, players_in_team: u32) -> (t: Team)
        ensures
            t.id == id,
            t.stage == 1,
            t.players_in_team == players_in_team,
            t.users@ =~= Seq::<String>::empty(),
            t.wf(),
    {
        Team { id, stage: 1, players_in_team, users: Vec::new() }
    }

    /// Appends a member id, failing once the roster is at capacity.
    /// Duplicate member ids are the caller's responsibility.
    pub fn add_user(&mut self, user_id: String) -> (r: Result<(), PoolError>)
        requires
            old(self).wf(),
        ensures
            final(self).wf(),
            final(self).id == old(self).id,
            final(self).stage == old(self).stage,
            final(self).players_in_team == old(self).players_in_team,
            old(self).spec_is_complete() ==> r == Err::<(), PoolError>(PoolError::CapacityExceeded)
                && final(self).users == old(self).users,
            !old(self).spec_is_complete() ==> r is Ok
                && final(self).users@ == old(self).users@.push(user_id),
    {
        if self.users.len() == self.players_in_team as usize {
            return Err(PoolError::CapacityExceeded);
        }
        self.users.push(user_id);
        Ok(())
    }

    /// Appends a batch of member ids, failing if the batch would push the
    /// roster past its capacity; on failure the roster is unchanged.
    pub fn add_users(&mut self, users_ids: Vec<String>) -> (r: Result<(), PoolError>)
        requires
            old(self).wf(),
        ensures
            final(self).wf(),
            final(self).id == old(self).id,
            final(self).stage == old(self).stage,
            final(self).players_in_team == old(self).players_in_team,
            old(self).users@.len() + users_ids@.len() > old(self).players_in_team
                ==> r == Err::<(), PoolError>(PoolError::CapacityExceeded)
                    && final(self).users == old(self).users,
            old(self).users@.len() + users_ids@.len() <= old(self).players_in_team
                ==> r is Ok && final(self).users@ == old(self).users@ + users_ids@,
    {
        let mut users_ids = users_ids;
        if users_ids.len() > self.players_in_team as usize - self.users.len() {
            return Err(PoolError::CapacityExceeded);
        }
        self.users.append(&mut users_ids);
        Ok(())
    }

    pub fn is_complete(&self) -> (r: bool)
        ensures
            r == self.spec_is_complete(),
    {
        self.users.len() == self.players_in_team as usize
    }

    /// Advances the rounds-won counter by one.
    pub fn increment_stage(&mut self)
        requires
            old(self).stage < u32::MAX,
        ensures
            final(self).stage == old(self).stage + 1,
            final(self).id == old(self).id,
            final(self).players_in_team == old(self).players_in_team,
            final(self).users == old(self).users,
            old(self).wf() ==> final(self).wf(),
    {
        self.stage = self.stage + 1;
    }
}

} // verus!
