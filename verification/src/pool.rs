pub mod bracket;
pub mod pool_matches;
pub mod teams;

use vstd::prelude::*;

use bracket::{chunk_of, groups_of, leftover_of, lemma_bracket_parts};
use pool_matches::PoolMatch;
use teams::Team;

verus! {

/// An inclusive lower and upper bound.
#[derive(Debug, Clone, Copy, PartialEq, Eq, Structural)]
pub struct MinMax(pub u32, pub u32);

/// Pool configuration, immutable after construction.
#[derive(Debug, Clone, Copy, PartialEq, Eq, Structural)]
pub struct PoolSettings {
    pub players_in_team: u32,
    pub teams_in_pool: MinMax,
    pub teams_in_match: MinMax,
}

impl PoolSettings {
    /// A usable configuration: matches pit at least two teams against each
    /// other (a single-team match only ever arises as a bye), the match-size
    /// bounds are ordered, and a pool needs at least one team to produce a
    /// bracket.
    pub open spec fn wf(self) -> bool {
        &&& 2 <= self.teams_in_match.0 <= self.teams_in_match.1
        &&& 1 <= self.teams_in_pool.0
    }
}

/// The categorical errors every pool operation can return.
#[derive(Debug, Clone, Copy, PartialEq, Eq, Structural)]
pub enum PoolError {
    PoolAlreadyStarted,
    PoolAlreadyEnded,
    PoolNotStarted,
    TooManyTeams,
    BelowMinimumTeams,
    TeamNotFound,
    MatchNotFound,
    TeamNotRival,
    CapacityExceeded,
    WinnerAlreadySet,
    /// A broken internal invariant surfaced as a recoverable error rather
    /// than a process abort.
    InternalInconsistency,
}

/// Observer events, recorded in order in the pool's event log.  A host
/// drains the log and dispatches to any number of subscribers.
#[derive(Debug, PartialEq, Eq)]
pub enum PoolEvent {
    /// A team's roster reached its capacity.
    TeamCompleted(String),
    /// A match was created; carries the match id.
    MatchScheduled(usize),
    /// All matches of a freshly generated stage, in creation order.
    StageScheduled(Vec<usize>),
    /// The pool reached its terminal state.
    PoolEnded,
}

/// The orchestrator: owns all teams and matches, tracks the stage counter
/// and lifecycle flags, and records observer events.
#[derive(Debug)]
pub struct Pool {
    pub settings: PoolSettings,
    /// All registered teams before the start; the surviving complete teams
    /// afterwards.
    pub teams: Vec<Team>,
    /// Append-only log of every match ever created, across all stages; a
    /// match's id is its index here.
    pub matches: Vec<PoolMatch>,
    /// Current round counter, starts at 1, never decreases.
    pub stage: u32,
    pub is_started: bool,
    pub is_ended: bool,
    /// Set exactly once, when the pool ends.
    pub winner_team_id: Option<String>,
    /// Observer events in the order they fired.
    pub events: Vec<PoolEvent>,
}

/// The ids of a sequence of teams, as views.
pub open spec fn id_views(teams: Seq<Team>) -> Seq<Seq<char>> {
    teams.map_values(|t: Team| t.id@)
}

/// The views of a sequence of strings.
pub open spec fn str_views(ss: Seq<String>) -> Seq<Seq<char>> {
    ss.map_values(|s: String| s@)
}

/// The views of a sequence of string groups.
pub open spec fn grp_views(gs: Seq<Vec<String>>) -> Seq<Seq<Seq<char>>> {
    gs.map_values(|v: Vec<String>| str_views(v@))
}

/// How many matches of the log belong to stage `s`.
pub open spec fn count_at(ms: Seq<PoolMatch>, s: u32) -> nat
    decreases ms.len(),
{
    if ms.len() == 0 {
        0
    } else {
        count_at(ms.drop_last(), s) + if ms.last().stage == s {
            1nat
        } else {
            0nat
        }
    }
}

/// Every match of stage `s` carries a recorded winner.
pub open spec fn stage_resolved(ms: Seq<PoolMatch>, s: u32) -> bool {
    forall|i: int| 0 <= i < ms.len() && (#[trigger] ms[i]).stage == s ==> ms[i].resolved()
}

/// The winner ids of the matches of stage `s`, in match order.  Only
/// meaningful once the stage is resolved; an unresolved match contributes
/// nothing.
pub open spec fn winners_at(ms: Seq<PoolMatch>, s: u32) -> Seq<Seq<char>>
    decreases ms.len(),
{
    if ms.len() == 0 {
        Seq::empty()
    } else {
        winners_at(ms.drop_last(), s) + if ms.last().stage == s {
            match ms.last().winner {
                Some(w) => seq![w@],
                None => Seq::empty(),
            }
        } else {
            Seq::empty()
        }
    }
}

/// A match at index `i` of stage `s` makes the stage's match count positive.
pub proof fn lemma_count_at_pos(ms: Seq<PoolMatch>, s: u32, i: int)
    requires
        0 <= i < ms.len(),
        ms[i].stage == s,
    ensures
        count_at(ms, s) >= 1,
    decreases ms.len(),
{
    if i == ms.len() - 1 {
    } else {
        lemma_count_at_pos(ms.drop_last(), s, i);
    }
}

/// Once a stage is resolved it contributes exactly one winner per match.
pub proof fn lemma_winners_at_len(ms: Seq<PoolMatch>, s: u32)
    requires
        stage_resolved(ms, s),
    ensures
        winners_at(ms, s).len() == count_at(ms, s),
    decreases ms.len(),
{
    if ms.len() == 0 {
    } else {
        assert(forall|i: int|
            0 <= i < ms.drop_last().len() ==> ms.drop_last()[i] == ms[i]);
        lemma_winners_at_len(ms.drop_last(), s);
    }
}

/// Every collected winner id is the recorded winner of some match of the
/// stage.
pub proof fn lemma_winners_at_from(ms: Seq<PoolMatch>, s: u32)
    ensures
        forall|k: int|
            0 <= k < winners_at(ms, s).len() ==> exists|i: int|
                0 <= i < ms.len() && ms[i].stage == s && (ms[i].winner matches Some(w) && w@
                    == #[trigger] winners_at(ms, s)[k]),
    decreases ms.len(),
{
    if ms.len() == 0 {
    } else {
        lemma_winners_at_from(ms.drop_last(), s);
        let prev = winners_at(ms.drop_last(), s);
        assert(forall|i: int|
            0 <= i < ms.drop_last().len() ==> ms.drop_last()[i] == ms[i]);
        assert forall|k: int| 0 <= k < winners_at(ms, s).len() implies exists|i: int|
            0 <= i < ms.len() && ms[i].stage == s && (ms[i].winner matches Some(w) && w@
                == #[trigger] winners_at(ms, s)[k]) by {
            if k < prev.len() {
                assert(winners_at(ms, s)[k] == prev[k]);
                let i = choose|i: int|
                    0 <= i < ms.drop_last().len() && ms.drop_last()[i].stage == s && (
                    ms.drop_last()[i].winner matches Some(w) && w@ == prev[k]);
                assert(0 <= i < ms.len() && ms[i].stage == s && (ms[i].winner matches Some(w)
                    && w@ == winners_at(ms, s)[k]));
            } else {
                assert(ms.last() == ms[ms.len() - 1]);
            }
        }
    }
}

/// A bye match as generation creates it: one rival, already resolved in the
/// rival's favour.
pub open spec fn bye_shape(m: PoolMatch, id: int, s: u32, rid: Seq<char>) -> bool {
    &&& m.id == id
    &&& m.stage == s
    &&& m.rivals@.len() == 1
    &&& m.rivals@[0]@ == rid
    &&& (m.winner matches Some(w) && w@ == rid)
}

/// A regular match as generation creates it: the group's team ids in order,
/// no winner yet.
pub open spec fn group_shape(m: PoolMatch, id: int, s: u32, g: Seq<Seq<char>>) -> bool {
    &&& m.id == id
    &&& m.stage == s
    &&& str_views(m.rivals@) == g
    &&& m.winner is None
}

/// How one round of bracket generation extends the match and event logs:
/// the old entries stay put; then come the byes for the leftover teams, one
/// auto-resolved match each, then one match per group; a `MatchScheduled`
/// event fires per new match in order, closed by a single `StageScheduled`
/// carrying the new match ids.
pub open spec fn bracket_extension(
    pre_m: Seq<PoolMatch>,
    post_m: Seq<PoolMatch>,
    pre_e: Seq<PoolEvent>,
    post_e: Seq<PoolEvent>,
    u: Seq<Seq<char>>,
    s: u32,
    min: nat,
    max: nat,
) -> bool {
    let gs = groups_of(u, min, max);
    let lo = leftover_of(u, min, max);
    let b = pre_m.len() as int;
    let e = pre_e.len() as int;
    let n = lo.len() + gs.len();
    &&& post_m.len() == b + n
    &&& (forall|i: int| 0 <= i < b ==> post_m[i] == pre_m[i])
    &&& (forall|k: int|
        0 <= k < lo.len() ==> bye_shape(#[trigger] post_m[b + k], b + k, s, lo[k]))
    &&& (forall|k: int|
        0 <= k < gs.len() ==> group_shape(
            #[trigger] post_m[b + lo.len() + k],
            b + lo.len() + k,
            s,
            gs[k],
        ))
    &&& post_e.len() == e + n + 1
    &&& (forall|i: int| 0 <= i < e ==> post_e[i] == pre_e[i])
    &&& (forall|j: int|
        0 <= j < n ==> #[trigger] post_e[e + j] == PoolEvent::MatchScheduled((b + j) as usize))
    &&& (post_e[e + n] matches PoolEvent::StageScheduled(ids) && ids@.len() == n && (forall|k: int|
        0 <= k < n ==> #[trigger] ids@[k] == (b + k) as usize))
}

/// A match with the same rivals and a winner recorded.
pub open spec fn with_winner(m: PoolMatch, w: String) -> PoolMatch {
    PoolMatch { winner: Some(w), ..m }
}

/// A team with its rounds-won counter advanced; the counter stops at the
/// numeric limit rather than wrapping.
pub open spec fn advanced(t: Team) -> Team {
    Team {
        stage: if t.stage < u32::MAX {
            (t.stage + 1) as u32
        } else {
            t.stage
        },
        ..t
    }
}

/// Replacing a match by one of the same stage leaves every stage's match
/// count unchanged.
pub proof fn lemma_count_at_update(ms: Seq<PoolMatch>, i: int, m: PoolMatch, s: u32)
    requires
        0 <= i < ms.len(),
        m.stage == ms[i].stage,
    ensures
        count_at(ms.update(i, m), s) == count_at(ms, s),
    decreases ms.len(),
{
    let ms2 = ms.update(i, m);
    if i == ms.len() - 1 {
        assert(ms2.drop_last() =~= ms.drop_last());
        assert(ms2.last() == m);
    } else {
        assert(ms2.drop_last() =~= ms.drop_last().update(i, m));
        lemma_count_at_update(ms.drop_last(), i, m, s);
        assert(ms2.last() == ms.last());
    }
}

/// A stage with at most one match admits only one index holding a match of
/// that stage.
pub proof fn lemma_count_at_unique(ms: Seq<PoolMatch>, s: u32, i: int, j: int)
    requires
        0 <= i < ms.len(),
        0 <= j < ms.len(),
        ms[i].stage == s,
        ms[j].stage == s,
        count_at(ms, s) <= 1,
    ensures
        i == j,
    decreases ms.len(),
{
    if i != j {
        if i < ms.len() - 1 && j < ms.len() - 1 {
            lemma_count_at_unique(ms.drop_last(), s, i, j);
        } else if i == ms.len() - 1 {
            lemma_count_at_pos(ms.drop_last(), s, j);
        } else {
            lemma_count_at_pos(ms.drop_last(), s, i);
        }
    }
}

/// The teams that survive the start: the complete ones, in registration
/// order.
pub open spec fn retained(teams: Seq<Team>) -> Seq<Team>
    decreases teams.len(),
{
    if teams.len() == 0 {
        Seq::empty()
    } else {
        retained(teams.drop_last()) + if teams.last().spec_is_complete() {
            seq![teams.last()]
        } else {
            Seq::empty()
        }
    }
}

/// The retained teams are complete teams drawn from the input, and there
/// are no more of them than there were teams.
pub proof fn lemma_retained(teams: Seq<Team>)
    ensures
        retained(teams).len() <= teams.len(),
        forall|i: int|
            0 <= i < retained(teams).len() ==> (#[trigger] retained(
                teams,
            )[i]).spec_is_complete(),
        forall|i: int|
            0 <= i < retained(teams).len() ==> teams.contains(#[trigger] retained(teams)[i]),
    decreases teams.len(),
{
    if teams.len() == 0 {
    } else {
        lemma_retained(teams.drop_last());
        let rt = retained(teams);
        let prev = retained(teams.drop_last());
        assert forall|i: int| 0 <= i < rt.len() implies teams.contains(#[trigger] rt[i]) by {
            if i < prev.len() {
                assert(rt[i] == prev[i]);
                let x = choose|x: int|
                    0 <= x < teams.drop_last().len() && teams.drop_last()[x] == prev[i];
                assert(teams[x] == rt[i]);
            } else {
                assert(rt[i] == teams.last());
                assert(teams[teams.len() - 1] == rt[i]);
            }
        }
    }
}

/// The index of the first team whose id has view `id`, or -1 if none has.
pub open spec fn team_index(teams: Seq<Team>, id: Seq<char>) -> int
    decreases teams.len(),
{
    if teams.len() == 0 {
        -1
    } else if teams[0].id@ == id {
        0
    } else {
        let r = team_index(teams.drop_first(), id);
        if r < 0 {
            -1
        } else {
            r + 1
        }
    }
}

/// `team_index` returns the first matching index, and -1 exactly when no
/// team has the id.
pub proof fn lemma_team_index(teams: Seq<Team>, id: Seq<char>)
    ensures
        team_index(teams, id) >= 0 <==> exists|t: int|
            0 <= t < teams.len() && (#[trigger] teams[t]).id@ == id,
        team_index(teams, id) >= 0 ==> {
            let ti = team_index(teams, id);
            &&& 0 <= ti < teams.len()
            &&& teams[ti].id@ == id
            &&& forall|j: int| 0 <= j < ti ==> (#[trigger] teams[j]).id@ != id
        },
    decreases teams.len(),
{
    if teams.len() == 0 {
    } else if teams[0].id@ == id {
    } else {
        lemma_team_index(teams.drop_first(), id);
        let rest = teams.drop_first();
        assert(forall|j: int| 0 <= j < rest.len() ==> rest[j] == teams[j + 1]);
        let r = team_index(rest, id);
        if r >= 0 {
            assert(teams[r + 1].id@ == id);
            assert forall|j: int| 0 <= j < r + 1 implies (#[trigger] teams[j]).id@ != id by {
                if j >= 1 {
                    assert(rest[j - 1] == teams[j]);
                }
            }
        } else {
            assert forall|t: int| 0 <= t < teams.len() implies (#[trigger] teams[t]).id@ != id by {
                if t >= 1 {
                    assert(rest[t - 1] == teams[t]);
                }
            }
        }
    }
}

/// Observational equality of two pool states: same configuration, teams,
/// matches, stage, lifecycle flags, winner and event log.
pub open spec fn same_state(a: Pool, b: Pool) -> bool {
    &&& a.settings == b.settings
    &&& a.teams@ == b.teams@
    &&& a.matches@ == b.matches@
    &&& a.stage == b.stage
    &&& a.is_started == b.is_started
    &&& a.is_ended == b.is_ended
    &&& a.winner_team_id == b.winner_team_id
    &&& a.events@ == b.events@
}

impl Pool {
    /// Whether some team has the given id.
    pub open spec fn has_team_id(self, id: Seq<char>) -> bool {
        exists|t: int| 0 <= t < self.teams@.len() && (#[trigger] self.teams@[t]).id@ == id
    }

    /// Structural well-formedness of the match at index `i`: the match is
    /// internally consistent, its id is its index, its stage is within the
    /// pool's, byes are auto-resolved in favour of their sole rival, regular
    /// matches respect the configured size bounds, matches of past stages
    /// are resolved, and every rival names a registered team.
    pub open spec fn match_wf(self, i: int) -> bool {
        let m = self.matches@[i];
        &&& m.wf()
        &&& m.id == i
        &&& 1 <= m.stage <= self.stage
        &&& (m.is_bye() ==> (m.winner matches Some(w) && w@ == m.rivals@[0]@))
        &&& (!m.is_bye() ==> self.settings.teams_in_match.0 <= m.rivals@.len()
            <= self.settings.teams_in_match.1)
        &&& (m.stage < self.stage ==> m.resolved())
        &&& forall|j: int| 0 <= j < m.rivals@.len() ==> self.has_team_id(#[trigger] m.rivals@[j]@)
    }

    /// The structural part of the pool invariant, independent of the
    /// lifecycle flags.
    pub open spec fn wf_core(self) -> bool {
        &&& self.settings.wf()
        &&& self.stage >= 1
        &&& self.teams@.len() <= self.settings.teams_in_pool.1
        &&& forall|i: int| 0 <= i < self.teams@.len() ==> (#[trigger] self.teams@[i]).wf()
        &&& forall|i: int| 0 <= i < self.matches@.len() ==> self.match_wf(i)
    }

    /// The full pool invariant: established by `new` and preserved by every
    /// operation.
    pub open spec fn wf(self) -> bool {
        &&& self.wf_core()
        &&& !self.is_started ==> self.matches@.len() == 0 && self.stage == 1 && !self.is_ended
        &&& self.is_started ==> count_at(self.matches@, self.stage) >= 1
        &&& self.is_ended ==> self.is_started
        &&& (self.winner_team_id is Some) <==> self.is_ended
    }

    /// The most recent stage all of whose matches are resolved: the current
    /// stage if it is fully resolved, the previous one otherwise.
    pub open spec fn spec_last_ended_stage(self) -> u32 {
        if stage_resolved(self.matches@, self.stage) {
            self.stage
        } else {
            (self.stage - 1) as u32
        }
    }

    pub fn new(settings: PoolSettings) -> (p: Pool)
        requires
            settings.wf(),
        ensures
            p.wf(),
            p.settings == settings,
            p.teams@.len() == 0,
            p.matches@.len() == 0,
            p.stage == 1,
            !p.is_started,
            !p.is_ended,
            p.winner_team_id is None,
            p.events@.len() == 0,
    {
        Pool {
            settings,
            teams: Vec::new(),
            matches: Vec::new(),
            stage: 1,
            is_started: false,
            is_ended: false,
            winner_team_id: None,
            events: Vec::new(),
        }
    }

    /// The winner's team id once the pool has ended, `None` before.
    pub fn get_winner_id(&self) -> (r: Option<String>)
        ensures
            r == self.winner_team_id,
    {
        match &self.winner_team_id {
            Some(winner_id) => Some(winner_id.clone()),
            None => None,
        }
    }

    /// Registers a new team with an empty roster.  Fails with
    /// `PoolAlreadyStarted` once the pool left the forming phase and with
    /// `TooManyTeams` once the configured maximum is reached.
    pub fn add_team(&mut self, team_id: String) -> (r: Result<(), PoolError>)
        requires
            old(self).wf(),
        ensures
            final(self).wf(),
            old(self).is_started ==> r == Err::<(), PoolError>(PoolError::PoolAlreadyStarted)
                && same_state(*final(self), *old(self)),
            !old(self).is_started && old(self).teams@.len() == old(self).settings.teams_in_pool.1
                ==> r == Err::<(), PoolError>(PoolError::TooManyTeams) && same_state(
                *final(self),
                *old(self),
            ),
            !old(self).is_started && old(self).teams@.len() != old(self).settings.teams_in_pool.1
                ==> {
                &&& r is Ok
                &&& final(self).teams@.len() == old(self).teams@.len() + 1
                &&& final(self).teams@ =~= old(self).teams@.push(final(self).teams@.last())
                &&& final(self).teams@.last().id == team_id
                &&& final(self).teams@.last().stage == 1
                &&& final(self).teams@.last().players_in_team == old(
                    self,
                ).settings.players_in_team
                &&& final(self).teams@.last().users@.len() == 0
                &&& final(self).matches == old(self).matches
                &&& final(self).settings == old(self).settings
                &&& final(self).stage == old(self).stage
                &&& final(self).is_started == old(self).is_started
                &&& final(self).is_ended == old(self).is_ended
                &&& final(self).winner_team_id == old(self).winner_team_id
                &&& final(self).events == old(self).events
            },
    {
        if self.is_started {
            return Err(PoolError::PoolAlreadyStarted);
        }
        if self.teams.len() == self.settings.teams_in_pool.1 as usize {
            return Err(PoolError::TooManyTeams);
        }
        let team = Team::new(team_id, self.settings.players_in_team);
        self.teams.push(team);
        Ok(())
    }

    /// Looks a team up by id; the first team registered under the id wins.
    pub fn get_team_by_id(&self, team_id: String) -> (r: Result<&Team, PoolError>)
        ensures
            team_index(self.teams@, team_id@) >= 0 ==> (r matches Ok(t) && *t == self.teams@[
                team_index(self.teams@, team_id@)
            ]),
            team_index(self.teams@, team_id@) < 0 ==> (r matches Err(e) && e
                == PoolError::TeamNotFound),
    {
        let n = self.teams.len();
        let mut i: usize = 0;
        while i < n
            invariant
                n == self.teams@.len(),
                0 <= i <= n,
                forall|j: int| 0 <= j < i ==> (#[trigger] self.teams@[j]).id@ != team_id@,
            decreases n - i,
        {
            if self.teams[i].id == team_id {
                proof {
                    lemma_team_index(self.teams@, team_id@);
                }
                return Ok(&self.teams[i]);
            }
            i = i + 1;
        }
        proof {
            lemma_team_index(self.teams@, team_id@);
        }
        Err(PoolError::TeamNotFound)
    }

    /// Looks a match up by its synthesized id.
    pub fn get_match_by_id(&self, match_id: usize) -> (r: Result<&PoolMatch, PoolError>)
        requires
            self.wf(),
        ensures
            match_id < self.matches@.len() ==> (r matches Ok(m) && *m == self.matches@[
                match_id as int
            ]),
            match_id >= self.matches@.len() ==> (r matches Err(e) && e
                == PoolError::MatchNotFound),
    {
        if match_id < self.matches.len() {
            Ok(&self.matches[match_id])
        } else {
            Err(PoolError::MatchNotFound)
        }
    }

    /// Partitions the unmatched-team list into match-sized groups, front to
    /// back: repeatedly slices off `min(teams_in_match.max, remaining)`
    /// teams while at least `teams_in_match.min` remain.  Returns the
    /// ungrouped trailing teams together with the groups, appended to the
    /// groups passed in.
    pub fn teams_splice(&self, data: (Vec<String>, Vec<Vec<String>>)) -> (r: (
        Vec<String>,
        Vec<Vec<String>>,
    ))
        requires
            self.settings.wf(),
        ensures
            str_views(r.0@) == leftover_of(
                str_views(data.0@),
                self.settings.teams_in_match.0 as nat,
                self.settings.teams_in_match.1 as nat,
            ),
            grp_views(r.1@) == grp_views(data.1@) + groups_of(
                str_views(data.0@),
                self.settings.teams_in_match.0 as nat,
                self.settings.teams_in_match.1 as nat,
            ),
    {
        let ghost min = self.settings.teams_in_match.0 as nat;
        let ghost max = self.settings.teams_in_match.1 as nat;
        let min_len = self.settings.teams_in_match.0 as usize;
        let max_len = self.settings.teams_in_match.1 as usize;
        let (mut rest, mut groups) = data;
        while rest.len() >= min_len
            invariant
                min_len == min,
                max_len == max,
                1 <= min <= max,
                grp_views(groups@) + groups_of(str_views(rest@), min, max) == grp_views(data.1@)
                    + groups_of(str_views(data.0@), min, max),
                leftover_of(str_views(rest@), min, max) == leftover_of(
                    str_views(data.0@),
                    min,
                    max,
                ),
            decreases rest.len(),
        {
            let c = if max_len <= rest.len() {
                max_len
            } else {
                rest.len()
            };
            proof {
                assert(str_views(rest@).len() == rest@.len());
                assert(c as int == chunk_of(str_views(rest@).len(), max));
            }
            let ghost sv = str_views(rest@);
            let tail = rest.split_off(c);
            proof {
                assert(str_views(rest@) =~= sv.take(c as int));
                assert(str_views(tail@) =~= sv.skip(c as int));
                assert(groups_of(sv, min, max) == seq![sv.take(c as int)] + groups_of(
                    sv.skip(c as int),
                    min,
                    max,
                ));
                assert(leftover_of(sv, min, max) == leftover_of(sv.skip(c as int), min, max));
            }
            let ghost old_groups = groups@;
            groups.push(rest);
            proof {
                assert(grp_views(groups@) =~= grp_views(old_groups).push(sv.take(c as int)));
                assert(grp_views(old_groups).push(sv.take(c as int)) + groups_of(
                    sv.skip(c as int),
                    min,
                    max,
                ) =~= grp_views(old_groups) + groups_of(sv, min, max));
            }
            rest = tail;
        }
        (rest, groups)
    }

    /// The most recent fully-resolved stage; see `spec_last_ended_stage`.
    pub fn get_last_ended_stage(&self) -> (r: u32)
        requires
            self.wf(),
        ensures
            r == self.spec_last_ended_stage(),
    {
        let n = self.matches.len();
        let mut i: usize = 0;
        let mut all_resolved = true;
        while i < n
            invariant
                n == self.matches@.len(),
                0 <= i <= n,
                all_resolved ==> forall|j: int|
                    0 <= j < i && (#[trigger] self.matches@[j]).stage == self.stage
                        ==> self.matches@[j].resolved(),
                !all_resolved ==> exists|j: int|
                    0 <= j < i && (#[trigger] self.matches@[j]).stage == self.stage
                        && !self.matches@[j].resolved(),
            decreases n - i,
        {
            if self.matches[i].stage == self.stage && self.matches[i].winner.is_none() {
                all_resolved = false;
            }
            i = i + 1;
        }
        if all_resolved {
            self.stage
        } else {
            self.stage - 1
        }
    }

    /// Adds a member to the team registered under `team_id`, delegating the
    /// capacity check to the team; if the roster becomes complete as a
    /// result, a `TeamCompleted` event fires.
    pub fn add_user_to_team(&mut self, team_id: String, user_id: String) -> (r: Result<
        (),
        PoolError,
    >)
        requires
            old(self).wf(),
        ensures
            final(self).wf(),
            old(self).is_started ==> r == Err::<(), PoolError>(PoolError::PoolAlreadyStarted)
                && same_state(*final(self), *old(self)),
            !old(self).is_started && team_index(old(self).teams@, team_id@) < 0 ==> r
                == Err::<(), PoolError>(PoolError::TeamNotFound) && same_state(
                *final(self),
                *old(self),
            ),
            !old(self).is_started && team_index(old(self).teams@, team_id@) >= 0 && old(
                self,
            ).teams@[team_index(old(self).teams@, team_id@)].spec_is_complete() ==> r
                == Err::<(), PoolError>(PoolError::CapacityExceeded) && same_state(
                *final(self),
                *old(self),
            ),
            !old(self).is_started && team_index(old(self).teams@, team_id@) >= 0 && !old(
                self,
            ).teams@[team_index(old(self).teams@, team_id@)].spec_is_complete() ==> {
                let ti = team_index(old(self).teams@, team_id@);
                let t0 = old(self).teams@[ti];
                let t1 = final(self).teams@[ti];
                &&& r is Ok
                &&& final(self).teams@ =~= old(self).teams@.update(ti, t1)
                &&& t1.id == t0.id
                &&& t1.stage == t0.stage
                &&& t1.players_in_team == t0.players_in_team
                &&& t1.users@ == t0.users@.push(user_id)
                &&& (t1.spec_is_complete() ==> final(self).events@ =~= old(self).events@.push(
                    PoolEvent::TeamCompleted(team_id),
                ))
                &&& (!t1.spec_is_complete() ==> final(self).events == old(self).events)
                &&& final(self).matches == old(self).matches
                &&& final(self).settings == old(self).settings
                &&& final(self).stage == old(self).stage
                &&& final(self).is_started == old(self).is_started
                &&& final(self).is_ended == old(self).is_ended
                &&& final(self).winner_team_id == old(self).winner_team_id
            },
    {
        if self.is_started {
            return Err(PoolError::PoolAlreadyStarted);
        }
        let n = self.teams.len();
        let mut i: usize = 0;
        while i < n
            invariant
                *self == *old(self),
                old(self).wf(),
                !old(self).is_started,
                n == self.teams@.len(),
                0 <= i <= n,
                forall|j: int| 0 <= j < i ==> (#[trigger] self.teams@[j]).id@ != team_id@,
            decreases n - i,
        {
            if self.teams[i].id == team_id {
                proof {
                    lemma_team_index(self.teams@, team_id@);
                }
                let mut t = self.teams.remove(i);
                let added = t.add_user(user_id);
                self.teams.insert(i, t);
                proof {
                    assert(self.teams@ =~= old(self).teams@.update(i as int, self.teams@[i as int]));
                }
                match added {
                    Err(e) => {
                        proof {
                            assert(self.teams@ =~= old(self).teams@);
                        }
                        return Err(e);
                    },
                    Ok(()) => {
                        let complete = self.teams[i].is_complete();
                        if complete {
                            self.events.push(PoolEvent::TeamCompleted(team_id));
                        }
                        return Ok(());
                    },
                }
            }
            i = i + 1;
        }
        proof {
            lemma_team_index(self.teams@, team_id@);
        }
        Err(PoolError::TeamNotFound)
    }

    /// Collects the winners of every match of the current stage, in match
    /// order, for the next round's bracket.  A match without a winner is a
    /// broken invariant, reported as `InternalInconsistency`.
    fn get_unmatched_teams(&self) -> (r: Result<Vec<String>, PoolError>)
        ensures
            stage_resolved(self.matches@, self.stage) ==> (r matches Ok(u) && str_views(u@)
                == winners_at(self.matches@, self.stage)),
            !stage_resolved(self.matches@, self.stage) ==> r == Err::<Vec<String>, PoolError>(
                PoolError::InternalInconsistency,
            ),
    {
        let n = self.matches.len();
        let mut unmatched: Vec<String> = Vec::new();
        let mut i: usize = 0;
        while i < n
            invariant
                n == self.matches@.len(),
                0 <= i <= n,
                str_views(unmatched@) =~= winners_at(self.matches@.take(i as int), self.stage),
                forall|j: int|
                    0 <= j < i && (#[trigger] self.matches@[j]).stage == self.stage
                        ==> self.matches@[j].resolved(),
            decreases n - i,
        {
            let ghost prefix = self.matches@.take(i as int);
            proof {
                assert(self.matches@.take(i + 1).drop_last() =~= prefix);
                assert(self.matches@.take(i + 1).last() == self.matches@[i as int]);
            }
            if self.matches[i].stage == self.stage {
                match &self.matches[i].winner {
                    Some(w) => {
                        let ghost before = unmatched@;
                        unmatched.push(w.clone());
                        proof {
                            assert(str_views(unmatched@) =~= str_views(before).push(w@));
                            assert(str_views(unmatched@) =~= winners_at(
                                self.matches@.take(i + 1),
                                self.stage,
                            ));
                        }
                    },
                    None => {
                        return Err(PoolError::InternalInconsistency);
                    },
                }
            } else {
                proof {
                    assert(str_views(unmatched@) =~= winners_at(
                        self.matches@.take(i + 1),
                        self.stage,
                    ));
                }
            }
            i = i + 1;
        }
        proof {
            assert(self.matches@.take(n as int) =~= self.matches@);
        }
        Ok(unmatched)
    }

    /// The sole surviving team's id, once the current stage is fully
    /// resolved and consists of exactly one match; `None` while the
    /// tournament is still in progress.
    fn check_winner(&self) -> (r: Option<String>)
        requires
            self.wf(),
        ensures
            (r is Some) <==> (self.is_started && stage_resolved(self.matches@, self.stage)
                && count_at(self.matches@, self.stage) == 1),
            r matches Some(w) ==> exists|i: int|
                0 <= i < self.matches@.len() && (#[trigger] self.matches@[i]).stage == self.stage
                    && self.matches@[i].winner == Some(w),
    {
        if !self.is_started {
            return None;
        }
        let last_stage = self.get_last_ended_stage();
        if last_stage != self.stage {
            return None;
        }
        let n = self.matches.len();
        let mut cnt: usize = 0;
        let mut idx: usize = 0;
        let mut i: usize = 0;
        while i < n
            invariant
                n == self.matches@.len(),
                0 <= i <= n,
                cnt <= i,
                cnt == count_at(self.matches@.take(i as int), self.stage),
                cnt >= 1 ==> idx < i && self.matches@[idx as int].stage == self.stage,
            decreases n - i,
        {
            proof {
                assert(self.matches@.take(i + 1).drop_last() =~= self.matches@.take(i as int));
                assert(self.matches@.take(i + 1).last() == self.matches@[i as int]);
            }
            if self.matches[i].stage == self.stage {
                cnt = cnt + 1;
                idx = i;
            }
            i = i + 1;
        }
        proof {
            assert(self.matches@.take(n as int) =~= self.matches@);
        }
        if cnt != 1 {
            return None;
        }
        match &self.matches[idx].winner {
            Some(w) => Some(w.clone()),
            None => None,
        }
    }

    /// The teams the next round is built from: all teams while no match
    /// exists yet, the current stage's winners afterwards.
    pub open spec fn next_unmatched(self) -> Seq<Seq<char>> {
        if self.matches@.len() == 0 {
            id_views(self.teams@)
        } else {
            winners_at(self.matches@, self.stage)
        }
    }

    /// The stage the next generated round belongs to.
    pub open spec fn next_gen_stage(self) -> u32 {
        if self.matches@.len() == 0 {
            self.stage
        } else {
            (self.stage + 1) as u32
        }
    }

    /// Appends a freshly created match to the log and fires its
    /// `MatchScheduled` event.  Byes arrive already resolved in favour of
    /// their sole rival; regular matches arrive unresolved and within the
    /// configured size bounds.
    fn make_match(&mut self, stage: u32, rivals: Vec<String>, winner: Option<String>) -> (id:
        usize)
        requires
            old(self).wf_core(),
            stage == old(self).stage,
            rivals@.len() >= 1,
            rivals@.len() == 1 ==> (winner matches Some(w) && w@ == rivals@[0]@),
            rivals@.len() >= 2 ==> winner is None && old(self).settings.teams_in_match.0
                <= rivals@.len() <= old(self).settings.teams_in_match.1,
            forall|j: int| 0 <= j < rivals@.len() ==> old(self).has_team_id(#[trigger] rivals@[j]@),
        ensures
            final(self).wf_core(),
            id == old(self).matches@.len(),
            final(self).matches@.len() == old(self).matches@.len() + 1,
            forall|i: int|
                0 <= i < old(self).matches@.len() ==> #[trigger] final(self).matches@[i] == old(
                    self,
                ).matches@[i],
            final(self).matches@.last().id == id,
            final(self).matches@.last().stage == stage,
            final(self).matches@.last().rivals == rivals,
            final(self).matches@.last().winner == winner,
            final(self).events@ =~= old(self).events@.push(PoolEvent::MatchScheduled(id)),
            final(self).teams == old(self).teams,
            final(self).settings == old(self).settings,
            final(self).stage == old(self).stage,
            final(self).is_started == old(self).is_started,
            final(self).is_ended == old(self).is_ended,
            final(self).winner_team_id == old(self).winner_team_id,
    {
        let id = self.matches.len();
        let m = PoolMatch { id, stage, rivals, winner };
        self.matches.push(m);
        self.events.push(PoolEvent::MatchScheduled(id));
        proof {
            assert forall|i: int| 0 <= i < self.matches@.len() implies self.match_wf(i) by {
                let mm = self.matches@[i];
                if i < old(self).matches@.len() {
                    assert(old(self).match_wf(i));
                    assert(mm == old(self).matches@[i]);
                } else {
                    assert(mm == self.matches@.last());
                    if mm.rivals@.len() == 1 {
                        assert(mm.rivals@[0]@ == rivals@[0]@);
                    }
                }
                assert forall|j: int| 0 <= j < mm.rivals@.len() implies self.has_team_id(
                    #[trigger] mm.rivals@[j]@,
                ) by {
                    assert(old(self).has_team_id(mm.rivals@[j]@));
                    let t = choose|t: int|
                        0 <= t < old(self).teams@.len() && (#[trigger] old(self).teams@[t]).id@
                            == mm.rivals@[j]@;
                    assert(self.teams@[t].id@ == mm.rivals@[j]@);
                }
            }
        }
        id
    }

    /// Generates the matches of one stage: partitions the unmatched teams
    /// (all teams for the first round, the current stage's winners - with
    /// the stage counter advanced - afterwards) into groups and byes,
    /// appends the new matches and fires the scheduling events.
    fn make_matches(&mut self) -> (r: Result<(), PoolError>)
        requires
            old(self).wf_core(),
            old(self).matches@.len() == 0 ==> old(self).teams@.len() >= 1,
            old(self).matches@.len() > 0 ==> stage_resolved(old(self).matches@, old(self).stage)
                && count_at(old(self).matches@, old(self).stage) >= 1 && old(self).stage
                < u32::MAX,
        ensures
            final(self).wf_core(),
            r is Ok,
            final(self).stage == old(self).next_gen_stage(),
            bracket_extension(
                old(self).matches@,
                final(self).matches@,
                old(self).events@,
                final(self).events@,
                old(self).next_unmatched(),
                old(self).next_gen_stage(),
                old(self).settings.teams_in_match.0 as nat,
                old(self).settings.teams_in_match.1 as nat,
            ),
            count_at(final(self).matches@, final(self).stage) >= 1,
            final(self).teams == old(self).teams,
            final(self).settings == old(self).settings,
            final(self).is_started == old(self).is_started,
            final(self).is_ended == old(self).is_ended,
            final(self).winner_team_id == old(self).winner_team_id,
    {
        let ghost u = old(self).next_unmatched();
        let ghost s_new = old(self).next_gen_stage();
        let ghost min = old(self).settings.teams_in_match.0 as nat;
        let ghost max = old(self).settings.teams_in_match.1 as nat;

        let mut unmatched: Vec<String> = Vec::new();
        if self.matches.len() == 0 {
            let tn = self.teams.len();
            let mut i: usize = 0;
            while i < tn
                invariant
                    *self == *old(self),
                    tn == self.teams@.len(),
                    0 <= i <= tn,
                    unmatched@.len() == i,
                    forall|x: int|
                        0 <= x < i ==> (#[trigger] unmatched@[x])@ == self.teams@[x].id@,
                decreases tn - i,
            {
                unmatched.push(self.teams[i].id.clone());
                i = i + 1;
            }
            proof {
                assert(str_views(unmatched@) =~= id_views(self.teams@));
            }
        } else {
            unmatched = match self.get_unmatched_teams() {
                Ok(winners) => winners,
                Err(e) => {
                    return Err(e);
                },
            };
            self.stage = self.stage + 1;
            proof {
                assert forall|i: int| 0 <= i < self.matches@.len() implies self.match_wf(i) by {
                    assert(old(self).match_wf(i));
                    let m = self.matches@[i];
                    assert(m == old(self).matches@[i]);
                    if m.stage == old(self).stage {
                        assert(m.resolved());
                    }
                    assert forall|j: int| 0 <= j < m.rivals@.len() implies self.has_team_id(
                        #[trigger] m.rivals@[j]@,
                    ) by {
                        assert(old(self).has_team_id(m.rivals@[j]@));
                        let t = choose|t: int|
                            0 <= t < old(self).teams@.len() && (#[trigger] old(
                                self,
                            ).teams@[t]).id@ == m.rivals@[j]@;
                        assert(self.teams@[t].id@ == m.rivals@[j]@);
                    }
                }
            }
        }
        proof {
            assert(str_views(unmatched@) =~= u);
            lemma_bracket_parts(u, min, max);
            lemma_next_unmatched_teams(*old(self));
        }
        let ghost lo = leftover_of(u, min, max);
        let ghost gs = groups_of(u, min, max);
        let (leftover, mut groups) = self.teams_splice((unmatched, Vec::new()));
        proof {
            assert(grp_views(groups@) =~= gs);
            assert(str_views(leftover@).len() == leftover@.len());
        }
        let ghost mid = *self;
        let ghost b = self.matches@.len() as int;
        let ghost e0 = self.events@.len() as int;

        let mut created: Vec<usize> = Vec::new();
        let lon = leftover.len();
        let mut k: usize = 0;
        while k < lon
            invariant
                self.wf_core(),
                self.settings == mid.settings,
                self.teams == mid.teams,
                self.stage == mid.stage,
                self.is_started == mid.is_started,
                self.is_ended == mid.is_ended,
                self.winner_team_id == mid.winner_team_id,
                1 <= min <= max,
                min == self.settings.teams_in_match.0 as nat,
                max == self.settings.teams_in_match.1 as nat,
                lon == leftover@.len(),
                str_views(leftover@) == lo,
                lo == leftover_of(u, min, max),
                gs == groups_of(u, min, max),
                forall|j: int| 0 <= j < u.len() ==> self.has_team_id(#[trigger] u[j]),
                forall|j: int| 0 <= j < lo.len() ==> u.contains(#[trigger] lo[j]),
                forall|x: int, y: int|
                    0 <= x < gs.len() && 0 <= y < gs[x].len() ==> u.contains(
                        #[trigger] gs[x][y],
                    ),
                forall|x: int|
                    0 <= x < gs.len() ==> min <= (#[trigger] gs[x]).len() <= max,
                b == mid.matches@.len(),
                e0 == mid.events@.len(),
                0 <= k <= lon,
                self.matches@.len() == b + k,
                forall|i: int| 0 <= i < b ==> #[trigger] self.matches@[i] == mid.matches@[i],
                forall|j: int|
                    0 <= j < k ==> bye_shape(#[trigger] self.matches@[b + j], b + j, mid.stage, lo[j]),
                self.events@.len() == e0 + k,
                forall|i: int| 0 <= i < e0 ==> #[trigger] self.events@[i] == mid.events@[i],
                forall|j: int|
                    0 <= j < k ==> #[trigger] self.events@[e0 + j] == PoolEvent::MatchScheduled(
                        (b + j) as usize,
                    ),
                created@.len() == k,
                forall|j: int| 0 <= j < k ==> #[trigger] created@[j] == (b + j) as usize,
            decreases lon - k,
        {
            let t = leftover[k].clone();
            let tw = t.clone();
            let mut rivals: Vec<String> = Vec::new();
            rivals.push(t);
            proof {
                assert(rivals@[0]@ == lo[k as int]);
                let x = choose|x: int| 0 <= x < u.len() && u[x] == lo[k as int];
                assert(self.has_team_id(u[x]));
            }
            let id = self.make_match(self.stage, rivals, Some(tw));
            created.push(id);
            k = k + 1;
        }

        let ghost gsn = gs.len() as int;
        let ghost mut k2: int = 0;
        while groups.len() > 0
            invariant
                self.wf_core(),
                self.settings == mid.settings,
                self.teams == mid.teams,
                self.stage == mid.stage,
                self.is_started == mid.is_started,
                self.is_ended == mid.is_ended,
                self.winner_team_id == mid.winner_team_id,
                1 <= min <= max,
                min == self.settings.teams_in_match.0 as nat,
                max == self.settings.teams_in_match.1 as nat,
                lon == lo.len(),
                lo == leftover_of(u, min, max),
                gs == groups_of(u, min, max),
                gsn == gs.len() as int,
                forall|j: int| 0 <= j < u.len() ==> self.has_team_id(#[trigger] u[j]),
                forall|x: int, y: int|
                    0 <= x < gs.len() && 0 <= y < gs[x].len() ==> u.contains(
                        #[trigger] gs[x][y],
                    ),
                forall|x: int|
                    0 <= x < gs.len() ==> min <= (#[trigger] gs[x]).len() <= max,
                b == mid.matches@.len(),
                e0 == mid.events@.len(),
                0 <= k2 <= gsn,
                groups@.len() == gsn - k2,
                grp_views(groups@) =~= gs.skip(k2),
                self.matches@.len() == b + lon + k2,
                forall|i: int| 0 <= i < b ==> #[trigger] self.matches@[i] == mid.matches@[i],
                forall|j: int|
                    0 <= j < lon ==> bye_shape(#[trigger] self.matches@[b + j], b + j, mid.stage, lo[j]),
                forall|j: int|
                    0 <= j < k2 ==> group_shape(
                        #[trigger] self.matches@[b + lon + j],
                        b + lon + j,
                        mid.stage,
                        gs[j],
                    ),
                self.events@.len() == e0 + lon + k2,
                forall|i: int| 0 <= i < e0 ==> #[trigger] self.events@[i] == mid.events@[i],
                forall|j: int|
                    0 <= j < lon + k2 ==> #[trigger] self.events@[e0 + j]
                        == PoolEvent::MatchScheduled((b + j) as usize),
                created@.len() == lon + k2,
                forall|j: int| 0 <= j < lon + k2 ==> #[trigger] created@[j] == (b + j) as usize,
            decreases groups@.len(),
        {
            let ghost groups_pre = groups@;
            let g = groups.remove(0);
            proof {
                assert(grp_views(groups_pre)[0] == gs.skip(k2)[0]);
                assert(gs.skip(k2)[0] == gs[k2]);
                assert(str_views(g@) == gs[k2]);
                assert forall|x: int| 0 <= x < groups@.len() implies grp_views(groups@)[x]
                    == gs.skip(k2 + 1)[x] by {
                    assert(groups@[x] == groups_pre[x + 1]);
                    assert(grp_views(groups_pre)[x + 1] == gs.skip(k2)[x + 1]);
                    assert(gs.skip(k2)[x + 1] == gs[k2 + 1 + x]);
                    assert(gs.skip(k2 + 1)[x] == gs[k2 + 1 + x]);
                }
                assert(grp_views(groups@) =~= gs.skip(k2 + 1));
                assert(g@.len() == str_views(g@).len());
                assert forall|j: int| 0 <= j < g@.len() implies self.has_team_id(
                    #[trigger] g@[j]@,
                ) by {
                    assert(g@[j]@ == gs[k2][j]);
                    assert(u.contains(gs[k2][j]));
                    let x = choose|x: int| 0 <= x < u.len() && u[x] == gs[k2][j];
                    assert(self.has_team_id(u[x]));
                }
            }
            let id = self.make_match(self.stage, g, None);
            created.push(id);
            proof {
                k2 = k2 + 1;
            }
        }

        let ghost fin = *self;
        self.events.push(PoolEvent::StageScheduled(created));
        proof {
            lemma_wf_core_same_core(fin, *self);
            let n = lo.len() + gs.len();
            if u.len() >= 1 {
            } else {
                assert(lo.len() == 0 && gs.len() == 0);
            }
            if old(self).matches@.len() > 0 {
                lemma_winners_at_len(old(self).matches@, old(self).stage);
            }
            assert(u.len() >= 1);
            assert(n >= 1);
            if lo.len() >= 1 {
                assert(bye_shape(self.matches@[b + 0], b + 0, mid.stage, lo[0]));
            } else {
                assert(gs.len() >= 1);
                assert(lon == 0);
                assert(group_shape(self.matches@[b + lon + 0], b + lon + 0, mid.stage, gs[0]));
            }
            assert(self.matches@[b].stage == s_new);
            lemma_count_at_pos(self.matches@, s_new, b);
        }
        Ok(())
    }

    /// Whether recording `w` as winner of match `match_id` is accepted: the
    /// pool is running, the match exists and is unresolved, and `w` is one
    /// of its rivals.
    pub open spec fn accepts_winner(self, match_id: int, w: Seq<char>) -> bool {
        &&& self.is_started
        &&& !self.is_ended
        &&& 0 <= match_id < self.matches@.len()
        &&& !self.matches@[match_id].resolved()
        &&& self.matches@[match_id].has_rival(w)
    }

    /// The state after a winner is accepted: the match carries the winner,
    /// the winning team's counter advances, and the pool then either waits
    /// for the rest of the round, ends on a sole surviving match, or
    /// generates the next stage from the round's winners.
    pub open spec fn winner_recorded(
        pre: Pool,
        post: Pool,
        match_id: int,
        w: String,
        r: Result<(), PoolError>,
    ) -> bool {
        let ms1 = pre.matches@.update(match_id, with_winner(pre.matches@[match_id], w));
        let ti = team_index(pre.teams@, w@);
        let ts1 = pre.teams@.update(ti, advanced(pre.teams@[ti]));
        let min = pre.settings.teams_in_match.0 as nat;
        let max = pre.settings.teams_in_match.1 as nat;
        &&& post.teams@ == ts1
        &&& post.settings == pre.settings
        &&& post.is_started
        &&& (!stage_resolved(ms1, pre.stage) ==> {
            &&& r is Ok
            &&& post.matches@ == ms1
            &&& post.stage == pre.stage
            &&& !post.is_ended
            &&& post.winner_team_id is None
            &&& post.events@ == pre.events@
        })
        &&& (stage_resolved(ms1, pre.stage) && count_at(ms1, pre.stage) == 1 ==> {
            &&& r is Ok
            &&& post.matches@ == ms1
            &&& post.stage == pre.stage
            &&& post.is_ended
            &&& post.winner_team_id == Some(w)
            &&& post.events@ == pre.events@.push(PoolEvent::PoolEnded)
        })
        &&& (stage_resolved(ms1, pre.stage) && count_at(ms1, pre.stage) != 1 && pre.stage
            < u32::MAX ==> {
            &&& r is Ok
            &&& bracket_extension(
                ms1,
                post.matches@,
                pre.events@,
                post.events@,
                winners_at(ms1, pre.stage),
                (pre.stage + 1) as u32,
                min,
                max,
            )
            &&& post.stage == pre.stage + 1
            &&& !post.is_ended
            &&& post.winner_team_id is None
        })
        &&& (stage_resolved(ms1, pre.stage) && count_at(ms1, pre.stage) != 1 && pre.stage
            == u32::MAX ==> {
            &&& r == Err::<(), PoolError>(PoolError::InternalInconsistency)
            &&& post.matches@ == ms1
            &&& post.stage == pre.stage
            &&& !post.is_ended
            &&& post.winner_team_id is None
            &&& post.events@ == pre.events@
        })
    }

    /// Re-evaluates the pool after a recorded winner: waits while the
    /// current stage has unresolved matches; ends the pool when the stage
    /// consists of a single resolved match; generates the next stage from
    /// the round's winners otherwise.
    fn try_end_or_next(&mut self) -> (r: Result<(), PoolError>)
        requires
            old(self).wf(),
            old(self).is_started,
            !old(self).is_ended,
        ensures
            final(self).wf(),
            final(self).teams == old(self).teams,
            final(self).settings == old(self).settings,
            final(self).is_started,
            !stage_resolved(old(self).matches@, old(self).stage) ==> {
                &&& r is Ok
                &&& final(self).matches == old(self).matches
                &&& final(self).stage == old(self).stage
                &&& !final(self).is_ended
                &&& final(self).winner_team_id == old(self).winner_team_id
                &&& final(self).events == old(self).events
            },
            stage_resolved(old(self).matches@, old(self).stage) && count_at(
                old(self).matches@,
                old(self).stage,
            ) == 1 ==> {
                &&& r is Ok
                &&& final(self).matches == old(self).matches
                &&& final(self).stage == old(self).stage
                &&& final(self).is_ended
                &&& exists|i: int|
                    0 <= i < old(self).matches@.len() && (#[trigger] old(
                        self,
                    ).matches@[i]).stage == old(self).stage && final(self).winner_team_id == old(
                        self,
                    ).matches@[i].winner
                &&& final(self).events@ == old(self).events@.push(PoolEvent::PoolEnded)
            },
            stage_resolved(old(self).matches@, old(self).stage) && count_at(
                old(self).matches@,
                old(self).stage,
            ) != 1 && old(self).stage < u32::MAX ==> {
                &&& r is Ok
                &&& bracket_extension(
                    old(self).matches@,
                    final(self).matches@,
                    old(self).events@,
                    final(self).events@,
                    winners_at(old(self).matches@, old(self).stage),
                    (old(self).stage + 1) as u32,
                    old(self).settings.teams_in_match.0 as nat,
                    old(self).settings.teams_in_match.1 as nat,
                )
                &&& final(self).stage == old(self).stage + 1
                &&& !final(self).is_ended
                &&& final(self).winner_team_id == old(self).winner_team_id
            },
            stage_resolved(old(self).matches@, old(self).stage) && count_at(
                old(self).matches@,
                old(self).stage,
            ) != 1 && old(self).stage == u32::MAX ==> r == Err::<(), PoolError>(
                PoolError::InternalInconsistency,
            ) && same_state(*final(self), *old(self)),
    {
        let winner = self.check_winner();
        match winner {
            Some(w) => {
                self.winner_team_id = Some(w);
                self.is_ended = true;
                self.events.push(PoolEvent::PoolEnded);
                proof {
                    lemma_wf_core_same_core(*old(self), *self);
                }
                Ok(())
            },
            None => {
                let last_stage = self.get_last_ended_stage();
                if last_stage != self.stage {
                    return Ok(());
                }
                if self.stage == u32::MAX {
                    return Err(PoolError::InternalInconsistency);
                }
                proof {
                    assert(count_at(self.matches@, self.stage) >= 1);
                    if self.matches@.len() == 0 {
                        assert(count_at(self.matches@, self.stage) == 0);
                    }
                }
                self.make_matches()
            },
        }
    }

    /// Records the winner of a match.  Fails while the pool is not running
    /// (`PoolNotStarted` / `PoolAlreadyEnded`), for an unknown match id
    /// (`MatchNotFound`), for a match whose winner is already recorded
    /// (`WinnerAlreadySet`), and for a team that is not one of the match's
    /// rivals (`TeamNotRival`); none of those failures changes any state.
    /// On success the winner is recorded, the winning team advances a
    /// round, and the pool either waits, ends, or schedules the next stage.
    #[verifier::loop_isolation(false)]
    pub fn set_match_winner(&mut self, match_id: usize, winner_team_id: String) -> (r: Result<
        (),
        PoolError,
    >)
        requires
            old(self).wf(),
        ensures
            final(self).wf(),
            !old(self).is_started ==> r == Err::<(), PoolError>(PoolError::PoolNotStarted)
                && same_state(*final(self), *old(self)),
            old(self).is_started && old(self).is_ended ==> r == Err::<(), PoolError>(
                PoolError::PoolAlreadyEnded,
            ) && same_state(*final(self), *old(self)),
            old(self).is_started && !old(self).is_ended && match_id >= old(self).matches@.len()
                ==> r == Err::<(), PoolError>(PoolError::MatchNotFound) && same_state(
                *final(self),
                *old(self),
            ),
            old(self).is_started && !old(self).is_ended && match_id < old(self).matches@.len()
                && old(self).matches@[match_id as int].resolved() ==> r == Err::<(), PoolError>(
                PoolError::WinnerAlreadySet,
            ) && same_state(*final(self), *old(self)),
            old(self).is_started && !old(self).is_ended && match_id < old(self).matches@.len()
                && !old(self).matches@[match_id as int].resolved() && !old(
                self,
            ).matches@[match_id as int].has_rival(winner_team_id@) ==> r == Err::<(), PoolError>(
                PoolError::TeamNotRival,
            ) && same_state(*final(self), *old(self)),
            old(self).accepts_winner(match_id as int, winner_team_id@) ==> Pool::winner_recorded(
                *old(self),
                *final(self),
                match_id as int,
                winner_team_id,
                r,
            ),
    {
        if !self.is_started {
            return Err(PoolError::PoolNotStarted);
        }
        if self.is_ended {
            return Err(PoolError::PoolAlreadyEnded);
        }
        if match_id >= self.matches.len() {
            return Err(PoolError::MatchNotFound);
        }
        proof {
            assert(old(self).match_wf(match_id as int));
        }
        let mut m = self.matches.remove(match_id);
        let set_res = m.set_winner(winner_team_id.clone());
        self.matches.insert(match_id, m);
        match set_res {
            Err(e) => {
                proof {
                    assert(self.matches@ =~= old(self).matches@);
                    lemma_wf_core_same_core(*old(self), *self);
                }
                return Err(e);
            },
            Ok(()) => {},
        }
        let ghost ms1 = old(self).matches@.update(
            match_id as int,
            with_winner(old(self).matches@[match_id as int], winner_team_id),
        );
        proof {
            assert(self.matches@ =~= ms1);
            assert(old(self).match_wf(match_id as int));
            assert forall|i: int| 0 <= i < self.matches@.len() implies self.match_wf(i) by {
                assert(old(self).match_wf(i));
                let mm = self.matches@[i];
                if i != match_id as int {
                    assert(mm == old(self).matches@[i]);
                }
                assert forall|j: int| 0 <= j < mm.rivals@.len() implies self.has_team_id(
                    #[trigger] mm.rivals@[j]@,
                ) by {
                    assert(old(self).has_team_id(mm.rivals@[j]@));
                    let t = choose|t: int|
                        0 <= t < old(self).teams@.len() && (#[trigger] old(self).teams@[t]).id@
                            == mm.rivals@[j]@;
                    assert(self.teams@[t].id@ == mm.rivals@[j]@);
                }
            }
            lemma_count_at_update(
                old(self).matches@,
                match_id as int,
                self.matches@[match_id as int],
                self.stage,
            );
            let mm = self.matches@[match_id as int];
            assert(self.match_wf(match_id as int));
            assert(mm.has_rival(winner_team_id@));
            let j = choose|j: int| 0 <= j < mm.rivals@.len() && mm.rivals@[j]@ == winner_team_id@;
            assert(self.has_team_id(mm.rivals@[j]@));
            lemma_team_index(self.teams@, winner_team_id@);
        }
        let ghost mid1 = *self;
        let tn = self.teams.len();
        let mut i: usize = 0;
        while i < tn
            invariant
                *self == mid1,
                0 <= i <= tn,
                forall|j: int| 0 <= j < i ==> (#[trigger] self.teams@[j]).id@ != winner_team_id@,
            decreases tn - i,
        {
            if self.teams[i].id == winner_team_id {
                proof {
                    lemma_team_index(self.teams@, winner_team_id@);
                }
                let mut t = self.teams.remove(i);
                if t.stage < u32::MAX {
                    t.increment_stage();
                }
                self.teams.insert(i, t);
                proof {
                    assert(self.teams@ =~= mid1.teams@.update(i as int, advanced(
                        mid1.teams@[i as int],
                    )));
                    assert forall|x: int| 0 <= x < self.matches@.len() implies self.match_wf(
                        x,
                    ) by {
                        assert(mid1.match_wf(x));
                        let mm = self.matches@[x];
                        assert(mm == mid1.matches@[x]);
                        assert forall|j: int| 0 <= j < mm.rivals@.len() implies self.has_team_id(
                            #[trigger] mm.rivals@[j]@,
                        ) by {
                            assert(mid1.has_team_id(mm.rivals@[j]@));
                            let t2 = choose|t2: int|
                                0 <= t2 < mid1.teams@.len() && (#[trigger] mid1.teams@[t2]).id@
                                    == mm.rivals@[j]@;
                            assert(self.teams@[t2].id@ == mm.rivals@[j]@);
                        }
                    }
                    assert(self.wf());
                }
                let ghost mid2 = *self;
                let res = self.try_end_or_next();
                proof {
                    if stage_resolved(ms1, old(self).stage) && count_at(ms1, old(self).stage)
                        == 1 {
                        assert(ms1[match_id as int].stage == old(self).stage);
                        let wi = choose|wi: int|
                            0 <= wi < mid2.matches@.len() && (#[trigger] mid2.matches@[wi]).stage
                                == mid2.stage && self.winner_team_id == mid2.matches@[wi].winner;
                        assert(ms1[wi].stage == old(self).stage);
                        lemma_count_at_unique(ms1, old(self).stage, wi, match_id as int);
                        assert(self.winner_team_id == ms1[match_id as int].winner);
                    }
                }
                return res;
            }
            i = i + 1;
        }
        proof {
            lemma_team_index(self.teams@, winner_team_id@);
            assert(false);
        }
        Err(PoolError::TeamNotFound)
    }

    /// Leaves the forming phase: keeps only the complete teams, fails with
    /// `BelowMinimumTeams` (changing nothing) if fewer than the configured
    /// minimum remain, and otherwise starts the pool and generates the
    /// first stage's matches.
    #[verifier::loop_isolation(false)]
    pub fn start(&mut self) -> (r: Result<(), PoolError>)
        requires
            old(self).wf(),
        ensures
            final(self).wf(),
            old(self).is_started ==> r == Err::<(), PoolError>(PoolError::PoolAlreadyStarted)
                && same_state(*final(self), *old(self)),
            !old(self).is_started && retained(old(self).teams@).len() < old(
                self,
            ).settings.teams_in_pool.0 ==> r == Err::<(), PoolError>(PoolError::BelowMinimumTeams)
                && same_state(*final(self), *old(self)),
            !old(self).is_started && retained(old(self).teams@).len() >= old(
                self,
            ).settings.teams_in_pool.0 ==> {
                &&& r is Ok
                &&& final(self).is_started
                &&& !final(self).is_ended
                &&& final(self).winner_team_id is None
                &&& final(self).stage == 1
                &&& final(self).teams@ == retained(old(self).teams@)
                &&& final(self).settings == old(self).settings
                &&& bracket_extension(
                    old(self).matches@,
                    final(self).matches@,
                    old(self).events@,
                    final(self).events@,
                    id_views(retained(old(self).teams@)),
                    1u32,
                    old(self).settings.teams_in_match.0 as nat,
                    old(self).settings.teams_in_match.1 as nat,
                )
            },
    {
        if self.is_started {
            return Err(PoolError::PoolAlreadyStarted);
        }
        proof {
            lemma_retained(self.teams@);
        }
        let tn = self.teams.len();
        let mut complete_count: usize = 0;
        let mut i: usize = 0;
        while i < tn
            invariant
                0 <= i <= tn,
                complete_count == retained(self.teams@.take(i as int)).len(),
                complete_count <= i,
            decreases tn - i,
        {
            proof {
                assert(self.teams@.take(i + 1).drop_last() =~= self.teams@.take(i as int));
                assert(self.teams@.take(i + 1).last() == self.teams@[i as int]);
            }
            if self.teams[i].is_complete() {
                complete_count = complete_count + 1;
            }
            i = i + 1;
        }
        proof {
            assert(self.teams@.take(tn as int) =~= self.teams@);
        }
        if complete_count < self.settings.teams_in_pool.0 as usize {
            return Err(PoolError::BelowMinimumTeams);
        }
        let mut kept: Vec<Team> = Vec::new();
        let ghost all = self.teams@;
        let mut j: usize = 0;
        while j < tn
            invariant
                0 <= j <= tn,
                self.teams@ == all.skip(j as int),
                kept@ =~= retained(all.take(j as int)),
                self.settings == old(self).settings,
                self.matches == old(self).matches,
                self.stage == old(self).stage,
                self.is_started == old(self).is_started,
                self.is_ended == old(self).is_ended,
                self.winner_team_id == old(self).winner_team_id,
                self.events == old(self).events,
            decreases tn - j,
        {
            proof {
                assert(all.take(j + 1).drop_last() =~= all.take(j as int));
                assert(all.take(j + 1).last() == all[j as int]);
                assert(self.teams@[0] == all[j as int]);
            }
            let t = self.teams.remove(0);
            proof {
                assert(self.teams@ =~= all.skip(j + 1));
            }
            if t.is_complete() {
                kept.push(t);
            }
            j = j + 1;
        }
        proof {
            assert(all.take(tn as int) =~= all);
            assert(kept@ == retained(all));
        }
        self.teams = kept;
        self.is_started = true;
        proof {
            lemma_retained(all);
            assert forall|x: int| 0 <= x < self.teams@.len() implies (#[trigger] self.teams@[x]).wf() by {
                let w = choose|w: int| 0 <= w < all.len() && all[w] == retained(all)[x];
                assert(old(self).teams@[w].wf());
            }
            assert(self.matches@.len() == 0);
            assert(self.wf_core());
        }
        let res = self.make_matches();
        res
    }
}

/// Structural well-formedness only looks at the configuration, the stage,
/// the teams and the matches: it carries over to any state that agrees on
/// those.
pub proof fn lemma_wf_core_same_core(a: Pool, b: Pool)
    requires
        a.wf_core(),
        b.settings == a.settings,
        b.stage == a.stage,
        b.teams@ == a.teams@,
        b.matches@ == a.matches@,
    ensures
        b.wf_core(),
{
    assert forall|i: int| 0 <= i < b.teams@.len() implies (#[trigger] b.teams@[i]).wf() by {
        assert(a.teams@[i].wf());
    }
    assert forall|i: int| 0 <= i < b.matches@.len() implies b.match_wf(i) by {
        assert(a.match_wf(i));
        let mm = b.matches@[i];
        assert(mm == a.matches@[i]);
        assert forall|j: int| 0 <= j < mm.rivals@.len() implies b.has_team_id(
            #[trigger] mm.rivals@[j]@,
        ) by {
            assert(a.has_team_id(mm.rivals@[j]@));
            let t = choose|t: int|
                0 <= t < a.teams@.len() && (#[trigger] a.teams@[t]).id@ == mm.rivals@[j]@;
            assert(b.teams@[t].id@ == mm.rivals@[j]@);
        }
    }
}

/// Law: in every well-formed pool state, a team's roster never exceeds its
/// capacity.
pub proof fn lemma_roster_within_capacity(p: Pool, i: int)
    requires
        p.wf(),
        0 <= i < p.teams@.len(),
    ensures
        p.teams@[i].users@.len() <= p.teams@[i].players_in_team,
{
    assert(p.teams@[i].wf());
}

/// Law: every bye match has exactly one rival and carries an auto-assigned
/// winner equal to that rival; every regular match's rival count lies
/// within the configured bounds.
pub proof fn lemma_match_shape(p: Pool, i: int)
    requires
        p.wf(),
        0 <= i < p.matches@.len(),
    ensures
        p.matches@[i].is_bye() ==> (p.matches@[i].winner matches Some(w) && w@
            == p.matches@[i].rivals@[0]@),
        !p.matches@[i].is_bye() ==> p.settings.teams_in_match.0 <= p.matches@[i].rivals@.len()
            <= p.settings.teams_in_match.1,
{
    assert(p.match_wf(i));
}

/// Law: round-synchronous progression.  A match of a later stage can only
/// exist once every match of each earlier stage carries a recorded winner:
/// no stage is generated while the previous one is unresolved.
pub proof fn lemma_round_synchronous(p: Pool, i: int, j: int)
    requires
        p.wf(),
        0 <= i < p.matches@.len(),
        0 <= j < p.matches@.len(),
        p.matches@[i].stage < p.matches@[j].stage,
    ensures
        p.matches@[i].resolved(),
{
    assert(p.match_wf(i));
    assert(p.match_wf(j));
}

/// Law: the winner id is set exactly when the pool has ended, and an ended
/// pool has been started.
pub proof fn lemma_winner_iff_ended(p: Pool)
    requires
        p.wf(),
    ensures
        (p.winner_team_id is Some) <==> p.is_ended,
        p.is_ended ==> p.is_started,
{
}

/// Every id the next round would be built from names a registered team:
/// the first round draws on the teams themselves, later rounds on winners,
/// which are rivals of their matches and hence team ids.
pub proof fn lemma_next_unmatched_teams(p: Pool)
    requires
        p.wf_core(),
    ensures
        forall|k: int|
            0 <= k < p.next_unmatched().len() ==> p.has_team_id(#[trigger] p.next_unmatched()[k]),
{
    let u = p.next_unmatched();
    if p.matches@.len() == 0 {
        assert forall|k: int| 0 <= k < u.len() implies p.has_team_id(u[k]) by {
            assert(u[k] == p.teams@[k].id@);
        }
    } else {
        lemma_winners_at_from(p.matches@, p.stage);
        assert forall|k: int| 0 <= k < u.len() implies p.has_team_id(u[k]) by {
            let i = choose|i: int|
                0 <= i < p.matches@.len() && p.matches@[i].stage == p.stage && (
                p.matches@[i].winner matches Some(w) && w@ == u[k]);
            assert(p.match_wf(i));
            let m = p.matches@[i];
            let w = m.winner->Some_0;
            assert(m.has_rival(w@));
            let j = choose|j: int| 0 <= j < m.rivals@.len() && m.rivals@[j]@ == w@;
            assert(p.has_team_id(m.rivals@[j]@));
        }
    }
}

} // verus!
