//! "Are you dead yet?": a daily check-in that tracks who is still responding.
use vstd::prelude::*;
use std::collections::HashMap;
use crate::decimal::{decimal, signed_decimal, push_decimal, push_signed_decimal, u64_to_string};
use crate::json::{JsonLeaf, JsonValue, json_at, json_keys_at, pointer_token, push_pointer_token, read_json_at, read_json_keys};
use crate::text::views;
use crate::clock::{utc_now, UtcInstant, TIMESTAMP_LIMIT, hour_of, minute_of, hour_minute_of, scheduled_occurrence, scheduled_occurrence_at, lemma_occurrence_advances};

verus! {

broadcast use vstd::std_specs::hash::group_hash_axioms;

/// Where the alive streak starts for users enrolled before streaks were
/// recorded: Feb 1, 2026 00:00:00 UTC.
pub const LEGACY_STREAK_START: i64 = 1769904000;

/// Hours without a check-in after which a user counts as dead.
pub const DEATH_HOURS: i64 = 48;

/// The UTC hour of the daily send for records that do not state one.
pub fn default_send_hour() -> (r: u32)
    ensures
        r == 12,
{
    12
}

/// One enrolled user's check-in record. Times are Unix timestamps.
pub struct UserStatus {
    pub user_name: String,
    pub last_response: i64,
    pub enrolled_at: i64,
    /// How many times this user has died.
    pub death_count: u32,
    /// When the current alive streak started (0 for records from before streaks).
    pub last_alive_start: i64,
    /// Whether the user is in the "dead" state.
    pub is_currently_dead: bool,
}

/// Whether the cutoff `now - hours * 3600` can be computed without overflow.
pub open spec fn cutoff_in_range(now: int, hours: int) -> bool {
    &&& i64::MIN <= hours * 3600 <= i64::MAX
    &&& i64::MIN <= now - hours * 3600 <= i64::MAX
}

/// Whether the cutoff for `hours` can be computed without overflow at every
/// time the clock can give (from the epoch up to `TIMESTAMP_LIMIT`).
pub open spec fn hours_in_range(hours: int) -> bool {
    TIMESTAMP_LIMIT - i64::MAX <= hours * 3600 <= i64::MAX
}

/// A time within `TIMESTAMP_LIMIT` of the epoch either way, a range that
/// takes in every time chrono can represent.
pub open spec fn time_in_range(t: int) -> bool {
    -TIMESTAMP_LIMIT <= t <= TIMESTAMP_LIMIT
}

impl UserStatus {
    /// When the current alive streak started.
    pub open spec fn streak_start(self) -> int {
        if self.last_alive_start == 0 {
            LEGACY_STREAK_START as int
        } else {
            self.last_alive_start as int
        }
    }

    /// Length in seconds of the current alive streak.
    pub open spec fn alive_streak(self) -> int {
        self.last_response - self.streak_start()
    }

    /// No response within `hours` before `now`.
    pub open spec fn dead_at(self, now: int, hours: int) -> bool {
        self.last_response < now - hours * 3600
    }

    /// Dead by the stored flag or by the 48-hour rule.
    pub open spec fn counts_as_dead(self, now: int) -> bool {
        self.is_currently_dead || self.dead_at(now, DEATH_HOURS as int)
    }

    /// Get the current alive streak in seconds.
    pub fn current_alive_streak(&self) -> (r: i64)
        requires
            i64::MIN <= self.alive_streak() <= i64::MAX,
        ensures
            r == self.alive_streak(),
    {
        let alive_start = if self.last_alive_start == 0 {
            LEGACY_STREAK_START
        } else {
            self.last_alive_start
        };
        self.last_response - alive_start
    }

    /// Whether there was no response within `hours` before `now`.
    pub fn is_dead_at(&self, now: i64, hours: i64) -> (r: bool)
        requires
            cutoff_in_range(now as int, hours as int),
        ensures
            r == self.dead_at(now as int, hours as int),
    {
        let cutoff = now - hours * 3600;
        self.last_response < cutoff
    }

    /// Check if the user is considered "dead": no response in the last `hours`.
    pub fn is_dead(&self, hours: i64) -> (r: bool)
        requires
            hours_in_range(hours as int),
        ensures
            exists|now: int| 0 <= now <= TIMESTAMP_LIMIT && r == self.dead_at(now, hours as int),
    {
        let now = utc_now();
        self.is_dead_at(now.secs, hours)
    }

    /// A fresh record for a user seen for the first time at `now`.
    pub fn new_enrolled(user_name: String, now: i64) -> (r: UserStatus)
        ensures
            r.user_name@ == user_name@,
            fresh_status(r, now as int),
    {
        UserStatus {
            user_name,
            last_response: now,
            enrolled_at: now,
            death_count: 0,
            last_alive_start: now,
            is_currently_dead: false,
        }
    }
}

/// A record as it is created for a new user at `now`.
pub open spec fn fresh_status(u: UserStatus, now: int) -> bool {
    &&& u.last_response == now
    &&& u.enrolled_at == now
    &&& u.death_count == 0
    &&& u.last_alive_start == now
    &&& !u.is_currently_dead
}

/// `u` is `o` after `o`'s user checked in at `now` under the name `name`;
/// `was_dead` tells whether they came back from the dead.
pub open spec fn checked_in(o: UserStatus, u: UserStatus, name: Seq<char>, now: int, was_dead: bool) -> bool {
    &&& was_dead == o.counts_as_dead(now)
    &&& u.user_name@ == name
    &&& u.last_response == now
    &&& u.enrolled_at == o.enrolled_at
    &&& u.death_count == o.death_count
    &&& u.last_alive_start == (if was_dead { now } else { o.last_alive_start as int })
    &&& !u.is_currently_dead
}

/// Whether the user crosses into death at `now`: dead by the clock but not yet marked.
pub open spec fn newly_dead(o: UserStatus, now: int) -> bool {
    o.dead_at(now, DEATH_HOURS as int) && !o.is_currently_dead
}

/// `u` is `o` after the death check at `now`: a user who has just died gets
/// one more death and the dead flag; anyone else is unchanged.
pub open spec fn death_checked(o: UserStatus, u: UserStatus, now: int) -> bool {
    &&& u.user_name == o.user_name
    &&& u.last_response == o.last_response
    &&& u.enrolled_at == o.enrolled_at
    &&& u.last_alive_start == o.last_alive_start
    &&& if newly_dead(o, now) {
        u.death_count == o.death_count + 1 && u.is_currently_dead
    } else {
        u.death_count == o.death_count && u.is_currently_dead == o.is_currently_dead
    }
}


/// `post` is `pre` after `user_id` checked in at `now` under the name
/// `name`: the user is enrolled (freshly, if new), nobody else changes, and
/// `was_dead` tells whether the user came back from the dead.
pub open spec fn responded(pre: AydyState, post: AydyState, user_id: u64, name: Seq<char>, now: int, was_dead: bool) -> bool {
    &&& post.same_settings(&pre)
    &&& post.users().dom() =~= pre.users().dom().insert(user_id)
    &&& forall|k: u64| k != user_id && #[trigger] pre.users().contains_key(k)
        ==> post.users()[k] == pre.users()[k]
    &&& pre.users().contains_key(user_id) ==> checked_in(pre.users()[user_id], post.users()[user_id], name, now, was_dead)
    &&& !pre.users().contains_key(user_id) ==> {
        &&& !was_dead
        &&& post.users()[user_id].user_name@ == name
        &&& fresh_status(post.users()[user_id], now)
    }
}

/// `post` is `pre` after enrolling `user_id` at `now`: an enrolled user's
/// record is left as it is; a new user gets a fresh record.
pub open spec fn enrolled(pre: AydyState, post: AydyState, user_id: u64, name: Seq<char>, now: int) -> bool {
    &&& post.same_settings(&pre)
    &&& pre.users().contains_key(user_id) ==> post.users() =~= pre.users()
    &&& !pre.users().contains_key(user_id) ==> {
        &&& post.users().dom() =~= pre.users().dom().insert(user_id)
        &&& forall|k: u64| k != user_id && #[trigger] pre.users().contains_key(k)
            ==> post.users()[k] == pre.users()[k]
        &&& post.users()[user_id].user_name@ == name
        &&& fresh_status(post.users()[user_id], now)
    }
}

/// `post` is `pre` after the death check at `now`; `changed` tells whether
/// anyone died.
pub open spec fn deaths_checked(pre: AydyState, post: AydyState, now: int, changed: bool) -> bool {
    &&& forall|k: u64| #[trigger] pre.users().contains_key(k)
        ==> death_checked(pre.users()[k], post.users()[k], now)
    &&& changed == exists|k: u64| #[trigger] pre.users().contains_key(k) && newly_dead(pre.users()[k], now)
}

/// `post` is `pre` after one death check at `now` that reported `changed`:
/// only the users' death records change, as `deaths_checked` says.
pub open spec fn death_check_step(pre: AydyState, post: AydyState, now: int, changed: bool) -> bool {
    &&& post.same_settings(&pre)
    &&& post.users().dom() == pre.users().dom()
    &&& deaths_checked(pre, post, now, changed)
}

/// `found` lists exactly the users of `state` with no response within
/// `hours` before `now`, each once, with their records.
pub open spec fn non_responders(state: AydyState, found: Seq<(u64, &UserStatus)>, now: int, hours: int) -> bool {
    &&& forall|j: int| 0 <= j < found.len() ==> {
        &&& state.users().contains_key(#[trigger] found[j].0)
        &&& *found[j].1 == state.users()[found[j].0]
        &&& state.users()[found[j].0].dead_at(now, hours)
    }
    &&& forall|a: int, b: int| 0 <= a < b < found.len() ==> found[a].0 != found[b].0
    &&& forall|k: u64| #[trigger] state.users().contains_key(k) && state.users()[k].dead_at(now, hours)
        ==> exists|t: int| 0 <= t < found.len() && found[t].0 == k
}

/// A member of the channel's guild, as the enrolment sync sees it.
pub struct GuildMember {
    pub id: u64,
    pub name: String,
    pub is_bot: bool,
    /// Whether the member's permissions let them see the channel.
    pub can_view: bool,
}

/// Members who are enrolled by the sync: people who can see the channel.
pub open spec fn eligible(m: GuildMember) -> bool {
    !m.is_bot && m.can_view
}

/// `m[j]` is the first eligible member among `m` with the id `k`.
pub open spec fn first_eligible(m: Seq<GuildMember>, j: int, k: u64) -> bool {
    &&& 0 <= j < m.len()
    &&& eligible(m[j])
    &&& m[j].id == k
    &&& forall|j2: int| 0 <= j2 < j ==> !(eligible(#[trigger] m[j2]) && m[j2].id == k)
}

/// `u` is the fresh record, made at `now`, of the first eligible member
/// with the id `k` among the first `n` of `m`.
pub open spec fn new_member_record(u: UserStatus, m: Seq<GuildMember>, n: int, k: u64, now: int) -> bool {
    &&& fresh_status(u, now)
    &&& exists|j: int| 0 <= j < n && #[trigger] first_eligible(m, j, k) && u.user_name@ == m[j].name@
}

/// `post` is `pre` after enrolling, at `now`, the eligible members among the
/// first `n` of `m`: everyone enrolled before keeps their record, and each
/// eligible member not yet enrolled gets a fresh record under the name of
/// the first eligible member with that id.
pub open spec fn members_enrolled(pre: AydyState, post: AydyState, m: Seq<GuildMember>, n: int, now: int) -> bool {
    &&& post.same_settings(&pre)
    &&& forall|k: u64| #[trigger] post.users().contains_key(k) <==> (pre.users().contains_key(k)
        || exists|j: int| 0 <= j < n && eligible(#[trigger] m[j]) && m[j].id == k)
    &&& forall|k: u64| #[trigger] pre.users().contains_key(k) ==> post.users()[k] == pre.users()[k]
    &&& forall|k: u64| #[trigger] post.users().contains_key(k) && !pre.users().contains_key(k)
        ==> new_member_record(post.users()[k], m, n, k, now)
}

/// The check-in state of one channel. Times are Unix timestamps.
pub struct AydyState {
    pub channel_id: u64,
    pub guild_id: Option<u64>,
    /// The current check-in message, once one has been sent.
    pub message_id: Option<u64>,
    /// When a check-in message was last sent, scheduled or forced.
    pub last_sent: i64,
    /// The scheduled occurrence that was last served (not the time it was sent).
    pub last_scheduled_sent: i64,
    /// Enrolled users by user id.
    pub enrolled_users: HashMap<u64, UserStatus>,
    /// UTC hour of the daily send (0–23).
    pub send_hour: u32,
    /// UTC minute of the daily send (0–59).
    pub send_minute: u32,
}

impl AydyState {
    /// The enrolled users as a map.
    pub open spec fn users(&self) -> Map<u64, UserStatus> {
        self.enrolled_users@
    }

    /// Every field but the enrolled users agrees between `self` and `other`.
    pub open spec fn same_settings(&self, other: &AydyState) -> bool {
        &&& self.channel_id == other.channel_id
        &&& self.guild_id == other.guild_id
        &&& self.message_id == other.message_id
        &&& self.last_sent == other.last_sent
        &&& self.last_scheduled_sent == other.last_scheduled_sent
        &&& self.send_hour == other.send_hour
        &&& self.send_minute == other.send_minute
    }

    /// A fresh state for a channel created at `now`: nothing sent yet, no
    /// users, and the daily send set to the current UTC hour and minute.
    pub fn new_at(channel_id: u64, guild_id: Option<u64>, now: UtcInstant) -> (r: AydyState)
        ensures
            r.channel_id == channel_id,
            r.guild_id == guild_id,
            r.message_id is None,
            r.last_sent == now.secs,
            r.last_scheduled_sent == 0,
            r.users() == Map::<u64, UserStatus>::empty(),
            r.send_hour == hour_of(now.secs as int),
            r.send_minute == minute_of(now.secs as int),
    {
        let (hour, minute) = hour_minute_of(now.secs);
        AydyState {
            channel_id,
            guild_id,
            message_id: None,
            last_sent: now.secs,
            last_scheduled_sent: 0,
            enrolled_users: HashMap::new(),
            send_hour: hour,
            send_minute: minute,
        }
    }

    /// A fresh state for a channel, created now.
    pub fn new(channel_id: u64, guild_id: Option<u64>) -> (r: AydyState)
        ensures
            r.channel_id == channel_id,
            r.guild_id == guild_id,
            r.message_id is None,
            0 <= r.last_sent <= TIMESTAMP_LIMIT,
            r.last_scheduled_sent == 0,
            r.users() == Map::<u64, UserStatus>::empty(),
            r.send_hour == hour_of(r.last_sent as int),
            r.send_minute == minute_of(r.last_sent as int),
    {
        let now = utc_now();
        Self::new_at(channel_id, guild_id, now)
    }

    /// Record a check-in by `user_id` at `now`, enrolling the user if needed.
    /// Returns whether the user came back from the dead.
    pub fn update_user_response_at(&mut self, user_id: u64, user_name: String, now: i64) -> (was_dead: bool)
        requires
            cutoff_in_range(now as int, DEATH_HOURS as int),
        ensures
            responded(*old(self), *final(self), user_id, user_name@, now as int, was_dead),
    {
        match self.enrolled_users.remove(&user_id) {
            Some(mut status) => {
                let was_dead = status.is_currently_dead || status.is_dead_at(now, DEATH_HOURS);
                if was_dead {
                    status.last_alive_start = now;
                    status.is_currently_dead = false;
                }
                status.last_response = now;
                status.user_name = user_name;
                self.enrolled_users.insert(user_id, status);
                proof {
                    assert(final(self).users().dom() == old(self).users().dom().insert(user_id));
                }
                was_dead
            },
            None => {
                let status = UserStatus::new_enrolled(user_name, now);
                self.enrolled_users.insert(user_id, status);
                false
            },
        }
    }

    /// Record a check-in by `user_id` now. Returns whether the user came back
    /// from the dead.
    pub fn update_user_response(&mut self, user_id: u64, user_name: String) -> (was_dead: bool)
        ensures
            exists|now: int|
                0 <= now <= TIMESTAMP_LIMIT && responded(*old(self), *final(self), user_id, user_name@, now, was_dead),
    {
        let now = utc_now();
        let ghost name = user_name@;
        let was_dead = self.update_user_response_at(user_id, user_name, now.secs);
        assert(responded(*old(self), *self, user_id, name, now.secs as int, was_dead));
        was_dead
    }

    /// Enroll a user at `now` unless already enrolled; an enrolled user's
    /// record is left as it is.
    pub fn enroll_user_at(&mut self, user_id: u64, user_name: String, now: i64)
        ensures
            enrolled(*old(self), *final(self), user_id, user_name@, now as int),
    {
        if !self.enrolled_users.contains_key(&user_id) {
            let status = UserStatus::new_enrolled(user_name, now);
            self.enrolled_users.insert(user_id, status);
        }
    }

    /// Enroll a user if they are not already in the list (does not update
    /// existing users).
    pub fn enroll_user(&mut self, user_id: u64, user_name: String)
        ensures
            exists|now: int| 0 <= now <= TIMESTAMP_LIMIT && enrolled(*old(self), *final(self), user_id, user_name@, now),
    {
        if !self.enrolled_users.contains_key(&user_id) {
            let now = utc_now();
            let ghost name = user_name@;
            let status = UserStatus::new_enrolled(user_name, now.secs);
            self.enrolled_users.insert(user_id, status);
            assert(enrolled(*old(self), *self, user_id, name, now.secs as int));
        } else {
            assert(enrolled(*old(self), *self, user_id, user_name@, 0));
        }
    }

    /// Enroll, at `now`, every member who is a person and can see the
    /// channel, unless already enrolled. Returns whether anyone new was enrolled.
    pub fn enroll_members_at(&mut self, members: &Vec<GuildMember>, now: i64) -> (grew: bool)
        ensures
            members_enrolled(*old(self), *final(self), members@, members.len() as int, now as int),
            grew == exists|j: int| 0 <= j < members.len() && eligible(#[trigger] members@[j])
                && !old(self).users().contains_key(members@[j].id),
    {
        let ghost pre = *self;
        let ghost m = members@;
        let mut grew = false;
        let mut i: usize = 0;
        while i < members.len()
            invariant
                pre == *old(self),
                m == members@,
                i <= members.len(),
                members_enrolled(pre, *self, m, i as int, now as int),
                grew == exists|j: int| 0 <= j < i && eligible(#[trigger] m[j]) && !pre.users().contains_key(m[j].id),
            decreases members.len() - i,
        {
            let member = &members[i];
            let ghost mid = *self;
            if !member.is_bot && member.can_view {
                let was_new = !self.enrolled_users.contains_key(&member.id);
                self.enroll_user_at(member.id, member.name.clone(), now);
                if was_new {
                    grew = true;
                }
                proof {
                    let k = member.id;
                    if was_new {
                        assert forall|j: int| 0 <= j < i implies !(eligible(#[trigger] m[j]) && m[j].id == k) by {
                            if eligible(m[j]) && m[j].id == k {
                                assert(mid.users().contains_key(k));
                            }
                        }
                        assert(!pre.users().contains_key(k));
                    } else {
                        assert(mid.users().contains_key(k));
                        if !pre.users().contains_key(k) {
                            let j = choose|j: int| 0 <= j < i && eligible(m[j]) && m[j].id == k;
                            assert(eligible(m[j]) && !pre.users().contains_key(m[j].id));
                        }
                    }
                    assert forall|k2: u64| #[trigger] self.users().contains_key(k2) <==> (pre.users().contains_key(k2)
                        || exists|j: int| 0 <= j < i + 1 && eligible(#[trigger] m[j]) && m[j].id == k2) by {
                        if exists|j: int| 0 <= j < i + 1 && eligible(#[trigger] m[j]) && m[j].id == k2 {
                            let j = choose|j: int| 0 <= j < i + 1 && eligible(#[trigger] m[j]) && m[j].id == k2;
                            if j < i {
                                assert(mid.users().contains_key(k2));
                            }
                        }
                        if mid.users().contains_key(k2) && !pre.users().contains_key(k2) {
                            let j = choose|j: int| 0 <= j < i && eligible(#[trigger] m[j]) && m[j].id == k2;
                            assert(0 <= j < i + 1 && eligible(m[j]) && m[j].id == k2);
                        }
                    }
                    assert forall|k2: u64| #[trigger] pre.users().contains_key(k2)
                        implies self.users()[k2] == pre.users()[k2] by {
                        assert(mid.users().contains_key(k2));
                    }
                    assert forall|k2: u64| #[trigger] self.users().contains_key(k2) && !pre.users().contains_key(k2)
                        implies new_member_record(self.users()[k2], m, i + 1, k2, now as int) by {
                        if k2 != k || !was_new {
                            assert(mid.users().contains_key(k2));
                            let j = choose|j: int| 0 <= j < i && first_eligible(m, j, k2)
                                && mid.users()[k2].user_name@ == m[j].name@;
                        } else {
                            assert(first_eligible(m, i as int, k2));
                        }
                    }
                }
            } else {
                proof {
                    assert forall|k2: u64| #[trigger] self.users().contains_key(k2) <==> (pre.users().contains_key(k2)
                        || exists|j: int| 0 <= j < i + 1 && eligible(#[trigger] m[j]) && m[j].id == k2) by {
                        if exists|j: int| 0 <= j < i + 1 && eligible(#[trigger] m[j]) && m[j].id == k2 {
                            let j = choose|j: int| 0 <= j < i + 1 && eligible(#[trigger] m[j]) && m[j].id == k2;
                            assert(j < i);
                        }
                        if self.users().contains_key(k2) && !pre.users().contains_key(k2) {
                            let j = choose|j: int| 0 <= j < i && eligible(#[trigger] m[j]) && m[j].id == k2;
                            assert(0 <= j < i + 1 && eligible(m[j]) && m[j].id == k2);
                        }
                    }
                    assert forall|k2: u64| #[trigger] self.users().contains_key(k2) && !pre.users().contains_key(k2)
                        implies new_member_record(self.users()[k2], m, i + 1, k2, now as int) by {
                        let j = choose|j: int| 0 <= j < i && first_eligible(m, j, k2)
                            && mid.users()[k2].user_name@ == m[j].name@;
                    }
                }
            }
            i = i + 1;
        }
        grew
    }

    /// Enroll now every member who is a person and can see the channel,
    /// unless already enrolled. Returns whether anyone new was enrolled.
    pub fn enroll_members(&mut self, members: &Vec<GuildMember>) -> (grew: bool)
        ensures
            exists|now: int| 0 <= now <= TIMESTAMP_LIMIT
                && #[trigger] members_enrolled(*old(self), *final(self), members@, members.len() as int, now),
            grew == exists|j: int| 0 <= j < members.len() && eligible(#[trigger] members@[j])
                && !old(self).users().contains_key(members@[j].id),
    {
        let now = utc_now();
        let grew = self.enroll_members_at(members, now.secs);
        assert(members_enrolled(*old(self), *self, members@, members.len() as int, now.secs as int));
        grew
    }

    /// The ids of all enrolled users, each once, in the map's walk order.
    pub fn user_ids(&self) -> (ids: Vec<u64>)
        ensures
            ids@.no_duplicates(),
            ids@.to_set() == self.users().dom(),
    {
        let mut ids: Vec<u64> = Vec::new();
        let ghost w = vstd::std_specs::iter::IteratorSpec::remaining(
            &vstd::std_specs::hash::spec_keys_iter(&self.enrolled_users),
        );
        for k in it: self.enrolled_users.keys()
            invariant
                it.seq() == w,
                ids@ == it.seq().take(it.index() as int).map_values(|r: &u64| *r),
                it.seq().no_duplicates(),
                it.seq().unref().to_set() == self.users().dom(),
        {
            ids.push(*k);
            proof {
                assert(it.seq().take(it.index() + 1).map_values(|r: &u64| *r) == ids@);
            }
        }
        proof {
            assert(w.take(w.len() as int) == w);
            assert forall|i: int, j: int| 0 <= i < ids@.len() && 0 <= j < ids@.len() && i != j implies ids@[i] != ids@[j] by {
                assert(w[i] != w[j]);
            }
            assert forall|k: u64| ids@.to_set().contains(k) <==> self.users().dom().contains(k) by {
                if ids@.to_set().contains(k) {
                    let i = choose|i: int| 0 <= i < ids@.len() && ids@[i] == k;
                    assert(w.unref()[i] == k);
                    assert(w.unref().contains(k));
                }
                if self.users().dom().contains(k) {
                    assert(w.unref().to_set().contains(k));
                    assert(w.unref().contains(k));
                    let i = choose|i: int| 0 <= i < w.len() && w.unref()[i] == k;
                    assert(ids@[i] == k);
                }
            }
            assert(ids@.to_set() =~= self.users().dom());
        }
        ids
    }

    /// No user could overflow the death counter by dying once more.
    pub open spec fn death_counts_fit(&self) -> bool {
        forall|k: u64| #[trigger] self.users().contains_key(k) && !self.users()[k].is_currently_dead
            ==> self.users()[k].death_count < u32::MAX
    }

    /// Mark users who crossed the 48-hour threshold by `now` as dead, counting
    /// one more death for each. Returns whether any user changed.
    pub fn update_death_states_at(&mut self, now: i64) -> (changed: bool)
        requires
            cutoff_in_range(now as int, DEATH_HOURS as int),
            old(self).death_counts_fit(),
        ensures
            final(self).same_settings(old(self)),
            final(self).users().dom() == old(self).users().dom(),
            forall|k: u64| #[trigger] old(self).users().contains_key(k)
                ==> death_checked(old(self).users()[k], final(self).users()[k], now as int),
            changed == exists|k: u64| #[trigger] old(self).users().contains_key(k)
                && newly_dead(old(self).users()[k], now as int),
            death_check_step(*old(self), *final(self), now as int, changed),
    {
        let ids = self.user_ids();
        let ghost pre = self.users();
        let mut changed = false;
        let mut i: usize = 0;
        while i < ids.len()
            invariant
                ids@.no_duplicates(),
                ids@.to_set() == pre.dom(),
                pre == old(self).users(),
                self.same_settings(old(self)),
                old(self).death_counts_fit(),
                cutoff_in_range(now as int, DEATH_HOURS as int),
                i <= ids.len(),
                self.users().dom() == pre.dom(),
                forall|j: int| 0 <= j < i ==> death_checked(pre[#[trigger] ids@[j]], self.users()[ids@[j]], now as int),
                forall|k: u64| #[trigger] pre.contains_key(k) && !ids@.take(i as int).contains(k)
                    ==> self.users()[k] == pre[k],
                changed == exists|j: int| 0 <= j < i && newly_dead(pre[#[trigger] ids@[j]], now as int),
            decreases ids.len() - i,
        {
            let k = ids[i];
            assert(ids@.to_set().contains(k));
            assert(!ids@.take(i as int).contains(k)) by {
                if ids@.take(i as int).contains(k) {
                    let j = choose|j: int| 0 <= j < i && ids@.take(i as int)[j] == k;
                    assert(ids@[j] == ids@[i as int]);
                }
            }
            let ghost mid = self.users();
            match self.enrolled_users.remove(&k) {
                Some(mut status) => {
                    if status.is_dead_at(now, DEATH_HOURS) && !status.is_currently_dead {
                        status.death_count = status.death_count + 1;
                        status.is_currently_dead = true;
                        changed = true;
                    }
                    self.enrolled_users.insert(k, status);
                },
                None => {
                    assert(false);
                },
            }
            proof {
                assert(self.users().dom() =~= pre.dom());
                assert forall|k2: u64| #[trigger] pre.contains_key(k2) && !ids@.take(i + 1).contains(k2)
                    implies self.users()[k2] == pre[k2] by {
                    assert(ids@.take(i + 1)[i as int] == k);
                    assert(k2 != k);
                    if ids@.take(i as int).contains(k2) {
                        let j = choose|j: int| 0 <= j < i && ids@.take(i as int)[j] == k2;
                        assert(ids@.take(i + 1)[j] == k2);
                    }
                }
                assert forall|j: int| 0 <= j < i + 1 implies death_checked(pre[#[trigger] ids@[j]], self.users()[ids@[j]], now as int) by {
                    if j < i {
                        assert(ids@[j] != k);
                    }
                }
            }
            i = i + 1;
        }
        proof {
            assert forall|k: u64| #[trigger] old(self).users().contains_key(k)
                implies death_checked(old(self).users()[k], self.users()[k], now as int) by {
                assert(ids@.to_set().contains(k));
                let j = choose|j: int| 0 <= j < ids@.len() && ids@[j] == k;
            }
            if exists|k: u64| #[trigger] old(self).users().contains_key(k) && newly_dead(old(self).users()[k], now as int) {
                let k = choose|k: u64| #[trigger] old(self).users().contains_key(k) && newly_dead(old(self).users()[k], now as int);
                assert(ids@.to_set().contains(k));
                let j = choose|j: int| 0 <= j < ids@.len() && ids@[j] == k;
            }
            if changed {
                let j = choose|j: int| 0 <= j < ids@.len() && newly_dead(pre[#[trigger] ids@[j]], now as int);
                assert(ids@.contains(ids@[j]));
                assert(pre.contains_key(ids@[j]));
            }
        }
        changed
    }

    /// Check for users who have crossed the 48-hour death threshold and
    /// update their status. Returns whether any user changed.
    pub fn update_death_states(&mut self) -> (changed: bool)
        requires
            old(self).death_counts_fit(),
        ensures
            final(self).same_settings(old(self)),
            final(self).users().dom() == old(self).users().dom(),
            exists|now: int| 0 <= now <= TIMESTAMP_LIMIT && #[trigger] deaths_checked(*old(self), *final(self), now, changed),
    {
        let now = utc_now();
        let changed = self.update_death_states_at(now.secs);
        assert(deaths_checked(*old(self), *self, now.secs as int, changed));
        changed
    }

    /// Users with no response within `hours` before `now`, each once, with
    /// their records.
    pub fn get_non_responders_at(&self, now: i64, hours: i64) -> (r: Vec<(u64, &UserStatus)>)
        requires
            cutoff_in_range(now as int, hours as int),
        ensures
            non_responders(*self, r@, now as int, hours as int),
    {
        let ids = self.user_ids();
        let mut out: Vec<(u64, &UserStatus)> = Vec::new();
        let mut i: usize = 0;
        while i < ids.len()
            invariant
                ids@.no_duplicates(),
                ids@.to_set() == self.users().dom(),
                cutoff_in_range(now as int, hours as int),
                i <= ids.len(),
                forall|j: int| 0 <= j < out.len() ==> {
                    &&& self.users().contains_key(#[trigger] out@[j].0)
                    &&& *out@[j].1 == self.users()[out@[j].0]
                    &&& self.users()[out@[j].0].dead_at(now as int, hours as int)
                    &&& ids@.take(i as int).contains(out@[j].0)
                },
                forall|a: int, b: int| 0 <= a < b < out.len() ==> out@[a].0 != out@[b].0,
                forall|j: int| 0 <= j < i && self.users()[#[trigger] ids@[j]].dead_at(now as int, hours as int)
                    ==> exists|t: int| 0 <= t < out.len() && out@[t].0 == ids@[j],
            decreases ids.len() - i,
        {
            let k = ids[i];
            assert(ids@.to_set().contains(k));
            assert(!ids@.take(i as int).contains(k)) by {
                if ids@.take(i as int).contains(k) {
                    let j = choose|j: int| 0 <= j < i && ids@.take(i as int)[j] == k;
                    assert(ids@[j] == ids@[i as int]);
                }
            }
            let ghost before = out@;
            match self.enrolled_users.get(&k) {
                Some(status) => {
                    if status.is_dead_at(now, hours) {
                        out.push((k, status));
                        assert(out@[before.len() as int].0 == k);
                    }
                },
                None => {
                    assert(false);
                },
            }
            proof {
                assert(ids@.take(i + 1)[i as int] == k);
                assert forall|j: int| 0 <= j < out.len() implies ids@.take(i + 1).contains(#[trigger] out@[j].0) by {
                    if j < before.len() {
                        assert(out@[j] == before[j]);
                        let t = choose|t: int| 0 <= t < i && ids@.take(i as int)[t] == out@[j].0;
                        assert(ids@.take(i + 1)[t] == out@[j].0);
                    }
                }
                assert forall|a: int, b: int| 0 <= a < b < out.len() implies out@[a].0 != out@[b].0 by {
                    if b == before.len() {
                        assert(out@[a] == before[a]);
                    } else {
                        assert(out@[a] == before[a] && out@[b] == before[b]);
                    }
                }
                assert forall|j: int| 0 <= j < i + 1 && self.users()[#[trigger] ids@[j]].dead_at(now as int, hours as int)
                    implies exists|t: int| 0 <= t < out.len() && out@[t].0 == ids@[j] by {
                    if j < i {
                        let t = choose|t: int| 0 <= t < before.len() && before[t].0 == ids@[j];
                        assert(out@[t] == before[t]);
                    } else {
                        assert(out@[before.len() as int].0 == k);
                    }
                }
            }
            i = i + 1;
        }
        proof {
            assert forall|k: u64| #[trigger] self.users().contains_key(k) && self.users()[k].dead_at(now as int, hours as int)
                implies exists|t: int| 0 <= t < out.len() && out@[t].0 == k by {
                assert(ids@.to_set().contains(k));
                let j = choose|j: int| 0 <= j < ids@.len() && ids@[j] == k;
            }
        }
        out
    }

    /// Users with no response in the last `hours`, each once, with their records.
    pub fn get_non_responders(&self, hours: i64) -> (r: Vec<(u64, &UserStatus)>)
        requires
            hours_in_range(hours as int),
        ensures
            exists|now: int| 0 <= now <= TIMESTAMP_LIMIT && #[trigger] non_responders(*self, r@, now, hours as int),
    {
        let now = utc_now();
        let r = self.get_non_responders_at(now.secs, hours);
        assert(non_responders(*self, r@, now.secs as int, hours as int));
        r
    }

    /// Whether the daily message for the scheduled occurrence `due` has not
    /// been sent yet.
    pub open spec fn scheduled_send_due_spec(&self, due: int) -> bool {
        self.last_scheduled_sent < due
    }

    /// Whether the daily message for the scheduled occurrence `due` has not
    /// been sent yet.
    pub fn scheduled_send_due(&self, due: i64) -> (r: bool)
        ensures
            r == self.scheduled_send_due_spec(due as int),
    {
        self.last_scheduled_sent < due
    }

    /// The scheduled occurrence that is due at `now`.
    pub fn due_occurrence_at(&self, now: i64) -> (r: i64)
        requires
            self.send_hour <= 23,
            self.send_minute <= 59,
            time_in_range(now as int),
        ensures
            r == scheduled_occurrence(now as int, self.send_hour as int, self.send_minute as int),
    {
        scheduled_occurrence_at(now, self.send_hour, self.send_minute)
    }

    /// Record that the message `message_id` was sent at `now` for the
    /// scheduled occurrence `due`.
    pub fn record_scheduled_send(&mut self, message_id: u64, now: i64, due: i64)
        ensures
            final(self).message_id == Some(message_id),
            final(self).last_sent == now,
            final(self).last_scheduled_sent == due,
            final(self).users() == old(self).users(),
            final(self).channel_id == old(self).channel_id,
            final(self).guild_id == old(self).guild_id,
            final(self).send_hour == old(self).send_hour,
            final(self).send_minute == old(self).send_minute,
    {
        self.message_id = Some(message_id);
        self.last_sent = now;
        self.last_scheduled_sent = due;
    }

    /// Record a send outside the schedule: the scheduled bookkeeping is left
    /// alone, so a forced send never suppresses the next scheduled one.
    pub fn record_forced_send(&mut self, message_id: u64, now: i64)
        ensures
            final(self).message_id == Some(message_id),
            final(self).last_sent == now,
            final(self).last_scheduled_sent == old(self).last_scheduled_sent,
            final(self).users() == old(self).users(),
            final(self).channel_id == old(self).channel_id,
            final(self).guild_id == old(self).guild_id,
            final(self).send_hour == old(self).send_hour,
            final(self).send_minute == old(self).send_minute,
    {
        self.message_id = Some(message_id);
        self.last_sent = now;
    }

    /// Record the first message of a newly started check, marking the
    /// scheduled occurrence `due` as served so the next send lands on the
    /// following day's occurrence.
    pub fn record_start(&mut self, message_id: u64, due: i64)
        ensures
            final(self).message_id == Some(message_id),
            final(self).last_sent == old(self).last_sent,
            final(self).last_scheduled_sent == due,
            final(self).users() == old(self).users(),
            final(self).channel_id == old(self).channel_id,
            final(self).guild_id == old(self).guild_id,
            final(self).send_hour == old(self).send_hour,
            final(self).send_minute == old(self).send_minute,
    {
        self.message_id = Some(message_id);
        self.last_scheduled_sent = due;
    }

    /// Set the daily send time.
    pub fn set_schedule(&mut self, hour: u32, minute: u32)
        ensures
            final(self).send_hour == hour,
            final(self).send_minute == minute,
            final(self).message_id == old(self).message_id,
            final(self).last_sent == old(self).last_sent,
            final(self).last_scheduled_sent == old(self).last_scheduled_sent,
            final(self).users() == old(self).users(),
            final(self).channel_id == old(self).channel_id,
            final(self).guild_id == old(self).guild_id,
    {
        self.send_hour = hour;
        self.send_minute = minute;
    }

    /// How many of the users `ids` are alive at `now`.
    pub fn alive_count_at(&self, ids: &Vec<u64>, now: i64) -> (n: usize)
        ensures
            n == alive_count(self.users(), ids@, now as int),
            n <= ids.len(),
    {
        let mut n: usize = 0;
        let mut i: usize = 0;
        assert(ids@.take(0) == Seq::<u64>::empty());
        while i < ids.len()
            invariant
                i <= ids.len(),
                n == alive_count(self.users(), ids@.take(i as int), now as int),
                n <= i,
            decreases ids.len() - i,
        {
            let k = ids[i];
            assert(ids@.take(i + 1).drop_last() == ids@.take(i as int));
            let alive = match self.enrolled_users.get(&k) {
                Some(status) => !(status.is_currently_dead || (status.last_response as i128) < (now as i128) - 48 * 3600),
                None => false,
            };
            if alive {
                n = n + 1;
            }
            i = i + 1;
        }
        assert(ids@.take(ids.len() as int) == ids@);
        n
    }

    /// The enrolled users in leaderboard order at `now`: users still alive
    /// before dead ones, and longer alive streaks first within each group.
    /// Users that tie keep the map's walk order.
    pub fn leaderboard_order_at(&self, now: i64) -> (order: Vec<u64>)
        ensures
            order@.no_duplicates(),
            order@.to_set() == self.users().dom(),
            order.len() == self.users().dom().len(),
            forall|a: int, b: int| 0 <= a < b < order.len() ==> ranks_no_later(
                self.users()[#[trigger] order@[a]],
                self.users()[#[trigger] order@[b]],
                now as int,
            ),
    {
        let ids = self.user_ids();
        let mut order: Vec<u64> = Vec::new();
        let mut scores: Vec<i128> = Vec::new();
        let mut i: usize = 0;
        while i < ids.len()
            invariant
                ids@.no_duplicates(),
                ids@.to_set() == self.users().dom(),
                i <= ids.len(),
                order.len() == scores.len() == i,
                forall|j: int| 0 <= j < order.len() ==> scores@[j] == rank_score(self.users()[#[trigger] order@[j]], now as int),
                forall|a: int, b: int| 0 <= a < b < scores.len() ==> scores@[a] >= scores@[b],
                forall|j: int| 0 <= j < order.len() ==> ids@.take(i as int).contains(#[trigger] order@[j]),
                forall|j: int| 0 <= j < i ==> order@.contains(#[trigger] ids@[j]),
                forall|a: int, b: int| 0 <= a < b < order.len() ==> order@[a] != order@[b],
            decreases ids.len() - i,
        {
            let k = ids[i];
            assert(ids@.to_set().contains(k));
            assert(!ids@.take(i as int).contains(k)) by {
                if ids@.take(i as int).contains(k) {
                    let j = choose|j: int| 0 <= j < i && ids@.take(i as int)[j] == k;
                    assert(ids@[j] == ids@[i as int]);
                }
            }
            let sc = match self.enrolled_users.get(&k) {
                Some(status) => score_of(status, now),
                None => {
                    assert(false);
                    0
                },
            };
            let mut p: usize = 0;
            while p < scores.len() && scores[p] >= sc
                invariant
                    p <= scores.len(),
                    forall|j: int| 0 <= j < p ==> scores@[j] >= sc,
                decreases scores.len() - p,
            {
                p = p + 1;
            }
            let ghost old_order = order@;
            let ghost old_scores = scores@;
            order.insert(p, k);
            scores.insert(p, sc);
            proof {
                old_order.insert_ensures(p as int, k);
                old_scores.insert_ensures(p as int, sc);
                assert(ids@.take(i + 1)[i as int] == k);
                assert forall|j: int| 0 <= j < order.len() implies scores@[j] == rank_score(self.users()[#[trigger] order@[j]], now as int) by {
                    if j > p { assert(order@[j] == old_order[j - 1]); assert(scores@[j] == old_scores[j - 1]); }
                }
                assert forall|a: int, b: int| 0 <= a < b < scores.len() implies scores@[a] >= scores@[b] by {
                    if b < p {
                    } else if b == p {
                    } else if a < p {
                        assert(scores@[b] == old_scores[b - 1]);
                        assert(old_scores[p as int] < sc);
                        if b - 1 > p { assert(old_scores[p as int] >= old_scores[b - 1]); }
                    } else if a == p {
                        assert(scores@[b] == old_scores[b - 1]);
                        assert(old_scores[p as int] < sc);
                        if b - 1 > p { assert(old_scores[p as int] >= old_scores[b - 1]); }
                    } else {
                        assert(scores@[a] == old_scores[a - 1]);
                        assert(scores@[b] == old_scores[b - 1]);
                    }
                }
                assert forall|j: int| 0 <= j < order.len() implies ids@.take(i + 1).contains(#[trigger] order@[j]) by {
                    if j != p {
                        let jj = if j < p { j } else { j - 1 };
                        assert(order@[j] == old_order[jj]);
                        let t = choose|t: int| 0 <= t < i && ids@.take(i as int)[t] == old_order[jj];
                        assert(ids@.take(i + 1)[t] == order@[j]);
                    }
                }
                assert forall|j: int| 0 <= j < i + 1 implies order@.contains(#[trigger] ids@[j]) by {
                    if j < i {
                        let t = choose|t: int| 0 <= t < old_order.len() && old_order[t] == ids@[j];
                        if t < p { assert(order@[t] == ids@[j]); } else { assert(order@[t + 1] == ids@[j]); }
                    } else {
                        assert(order@[p as int] == k);
                    }
                }
                assert forall|a: int, b: int| 0 <= a < b < order.len() implies order@[a] != order@[b] by {
                    if a == p {
                        let bb = b - 1;
                        assert(order@[b] == old_order[bb]);
                        assert(ids@.take(i as int).contains(old_order[bb]));
                    } else if b == p {
                        assert(order@[a] == old_order[a]);
                        assert(ids@.take(i as int).contains(old_order[a]));
                    } else {
                        let aa = if a < p { a } else { a - 1 };
                        let bb = if b < p { b } else { b - 1 };
                        assert(order@[a] == old_order[aa]);
                        assert(order@[b] == old_order[bb]);
                    }
                }
            }
            i = i + 1;
        }
        proof {
            assert forall|x: u64| order@.to_set().contains(x) <==> self.users().dom().contains(x) by {
                if order@.to_set().contains(x) {
                    let j = choose|j: int| 0 <= j < order.len() && order@[j] == x;
                    assert(ids@.take(i as int).contains(order@[j]));
                    let t = choose|t: int| 0 <= t < i && ids@.take(i as int)[t] == x;
                    assert(ids@.contains(x));
                }
                if self.users().dom().contains(x) {
                    assert(ids@.to_set().contains(x));
                    let t = choose|t: int| 0 <= t < ids@.len() && ids@[t] == x;
                    assert(order@.contains(ids@[t]));
                }
            }
            assert(order@.to_set() =~= self.users().dom());
            order@.unique_seq_to_set();
            assert forall|a: int, b: int| 0 <= a < b < order.len() implies ranks_no_later(
                self.users()[#[trigger] order@[a]],
                self.users()[#[trigger] order@[b]],
                now as int,
            ) by {
                lemma_rank_score(self.users()[order@[a]], self.users()[order@[b]], now as int);
            }
        }
        order
    }
}

/// How many of the users `ids` are enrolled and alive at `now`.
pub open spec fn alive_count(users: Map<u64, UserStatus>, ids: Seq<u64>, now: int) -> nat
    decreases ids.len(),
{
    if ids.len() == 0 {
        0
    } else {
        alive_count(users, ids.drop_last(), now) + (if users.contains_key(ids.last())
            && !users[ids.last()].counts_as_dead(now) { 1nat } else { 0nat })
    }
}

/// The sort key of the leaderboard: dead users below everyone alive, and
/// within each group the alive streak.
pub open spec fn rank_score(u: UserStatus, now: int) -> int {
    if u.counts_as_dead(now) {
        u.alive_streak() - 0x4_0000_0000_0000_0000
    } else {
        u.alive_streak()
    }
}

/// `a` may stand above `b` on the leaderboard at `now`: `a` is alive and
/// `b` dead, or both are in the same state and `a`'s streak is at least `b`'s.
pub open spec fn ranks_no_later(a: UserStatus, b: UserStatus, now: int) -> bool {
    ||| !a.counts_as_dead(now) && b.counts_as_dead(now)
    ||| a.counts_as_dead(now) == b.counts_as_dead(now) && a.alive_streak() >= b.alive_streak()
}

proof fn lemma_rank_score(a: UserStatus, b: UserStatus, now: int)
    requires
        rank_score(a, now) >= rank_score(b, now),
    ensures
        ranks_no_later(a, b, now),
{
}

/// The leaderboard sort key of `u` at `now`.
fn score_of(u: &UserStatus, now: i64) -> (r: i128)
    ensures
        r == rank_score(*u, now as int),
{
    let start: i64 = if u.last_alive_start == 0 { LEGACY_STREAK_START } else { u.last_alive_start };
    let streak: i128 = u.last_response as i128 - start as i128;
    let dead = u.is_currently_dead || (u.last_response as i128) < (now as i128) - 48 * 3600;
    if dead {
        streak - 0x4_0000_0000_0000_0000
    } else {
        streak
    }
}


/// The database key of a channel's check-in state: `aydy_<channel id>`.
pub open spec fn aydy_key_spec(channel_id: u64) -> Seq<char> {
    seq!['a', 'y', 'd', 'y', '_'] + decimal(channel_id as nat)
}

/// The database key of a channel's check-in state.
pub fn aydy_key(channel_id: u64) -> (r: String)
    ensures
        r@ == aydy_key_spec(channel_id),
{
    let mut r = String::new();
    crate::text::push_char(&mut r, 'a');
    crate::text::push_char(&mut r, 'y');
    crate::text::push_char(&mut r, 'd');
    crate::text::push_char(&mut r, 'y');
    crate::text::push_char(&mut r, '_');
    push_decimal(&mut r, channel_id);
    r
}

/// The daily send time requested by `hour` and an optional `minute`
/// (defaulting to 0), or `None` when it is not a valid time of day.
pub fn schedule_time(hour: u32, minute: Option<u32>) -> (r: Option<(u32, u32)>)
    ensures
        r == (if hour <= 23 && minute.unwrap_or(0) <= 59 {
            Some((hour, minute.unwrap_or(0)))
        } else {
            None
        }),
{
    let minute = match minute {
        Some(m) => m,
        None => 0,
    };
    if hour > 23 || minute > 59 {
        None
    } else {
        Some((hour, minute))
    }
}

/// A number written with at least two digits (`{:02}`).
pub open spec fn two_digits(n: nat) -> Seq<char> {
    if n < 10 {
        seq!['0'] + decimal(n)
    } else {
        decimal(n)
    }
}

fn push_two_digits(out: &mut String, n: u32)
    ensures
        final(out)@ == old(out)@ + two_digits(n as nat),
{
    if n < 10 {
        crate::text::push_char(out, '0');
        push_decimal(out, n as u64);
        assert(old(out)@.push('0') + decimal(n as nat) == old(out)@ + (seq!['0'] + decimal(n as nat)));
    } else {
        push_decimal(out, n as u64);
    }
}

/// The confirmation shown after the daily send time changed.
pub fn schedule_confirmation(hour: u32, minute: u32) -> (r: String)
    ensures
        r@ == "AYDY check will now be sent daily at **"@ + two_digits(hour as nat) + seq![':']
            + two_digits(minute as nat) + " UTC**."@,
{
    let mut r = String::from_str("AYDY check will now be sent daily at **");
    push_two_digits(&mut r, hour);
    crate::text::push_char(&mut r, ':');
    push_two_digits(&mut r, minute);
    r.append(" UTC**.");
    r
}

impl AydyState {
    /// The reply to a check-in by `user_id` named `user_name`: a welcome for a
    /// new user, a welcome back with the death count for one who was dead,
    /// thanks otherwise.
    pub fn check_in_reply(&self, user_id: u64, is_new: bool, was_dead: bool, user_name: &str) -> (r: String)
        ensures
            is_new ==> r@ == "✅ Welcome "@ + user_name@ + "! You've been enrolled in the AYDY check."@,
            !is_new && was_dead ==> r@ == "💀 Welcome back from the dead, "@ + user_name@
                + "! Your death count is now "@ + decimal(
                (if self.users().contains_key(user_id) { self.users()[user_id].death_count } else { 0 }) as nat,
            ) + "."@,
            !is_new && !was_dead ==> r@ == "✅ Thanks for checking in, "@ + user_name@ + "!"@,
    {
        if is_new {
            let mut r = String::from_str("✅ Welcome ");
            r.append(user_name);
            r.append("! You've been enrolled in the AYDY check.");
            r
        } else if was_dead {
            let count: u32 = match self.enrolled_users.get(&user_id) {
                Some(s) => s.death_count,
                None => 0,
            };
            let mut r = String::from_str("💀 Welcome back from the dead, ");
            r.append(user_name);
            r.append("! Your death count is now ");
            push_decimal(&mut r, count as u64);
            r.append(".");
            r
        } else {
            let mut r = String::from_str("✅ Thanks for checking in, ");
            r.append(user_name);
            r.append("!");
            r
        }
    }
}

/// The leaderboard's text when nobody is enrolled.
pub fn empty_leaderboard_text() -> (r: &'static str)
    ensures
        r@ == "No enrolled users yet!"@,
{
    "No enrolled users yet!"
}

/// The leaderboard footer: `alive` users alive and the rest of `total` dead.
pub open spec fn leaderboard_footer_spec(alive: nat, total: nat) -> Seq<char> {
    decimal(alive) + " alive · "@ + decimal((total - alive) as nat) + " dead · "@ + decimal(total) + " total enrolled"@
}

/// The leaderboard footer, from the number of users alive and enrolled.
pub fn leaderboard_footer(alive: usize, total: usize) -> (r: String)
    requires
        alive <= total,
    ensures
        r@ == leaderboard_footer_spec(alive as nat, total as nat),
{
    let mut r = String::new();
    push_decimal(&mut r, alive as u64);
    r.append(" alive · ");
    push_decimal(&mut r, (total - alive) as u64);
    r.append(" dead · ");
    push_decimal(&mut r, total as u64);
    r.append(" total enrolled");
    r
}

/// The rank mark of the leaderboard's `rank`-th line (from 0): medals for
/// the first three.
pub open spec fn rank_mark(rank: int) -> Seq<char> {
    if rank == 0 {
        "🥇"@
    } else if rank == 1 {
        "🥈"@
    } else if rank == 2 {
        "🥉"@
    } else {
        "▫️"@
    }
}

/// A leaderboard line: rank mark, name, status icon, the streak (already
/// written out) or R.I.P., and the death count.
pub open spec fn leaderboard_line_spec(rank: int, name: Seq<char>, deaths: u32, dead: bool, streak: Seq<char>) -> Seq<char> {
    rank_mark(rank) + " **"@ + name + "** "@
        + (if dead { "<a:xqcL:923554657773699082>"@ } else { "<:xdd:1106775701832609902>"@ })
        + " - "@ + (if dead { "⚰️ R.I.P."@ } else { streak + " alive"@ })
        + " · "@ + decimal(deaths as nat) + " death"@ + (if deaths == 1 { seq![] } else { "s"@ }) + "\n"@
}

/// The leaderboard line of `status` at position `rank` (from 0), given
/// whether the user counts as dead and the streak as it is displayed.
pub fn leaderboard_line(rank: usize, status: &UserStatus, dead: bool, streak_text: &str) -> (r: String)
    ensures
        r@ == leaderboard_line_spec(rank as int, status.user_name@, status.death_count, dead, streak_text@),
{
    let mut r = if rank == 0 {
        String::from_str("🥇")
    } else if rank == 1 {
        String::from_str("🥈")
    } else if rank == 2 {
        String::from_str("🥉")
    } else {
        String::from_str("▫️")
    };
    r.append(" **");
    r.append(status.user_name.as_str());
    r.append("** ");
    if dead {
        r.append("<a:xqcL:923554657773699082>");
    } else {
        r.append("<:xdd:1106775701832609902>");
    }
    r.append(" - ");
    if dead {
        r.append("⚰️ R.I.P.");
    } else {
        r.append(streak_text);
        r.append(" alive");
    }
    r.append(" · ");
    push_decimal(&mut r, status.death_count as u64);
    r.append(" death");
    if status.death_count != 1 {
        r.append("s");
    }
    proof {
        let base = rank_mark(rank as int) + " **"@ + status.user_name@ + "** "@
            + (if dead { "<a:xqcL:923554657773699082>"@ } else { "<:xdd:1106775701832609902>"@ })
            + " - "@ + (if dead { "⚰️ R.I.P."@ } else { streak_text@ + " alive"@ })
            + " · "@ + decimal(status.death_count as nat) + " death"@;
        if status.death_count == 1 {
            assert(base + seq![] == base);
        }
    }
    r.append("\n");
    r
}

/// A user who has just checked in is alive at that moment.
pub proof fn lemma_check_in_revives(o: UserStatus, u: UserStatus, name: Seq<char>, now: int, was_dead: bool)
    requires
        checked_in(o, u, name, now, was_dead),
    ensures
        !u.counts_as_dead(now),
        u.death_count == o.death_count,
{
}

/// The death check is idempotent: right after it, nobody is newly dead at
/// the same time, so a second check changes nothing.
pub proof fn lemma_death_check_idempotent(o: UserStatus, u: UserStatus, w: UserStatus, now: int)
    requires
        death_checked(o, u, now),
        death_checked(u, w, now),
    ensures
        !newly_dead(u, now),
        w == u,
{
}

/// A death is counted once per dead spell: a second death check at the same
/// time reports no change and leaves the state as it was, and the first
/// check keeps every death count able to grow once more.
pub proof fn lemma_second_death_check(s0: AydyState, s1: AydyState, s2: AydyState, now: int, c1: bool, c2: bool)
    requires
        death_check_step(s0, s1, now, c1),
        death_check_step(s1, s2, now, c2),
    ensures
        !c2,
        s2.users() == s1.users(),
        s2.same_settings(&s1),
        s0.death_counts_fit() ==> s1.death_counts_fit(),
{
    assert forall|k: u64| #[trigger] s1.users().contains_key(k) implies !newly_dead(s1.users()[k], now)
        && s2.users()[k] == s1.users()[k] by {
        lemma_death_check_idempotent(s0.users()[k], s1.users()[k], s2.users()[k], now);
    }
    assert(s2.users() =~= s1.users());
    if s0.death_counts_fit() {
        assert forall|k: u64| #[trigger] s1.users().contains_key(k) && !s1.users()[k].is_currently_dead
            implies s1.users()[k].death_count < u32::MAX by {
            assert(death_checked(s0.users()[k], s1.users()[k], now));
        }
    }
}

/// Death counts never go down, and go up by exactly one when a user dies.
pub proof fn lemma_death_count_monotone(o: UserStatus, u: UserStatus, now: int)
    requires
        death_checked(o, u, now),
    ensures
        u.death_count >= o.death_count,
        u.death_count == o.death_count + (if newly_dead(o, now) { 1int } else { 0int }),
        u.is_currently_dead == (o.is_currently_dead || o.dead_at(now, DEATH_HOURS as int)),
{
}

/// The check goes out once a day: after the occurrence due at `now` has
/// been recorded as sent, at any later time `t` a scheduled send is due
/// again exactly when a full day has passed since that occurrence. In
/// particular the same occurrence is never sent twice.
pub proof fn lemma_daily_send(state: AydyState, now: int, t: int)
    requires
        state.send_hour <= 23,
        state.send_minute <= 59,
        state.last_scheduled_sent == scheduled_occurrence(now, state.send_hour as int, state.send_minute as int),
        now <= t,
    ensures
        !state.scheduled_send_due_spec(state.last_scheduled_sent as int),
        state.scheduled_send_due_spec(scheduled_occurrence(t, state.send_hour as int, state.send_minute as int))
            <==> t >= state.last_scheduled_sent + 86400,
{
    lemma_occurrence_advances(now, t, state.send_hour as int, state.send_minute as int);
}

/// A forced send leaves the schedule's bookkeeping alone: whatever
/// occurrence was due before is still due after it.
pub proof fn lemma_forced_send_keeps_schedule(pre: AydyState, post: AydyState, due: int)
    requires
        post.last_scheduled_sent == pre.last_scheduled_sent,
    ensures
        post.scheduled_send_due_spec(due) == pre.scheduled_send_due_spec(due),
{
}


/// `s`, or when it is longer than `max_len` bytes its first `max_len - 1`
/// bytes followed by `…`.
pub fn truncate_string(s: &str, max_len: usize) -> (r: String)
    requires
        crate::text::byte_len(s@) > max_len ==> max_len >= 1 && crate::text::at_char_boundary(s@, max_len - 1),
    ensures
        r@ == (if crate::text::byte_len(s@) <= max_len {
            s@
        } else {
            crate::text::byte_prefix(s@, max_len - 1) + seq!['…']
        }),
{
    if crate::text::byte_len_of(s) <= max_len {
        s.to_owned()
    } else {
        let mut r = crate::text::byte_prefix_str(s, max_len - 1);
        crate::text::push_char(&mut r, '…');
        assert(r@ == crate::text::byte_prefix(s@, max_len - 1) + seq!['…']);
        r
    }
}


/// `• name` lines for the users `ids`.
pub open spec fn name_lines(users: Map<u64, UserStatus>, ids: Seq<u64>) -> Seq<char>
    decreases ids.len(),
{
    if ids.len() == 0 {
        seq![]
    } else {
        name_lines(users, ids.drop_last()) + "• "@ + users[ids.last()].user_name@ + "\n"@
    }
}

/// `• name (last seen: <t:time:R>)` lines for users who stopped responding.
pub open spec fn late_lines(late: Seq<(u64, &UserStatus)>) -> Seq<char>
    decreases late.len(),
{
    if late.len() == 0 {
        seq![]
    } else {
        late_lines(late.drop_last()) + "• "@ + late.last().1.user_name@ + " (last seen: <t:"@
            + signed_decimal(late.last().1.last_response as int) + ":R>)\n"@
    }
}

/// `• name - Last response: <t:time:R>` lines for the users `ids`.
pub open spec fn response_lines(users: Map<u64, UserStatus>, ids: Seq<u64>) -> Seq<char>
    decreases ids.len(),
{
    if ids.len() == 0 {
        seq![]
    } else {
        response_lines(users, ids.drop_last()) + "• "@ + users[ids.last()].user_name@ + " - Last response: <t:"@
            + signed_decimal(users[ids.last()].last_response as int) + ":R>\n"@
    }
}

/// The text of the check-in message: the enrolled users, then those who
/// have not responded in 48 hours.
pub open spec fn check_in_text(users: Map<u64, UserStatus>, ids: Seq<u64>, late: Seq<(u64, &UserStatus)>) -> Seq<char> {
    "Click the button below to let us know you're alive!\n\n"@
        + (if ids.len() > 0 { "**Enrolled Users:**\n"@ + name_lines(users, ids) + "\n"@ } else { seq![] })
        + "**⚠️ No response in 48 hours:**\n"@
        + (if late.len() == 0 { "• None\n"@ } else { late_lines(late) })
}

/// The text of the status report: how many are enrolled and silent, then
/// each enrolled user's last response.
pub open spec fn status_text(users: Map<u64, UserStatus>, ids: Seq<u64>, late_count: nat) -> Seq<char> {
    "**Enrolled users:** "@ + decimal(ids.len()) + "\n"@ + "**Non-responders (48h):** "@ + decimal(late_count)
        + "\n\n"@ + (if ids.len() > 0 { "**Enrolled Users:**\n"@ + response_lines(users, ids) } else { seq![] })
}

impl AydyState {
    fn push_name_lines(&self, out: &mut String, ids: &Vec<u64>)
        requires
            forall|j: int| 0 <= j < ids.len() ==> self.users().contains_key(#[trigger] ids@[j]),
        ensures
            final(out)@ == old(out)@ + name_lines(self.users(), ids@),
    {
        let mut i: usize = 0;
        assert(ids@.take(0) == Seq::<u64>::empty());
        assert(old(out)@ + Seq::<char>::empty() == old(out)@);
        while i < ids.len()
            invariant
                i <= ids.len(),
                forall|j: int| 0 <= j < ids.len() ==> self.users().contains_key(#[trigger] ids@[j]),
                out@ == old(out)@ + name_lines(self.users(), ids@.take(i as int)),
            decreases ids.len() - i,
        {
            let k = ids[i];
            assert(ids@.take(i + 1).drop_last() == ids@.take(i as int));
            assert(self.users().contains_key(k));
            match self.enrolled_users.get(&k) {
                Some(u) => {
                    out.append("• ");
                    out.append(u.user_name.as_str());
                    out.append("\n");
                },
                None => {
                    assert(false);
                },
            }
            i = i + 1;
        }
        assert(ids@.take(ids.len() as int) == ids@);
    }

    fn push_response_lines(&self, out: &mut String, ids: &Vec<u64>)
        requires
            forall|j: int| 0 <= j < ids.len() ==> self.users().contains_key(#[trigger] ids@[j]),
        ensures
            final(out)@ == old(out)@ + response_lines(self.users(), ids@),
    {
        let mut i: usize = 0;
        assert(ids@.take(0) == Seq::<u64>::empty());
        assert(old(out)@ + Seq::<char>::empty() == old(out)@);
        while i < ids.len()
            invariant
                i <= ids.len(),
                forall|j: int| 0 <= j < ids.len() ==> self.users().contains_key(#[trigger] ids@[j]),
                out@ == old(out)@ + response_lines(self.users(), ids@.take(i as int)),
            decreases ids.len() - i,
        {
            let k = ids[i];
            assert(ids@.take(i + 1).drop_last() == ids@.take(i as int));
            assert(self.users().contains_key(k));
            match self.enrolled_users.get(&k) {
                Some(u) => {
                    out.append("• ");
                    out.append(u.user_name.as_str());
                    out.append(" - Last response: <t:");
                    push_signed_decimal(out, u.last_response);
                    out.append(":R>\n");
                },
                None => {
                    assert(false);
                },
            }
            i = i + 1;
        }
        assert(ids@.take(ids.len() as int) == ids@);
    }

    /// The text of the check-in message, listing the users `ids` (in that
    /// order) and the users `late` who have not responded.
    pub fn check_in_description(&self, ids: &Vec<u64>, late: &Vec<(u64, &UserStatus)>) -> (r: String)
        requires
            forall|j: int| 0 <= j < ids.len() ==> self.users().contains_key(#[trigger] ids@[j]),
        ensures
            r@ == check_in_text(self.users(), ids@, late@),
    {
        let mut r = String::from_str("Click the button below to let us know you're alive!\n\n");
        if ids.len() > 0 {
            r.append("**Enrolled Users:**\n");
            self.push_name_lines(&mut r, ids);
            r.append("\n");
        }
        r.append("**⚠️ No response in 48 hours:**\n");
        if late.len() == 0 {
            r.append("• None\n");
        } else {
            let mut i: usize = 0;
            let ghost base = r@;
            assert(late@.take(0) == Seq::<(u64, &UserStatus)>::empty());
            assert(base + Seq::<char>::empty() == base);
            while i < late.len()
                invariant
                    i <= late.len(),
                    r@ == base + late_lines(late@.take(i as int)),
                decreases late.len() - i,
            {
                assert(late@.take(i + 1).drop_last() == late@.take(i as int));
                let (_, u) = late[i];
                r.append("• ");
                r.append(u.user_name.as_str());
                r.append(" (last seen: <t:");
                push_signed_decimal(&mut r, u.last_response);
                r.append(":R>)\n");
                i = i + 1;
            }
            assert(late@.take(late.len() as int) == late@);
        }
        r
    }

    /// The text of the status report.
    pub fn status_description(&self, ids: &Vec<u64>, late_count: usize) -> (r: String)
        requires
            forall|j: int| 0 <= j < ids.len() ==> self.users().contains_key(#[trigger] ids@[j]),
        ensures
            r@ == status_text(self.users(), ids@, late_count as nat),
    {
        let mut r = String::from_str("**Enrolled users:** ");
        push_decimal(&mut r, ids.len() as u64);
        r.append("\n");
        r.append("**Non-responders (48h):** ");
        push_decimal(&mut r, late_count as u64);
        r.append("\n\n");
        if ids.len() > 0 {
            r.append("**Enrolled Users:**\n");
            self.push_response_lines(&mut r, ids);
        }
        r
    }
}


/// The figures shown for a user on the web leaderboard.
pub struct WebUserFigures {
    /// Where the alive streak starts.
    pub last_alive_start: i64,
    /// Dead by the stored flag or by more than 48 hours of silence.
    pub is_dead: bool,
    /// Length of the alive streak in seconds, for a user who is alive.
    pub alive_seconds: Option<i128>,
}

/// The streak start of a stored record: a missing or zero start means the
/// legacy start.
pub open spec fn streak_start_of(stored_alive_start: Option<i64>) -> i64 {
    match stored_alive_start {
        Some(t) => if t == 0 { LEGACY_STREAK_START } else { t },
        None => LEGACY_STREAK_START,
    }
}

/// The figures of a stored user record as the web view reads it: the user
/// is dead when the stored flag says so or the last response is more than
/// 48 hours before `now`; a dead user has no alive streak.
pub open spec fn web_figures(stored_alive_start: Option<i64>, last_response: int, stored_dead: bool, now: int) -> WebUserFigures {
    let start = streak_start_of(stored_alive_start);
    let dead = stored_dead || now - last_response > 48 * 3600;
    WebUserFigures {
        last_alive_start: start,
        is_dead: dead,
        alive_seconds: if dead { None } else { Some((last_response - start) as i128) },
    }
}

/// The figures of a stored user record, computed without overflow.
pub fn web_user_figures(stored_alive_start: Option<i64>, last_response: i64, stored_dead: bool, now: i64) -> (r: WebUserFigures)
    ensures
        r == web_figures(stored_alive_start, last_response as int, stored_dead, now as int),
{
    let start = match stored_alive_start {
        Some(t) => if t == 0 { LEGACY_STREAK_START } else { t },
        None => LEGACY_STREAK_START,
    };
    let is_dead = stored_dead || (now as i128 - last_response as i128) > 48 * 3600;
    let alive_seconds = if is_dead { None } else { Some(last_response as i128 - start as i128) };
    WebUserFigures { last_alive_start: start, is_dead, alive_seconds }
}

/// The JSON Pointer of the stored record of the user under `key`.
pub open spec fn user_pointer(key: Seq<char>) -> Seq<char> {
    "/enrolled_users/"@ + pointer_token(key)
}

/// A stored integer field: its value when it is an integer that fits `i64`.
pub open spec fn stored_int(v: Option<JsonLeaf>) -> Option<i64> {
    match v {
        Some(JsonLeaf::Number(Some(t), _)) => Some(t),
        _ => None,
    }
}

/// A stored text field: its value when it is a string.
pub open spec fn stored_text(v: Option<JsonLeaf>) -> Option<Seq<char>> {
    match v {
        Some(JsonLeaf::Str(t)) => Some(t),
        _ => None,
    }
}

/// The stored streak start: `None` when the field is missing, its integer
/// value when it has one, and 0 otherwise.
pub open spec fn stored_start(v: Option<JsonLeaf>) -> Option<i64> {
    match v {
        None => None,
        Some(JsonLeaf::Number(Some(t), _)) => Some(t),
        Some(_) => Some(0),
    }
}

/// The stored dead flag: false unless the field is the boolean true.
pub open spec fn stored_flag(v: Option<JsonLeaf>) -> bool {
    v == Some(JsonLeaf::Bool(true))
}

/// The stored death count: an unsigned integer field cut to 32 bits, or 0.
pub open spec fn stored_count(v: Option<JsonLeaf>) -> u32 {
    match v {
        Some(JsonLeaf::Number(_, Some(d))) => (d % 0x1_0000_0000) as u32,
        _ => 0,
    }
}

/// The figures of the user under `key` in the stored state `text`, when its
/// record has an integer last response.
pub open spec fn record_figures(text: Seq<char>, key: Seq<char>, now: int) -> Option<WebUserFigures> {
    let p = user_pointer(key);
    match stored_int(json_at(text, p + "/last_response"@)) {
        Some(l) => Some(web_figures(
            stored_start(json_at(text, p + "/last_alive_start"@)),
            l as int,
            stored_flag(json_at(text, p + "/is_currently_dead"@)),
            now,
        )),
        None => None,
    }
}

/// A row of the web leaderboard: name, figures, deaths, last response and
/// enrolment time.
pub struct WebLeaderboardRow {
    pub user_name: String,
    pub figures: WebUserFigures,
    pub death_count: u32,
    pub last_response: i64,
    pub enrolled_at: i64,
}

/// The plain values of a leaderboard row.
pub open spec fn row_view(r: WebLeaderboardRow) -> (Seq<char>, WebUserFigures, u32, i64, i64) {
    (r.user_name@, r.figures, r.death_count, r.last_response, r.enrolled_at)
}

/// The leaderboard row of the user under `key` in the stored state `text`:
/// none unless the record is an object with a name, an integer last
/// response and an integer enrolment time.
pub open spec fn leaderboard_row(text: Seq<char>, key: Seq<char>, now: int) -> Option<(Seq<char>, WebUserFigures, u32, i64, i64)> {
    let p = user_pointer(key);
    if json_at(text, p) == Some(JsonLeaf::Object) {
        match (
            stored_text(json_at(text, p + "/user_name"@)),
            stored_int(json_at(text, p + "/last_response"@)),
            stored_int(json_at(text, p + "/enrolled_at"@)),
        ) {
            (Some(n), Some(l), Some(e)) => Some((
                n,
                web_figures(
                    stored_start(json_at(text, p + "/last_alive_start"@)),
                    l as int,
                    stored_flag(json_at(text, p + "/is_currently_dead"@)),
                    now,
                ),
                stored_count(json_at(text, p + "/death_count"@)),
                l,
                e,
            )),
            _ => None,
        }
    } else {
        None
    }
}

/// The leaderboard rows of the users under `keys`, in order, skipping those
/// without a row.
pub open spec fn leaderboard_rows(text: Seq<char>, keys: Seq<Seq<char>>, now: int) -> Seq<(Seq<char>, WebUserFigures, u32, i64, i64)>
    decreases keys.len(),
{
    if keys.len() == 0 {
        seq![]
    } else {
        let r = leaderboard_rows(text, keys.drop_last(), now);
        match leaderboard_row(text, keys.last(), now) {
            Some(x) => r.push(x),
            None => r,
        }
    }
}

/// What `get_aydy` adds to the record of the user under `key`: the resolved
/// streak start, and the figures when the record has an integer last
/// response; none unless the record is an object.
pub open spec fn record_update(text: Seq<char>, key: Seq<char>, now: int) -> Option<(i64, Option<WebUserFigures>)> {
    let p = user_pointer(key);
    if json_at(text, p) == Some(JsonLeaf::Object) {
        Some((streak_start_of(stored_start(json_at(text, p + "/last_alive_start"@))), record_figures(text, key, now)))
    } else {
        None
    }
}

/// The figures `fo` of the record under `key` agree with its stored fields
/// and with the streak start `start` shown for it: they count from that
/// start, to the stored last response, and the user is dead exactly when
/// flagged or silent for more than 48 hours before `now`.
pub open spec fn figures_agree(text: Seq<char>, key: Seq<char>, start: i64, fo: Option<WebUserFigures>, now: int) -> bool {
    fo matches Some(f) ==> {
        &&& f.last_alive_start == start
        &&& match stored_int(json_at(text, user_pointer(key) + "/last_response"@)) {
            Some(l) => {
                &&& f.is_dead == (stored_flag(json_at(text, user_pointer(key) + "/is_currently_dead"@)) || now - l > 48 * 3600)
                &&& !f.is_dead ==> f.alive_seconds == Some((l - start) as i128)
                &&& f.is_dead ==> f.alive_seconds is None
            },
            None => false,
        }
    }
}

/// The figures the web view adds to a record use the record's own streak
/// start: the one shown beside them.
pub proof fn lemma_update_uses_stored_start(text: Seq<char>, key: Seq<char>, now: int, start: i64, fo: Option<WebUserFigures>)
    requires
        record_update(text, key, now) == Some((start, fo)),
    ensures
        figures_agree(text, key, start, fo, now),
        start == streak_start_of(stored_start(json_at(text, user_pointer(key) + "/last_alive_start"@))),
{
}

/// Every update the web view makes agrees with its record as
/// [`lemma_update_uses_stored_start`] says.
pub proof fn lemma_updates_use_stored_start(text: Seq<char>, keys: Seq<Seq<char>>, now: int)
    ensures
        forall|i: int| 0 <= i < record_updates(text, keys, now).len() ==> figures_agree(
            text,
            (#[trigger] record_updates(text, keys, now)[i]).0,
            record_updates(text, keys, now)[i].1,
            record_updates(text, keys, now)[i].2,
            now,
        ),
    decreases keys.len(),
{
    if keys.len() > 0 {
        let init = keys.drop_last();
        lemma_updates_use_stored_start(text, init, now);
        let r0 = record_updates(text, init, now);
        match record_update(text, keys.last(), now) {
            Some(x) => {
                lemma_update_uses_stored_start(text, keys.last(), now, x.0, x.1);
                let r = record_updates(text, keys, now);
                assert(r == r0.push((keys.last(), x.0, x.1)));
                assert forall|i: int| 0 <= i < r.len() implies figures_agree(text, (#[trigger] r[i]).0, r[i].1, r[i].2, now) by {
                    if i < r0.len() {
                        assert(r[i] == r0[i]);
                    }
                }
            },
            None => {},
        }
    }
}

/// The additions to a user record shown by the web view.
pub struct WebUserUpdate {
    /// The user's key in `enrolled_users`.
    pub key: String,
    pub last_alive_start: i64,
    pub figures: Option<WebUserFigures>,
}

/// The plain values of an update.
pub open spec fn update_view(u: WebUserUpdate) -> (Seq<char>, i64, Option<WebUserFigures>) {
    (u.key@, u.last_alive_start, u.figures)
}

/// The updates of the users under `keys`, in order, skipping records that
/// are not objects.
pub open spec fn record_updates(text: Seq<char>, keys: Seq<Seq<char>>, now: int) -> Seq<(Seq<char>, i64, Option<WebUserFigures>)>
    decreases keys.len(),
{
    if keys.len() == 0 {
        seq![]
    } else {
        let r = record_updates(text, keys.drop_last(), now);
        match record_update(text, keys.last(), now) {
            Some(x) => r.push((keys.last(), x.0, x.1)),
            None => r,
        }
    }
}

/// The value at `base` followed by `field` in the JSON text `text`.
fn field_at(text: &str, base: &str, field: &str) -> (r: Option<JsonValue>)
    ensures
        (match r { Some(v) => Some(v@), None => None::<JsonLeaf> }) == json_at(text@, base@ + field@),
{
    let mut p = String::from_str(base);
    p.append(field);
    read_json_at(text, p.as_str())
}

fn int_field(v: Option<JsonValue>) -> (r: Option<i64>)
    ensures
        r == stored_int(match v { Some(x) => Some(x@), None => None::<JsonLeaf> }),
{
    match v {
        Some(JsonValue::Number(Some(t), _)) => Some(t),
        _ => None,
    }
}

fn start_field(v: Option<JsonValue>) -> (r: Option<i64>)
    ensures
        r == stored_start(match v { Some(x) => Some(x@), None => None::<JsonLeaf> }),
{
    match v {
        None => None,
        Some(JsonValue::Number(Some(t), _)) => Some(t),
        Some(_) => Some(0),
    }
}

fn flag_field(v: Option<JsonValue>) -> (r: bool)
    ensures
        r == stored_flag(match v { Some(x) => Some(x@), None => None::<JsonLeaf> }),
{
    match v {
        Some(JsonValue::Bool(b)) => b,
        _ => false,
    }
}

fn count_field(v: Option<JsonValue>) -> (r: u32)
    ensures
        r == stored_count(match v { Some(x) => Some(x@), None => None::<JsonLeaf> }),
{
    match v {
        Some(JsonValue::Number(_, Some(d))) => (d % 0x1_0000_0000) as u32,
        _ => 0,
    }
}

/// The pointer of the record under `key`.
fn user_pointer_of(key: &str) -> (r: String)
    ensures
        r@ == user_pointer(key@),
{
    let mut p = String::from_str("/enrolled_users/");
    push_pointer_token(&mut p, key);
    p
}

fn is_object_at(text: &str, p: &str) -> (r: bool)
    ensures
        r == (json_at(text@, p@) == Some(JsonLeaf::Object)),
{
    match read_json_at(text, p) {
        Some(JsonValue::Object) => true,
        _ => false,
    }
}

fn figures_of_record(text: &str, key: &str, now: i64) -> (r: Option<WebUserFigures>)
    ensures
        r == record_figures(text@, key@, now as int),
{
    let p = user_pointer_of(key);
    match int_field(field_at(text, p.as_str(), "/last_response")) {
        Some(l) => {
            let start = start_field(field_at(text, p.as_str(), "/last_alive_start"));
            let dead = flag_field(field_at(text, p.as_str(), "/is_currently_dead"));
            Some(web_user_figures(start, l, dead, now))
        },
        None => None,
    }
}

fn leaderboard_row_of(text: &str, key: &str, now: i64) -> (r: Option<WebLeaderboardRow>)
    ensures
        (match r { Some(x) => Some(row_view(x)), None => None::<(Seq<char>, WebUserFigures, u32, i64, i64)> })
            == leaderboard_row(text@, key@, now as int),
{
    let p = user_pointer_of(key);
    if !is_object_at(text, p.as_str()) {
        return None;
    }
    let name = match field_at(text, p.as_str(), "/user_name") {
        Some(JsonValue::Str(n)) => n,
        _ => return None,
    };
    let last = match int_field(field_at(text, p.as_str(), "/last_response")) {
        Some(l) => l,
        None => return None,
    };
    let enrolled = match int_field(field_at(text, p.as_str(), "/enrolled_at")) {
        Some(e) => e,
        None => return None,
    };
    let start = start_field(field_at(text, p.as_str(), "/last_alive_start"));
    let dead = flag_field(field_at(text, p.as_str(), "/is_currently_dead"));
    let deaths = count_field(field_at(text, p.as_str(), "/death_count"));
    Some(WebLeaderboardRow {
        user_name: name,
        figures: web_user_figures(start, last, dead, now),
        death_count: deaths,
        last_response: last,
        enrolled_at: enrolled,
    })
}

/// The web leaderboard rows of one stored check-in state, or `None` when the
/// text is not JSON or has no `enrolled_users` object.
pub fn web_leaderboard_rows(state_json: &str, now: i64) -> (r: Option<Vec<WebLeaderboardRow>>)
    ensures
        match json_keys_at(state_json@, "/enrolled_users"@) {
            None => r is None,
            Some(ks) => r matches Some(v) && v@.map_values(|x: WebLeaderboardRow| row_view(x))
                == leaderboard_rows(state_json@, ks, now as int),
        },
{
    let keys = match read_json_keys(state_json, "/enrolled_users") {
        Some(k) => k,
        None => return None,
    };
    let ghost ks = views(keys@);
    let mut out: Vec<WebLeaderboardRow> = Vec::new();
    let mut i: usize = 0;
    assert(ks.take(0) == Seq::<Seq<char>>::empty());
    while i < keys.len()
        invariant
            ks == views(keys@),
            i <= keys.len(),
            out@.map_values(|x: WebLeaderboardRow| row_view(x)) == leaderboard_rows(state_json@, ks.take(i as int), now as int),
        decreases keys.len() - i,
    {
        assert(ks.take(i + 1).drop_last() == ks.take(i as int));
        assert(ks.take(i + 1).last() == keys@[i as int]@);
        let ghost before = out@;
        match leaderboard_row_of(state_json, keys[i].as_str(), now) {
            Some(row) => {
                out.push(row);
                assert(out@.map_values(|x: WebLeaderboardRow| row_view(x))
                    == before.map_values(|x: WebLeaderboardRow| row_view(x)).push(row_view(out@.last())));
            },
            None => {},
        }
        i = i + 1;
    }
    assert(ks.take(keys.len() as int) == ks);
    Some(out)
}

/// What the web view adds to the user records of one stored check-in state,
/// or `None` when the text is not JSON or has no `enrolled_users` object.
pub fn web_user_updates(state_json: &str, now: i64) -> (r: Option<Vec<WebUserUpdate>>)
    ensures
        match json_keys_at(state_json@, "/enrolled_users"@) {
            None => r is None,
            Some(ks) => r matches Some(v) && v@.map_values(|x: WebUserUpdate| update_view(x))
                == record_updates(state_json@, ks, now as int),
        },
{
    let keys = match read_json_keys(state_json, "/enrolled_users") {
        Some(k) => k,
        None => return None,
    };
    let ghost ks = views(keys@);
    let mut out: Vec<WebUserUpdate> = Vec::new();
    let mut i: usize = 0;
    assert(ks.take(0) == Seq::<Seq<char>>::empty());
    while i < keys.len()
        invariant
            ks == views(keys@),
            i <= keys.len(),
            out@.map_values(|x: WebUserUpdate| update_view(x)) == record_updates(state_json@, ks.take(i as int), now as int),
        decreases keys.len() - i,
    {
        assert(ks.take(i + 1).drop_last() == ks.take(i as int));
        assert(ks.take(i + 1).last() == keys@[i as int]@);
        let key = keys[i].as_str();
        let p = user_pointer_of(key);
        if is_object_at(state_json, p.as_str()) {
            let start = start_field(field_at(state_json, p.as_str(), "/last_alive_start"));
            let resolved = match start {
                Some(t) => if t == 0 { LEGACY_STREAK_START } else { t },
                None => LEGACY_STREAK_START,
            };
            let figures = figures_of_record(state_json, key, now);
            let ghost before = out@;
            out.push(WebUserUpdate { key: String::from_str(key), last_alive_start: resolved, figures });
            assert(out@.map_values(|x: WebUserUpdate| update_view(x))
                == before.map_values(|x: WebUserUpdate| update_view(x)).push(update_view(out@.last())));
        }
        i = i + 1;
    }
    assert(ks.take(keys.len() as int) == ks);
    Some(out)
}

} // verus!
