use rust_discord_bot::aydy::{
    aydy_key, empty_leaderboard_text, leaderboard_footer, leaderboard_line, GuildMember, schedule_confirmation, schedule_time, truncate_string, web_user_figures, web_leaderboard_rows, web_user_updates, AydyState,
    UserStatus, LEGACY_STREAK_START,
};
use rust_discord_bot::clock::{
    hour_minute_of, scheduled_occurrence_at, seconds_of_day_of, UtcInstant,
};

const DAY: i64 = 86400;
const NOW: i64 = 1_780_000_000;

fn state_at(now: i64) -> AydyState {
    AydyState::new_at(1, Some(2), UtcInstant { secs: now, nanos: 0 })
}

fn status(name: &str, last_response: i64, alive_start: i64, dead: bool, deaths: u32) -> UserStatus {
    UserStatus {
        user_name: name.to_string(),
        last_response,
        enrolled_at: 0,
        death_count: deaths,
        last_alive_start: alive_start,
        is_currently_dead: dead,
    }
}

#[test]
fn new_state_takes_hour_and_minute_of_now() {
    // 1_780_000_000 is 2026-05-28 20:26:40 UTC.
    let s = state_at(NOW);
    assert_eq!((s.send_hour, s.send_minute), (20, 26));
    assert_eq!(s.last_sent, NOW);
    assert_eq!(s.last_scheduled_sent, 0);
    assert!(s.enrolled_users.is_empty());
    assert!(s.message_id.is_none());
}

#[test]
fn new_state_uses_current_time() {
    let s = AydyState::new(5, None);
    assert!(s.last_sent > 1_700_000_000);
    assert_eq!(s.channel_id, 5);
}

#[test]
fn alive_streak_uses_legacy_start() {
    let legacy = status("a", LEGACY_STREAK_START + 3600, 0, false, 0);
    assert_eq!(legacy.current_alive_streak(), 3600);
    let recent = status("b", 1000, 400, false, 0);
    assert_eq!(recent.current_alive_streak(), 600);
}

#[test]
fn dead_after_48_hours_of_silence() {
    let u = status("a", NOW - 48 * 3600 - 1, NOW - DAY * 10, false, 0);
    assert!(u.is_dead_at(NOW, 48));
    let v = status("b", NOW - 48 * 3600, NOW - DAY * 10, false, 0);
    assert!(!v.is_dead_at(NOW, 48));
    let old = status("c", 0, 0, false, 0);
    assert!(old.is_dead(48));
}

#[test]
fn first_check_in_enrolls() {
    let mut s = state_at(NOW);
    let was_dead = s.update_user_response_at(10, "alice".to_string(), NOW);
    assert!(!was_dead);
    let u = &s.enrolled_users[&10];
    assert_eq!(u.user_name, "alice");
    assert_eq!((u.last_response, u.enrolled_at, u.last_alive_start), (NOW, NOW, NOW));
    assert_eq!(u.death_count, 0);
    assert!(!u.is_currently_dead);
}

#[test]
fn check_in_after_silence_revives() {
    let mut s = state_at(NOW);
    s.enrolled_users.insert(10, status("alice", NOW - 3 * DAY, NOW - 9 * DAY, false, 2));
    let was_dead = s.update_user_response_at(10, "Alice".to_string(), NOW);
    assert!(was_dead);
    let u = &s.enrolled_users[&10];
    assert_eq!(u.last_alive_start, NOW);
    assert_eq!(u.last_response, NOW);
    assert_eq!(u.user_name, "Alice");
    assert_eq!(u.death_count, 2);
    assert!(!u.is_dead_at(NOW, 48));
}

#[test]
fn check_in_while_alive_keeps_streak() {
    let mut s = state_at(NOW);
    s.enrolled_users.insert(10, status("alice", NOW - DAY, NOW - 9 * DAY, false, 0));
    assert!(!s.update_user_response_at(10, "alice".to_string(), NOW));
    assert_eq!(s.enrolled_users[&10].last_alive_start, NOW - 9 * DAY);
}

#[test]
fn check_in_of_flagged_user_revives() {
    let mut s = state_at(NOW);
    s.enrolled_users.insert(10, status("alice", NOW - 60, NOW - 9 * DAY, true, 1));
    assert!(s.update_user_response_at(10, "alice".to_string(), NOW));
    assert!(!s.enrolled_users[&10].is_currently_dead);
}

#[test]
fn enroll_does_not_touch_existing_users() {
    let mut s = state_at(NOW);
    s.enrolled_users.insert(10, status("alice", 5, 4, true, 3));
    s.enroll_user_at(10, "other".to_string(), NOW);
    let u = &s.enrolled_users[&10];
    assert_eq!((u.user_name.as_str(), u.last_response, u.death_count), ("alice", 5, 3));
    s.enroll_user_at(11, "bob".to_string(), NOW);
    assert_eq!(s.enrolled_users[&11].enrolled_at, NOW);
    assert_eq!(s.enrolled_users.len(), 2);
}

#[test]
fn death_check_counts_each_death_once() {
    let mut s = state_at(NOW);
    s.enrolled_users.insert(1, status("gone", NOW - 3 * DAY, 1, false, 4));
    s.enrolled_users.insert(2, status("here", NOW - 60, 1, false, 0));
    s.enrolled_users.insert(3, status("still gone", NOW - 9 * DAY, 1, true, 1));
    assert!(s.update_death_states_at(NOW));
    assert_eq!(s.enrolled_users[&1].death_count, 5);
    assert!(s.enrolled_users[&1].is_currently_dead);
    assert_eq!(s.enrolled_users[&2].death_count, 0);
    assert!(!s.enrolled_users[&2].is_currently_dead);
    assert_eq!(s.enrolled_users[&3].death_count, 1);
    // A second check at the same time changes nothing.
    assert!(!s.update_death_states_at(NOW));
    assert_eq!(s.enrolled_users[&1].death_count, 5);
}

#[test]
fn non_responders_are_exactly_the_silent() {
    let mut s = state_at(NOW);
    s.enrolled_users.insert(1, status("gone", NOW - 3 * DAY, 1, false, 0));
    s.enrolled_users.insert(2, status("here", NOW - 60, 1, false, 0));
    s.enrolled_users.insert(3, status("flagged but recent", NOW - 60, 1, true, 0));
    let mut ids: Vec<u64> = s.get_non_responders_at(NOW, 48).iter().map(|(id, _)| *id).collect();
    ids.sort();
    assert_eq!(ids, vec![1]);
}

#[test]
fn leaderboard_puts_alive_first_by_streak() {
    let mut s = state_at(NOW);
    s.enrolled_users.insert(1, status("dead long", NOW - 3 * DAY, NOW - 30 * DAY, false, 0));
    s.enrolled_users.insert(2, status("short", NOW - 60, NOW - DAY, false, 0));
    s.enrolled_users.insert(3, status("long", NOW - 60, NOW - 20 * DAY, false, 0));
    s.enrolled_users.insert(4, status("flagged", NOW - 60, NOW - 40 * DAY, true, 2));
    let order = s.leaderboard_order_at(NOW);
    assert_eq!(order.len(), 4);
    assert_eq!(&order[..2], &[3, 2]);
    // Both dead users come last, the longer streak first.
    assert_eq!(&order[2..], &[4, 1]);
    assert_eq!(s.alive_count_at(&order, NOW), 2);
}

#[test]
fn schedule_occurrence_is_today_or_yesterday() {
    let midnight = 1_779_926_400; // 2026-05-28 00:00:00 UTC
    let now = midnight + 10 * 3600; // 10:00
    assert_eq!(scheduled_occurrence_at(now, 9, 30), midnight + 9 * 3600 + 30 * 60);
    assert_eq!(scheduled_occurrence_at(now, 10, 0), now);
    assert_eq!(scheduled_occurrence_at(now, 12, 0), midnight + 12 * 3600 - DAY);
    assert_eq!(scheduled_occurrence_at(-1, 23, 59), -60);
}

#[test]
fn time_of_day_arithmetic() {
    assert_eq!(seconds_of_day_of(-1), 86399);
    assert_eq!(seconds_of_day_of(86400 * 3 + 5), 5);
    assert_eq!(hour_minute_of(3 * 3600 + 7 * 60 + 59), (3, 7));
}

#[test]
fn scheduled_send_happens_once_and_force_does_not_suppress_it() {
    let mut s = state_at(NOW);
    let due = s.due_occurrence_at(NOW);
    assert!(s.scheduled_send_due(due));
    s.record_forced_send(77, NOW);
    assert!(s.scheduled_send_due(due));
    assert_eq!(s.message_id, Some(77));
    s.record_scheduled_send(78, NOW + 5, due);
    assert!(!s.scheduled_send_due(due));
    assert_eq!((s.last_sent, s.last_scheduled_sent), (NOW + 5, due));
    assert!(s.scheduled_send_due(due + DAY));
}

#[test]
fn daily_send_is_due_again_after_a_full_day() {
    let mut s = state_at(NOW);
    s.set_schedule(9, 30);
    let due = s.due_occurrence_at(NOW);
    s.record_scheduled_send(1, NOW, due);
    // Still the same occurrence one second before the next day's 09:30.
    let later = due + DAY - 1;
    assert_eq!(s.due_occurrence_at(later), due);
    assert!(!s.scheduled_send_due(s.due_occurrence_at(later)));
    // At the next 09:30 it is due again.
    assert_eq!(s.due_occurrence_at(due + DAY), due + DAY);
    assert!(s.scheduled_send_due(s.due_occurrence_at(due + DAY)));
}

#[test]
fn start_marks_current_occurrence_served() {
    let mut s = state_at(NOW);
    let due = s.due_occurrence_at(NOW);
    s.record_start(5, due);
    assert!(!s.scheduled_send_due(due));
    assert_eq!(s.last_sent, NOW);
}

#[test]
fn schedule_validation() {
    assert_eq!(schedule_time(9, None), Some((9, 0)));
    assert_eq!(schedule_time(23, Some(59)), Some((23, 59)));
    assert_eq!(schedule_time(24, Some(0)), None);
    assert_eq!(schedule_time(5, Some(60)), None);
    let mut s = state_at(NOW);
    s.set_schedule(7, 5);
    assert_eq!((s.send_hour, s.send_minute), (7, 5));
    assert_eq!(schedule_confirmation(7, 5), "AYDY check will now be sent daily at **07:05 UTC**.");
    assert_eq!(schedule_confirmation(23, 45), "AYDY check will now be sent daily at **23:45 UTC**.");
}

#[test]
fn keys_and_replies() {
    assert_eq!(aydy_key(123456789), "aydy_123456789");
    let mut s = state_at(NOW);
    s.enrolled_users.insert(9, status("zed", NOW, NOW, false, 3));
    assert_eq!(
        s.check_in_reply(9, true, false, "zed"),
        "✅ Welcome zed! You've been enrolled in the AYDY check."
    );
    assert_eq!(
        s.check_in_reply(9, false, true, "zed"),
        "💀 Welcome back from the dead, zed! Your death count is now 3."
    );
    assert_eq!(s.check_in_reply(9, false, false, "zed"), "✅ Thanks for checking in, zed!");
    assert_eq!(
        s.check_in_reply(8, false, true, "who"),
        "💀 Welcome back from the dead, who! Your death count is now 0."
    );
}

#[test]
fn check_in_text_lists_users_and_silent_ones() {
    let mut s = state_at(NOW);
    assert_eq!(
        s.check_in_description(&vec![], &vec![]),
        "Click the button below to let us know you're alive!\n\n**⚠️ No response in 48 hours:**\n• None\n"
    );
    s.enrolled_users.insert(1, status("ann", NOW - 3 * DAY, 1, false, 0));
    s.enrolled_users.insert(2, status("bob", NOW, 1, false, 0));
    let late = s.get_non_responders_at(NOW, 48);
    let text = s.check_in_description(&vec![2, 1], &late);
    assert_eq!(
        text,
        format!(
            "Click the button below to let us know you're alive!\n\n**Enrolled Users:**\n• bob\n• ann\n\n**⚠️ No response in 48 hours:**\n• ann (last seen: <t:{}:R>)\n",
            NOW - 3 * DAY
        )
    );
    let status_text = s.status_description(&vec![1], 1);
    assert_eq!(
        status_text,
        format!(
            "**Enrolled users:** 1\n**Non-responders (48h):** 1\n\n**Enrolled Users:**\n• ann - Last response: <t:{}:R>\n",
            NOW - 3 * DAY
        )
    );
}

#[test]
fn truncate_string_cuts_on_bytes() {
    assert_eq!(truncate_string("hello", 5), "hello");
    assert_eq!(truncate_string("hello world", 6), "hello…");
    assert_eq!(truncate_string("", 0), "");
}

#[test]
fn web_figures() {
    let f = web_user_figures(None, NOW, false, NOW);
    assert_eq!(f.last_alive_start, LEGACY_STREAK_START);
    assert!(!f.is_dead);
    assert_eq!(f.alive_seconds, Some((NOW - LEGACY_STREAK_START) as i128));
    // Exactly 48 hours of silence is not yet dead.
    assert!(!web_user_figures(Some(5), NOW - 48 * 3600, false, NOW).is_dead);
    // Extreme values do not overflow.
    assert_eq!(web_user_figures(Some(i64::MIN), i64::MAX, false, i64::MAX).alive_seconds, Some(i64::MAX as i128 - i64::MIN as i128));
    let g = web_user_figures(Some(0), NOW - 48 * 3600 - 1, false, NOW);
    assert!(g.is_dead);
    assert_eq!(g.alive_seconds, None);
    let h = web_user_figures(Some(NOW - 100), NOW - 10, true, NOW);
    assert!(h.is_dead);
    assert_eq!(h.last_alive_start, NOW - 100);
}

#[test]
fn web_records_are_read_from_stored_json() {
    let now = NOW;
    let mut json = String::from("{\"channel_id\":1,\"enrolled_users\":{");
    json.push_str(&format!("\"10\":{{\"user_name\":\"ann\",\"last_response\":{},\"enrolled_at\":7,\"death_count\":2,\"last_alive_start\":{},\"is_currently_dead\":false}},", now - 10, now - 1000));
    json.push_str(&format!("\"11\":{{\"user_name\":\"bob\",\"last_response\":{},\"enrolled_at\":8,\"last_alive_start\":\"x\"}},", now - 3 * 86400));
    json.push_str("\"12\":{\"user_name\":\"cid\",\"enrolled_at\":9},");
    json.push_str("\"13\":[1,2],");
    json.push_str(&format!("\"14\":{{\"user_name\":\"dee\",\"last_response\":{},\"enrolled_at\":1,\"death_count\":4294967297,\"is_currently_dead\":true}}", now));
    json.push_str("}}");
    let rows = web_leaderboard_rows(&json, now).unwrap();
    let names: Vec<&str> = rows.iter().map(|r| r.user_name.as_str()).collect();
    assert_eq!(names, vec!["ann", "bob", "dee"]);
    assert_eq!(rows[0].death_count, 2);
    assert_eq!(rows[0].figures.alive_seconds, Some(990));
    // A non-integer stored start counts as 0, i.e. the legacy start; bob is dead by silence.
    assert_eq!(rows[1].figures.last_alive_start, LEGACY_STREAK_START);
    assert!(rows[1].figures.is_dead);
    assert_eq!(rows[1].death_count, 0);
    // The death count is cut to 32 bits; the stored flag makes dee dead.
    assert_eq!(rows[2].death_count, 1);
    assert!(rows[2].figures.is_dead);

    let updates = web_user_updates(&json, now).unwrap();
    let keys: Vec<&str> = updates.iter().map(|u| u.key.as_str()).collect();
    assert_eq!(keys, vec!["10", "11", "12", "14"]);
    assert_eq!(updates[2].last_alive_start, LEGACY_STREAK_START);
    assert!(updates[2].figures.is_none());
    assert_eq!(updates[0].last_alive_start, now - 1000);

    assert!(web_leaderboard_rows("{\"channel_id\":1}", now).is_none());
    assert!(web_leaderboard_rows("not json", now).is_none());
    // Keys with `/` and `~` are addressed correctly.
    let odd = "{\"enrolled_users\":{\"a/b~c\":{\"user_name\":\"eve\",\"last_response\":5,\"enrolled_at\":0}}}";
    let odd_rows = web_leaderboard_rows(odd, now).unwrap();
    assert_eq!(odd_rows.len(), 1);
    assert_eq!(odd_rows[0].user_name, "eve");
    assert_eq!(web_user_updates("{\"enrolled_users\":{}}", now).map(|v| v.len()), Some(0));
}

#[test]
fn leaderboard_lines() {
    let alive = status("ann", NOW, NOW - DAY, false, 1);
    assert_eq!(
        leaderboard_line(0, &alive, false, "1.0d"),
        "🥇 **ann** <:xdd:1106775701832609902> - 1.0d alive · 1 death\n"
    );
    let dead = status("bob", NOW - 3 * DAY, NOW - 4 * DAY, true, 3);
    assert_eq!(
        leaderboard_line(5, &dead, true, ""),
        "▫️ **bob** <a:xqcL:923554657773699082> - ⚰️ R.I.P. · 3 deaths\n"
    );
    assert!(leaderboard_line(2, &dead, true, "").starts_with("🥉"));
    assert!(leaderboard_line(1, &alive, false, "5h").contains("🥈 **ann** <:xdd:1106775701832609902> - 5h alive · 1 death\n"));
}

#[test]
fn leaderboard_footer_and_empty_text() {
    assert_eq!(leaderboard_footer(2, 5), "2 alive · 3 dead · 5 total enrolled");
    assert_eq!(leaderboard_footer(0, 0), "0 alive · 0 dead · 0 total enrolled");
    assert_eq!(empty_leaderboard_text(), "No enrolled users yet!");
    let mut s = state_at(NOW);
    s.enroll_user_at(1, "a".to_string(), NOW);
    s.enroll_user_at(2, "b".to_string(), NOW - 3 * DAY);
    let order = s.leaderboard_order_at(NOW);
    assert_eq!(order.len(), 2);
    assert_eq!(leaderboard_footer(s.alive_count_at(&order, NOW), order.len()), "1 alive · 1 dead · 2 total enrolled");
}

#[test]
fn member_sync_enrolls_people_who_can_see_the_channel() {
    let member = |id: u64, name: &str, is_bot: bool, can_view: bool| GuildMember { id, name: name.to_string(), is_bot, can_view };
    let mut s = state_at(NOW);
    s.enroll_user_at(1, "old".to_string(), NOW - DAY);
    let members = vec![
        member(1, "renamed", false, true),
        member(2, "bot", true, true),
        member(3, "hidden", false, false),
        member(4, "new", false, true),
        member(4, "dup", false, true),
    ];
    assert!(s.enroll_members_at(&members, NOW));
    let mut ids: Vec<u64> = s.enrolled_users.keys().copied().collect();
    ids.sort();
    assert_eq!(ids, vec![1, 4]);
    assert_eq!(s.enrolled_users[&1].user_name, "old");
    assert_eq!(s.enrolled_users[&1].last_response, NOW - DAY);
    assert_eq!(s.enrolled_users[&4].user_name, "new");
    assert_eq!(s.enrolled_users[&4].enrolled_at, NOW);
    assert!(!s.enroll_members_at(&members, NOW + 1));
}
