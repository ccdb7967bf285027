use rust_discord_bot::clock::UtcInstant;
use rust_discord_bot::rag::{
    backfill_due, backfill_status_label, channel_key, dedup_hits, embed_text, enriched_query,
    history_messages, is_indexable, mark_backfill_attempt, mark_backfill_complete,
    new_channel_state, parse_channel_key, record_backfill_batch, record_indexed_message,
    search_description, search_footer, search_listing, search_query, should_skip,
    sort_hits_by_time, tags_option, RagHit,
};

fn at(secs: i64) -> UtcInstant {
    UtcInstant { secs, nanos: 0 }
}

fn hit(id: u64, author: &str, content: &str, ts: i64) -> RagHit {
    RagHit { message_id: id, author_name: author.to_string(), content: content.to_string(), timestamp: ts }
}

#[test]
fn skip_rules() {
    assert!(should_skip("/command arg", false));
    assert!(should_skip("~help me", false));
    assert!(!should_skip("/command from a bot", true));
    assert!(should_skip("https://example.com/page", false));
    assert!(should_skip("  http://a.b  https://c.d ", false));
    assert!(!should_skip("look https://example.com here", false));
    assert!(should_skip("abcd", false));
    assert!(should_skip(".....", false));
    assert!(should_skip("ababab", false));
    assert!(!should_skip("abcab", false));
    assert!(!should_skip("hello there", false));
    // Only `http://` or `https://` followed by at least one non-space starts a URL.
    assert!(!should_skip("https:// is a scheme", false));
    assert!(!should_skip("httpx://abcdef", false));
    assert!(should_skip("https://a\u{3000}http://b", false));
    assert!(!should_skip("HTTPS://EXAMPLE.COM", false));
    assert!(!should_skip("see:https://x.y/z", false));
}

#[test]
fn indexable_trims_first() {
    assert!(!is_indexable("   ", false));
    assert!(is_indexable("   hello there  ", false));
    assert!(!is_indexable("  /cmd stuff", false));
}

#[test]
fn embed_text_forms() {
    assert_eq!(embed_text("ann", "hi there", ""), "ann: hi there");
    assert_eq!(embed_text("ann", "hi there", "greeting, hello"), "ann: hi there | greeting, hello");
    assert_eq!(tags_option(""), None);
    assert_eq!(tags_option("a, b"), Some("a, b".to_string()));
    assert_eq!(enriched_query("cats", ""), "cats");
    assert_eq!(enriched_query("cats", "pets"), "cats | pets");
    assert_eq!(search_query("cats", ""), "cats");
    assert_eq!(search_query("cats", "kitten, feline"), "cats kitten, feline");
}

#[test]
fn indexing_widens_the_range() {
    let first = record_indexed_message(None, 50, at(100));
    assert_eq!(first.oldest_indexed_message_id, Some(50));
    assert_eq!(first.latest_indexed_message_id, Some(50));
    assert_eq!(first.registered_at, at(100));
    let second = record_indexed_message(Some(first), 70, at(200));
    assert_eq!((second.oldest_indexed_message_id, second.latest_indexed_message_id), (Some(50), Some(70)));
    assert_eq!(second.last_message_at, at(200));
    assert_eq!(second.registered_at, at(100));
    let third = record_indexed_message(Some(second), 10, at(300));
    assert_eq!((third.oldest_indexed_message_id, third.latest_indexed_message_id), (Some(10), Some(70)));
    let fresh = record_indexed_message(Some(new_channel_state(at(1))), 5, at(2));
    assert_eq!((fresh.oldest_indexed_message_id, fresh.latest_indexed_message_id), (Some(5), Some(5)));
}

#[test]
fn backfill_timing() {
    let mut s = new_channel_state(at(0));
    assert!(!backfill_due(&s, at(1799)));
    assert!(backfill_due(&s, at(1800)));
    // Sub-second parts count: 1799.9 seconds are not yet 1800.
    let t = UtcInstant { secs: 0, nanos: 100_000_000 };
    let mut u = new_channel_state(t);
    assert!(!backfill_due(&u, UtcInstant { secs: 1800, nanos: 0 }));
    assert!(backfill_due(&u, UtcInstant { secs: 1800, nanos: 100_000_000 }));
    mark_backfill_attempt(&mut u, at(5000));
    assert!(!backfill_due(&u, at(5299)));
    assert!(backfill_due(&u, at(5300)));
    mark_backfill_attempt(&mut s, at(4000));
    mark_backfill_complete(&mut s);
    assert!(!backfill_due(&s, at(1_000_000)));
}

#[test]
fn backfill_batch_lowers_oldest() {
    let mut s = new_channel_state(at(0));
    s = record_backfill_batch(s, &vec![]);
    assert_eq!(s.oldest_indexed_message_id, None);
    s = record_backfill_batch(s, &vec![30, 20, 40]);
    assert_eq!(s.oldest_indexed_message_id, Some(20));
    s = record_backfill_batch(s, &vec![25]);
    assert_eq!(s.oldest_indexed_message_id, Some(20));
    s = record_backfill_batch(s, &vec![25, 5]);
    assert_eq!(s.oldest_indexed_message_id, Some(5));
}

#[test]
fn status_labels() {
    let mut s = new_channel_state(at(0));
    assert_eq!(backfill_status_label(&s), "pending (channel must be idle ≥30 min)");
    mark_backfill_attempt(&mut s, at(10));
    assert_eq!(backfill_status_label(&s), "in progress");
    mark_backfill_complete(&mut s);
    assert_eq!(backfill_status_label(&s), "complete");
}

#[test]
fn channel_keys() {
    assert_eq!(channel_key(987654321), "987654321");
    assert_eq!(parse_channel_key("987654321"), Some(987654321));
    assert_eq!(parse_channel_key("aydy_1"), None);
    assert_eq!(parse_channel_key(&channel_key(u64::MAX)), Some(u64::MAX));
}

#[test]
fn dedup_keeps_first_of_near_duplicates() {
    let hits = vec![
        hit(1, "a", "Hello   World", 5),
        hit(2, "b", "hello world", 3),
        hit(3, "c", "HELLO\tWORLD ", 1),
        hit(4, "d", "something else", 2),
    ];
    let kept = dedup_hits(hits);
    let ids: Vec<u64> = kept.iter().map(|h| h.message_id).collect();
    assert_eq!(ids, vec![1, 4]);
}

#[test]
fn sort_by_time_is_stable() {
    let hits = vec![hit(1, "a", "x", 5), hit(2, "b", "y", 3), hit(3, "c", "z", 5), hit(4, "d", "w", 1)];
    let ids: Vec<u64> = sort_hits_by_time(hits).iter().map(|h| h.message_id).collect();
    assert_eq!(ids, vec![4, 2, 1, 3]);
}

#[test]
fn listing_is_capped_at_thirty() {
    let hits: Vec<RagHit> = (0..40).map(|i| hit(i, "a", &format!("message number {i}"), i as i64)).collect();
    assert_eq!(search_listing(hits).len(), 30);
}

#[test]
fn history_is_time_ordered_and_formatted() {
    let hits = vec![hit(1, "ann", "later", 60), hit(2, "bob", "earlier", 0), hit(3, "cy", "LATER", 120)];
    let msgs = history_messages(hits);
    let contents: Vec<&str> = msgs.iter().map(|m| m.content.as_str()).collect();
    assert_eq!(
        contents,
        vec!["[bob at 1970-01-01 00:00 UTC]: earlier", "[ann at 1970-01-01 00:01 UTC]: later"]
    );
    assert!(msgs.iter().all(|m| m.role == "system" && m.images.is_none()));
    assert!(history_messages(vec![]).is_empty());
}

#[test]
fn search_description_lines() {
    let long = "x".repeat(250);
    let hits = vec![hit(1, "ann", "short", 0), hit(2, "bob", &long, 60)];
    let d = search_description(&hits).unwrap();
    assert_eq!(
        d,
        format!("`1` **ann** at 1970-01-01 00:00 UTC: short\n`2` **bob** at 1970-01-01 00:01 UTC: {}…", "x".repeat(200))
    );
    assert_eq!(search_footer(2, ""), "2 results");
    assert_eq!(search_footer(2, "cats"), "2 results • tags: cats");
}

#[test]
fn search_description_refuses_split_characters() {
    let tricky = format!("{}é{}", "x".repeat(199), "y".repeat(10));
    assert!(search_description(&vec![hit(1, "a", &tricky, 0)]).is_none());
    let many: Vec<RagHit> = (0..30).map(|i| hit(i, "a", &"z".repeat(200), 0)).collect();
    let d = search_description(&many).unwrap();
    assert_eq!(d.len(), 4096);
}
