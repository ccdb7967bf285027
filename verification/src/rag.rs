//! Bookkeeping for indexing channel messages for retrieval, and the filters
//! that decide what gets indexed.
use vstd::prelude::*;
use crate::clock::{UtcInstant, elapsed_secs, elapsed_secs_between};
use crate::text::{trim, trim_str, chars_of, is_white_space, is_white_space_char, collapse_white_space, collapse_white_space_str, views, join, join_strings, byte_len, byte_len_of, at_char_boundary, byte_prefix, byte_prefix_str, push_char};
use crate::chat::{ModelMessageData, is_message, system_message};
use crate::clock::{minute_stamp, minute_stamp_text};
use crate::decimal::{decimal, push_decimal, u64_to_string, parse_u64, parse_u64_str, lemma_parse_decimal};

verus! {

/// A channel must be idle this long (seconds) before history is backfilled.
pub const IDLE_THRESHOLD_SECS: i64 = 1800;

/// At most one backfill batch per channel in this many seconds.
pub const BACKFILL_COOLDOWN_SECS: i64 = 300;

/// Messages shorter than this many bytes are not indexed.
pub const MIN_CONTENT_LEN: usize = 5;

/// The indexing state of a registered channel.
#[derive(Clone, Copy, Debug)]
pub struct ChannelState {
    pub registered_at: UtcInstant,
    pub oldest_indexed_message_id: Option<u64>,
    pub latest_indexed_message_id: Option<u64>,
    pub last_message_at: UtcInstant,
    pub last_backfill_attempt: Option<UtcInstant>,
    pub backfill_complete: bool,
}

/// The state of a channel registered at `now`.
pub fn new_channel_state(now: UtcInstant) -> (r: ChannelState)
    ensures
        r == (ChannelState {
            registered_at: now,
            oldest_indexed_message_id: None,
            latest_indexed_message_id: None,
            last_message_at: now,
            last_backfill_attempt: None,
            backfill_complete: false,
        }),
{
    ChannelState {
        registered_at: now,
        oldest_indexed_message_id: None,
        latest_indexed_message_id: None,
        last_message_at: now,
        last_backfill_attempt: None,
        backfill_complete: false,
    }
}

/// The smaller of an optional bound and `id`.
pub open spec fn lower(bound: Option<u64>, id: u64) -> Option<u64> {
    match bound {
        Some(b) => if id < b { Some(id) } else { Some(b) },
        None => Some(id),
    }
}

/// The larger of an optional bound and `id`.
pub open spec fn higher(bound: Option<u64>, id: u64) -> Option<u64> {
    match bound {
        Some(b) => if id > b { Some(id) } else { Some(b) },
        None => Some(id),
    }
}

/// The state after message `message_id` was indexed at `now`; a channel
/// without state starts with this message as both ends of its range.
pub open spec fn indexed(state: Option<ChannelState>, message_id: u64, now: UtcInstant) -> ChannelState {
    let base = match state {
        Some(s) => s,
        None => ChannelState {
            registered_at: now,
            oldest_indexed_message_id: Some(message_id),
            latest_indexed_message_id: Some(message_id),
            last_message_at: now,
            last_backfill_attempt: None,
            backfill_complete: false,
        },
    };
    ChannelState {
        last_message_at: now,
        latest_indexed_message_id: higher(base.latest_indexed_message_id, message_id),
        oldest_indexed_message_id: lower(base.oldest_indexed_message_id, message_id),
        ..base
    }
}

/// Update a channel's state after message `message_id` was indexed at `now`.
pub fn record_indexed_message(state: Option<ChannelState>, message_id: u64, now: UtcInstant) -> (r: ChannelState)
    ensures
        r == indexed(state, message_id, now),
{
    let mut s = match state {
        Some(s) => s,
        None => ChannelState {
            registered_at: now,
            oldest_indexed_message_id: Some(message_id),
            latest_indexed_message_id: Some(message_id),
            last_message_at: now,
            last_backfill_attempt: None,
            backfill_complete: false,
        },
    };
    s.last_message_at = now;
    let update_latest = match s.latest_indexed_message_id {
        Some(id) => message_id > id,
        None => true,
    };
    if update_latest {
        s.latest_indexed_message_id = Some(message_id);
    }
    let update_oldest = match s.oldest_indexed_message_id {
        Some(id) => message_id < id,
        None => true,
    };
    if update_oldest {
        s.oldest_indexed_message_id = Some(message_id);
    }
    s
}

/// Whether history may be backfilled at `now`: not finished yet, the channel
/// idle long enough, and no attempt within the cooldown.
pub open spec fn backfill_due_spec(state: ChannelState, now: UtcInstant) -> bool {
    &&& !state.backfill_complete
    &&& elapsed_secs(now, state.last_message_at) >= IDLE_THRESHOLD_SECS
    &&& match state.last_backfill_attempt {
        Some(t) => elapsed_secs(now, t) >= BACKFILL_COOLDOWN_SECS,
        None => true,
    }
}

/// Whether history may be backfilled at `now`.
pub fn backfill_due(state: &ChannelState, now: UtcInstant) -> (r: bool)
    ensures
        r == backfill_due_spec(*state, now),
{
    if state.backfill_complete {
        return false;
    }
    if elapsed_secs_between(now, state.last_message_at) < IDLE_THRESHOLD_SECS as i128 {
        return false;
    }
    match state.last_backfill_attempt {
        Some(t) => elapsed_secs_between(now, t) >= BACKFILL_COOLDOWN_SECS as i128,
        None => true,
    }
}

/// Record a backfill attempt at `now`.
pub fn mark_backfill_attempt(state: &mut ChannelState, now: UtcInstant)
    ensures
        *final(state) == (ChannelState { last_backfill_attempt: Some(now), ..*old(state) }),
{
    state.last_backfill_attempt = Some(now);
}

/// Record that the channel's history has been fully indexed.
pub fn mark_backfill_complete(state: &mut ChannelState)
    ensures
        *final(state) == (ChannelState { backfill_complete: true, ..*old(state) }),
{
    state.backfill_complete = true;
}

/// The least of a non-empty sequence of ids.
pub open spec fn min_id(ids: Seq<u64>) -> u64
    decreases ids.len(),
{
    if ids.len() <= 1 {
        ids[0]
    } else {
        let m = min_id(ids.drop_last());
        if ids.last() < m { ids.last() } else { m }
    }
}

/// The state after a backfill batch with the message ids `batch`: the
/// oldest indexed id moves down to the batch's least id when that is older.
pub open spec fn backfilled(state: ChannelState, batch: Seq<u64>) -> ChannelState {
    if batch.len() == 0 {
        state
    } else {
        ChannelState { oldest_indexed_message_id: lower(state.oldest_indexed_message_id, min_id(batch)), ..state }
    }
}

/// Update a channel's state after a backfill batch of message ids.
pub fn record_backfill_batch(state: ChannelState, batch: &Vec<u64>) -> (r: ChannelState)
    ensures
        r == backfilled(state, batch@),
{
    if batch.len() == 0 {
        return state;
    }
    let mut m = batch[0];
    let mut i: usize = 1;
    assert(batch@.take(1).drop_last().len() == 0);
    while i < batch.len()
        invariant
            1 <= i <= batch.len(),
            m == min_id(batch@.take(i as int)),
        decreases batch.len() - i,
    {
        assert(batch@.take(i + 1).drop_last() == batch@.take(i as int));
        if batch[i] < m {
            m = batch[i];
        }
        i = i + 1;
    }
    assert(batch@.take(batch.len() as int) == batch@);
    let mut s = state;
    let lower_it = match s.oldest_indexed_message_id {
        Some(id) => m < id,
        None => true,
    };
    if lower_it {
        s.oldest_indexed_message_id = Some(m);
    }
    s
}

/// How far the channel's backfill has got, as shown to users.
pub fn backfill_status_label(state: &ChannelState) -> (r: &'static str)
    ensures
        r@ == (if state.backfill_complete {
            "complete"@
        } else if state.last_backfill_attempt is Some {
            "in progress"@
        } else {
            "pending (channel must be idle ≥30 min)"@
        }),
{
    if state.backfill_complete {
        "complete"
    } else if state.last_backfill_attempt.is_some() {
        "in progress"
    } else {
        "pending (channel must be idle ≥30 min)"
    }
}

/// The indexed range of a channel is ordered: its oldest id is not above its latest.
pub open spec fn range_ordered(state: ChannelState) -> bool {
    match (state.oldest_indexed_message_id, state.latest_indexed_message_id) {
        (Some(o), Some(l)) => o <= l,
        _ => true,
    }
}

/// After a message is indexed, the channel's range covers it, and an
/// ordered range stays ordered.
pub proof fn lemma_indexed_covers(state: Option<ChannelState>, message_id: u64, now: UtcInstant)
    requires
        state matches Some(s) ==> range_ordered(s),
    ensures
        indexed(state, message_id, now).oldest_indexed_message_id matches Some(o) && o <= message_id,
        indexed(state, message_id, now).latest_indexed_message_id matches Some(l) && message_id <= l,
        range_ordered(indexed(state, message_id, now)),
        indexed(state, message_id, now).last_message_at == now,
{
}

proof fn lemma_min_id(ids: Seq<u64>)
    requires
        ids.len() > 0,
    ensures
        ids.contains(min_id(ids)),
        forall|i: int| 0 <= i < ids.len() ==> min_id(ids) <= #[trigger] ids[i],
    decreases ids.len(),
{
    if ids.len() > 1 {
        lemma_min_id(ids.drop_last());
        let m = min_id(ids.drop_last());
        let j = choose|j: int| 0 <= j < ids.drop_last().len() && ids.drop_last()[j] == m;
        assert(ids[j] == m);
        assert forall|i: int| 0 <= i < ids.len() implies min_id(ids) <= #[trigger] ids[i] by {
            if i < ids.len() - 1 {
                assert(ids.drop_last()[i] == ids[i]);
            }
        }
    } else {
        assert(ids[0] == ids[0]);
    }
}

/// A backfill batch never moves the oldest indexed id up, and afterwards
/// the oldest indexed id is at or below every id of the batch.
pub proof fn lemma_backfill_lowers_oldest(state: ChannelState, batch: Seq<u64>)
    requires
        batch.len() > 0,
    ensures
        backfilled(state, batch).oldest_indexed_message_id matches Some(o)
            && (forall|i: int| 0 <= i < batch.len() ==> o <= #[trigger] batch[i])
            && (state.oldest_indexed_message_id matches Some(p) ==> o <= p),
        backfilled(state, batch).latest_indexed_message_id == state.latest_indexed_message_id,
{
    lemma_min_id(batch);
}

/// A channel whose backfill is complete is never due for another one.
pub proof fn lemma_complete_not_due(state: ChannelState, now: UtcInstant)
    requires
        state.backfill_complete,
    ensures
        !backfill_due_spec(state, now),
{
}


/// How many characters at the start of `s` are not white space.
pub open spec fn non_space_run(s: Seq<char>) -> nat
    decreases s.len(),
{
    if s.len() > 0 && !is_white_space(s[0]) {
        1 + non_space_run(s.drop_first())
    } else {
        0
    }
}

/// The length of the URL match (`https?://\S+`) that starts `s`, or 0 when
/// none does: the `s` is taken when that gives a match, and `\S+` takes every
/// following character up to white space.
pub open spec fn url_prefix_len(s: Seq<char>) -> nat {
    if s.len() > 8 && s.take(8) == "https://"@ && !is_white_space(s[8]) {
        8 + non_space_run(s.skip(8))
    } else if s.len() > 7 && s.take(7) == "http://"@ && !is_white_space(s[7]) {
        7 + non_space_run(s.skip(7))
    } else {
        0
    }
}

/// `s` with every match of `https?://\S+` removed, matches taken from the
/// left without overlap (`regex::Regex::replace_all` with an empty
/// replacement). `\S` is any character without the Unicode `White_Space`
/// property.
pub open spec fn url_stripped(s: Seq<char>) -> Seq<char>
    decreases s.len(),
{
    if s.len() == 0 {
        s
    } else if 0 < url_prefix_len(s) <= s.len() {
        url_stripped(s.skip(url_prefix_len(s) as int))
    } else {
        seq![s[0]] + url_stripped(s.drop_first())
    }
}

/// Whether `s` contains no `http`, so that no URL pattern can match in it.
pub open spec fn link_free(s: Seq<char>) -> bool {
    forall|i: int| !#[trigger] crate::text::occurs_at(s, "http"@, i)
}

/// A text without `http` has no URL to strip.
pub proof fn lemma_link_free_unchanged(s: Seq<char>)
    requires
        link_free(s),
    ensures
        url_stripped(s) == s,
    decreases s.len(),
{
    reveal_strlit("http");
    reveal_strlit("https://");
    reveal_strlit("http://");
    if s.len() > 0 {
        if s.len() > 8 && s.take(8) == "https://"@ {
            assert(s.subrange(0, 4) == s.take(8).subrange(0, 4));
            assert(s.subrange(0, 4) =~= "http"@);
            assert(crate::text::occurs_at(s, "http"@, 0));
        }
        if s.len() > 7 && s.take(7) == "http://"@ {
            assert(s.subrange(0, 4) == s.take(7).subrange(0, 4));
            assert(s.subrange(0, 4) =~= "http"@);
            assert(crate::text::occurs_at(s, "http"@, 0));
        }
        let t = s.drop_first();
        assert forall|i: int| !#[trigger] crate::text::occurs_at(t, "http"@, i) by {
            if crate::text::occurs_at(t, "http"@, i) {
                assert(s.subrange(i + 1, i + 1 + 4) =~= t.subrange(i, i + 4));
                assert(crate::text::occurs_at(s, "http"@, i + 1));
            }
        }
        lemma_link_free_unchanged(t);
        assert(seq![s[0]] + t =~= s);
    }
}

/// `s` with every URL (`https?://\S+`) removed.
#[verifier::external_body]
pub(crate) fn strip_urls(s: &str) -> (r: String)
    ensures
        r@ == url_stripped(s@),
{
    regex::Regex::new(r"https?://\S+").unwrap().replace_all(s, "").into_owned()
}

/// Whether `s` holds at least three different characters.
pub open spec fn has_three_distinct(s: Seq<char>) -> bool {
    exists|i: int, j: int, k: int|
        0 <= i < s.len() && 0 <= j < s.len() && 0 <= k < s.len() && #[trigger] s[i] != #[trigger] s[j]
            && s[i] != #[trigger] s[k] && s[j] != s[k]
}

/// The skip rules, given the message and what is left of it once URLs are
/// removed: a command typed by a person, nothing but URLs and white space,
/// fewer than five bytes, or fewer than three distinct characters.
pub open spec fn skip_rules(content: Seq<char>, without_urls: Seq<char>, is_bot: bool) -> bool {
    ||| !is_bot && content.len() > 0 && (content[0] == '/' || content[0] == '~')
    ||| trim(without_urls).len() == 0
    ||| vstd::utf8::encode_utf8(content).len() < MIN_CONTENT_LEN
    ||| !has_three_distinct(content)
}

/// Whether a message is not worth indexing: a command typed by a person, a
/// bare URL, fewer than five bytes, or fewer than three distinct characters.
pub open spec fn skip_spec(content: Seq<char>, is_bot: bool) -> bool {
    skip_rules(content, url_stripped(content), is_bot)
}

fn three_distinct(cs: &Vec<char>) -> (r: bool)
    ensures
        r == has_three_distinct(cs@),
{
    if cs.len() == 0 {
        return false;
    }
    let a = cs[0];
    let mut b: Option<char> = None;
    let mut i: usize = 1;
    while i < cs.len()
        invariant
            1 <= i <= cs.len(),
            a == cs@[0],
            b matches Some(bb) ==> bb != a && cs@.take(i as int).contains(bb),
            forall|j: int| 0 <= j < i ==> (cs@[j] == a || b == Some(cs@[j])),
        decreases cs.len() - i,
    {
        let c = cs[i];
        match b {
            None => {
                if c != a {
                    b = Some(c);
                    assert(cs@.take(i + 1)[i as int] == c);
                }
            },
            Some(bb) => {
                if c != a && c != bb {
                    proof {
                        let j = choose|j: int| 0 <= j < i && cs@.take(i as int)[j] == bb;
                        assert(cs@[0] != cs@[j] && cs@[0] != cs@[i as int] && cs@[j] != cs@[i as int]);
                    }
                    return true;
                }
                proof {
                    let j = choose|j: int| 0 <= j < i && cs@.take(i as int)[j] == bb;
                    assert(cs@.take(i + 1)[j] == bb);
                }
            },
        }
        i = i + 1;
    }
    proof {
        if has_three_distinct(cs@) {
            let (x, y, z) = choose|x: int, y: int, z: int|
                0 <= x < cs@.len() && 0 <= y < cs@.len() && 0 <= z < cs@.len() && #[trigger] cs@[x] != #[trigger] cs@[y]
                    && cs@[x] != #[trigger] cs@[z] && cs@[y] != cs@[z];
            assert(cs@[x] == a || b == Some(cs@[x]));
            assert(cs@[y] == a || b == Some(cs@[y]));
            assert(cs@[z] == a || b == Some(cs@[z]));
        }
    }
    false
}

/// Whether a message is not worth indexing.
pub fn should_skip(content: &str, is_bot: bool) -> (r: bool)
    ensures
        r == skip_spec(content@, is_bot),
        link_free(content@) ==> r == skip_rules(content@, content@, is_bot),
{
    let cs = chars_of(content);
    // Skip command invocations from non-bot users.
    if !is_bot && cs.len() > 0 && (cs[0] == '/' || cs[0] == '~') {
        return true;
    }
    // Skip messages that are only a URL.
    let stripped = strip_urls(content);
    proof {
        if link_free(content@) {
            lemma_link_free_unchanged(content@);
        }
    }
    let trimmed = trim_str(stripped.as_str());
    if trimmed.as_str().is_empty() {
        return true;
    }
    // Skip very short messages.
    if content.as_bytes().len() < MIN_CONTENT_LEN {
        return true;
    }
    // Skip messages with fewer than three distinct characters.
    !three_distinct(&cs)
}

/// Whether a message with this content is indexed: its trimmed text is
/// non-empty and not skipped.
pub open spec fn indexable_spec(content: Seq<char>, is_bot: bool) -> bool {
    trim(content).len() > 0 && !skip_spec(trim(content), is_bot)
}

/// Whether a message with this content is indexed.
pub fn is_indexable(content: &str, is_bot: bool) -> (r: bool)
    ensures
        r == indexable_spec(content@, is_bot),
        link_free(trim(content@)) ==> r == (trim(content@).len() > 0 && !skip_rules(trim(content@), trim(content@), is_bot)),
{
    let t = trim_str(content);
    !t.as_str().is_empty() && !should_skip(t.as_str(), is_bot)
}

/// The text embedded for a message: `author: content`, followed by
/// ` | tags` when there are tags.
pub open spec fn embed_text_spec(author: Seq<char>, content: Seq<char>, tags: Seq<char>) -> Seq<char> {
    if tags.len() == 0 {
        author + ": "@ + content
    } else {
        author + ": "@ + content + " | "@ + tags
    }
}

/// The text embedded for a message.
pub fn embed_text(author: &str, content: &str, tags: &str) -> (r: String)
    ensures
        r@ == embed_text_spec(author@, content@, tags@),
{
    let mut r = String::from_str(author);
    r.append(": ");
    r.append(content);
    if !tags.is_empty() {
        r.append(" | ");
        r.append(tags);
    }
    r
}

/// The tags stored with a message: none when the extraction gave nothing.
pub fn tags_option(tags: &str) -> (r: Option<String>)
    ensures
        tags@.len() == 0 ==> r is None,
        tags@.len() > 0 ==> (r matches Some(t) && t@ == tags@),
{
    if tags.is_empty() {
        None
    } else {
        Some(String::from_str(tags))
    }
}

/// A search query with the extracted tags appended: `query | tags`, or the
/// query alone when there are none.
pub fn enriched_query(query: &str, tags: &str) -> (r: String)
    ensures
        r@ == (if tags@.len() == 0 { query@ } else { query@ + " | "@ + tags@ }),
{
    let mut r = String::from_str(query);
    if !tags.is_empty() {
        r.append(" | ");
        r.append(tags);
    }
    r
}

/// The query used for retrieval: the message followed by its expansion terms.
pub fn search_query(query: &str, expanded: &str) -> (r: String)
    ensures
        r@ == (if expanded@.len() == 0 { query@ } else { query@ + " "@ + expanded@ }),
{
    let mut r = String::from_str(query);
    if !expanded.is_empty() {
        r.append(" ");
        r.append(expanded);
    }
    r
}

/// Every indexed message has non-blank content of at least five bytes.
pub proof fn lemma_indexed_content(content: Seq<char>, is_bot: bool)
    requires
        indexable_spec(content, is_bot),
    ensures
        trim(content).len() > 0,
        vstd::utf8::encode_utf8(trim(content)).len() >= MIN_CONTENT_LEN,
        has_three_distinct(trim(content)),
{
}


/// Most retrieved messages that are used.
pub const MAX_RESULTS: usize = 30;

/// A retrieved message (its similarity score has already been checked).
pub struct RagHit {
    pub message_id: u64,
    pub author_name: String,
    pub content: String,
    pub timestamp: i64,
}

/// What `str::to_lowercase` gives for `s`.
pub uninterp spec fn lowercased(s: Seq<char>) -> Seq<char>;

/// `s.to_lowercase()`.
#[verifier::external_body]
pub(crate) fn lowercase(s: &str) -> (r: String)
    ensures
        r@ == lowercased(s@),
{
    s.to_lowercase()
}

/// The key under which near-identical messages count as one: the content
/// lower-cased, with its words joined by single spaces.
pub open spec fn hit_key(h: RagHit) -> Seq<char> {
    collapse_white_space(lowercased(h.content@))
}

/// The key of a retrieved message.
pub fn hit_key_of(h: &RagHit) -> (r: String)
    ensures
        r@ == hit_key(*h),
{
    let lower = lowercase(h.content.as_str());
    collapse_white_space_str(lower.as_str())
}

/// The messages of `hits` whose key did not occur earlier, in order: of
/// near-identical messages only the first (best-scored) is kept.
pub open spec fn first_by_key(hits: Seq<RagHit>) -> Seq<RagHit>
    decreases hits.len(),
{
    if hits.len() == 0 {
        seq![]
    } else if exists|j: int| 0 <= j < hits.len() - 1 && hit_key(hits[j]) == hit_key(hits.last()) {
        first_by_key(hits.drop_last())
    } else {
        first_by_key(hits.drop_last()).push(hits.last())
    }
}

/// Whether some string of `keys` equals `k`.
pub open spec fn key_seen(keys: Seq<String>, k: Seq<char>) -> bool {
    exists|t: int| 0 <= t < keys.len() && keys[t]@ == k
}

/// Whether one of the first `n` messages of `all` has the key `k`.
pub open spec fn key_in_prefix(all: Seq<RagHit>, n: int, k: Seq<char>) -> bool {
    exists|j: int| 0 <= j < n && hit_key(all[j]) == k
}

/// Whether some string of `keys` equals `k`.
fn contains_key(keys: &Vec<String>, k: &String) -> (r: bool)
    ensures
        r == exists|t: int| 0 <= t < keys.len() && keys@[t]@ == k@,
{
    let mut t: usize = 0;
    while t < keys.len()
        invariant
            t <= keys.len(),
            forall|u: int| 0 <= u < t ==> keys@[u]@ != k@,
        decreases keys.len() - t,
    {
        if keys[t] == *k {
            return true;
        }
        t = t + 1;
    }
    false
}

/// Drop near-identical messages, keeping the first of each.
pub fn dedup_hits(hits: Vec<RagHit>) -> (r: Vec<RagHit>)
    ensures
        r@ == first_by_key(hits@),
{
    let ghost all = hits@;
    let mut out: Vec<RagHit> = Vec::new();
    let mut keys: Vec<String> = Vec::new();
    let mut i: usize = 0;
    let mut rest = hits;
    assert(all.take(0) == Seq::<RagHit>::empty());
    assert(all.skip(0) == all);
    assert(all.len() == rest.len());
    while rest.len() > 0
        invariant
            i + rest.len() == all.len(),
            all.len() <= usize::MAX,
            rest@ == all.skip(i as int),
            out@ == first_by_key(all.take(i as int)),
            forall|j: int| 0 <= j < i ==> key_seen(keys@, hit_key(#[trigger] all[j])),
            forall|t: int| 0 <= t < keys.len() ==> key_in_prefix(all, i as int, #[trigger] keys@[t]@),
        decreases rest.len(),
    {
        let h = rest.remove(0);
        assert(h == all[i as int]);
        assert(rest@ == all.skip(i + 1));
        let k = hit_key_of(&h);
        let seen = contains_key(&keys, &k);
        let ghost pre = all.take(i + 1);
        assert(pre.drop_last() == all.take(i as int));
        assert(pre.last() == h);
        proof {
            if seen {
                let t = choose|t: int| 0 <= t < keys.len() && keys@[t]@ == k@;
                assert(key_in_prefix(all, i as int, keys@[t]@));
                let j = choose|j: int| 0 <= j < i && hit_key(all[j]) == keys@[t]@;
                assert(pre[j] == all[j]);
            } else {
                assert forall|j: int| 0 <= j < pre.len() - 1 implies hit_key(pre[j]) != hit_key(pre.last()) by {
                    assert(pre[j] == all[j]);
                    assert(key_seen(keys@, hit_key(all[j])));
                    let t = choose|t: int| 0 <= t < keys.len() && keys@[t]@ == hit_key(all[j]);
                }
            }
        }
        if !seen {
            out.push(h);
            let ghost before = keys@;
            keys.push(k);
            proof {
                assert forall|j: int| 0 <= j < i + 1 implies key_seen(keys@, hit_key(#[trigger] all[j])) by {
                    if j < i {
                        let t = choose|t: int| 0 <= t < before.len() && before[t]@ == hit_key(all[j]);
                        assert(keys@[t] == before[t]);
                    } else {
                        assert(keys@[before.len() as int]@ == hit_key(all[j]));
                    }
                }
                assert forall|t: int| 0 <= t < keys.len() implies key_in_prefix(all, i + 1, #[trigger] keys@[t]@) by {
                    if t < before.len() {
                        assert(keys@[t] == before[t]);
                        assert(key_in_prefix(all, i as int, before[t]@));
                        let j = choose|j: int| 0 <= j < i && hit_key(all[j]) == before[t]@;
                    } else {
                        assert(keys@[t]@ == hit_key(all[i as int]));
                    }
                }
            }
        } else {
            proof {
                let t = choose|t: int| 0 <= t < keys.len() && keys@[t]@ == k@;
                assert(keys@[t]@ == hit_key(all[i as int]));
            }
        }
        i = i + 1;
    }
    assert(all.take(all.len() as int) == all);
    out
}

/// `h` placed into the time-ordered `s` after every message that is not
/// later than it (a stable insertion).
pub open spec fn insert_by_time(s: Seq<RagHit>, h: RagHit) -> Seq<RagHit>
    decreases s.len(),
{
    if s.len() == 0 || s.last().timestamp <= h.timestamp {
        s.push(h)
    } else {
        insert_by_time(s.drop_last(), h).push(s.last())
    }
}

/// `hits` in time order, equal times keeping their order (a stable sort by
/// timestamp).
pub open spec fn sort_by_time(hits: Seq<RagHit>) -> Seq<RagHit>
    decreases hits.len(),
{
    if hits.len() == 0 {
        hits
    } else {
        insert_by_time(sort_by_time(hits.drop_last()), hits.last())
    }
}

proof fn lemma_insert_by_time_at(s: Seq<RagHit>, h: RagHit, p: int)
    requires
        0 <= p <= s.len(),
        forall|j: int| p <= j < s.len() ==> #[trigger] s[j].timestamp > h.timestamp,
        p == 0 || s[p - 1].timestamp <= h.timestamp,
    ensures
        insert_by_time(s, h) == s.insert(p, h),
    decreases s.len(),
{
    if s.len() == 0 {
        assert(s.insert(p, h) =~= s.push(h));
    } else if s.last().timestamp <= h.timestamp {
        assert(p == s.len());
        assert(s.insert(p, h) =~= s.push(h));
    } else {
        let t = s.drop_last();
        lemma_insert_by_time_at(t, h, p);
        assert(t.insert(p, h).push(s.last()) =~= s.insert(p, h));
    }
}

/// Order messages by time, keeping the order of equal times.
pub fn sort_hits_by_time(hits: Vec<RagHit>) -> (r: Vec<RagHit>)
    ensures
        r@ == sort_by_time(hits@),
{
    let ghost all = hits@;
    let mut out: Vec<RagHit> = Vec::new();
    let mut i: usize = 0;
    let mut rest = hits;
    assert(all.take(0) == Seq::<RagHit>::empty());
    assert(all.skip(0) == all);
    assert(all.len() == rest.len());
    while rest.len() > 0
        invariant
            i + rest.len() == all.len(),
            all.len() <= usize::MAX,
            rest@ == all.skip(i as int),
            out@ == sort_by_time(all.take(i as int)),
        decreases rest.len(),
    {
        let h = rest.remove(0);
        assert(h == all[i as int]);
        assert(rest@ == all.skip(i + 1));
        let mut p = out.len();
        while p > 0 && out[p - 1].timestamp > h.timestamp
            invariant
                p <= out.len(),
                forall|j: int| p <= j < out.len() ==> #[trigger] out@[j].timestamp > h.timestamp,
            decreases p,
        {
            p = p - 1;
        }
        proof {
            lemma_insert_by_time_at(out@, h, p as int);
            let pre = all.take(i + 1);
            assert(pre.drop_last() == all.take(i as int));
            assert(pre.last() == h);
        }
        out.insert(p, h);
        i = i + 1;
    }
    assert(all.take(all.len() as int) == all);
    out
}

/// The messages used from a search, best first: near-duplicates dropped,
/// at most thirty.
pub open spec fn listing(hits: Seq<RagHit>) -> Seq<RagHit> {
    let d = first_by_key(hits);
    if d.len() > MAX_RESULTS { d.take(MAX_RESULTS as int) } else { d }
}

/// The messages used from a search.
pub fn search_listing(hits: Vec<RagHit>) -> (r: Vec<RagHit>)
    ensures
        r@ == listing(hits@),
{
    let mut d = dedup_hits(hits);
    d.truncate(MAX_RESULTS);
    d
}

/// How a retrieved message is shown to the model: `[author at stamp]: content`.
pub open spec fn history_line(h: RagHit) -> Seq<char> {
    "["@ + h.author_name@ + " at "@ + minute_stamp(h.timestamp, "unknown time"@) + "]: "@ + h.content@
}

/// The retrieved history given to the model: the search listing in time
/// order, one system message per message.
pub open spec fn history_spec(hits: Seq<RagHit>) -> Seq<RagHit> {
    sort_by_time(listing(hits))
}

/// The retrieved history given to the model.
pub fn history_messages(hits: Vec<RagHit>) -> (r: Vec<ModelMessageData>)
    ensures
        r.len() == history_spec(hits@).len(),
        forall|i: int| 0 <= i < r.len() ==> is_message(#[trigger] r@[i], "system"@, history_line(history_spec(hits@)[i])),
{
    let listed = search_listing(hits);
    let sorted = sort_hits_by_time(listed);
    let mut r: Vec<ModelMessageData> = Vec::new();
    let mut i: usize = 0;
    while i < sorted.len()
        invariant
            i <= sorted.len(),
            r.len() == i,
            forall|j: int| 0 <= j < i ==> is_message(#[trigger] r@[j], "system"@, history_line(sorted@[j])),
        decreases sorted.len() - i,
    {
        let h = &sorted[i];
        let stamp = minute_stamp_text(h.timestamp, "unknown time");
        let mut content = String::from_str("[");
        content.append(h.author_name.as_str());
        content.append(" at ");
        content.append(stamp.as_str());
        content.append("]: ");
        content.append(h.content.as_str());
        r.push(system_message(content));
        i = i + 1;
    }
    r
}

/// Every kept message is one of the input's.
pub proof fn lemma_first_by_key_from_input(hits: Seq<RagHit>)
    ensures
        forall|t: int| 0 <= t < first_by_key(hits).len() ==> hits.contains(#[trigger] first_by_key(hits)[t]),
    decreases hits.len(),
{
    if hits.len() > 0 {
        let init = hits.drop_last();
        lemma_first_by_key_from_input(init);
        let f = first_by_key(hits);
        let fi = first_by_key(init);
        assert forall|t: int| 0 <= t < f.len() implies hits.contains(#[trigger] f[t]) by {
            if t < fi.len() {
                assert(f[t] == fi[t]);
                assert(init.contains(fi[t]));
                let j = choose|j: int| 0 <= j < init.len() && init[j] == fi[t];
                assert(hits[j] == init[j]);
            } else {
                assert(f[t] == hits[hits.len() - 1]);
            }
        }
    }
}

/// Every key of the input is kept.
pub proof fn lemma_first_by_key_covers(hits: Seq<RagHit>)
    ensures
        forall|j: int| 0 <= j < hits.len() ==> key_kept(first_by_key(hits), hit_key(#[trigger] hits[j])),
    decreases hits.len(),
{
    if hits.len() > 0 {
        let init = hits.drop_last();
        lemma_first_by_key_covers(init);
        let f = first_by_key(hits);
        let fi = first_by_key(init);
        assert forall|j: int| 0 <= j < hits.len() implies key_kept(f, hit_key(#[trigger] hits[j])) by {
            if j < hits.len() - 1 {
                assert(hits[j] == init[j]);
                assert(key_kept(fi, hit_key(init[j])));
                let t = choose|t: int| 0 <= t < fi.len() && hit_key(fi[t]) == hit_key(init[j]);
                assert(f[t] == fi[t]);
            } else if exists|w: int| 0 <= w < hits.len() - 1 && hit_key(hits[w]) == hit_key(hits.last()) {
                let w = choose|w: int| 0 <= w < hits.len() - 1 && hit_key(hits[w]) == hit_key(hits.last());
                assert(hits[w] == init[w]);
                assert(key_kept(fi, hit_key(init[w])));
            } else {
                assert(f[f.len() - 1] == hits[j]);
            }
        }
    }
}

/// Kept messages have pairwise different keys: no near-duplicate survives.
pub proof fn lemma_first_by_key_distinct(hits: Seq<RagHit>)
    ensures
        forall|a: int, b: int| 0 <= a < b < first_by_key(hits).len()
            ==> hit_key(#[trigger] first_by_key(hits)[a]) != hit_key(#[trigger] first_by_key(hits)[b]),
    decreases hits.len(),
{
    if hits.len() > 0 {
        let init = hits.drop_last();
        lemma_first_by_key_distinct(init);
        lemma_first_by_key_from_input(init);
        let f = first_by_key(hits);
        let fi = first_by_key(init);
        if !exists|j: int| 0 <= j < hits.len() - 1 && hit_key(hits[j]) == hit_key(hits.last()) {
            assert forall|a: int, b: int| 0 <= a < b < f.len() implies hit_key(#[trigger] f[a]) != hit_key(#[trigger] f[b]) by {
                if b == f.len() - 1 {
                    assert(f[a] == fi[a]);
                    assert(init.contains(fi[a]));
                    let j = choose|j: int| 0 <= j < init.len() && init[j] == fi[a];
                    assert(hits[j] == init[j]);
                } else {
                    assert(f[a] == fi[a] && f[b] == fi[b]);
                }
            }
        }
    }
}

/// Whether some message of `kept` has the key `k`.
pub open spec fn key_kept(kept: Seq<RagHit>, k: Seq<char>) -> bool {
    exists|t: int| 0 <= t < kept.len() && hit_key(kept[t]) == k
}

/// Whether messages are in time order.
pub open spec fn time_ordered(s: Seq<RagHit>) -> bool {
    forall|a: int, b: int| 0 <= a < b < s.len() ==> #[trigger] s[a].timestamp <= #[trigger] s[b].timestamp
}

proof fn lemma_insert_keeps_order(s: Seq<RagHit>, h: RagHit)
    requires
        time_ordered(s),
    ensures
        time_ordered(insert_by_time(s, h)),
        insert_by_time(s, h).to_multiset() == s.to_multiset().insert(h),
    decreases s.len(),
{
    broadcast use vstd::seq_lib::group_to_multiset_ensures;
    if s.len() == 0 || s.last().timestamp <= h.timestamp {
    } else {
        let t = s.drop_last();
        lemma_insert_keeps_order(t, h);
        let it = insert_by_time(t, h);
        assert(t.push(s.last()) == s);
        assert forall|a: int, b: int| 0 <= a < b < it.push(s.last()).len() implies
            #[trigger] it.push(s.last())[a].timestamp <= #[trigger] it.push(s.last())[b].timestamp by {
            if b == it.len() {
                assert(it.to_multiset().count(it[a]) > 0);
                assert(it[a] == h || t.to_multiset().count(it[a]) > 0);
                if it[a] != h {
                    assert(t.contains(it[a]));
                    let c = choose|c: int| 0 <= c < t.len() && t[c] == it[a];
                    assert(s[c] == t[c]);
                }
            } else {
                assert(it.push(s.last())[a] == it[a] && it.push(s.last())[b] == it[b]);
            }
        }
        assert(s.to_multiset() == t.to_multiset().insert(s.last()));
    }
}

/// Sorting by time orders the messages and keeps exactly the same messages.
pub proof fn lemma_sort_by_time(hits: Seq<RagHit>)
    ensures
        time_ordered(sort_by_time(hits)),
        sort_by_time(hits).to_multiset() == hits.to_multiset(),
    decreases hits.len(),
{
    broadcast use vstd::seq_lib::group_to_multiset_ensures;
    if hits.len() > 0 {
        lemma_sort_by_time(hits.drop_last());
        lemma_insert_keeps_order(sort_by_time(hits.drop_last()), hits.last());
        assert(hits.drop_last().push(hits.last()) == hits);
    }
}


/// `hits[j]` comes first among the messages of `hits` with its key: no
/// better-scored near-duplicate precedes it.
pub open spec fn first_of_its_key(hits: Seq<RagHit>, j: int) -> bool {
    &&& 0 <= j < hits.len()
    &&& forall|i: int| 0 <= i < j ==> hit_key(#[trigger] hits[i]) != hit_key(hits[j])
}

/// `x` is a message of `hits` that comes first among those with its key.
pub open spec fn kept_first(hits: Seq<RagHit>, x: RagHit) -> bool {
    exists|j: int| #[trigger] first_of_its_key(hits, j) && hits[j] == x
}

/// Every message kept by de-duplication is the first of its key in the input.
pub proof fn lemma_first_by_key_keeps_first(hits: Seq<RagHit>)
    ensures
        forall|t: int| 0 <= t < first_by_key(hits).len() ==> kept_first(hits, #[trigger] first_by_key(hits)[t]),
    decreases hits.len(),
{
    if hits.len() > 0 {
        let init = hits.drop_last();
        lemma_first_by_key_keeps_first(init);
        let f = first_by_key(hits);
        let fi = first_by_key(init);
        let dup = exists|j: int| 0 <= j < hits.len() - 1 && hit_key(hits[j]) == hit_key(hits.last());
        if dup {
            assert(f == fi);
        } else {
            assert(f == fi.push(hits.last()));
        }
        assert forall|t: int| 0 <= t < f.len() implies kept_first(hits, #[trigger] f[t]) by {
            if t < fi.len() {
                assert(f[t] == fi[t]);
                assert(kept_first(init, fi[t]));
                let j = choose|j: int| #[trigger] first_of_its_key(init, j) && init[j] == fi[t];
                assert forall|i: int| 0 <= i < j implies hit_key(#[trigger] hits[i]) != hit_key(hits[j]) by {
                    assert(hits[i] == init[i]);
                }
                assert(first_of_its_key(hits, j));
            } else {
                let j = hits.len() - 1;
                assert(!dup);
                assert(f[t] == hits.last());
                assert forall|i: int| 0 <= i < j implies hit_key(#[trigger] hits[i]) != hit_key(hits[j]) by {
                    if hit_key(hits[i]) == hit_key(hits[j]) {
                        assert(0 <= i < hits.len() - 1 && hit_key(hits[i]) == hit_key(hits.last()));
                    }
                }
                assert(first_of_its_key(hits, j));
            }
        }
    } else {
        assert(first_by_key(hits).len() == 0);
    }
}

/// What the model is given from a search: at most thirty messages, in time
/// order, that are exactly (as a multiset) the first thirty of the
/// de-duplicated results in score order; and each is the best-scored copy
/// among its near-duplicates in the input.
pub proof fn lemma_history_keeps_best(hits: Seq<RagHit>)
    ensures
        history_spec(hits).len() <= MAX_RESULTS,
        time_ordered(history_spec(hits)),
        history_spec(hits).to_multiset() == (if first_by_key(hits).len() > MAX_RESULTS {
            first_by_key(hits).take(MAX_RESULTS as int)
        } else {
            first_by_key(hits)
        }).to_multiset(),
        forall|t: int| 0 <= t < history_spec(hits).len() ==> kept_first(hits, #[trigger] history_spec(hits)[t]),
{
    broadcast use vstd::seq_lib::group_to_multiset_ensures;
    let l = listing(hits);
    let h = history_spec(hits);
    lemma_sort_by_time(l);
    lemma_first_by_key_keeps_first(hits);
    let f = first_by_key(hits);
    assert forall|t: int| 0 <= t < h.len() implies kept_first(hits, #[trigger] h[t]) by {
        assert(h.contains(h[t]));
        assert(h.to_multiset().count(h[t]) > 0);
        assert(l.to_multiset().count(h[t]) > 0);
        assert(l.contains(h[t]));
        let u = choose|u: int| 0 <= u < l.len() && l[u] == h[t];
        assert(f[u] == l[u]);
        assert(kept_first(hits, f[u]));
    }
    assert(h.len() == h.to_multiset().len());
    assert(l.len() == l.to_multiset().len());
}

/// A channel is backfilled only when its backfill is unfinished, it has been
/// idle for at least thirty minutes, and (after an attempt) the five-minute
/// cooldown has passed; an earlier attempt never waives the idle rule.
pub proof fn lemma_backfill_needs_idle(state: ChannelState, now: UtcInstant)
    requires
        backfill_due_spec(state, now),
    ensures
        !state.backfill_complete,
        elapsed_secs(now, state.last_message_at) >= 1800,
        state.last_backfill_attempt matches Some(t) ==> elapsed_secs(now, t) >= 300,
{
}

/// Longest part of a message, in bytes, shown in a search listing.
pub const LISTED_CONTENT_BYTES: usize = 200;

/// Longest listing description, in bytes (the limit of an embed description).
pub const DESCRIPTION_BYTES: usize = 4096;

/// A message's content as listed: all of it, or its first 200 bytes and `…`.
pub open spec fn listed_content(c: Seq<char>) -> Seq<char> {
    if byte_len(c) > LISTED_CONTENT_BYTES {
        byte_prefix(c, LISTED_CONTENT_BYTES as int) + seq!['…']
    } else {
        c
    }
}

/// The listing line of the `i`-th result (counting from 0):
/// `` `n` **author** at stamp: content ``.
pub open spec fn search_line(i: int, h: RagHit) -> Seq<char> {
    "`"@ + decimal((i + 1) as nat) + "` **"@ + h.author_name@ + "** at "@ + minute_stamp(h.timestamp, "unknown"@)
        + ": "@ + listed_content(h.content@)
}

/// The listing lines of `hs`.
pub open spec fn search_lines(hs: Seq<RagHit>) -> Seq<Seq<char>> {
    Seq::new(hs.len(), |i: int| search_line(i, hs[i]))
}

/// Every long content can be cut at 200 bytes.
pub open spec fn contents_cuttable(hs: Seq<RagHit>) -> bool {
    forall|i: int| 0 <= i < hs.len() ==> (byte_len(#[trigger] hs[i].content@) > LISTED_CONTENT_BYTES
        ==> at_char_boundary(hs[i].content@, LISTED_CONTENT_BYTES as int))
}

/// The description of a search listing: its lines joined by line feeds, cut
/// to 4096 bytes; `None` where a cut would split a character.
pub open spec fn search_description_spec(hs: Seq<RagHit>) -> Option<Seq<char>> {
    if !contents_cuttable(hs) {
        None
    } else {
        let d = join(search_lines(hs), "\n"@);
        if byte_len(d) <= DESCRIPTION_BYTES {
            Some(d)
        } else if at_char_boundary(d, DESCRIPTION_BYTES as int) {
            Some(byte_prefix(d, DESCRIPTION_BYTES as int))
        } else {
            None
        }
    }
}

/// The listing line of the `i`-th result.
pub fn search_line_text(i: usize, h: &RagHit) -> (r: String)
    requires
        i < usize::MAX,
        byte_len(h.content@) > LISTED_CONTENT_BYTES ==> at_char_boundary(h.content@, LISTED_CONTENT_BYTES as int),
    ensures
        r@ == search_line(i as int, *h),
{
    let mut r = String::from_str("`");
    push_decimal(&mut r, (i + 1) as u64);
    r.append("` **");
    r.append(h.author_name.as_str());
    r.append("** at ");
    let stamp = minute_stamp_text(h.timestamp, "unknown");
    r.append(stamp.as_str());
    r.append(": ");
    if byte_len_of(h.content.as_str()) > LISTED_CONTENT_BYTES {
        let mut c = byte_prefix_str(h.content.as_str(), LISTED_CONTENT_BYTES);
        push_char(&mut c, '…');
        assert(c@ == listed_content(h.content@));
        r.append(c.as_str());
    } else {
        r.append(h.content.as_str());
    }
    r
}

/// The description of a search listing, or `None` where a cut would split
/// a character.
pub fn search_description(hs: &Vec<RagHit>) -> (r: Option<String>)
    ensures
        r matches Some(d) ==> search_description_spec(hs@) == Some(d@),
        r is None ==> search_description_spec(hs@) is None,
{
    let mut lines: Vec<String> = Vec::new();
    let mut i: usize = 0;
    while i < hs.len()
        invariant
            i <= hs.len(),
            views(lines@) == search_lines(hs@).take(i as int),
            forall|j: int| 0 <= j < i ==> (byte_len(#[trigger] hs@[j].content@) > LISTED_CONTENT_BYTES
                ==> at_char_boundary(hs@[j].content@, LISTED_CONTENT_BYTES as int)),
        decreases hs.len() - i,
    {
        let h = &hs[i];
        if byte_len_of(h.content.as_str()) > LISTED_CONTENT_BYTES && !h.content.as_str().is_char_boundary(LISTED_CONTENT_BYTES) {
            return None;
        }
        let ghost before = lines@;
        lines.push(search_line_text(i, h));
        assert(views(lines@) == views(before).push(search_line(i as int, hs@[i as int])));
        assert(search_lines(hs@).take(i + 1) == search_lines(hs@).take(i as int).push(search_line(i as int, hs@[i as int])));
        i = i + 1;
    }
    assert(search_lines(hs@).take(hs.len() as int) == search_lines(hs@));
    let d = join_strings(&lines, "\n");
    if byte_len_of(d.as_str()) <= DESCRIPTION_BYTES {
        Some(d)
    } else if d.as_str().is_char_boundary(DESCRIPTION_BYTES) {
        Some(byte_prefix_str(d.as_str(), DESCRIPTION_BYTES))
    } else {
        None
    }
}

/// The footer of a search listing: the number of results, and the tags
/// when there are any.
pub fn search_footer(count: usize, tags: &str) -> (r: String)
    ensures
        r@ == (if tags@.len() == 0 {
            decimal(count as nat) + " results"@
        } else {
            decimal(count as nat) + " results • tags: "@ + tags@
        }),
{
    let mut r = String::new();
    push_decimal(&mut r, count as u64);
    assert(r@ == decimal(count as nat));
    if tags.is_empty() {
        r.append(" results");
    } else {
        r.append(" results • tags: ");
        r.append(tags);
    }
    r
}


/// The database key of a registered channel: its id in decimal.
pub fn channel_key(channel_id: u64) -> (r: String)
    ensures
        r@ == decimal(channel_id as nat),
{
    u64_to_string(channel_id)
}

/// The channel id stored under a database key, if the key is one.
pub fn parse_channel_key(key: &str) -> (r: Option<u64>)
    ensures
        r == parse_u64(key@),
{
    parse_u64_str(key)
}

/// Reading back a channel's key gives the channel.
pub proof fn lemma_channel_key_roundtrip(channel_id: u64)
    ensures
        parse_u64(decimal(channel_id as nat)) == Some(channel_id),
{
    lemma_parse_decimal(channel_id);
}

} // verus!
