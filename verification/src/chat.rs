//! Assembling the conversation sent to the language model and reading its
//! replies.
use vstd::prelude::*;
use base64::Engine;
use crate::json::{JsonLeaf, JsonValue, json_at, read_json_at};
use crate::text::{
    join, join_strings, views, trim, trim_start, trim_str, trim_start_str, remove_all, remove_all_str,
    trim_end_matches, trim_end_matches_str, after_last, after_last_str, nonblank_lines,
    nonblank_lines_of,
};

verus! {

/// One message of a conversation with the model.
pub struct ModelMessageData {
    pub role: String,
    pub content: String,
    pub images: Option<Vec<String>>,
}

/// A named section of a rich embed.
pub struct EmbedField {
    pub name: String,
    pub value: String,
}

/// A rich embed card that the model may ask for.
pub struct EmbedData {
    pub title: Option<String>,
    pub description: Option<String>,
    pub fields: Option<Vec<EmbedField>>,
    pub footer: Option<String>,
}

/// Something the model wants remembered long-term.
pub struct MemoryWrite {
    pub title: String,
    pub content: String,
}

/// The structured reply of the model.
pub struct RinResponse {
    pub text: String,
    pub embed: Option<EmbedData>,
    pub react_user: Option<String>,
    pub react_self: Option<String>,
    pub memory: Option<MemoryWrite>,
}

/// One line of a streamed chat reply, reduced to what is read from it:
/// whether it is the final chunk and the message text it carries.
pub struct ChatChunk {
    pub done: bool,
    pub content: Option<String>,
}

/// The instruction the conversation starts with when nothing else is given.
pub open spec fn default_instruction() -> Seq<char> {
    "Given the following conversation, relevant context, and a follow up question, reply with an answer to the current question the user is asking. Return only your response to the question given the above information following the users instructions as needed."@
}

/// The instructions appended to every system prompt, describing the reply format.
pub open spec fn reply_format_instructions() -> Seq<char> {
    "\n\nRespond using the JSON schema provided.\nThe `text` field must be plain text only — no JSON, no large amount of newlines.\nAlways populate `text` with your main response.\n\nThe `embed` field renders a rich Discord embed card alongside your text. Use it when presenting structured or visual information:\n- `title`: a short heading for the card (optional)\n- `description`: a paragraph of detail or summary (optional)\n- `fields`: up to 5 named sections, each with a `name` label and `value` body — good for comparisons, stats, lists\n- `footer`: a small note at the bottom (optional)\nOnly use embed when it genuinely adds structure. For plain conversational replies, set embed to null.\n\nUse `react_user` to react to the user's message with an emoji when appropriate — otherwise null.\nUse `react_self` to annotate your own reply's tone with an emoji — otherwise null.\nUse `memory` to save something worth remembering long-term (user preferences, facts, decisions) — set `title` as a short topic and `content` as the fact. Use null if nothing is worth saving."@
}

/// `m` is a text-only message with the given role and content.
pub open spec fn is_message(m: ModelMessageData, role: Seq<char>, content: Seq<char>) -> bool {
    m.role@ == role && m.content@ == content && m.images is None
}

/// The contents of a sequence of messages.
pub open spec fn contents(ms: Seq<ModelMessageData>) -> Seq<Seq<char>> {
    ms.map_values(|m: ModelMessageData| m.content@)
}

/// The views of optional image lists.
pub open spec fn image_views(images: Option<Vec<String>>) -> Option<Seq<Seq<char>>> {
    match images {
        Some(v) => Some(views(v@)),
        None => None,
    }
}

/// `b` carries the same role, content and images as `a`.
pub open spec fn same_message(a: ModelMessageData, b: ModelMessageData) -> bool {
    a.role@ == b.role@ && a.content@ == b.content@ && image_views(a.images) == image_views(b.images)
}

impl Default for ModelMessageData {
    fn default() -> (r: ModelMessageData)
        ensures
            is_message(r, "system"@, default_instruction()),
    {
        system_message(String::from_str(
            "Given the following conversation, relevant context, and a follow up question, reply with an answer to the current question the user is asking. Return only your response to the question given the above information following the users instructions as needed.",
        ))
    }
}

/// A system message with the given content.
pub fn system_message(content: String) -> (r: ModelMessageData)
    ensures
        is_message(r, "system"@, content@),
{
    ModelMessageData { role: String::from_str("system"), content, images: None }
}

fn clone_strings(v: &Vec<String>) -> (r: Vec<String>)
    ensures
        views(r@) == views(v@),
{
    let mut r: Vec<String> = Vec::new();
    let mut i: usize = 0;
    while i < v.len()
        invariant
            i <= v.len(),
            views(r@) == views(v@).take(i as int),
        decreases v.len() - i,
    {
        let ghost before = r@;
        r.push(v[i].clone());
        assert(views(r@) == views(before).push(v@[i as int]@));
        i = i + 1;
    }
    assert(views(v@).take(v.len() as int) == views(v@));
    r
}

impl ModelMessageData {
    /// A copy of the message.
    pub fn duplicate(&self) -> (r: ModelMessageData)
        ensures
            same_message(*self, r),
    {
        let images = match &self.images {
            Some(v) => Some(clone_strings(v)),
            None => None,
        };
        ModelMessageData { role: self.role.clone(), content: self.content.clone(), images }
    }
}

/// The opening system message: the given prompt followed by the reply
/// format instructions.
pub fn system_prompt_message(system_prompt: &str) -> (r: ModelMessageData)
    ensures
        is_message(r, "system"@, system_prompt@ + reply_format_instructions()),
{
    let mut content = String::from_str(system_prompt);
    content.append(
        "\n\nRespond using the JSON schema provided.\nThe `text` field must be plain text only — no JSON, no large amount of newlines.\nAlways populate `text` with your main response.\n\nThe `embed` field renders a rich Discord embed card alongside your text. Use it when presenting structured or visual information:\n- `title`: a short heading for the card (optional)\n- `description`: a paragraph of detail or summary (optional)\n- `fields`: up to 5 named sections, each with a `name` label and `value` body — good for comparisons, stats, lists\n- `footer`: a small note at the bottom (optional)\nOnly use embed when it genuinely adds structure. For plain conversational replies, set embed to null.\n\nUse `react_user` to react to the user's message with an emoji when appropriate — otherwise null.\nUse `react_self` to annotate your own reply's tone with an emoji — otherwise null.\nUse `memory` to save something worth remembering long-term (user preferences, facts, decisions) — set `title` as a short topic and `content` as the fact. Use null if nothing is worth saving.",
    );
    system_message(content)
}

/// The contents of `ms`, in order.
pub fn content_strings(ms: &Vec<ModelMessageData>) -> (r: Vec<String>)
    ensures
        views(r@) == contents(ms@),
{
    let mut r: Vec<String> = Vec::new();
    let mut i: usize = 0;
    while i < ms.len()
        invariant
            i <= ms.len(),
            views(r@) == contents(ms@).take(i as int),
        decreases ms.len() - i,
    {
        let ghost before = r@;
        r.push(ms[i].content.clone());
        assert(views(r@) == views(before).push(ms@[i as int].content@));
        i = i + 1;
    }
    assert(contents(ms@).take(ms.len() as int) == contents(ms@));
    r
}

/// The text of the long-term memory block.
pub open spec fn memory_block(memories: Seq<ModelMessageData>) -> Seq<char> {
    "The following are relevant long-term memories. Use them as background context.\n\n"@
        + join(contents(memories), "\n\n"@)
}

/// The text of the retrieved history block.
pub open spec fn history_block(history: Seq<ModelMessageData>) -> Seq<char> {
    "The following are semantically relevant past messages from this channel. Use them as background context if helpful, but do not treat them as part of the current conversation. Timestamps indicate when each was sent.\n\n"@
        + join(contents(history), "\n"@)
}

/// The system message that carries long-term memories, or none when there
/// are no memories.
pub fn memory_context_message(memories: &Vec<ModelMessageData>) -> (r: Option<ModelMessageData>)
    ensures
        memories.len() == 0 ==> r is None,
        memories.len() > 0 ==> (r matches Some(m) && is_message(m, "system"@, memory_block(memories@))),
{
    if memories.len() == 0 {
        return None;
    }
    let parts = content_strings(memories);
    let block = join_strings(&parts, "\n\n");
    let mut content = String::from_str(
        "The following are relevant long-term memories. Use them as background context.\n\n",
    );
    content.append(block.as_str());
    Some(system_message(content))
}

/// The system message that carries retrieved channel history, or none when
/// nothing was retrieved.
pub fn history_context_message(history: &Vec<ModelMessageData>) -> (r: Option<ModelMessageData>)
    ensures
        history.len() == 0 ==> r is None,
        history.len() > 0 ==> (r matches Some(m) && is_message(m, "system"@, history_block(history@))),
{
    if history.len() == 0 {
        return None;
    }
    let parts = content_strings(history);
    let block = join_strings(&parts, "\n");
    let mut content = String::from_str(
        "The following are semantically relevant past messages from this channel. Use them as background context if helpful, but do not treat them as part of the current conversation. Timestamps indicate when each was sent.\n\n",
    );
    content.append(block.as_str());
    Some(system_message(content))
}

/// The messages of a request, and how many context messages lead them: the
/// system prompt, the memory block when there are memories, the history
/// block when there is history, then the stored conversation and last the
/// user's message.
pub fn request_messages(
    system_prompt: &str,
    memories: &Vec<ModelMessageData>,
    history: &Vec<ModelMessageData>,
    stored: Vec<ModelMessageData>,
    user: ModelMessageData,
) -> (r: (Vec<ModelMessageData>, usize))
    ensures
        r.1 == 1 + (if memories.len() > 0 { 1int } else { 0int }) + (if history.len() > 0 { 1int } else { 0int }),
        r.0.len() == r.1 + stored.len() + 1,
        is_message(r.0@[0], "system"@, system_prompt@ + reply_format_instructions()),
        memories.len() > 0 ==> is_message(r.0@[1], "system"@, memory_block(memories@)),
        history.len() > 0 ==> is_message(r.0@[r.1 - 1], "system"@, history_block(history@)),
        r.0@.subrange(r.1 as int, r.1 + stored.len()) == stored@,
        r.0@[r.0.len() - 1] == user,
{
    let mut m: Vec<ModelMessageData> = Vec::new();
    m.push(system_prompt_message(system_prompt));
    let mut n: usize = 1;
    match memory_context_message(memories) {
        Some(x) => {
            m.push(x);
            n = n + 1;
        },
        None => {},
    }
    match history_context_message(history) {
        Some(x) => {
            m.push(x);
            n = n + 1;
        },
        None => {},
    }
    let ghost prefix = m@;
    let mut stored = stored;
    let ghost st = stored@;
    m.append(&mut stored);
    assert(m@ == prefix + st);
    assert(m@.subrange(n as int, n + st.len()) == st);
    m.push(user);
    assert(m@.subrange(n as int, n + st.len()) == st);
    (m, n)
}

/// Copies of the last (up to) three stored messages, oldest first: the
/// recent context passed to query expansion.
pub fn recent_context(stored: &Vec<ModelMessageData>) -> (r: Vec<ModelMessageData>)
    ensures
        r.len() == (if stored.len() < 3 { stored.len() as int } else { 3 }),
        forall|i: int| 0 <= i < r.len() ==> same_message(
            stored@[stored.len() - r.len() + i],
            #[trigger] r@[i],
        ),
{
    let start: usize = if stored.len() < 3 { 0 } else { stored.len() - 3 };
    let mut r: Vec<ModelMessageData> = Vec::new();
    let mut i = start;
    while i < stored.len()
        invariant
            start <= i <= stored.len(),
            start == (if stored.len() < 3 { 0 } else { stored.len() - 3 }),
            r.len() == i - start,
            forall|j: int| 0 <= j < r.len() ==> same_message(stored@[start + j], #[trigger] r@[j]),
        decreases stored.len() - i,
    {
        r.push(stored[i].duplicate());
        i = i + 1;
    }
    r
}


/// The bot's own mention, removed from what users write to it.
pub open spec fn self_mention() -> Seq<char> {
    "@Rin#7236"@
}

/// The content of the user's message as the model sees it:
/// `[stamp] author says: text`, where the text has the bot's mention
/// removed and leading white space trimmed.
pub open spec fn user_content(stamp: Seq<char>, author: Seq<char>, text: Seq<char>) -> Seq<char> {
    "["@ + stamp + "] "@ + author + " says: "@ + trim_start(remove_all(text, self_mention()))
}

/// The user's message, with any attached images.
pub fn user_message(stamp: &str, author: &str, text: &str, images: Vec<String>) -> (r: ModelMessageData)
    ensures
        r.role@ == "user"@,
        r.content@ == user_content(stamp@, author@, text@),
        image_views(r.images) == Some(views(images@)),
{
    let without_mention = remove_all_str(text, "@Rin#7236");
    let body = trim_start_str(without_mention.as_str());
    let mut content = String::from_str("[");
    content.append(stamp);
    content.append("] ");
    content.append(author);
    content.append(" says: ");
    content.append(body.as_str());
    ModelMessageData { role: String::from_str("user"), content, images: Some(images) }
}

/// The marker some models end their output with.
pub open spec fn end_of_sentence() -> Seq<char> {
    "<｜end▁of▁sentence｜>"@
}

/// The payload of the model's answer: end-of-sentence markers stripped from
/// the end, anything up to the last `</check>` dropped, then trimmed.
pub open spec fn reply_payload_spec(content: Seq<char>) -> Seq<char> {
    trim(after_last(trim_end_matches(content, end_of_sentence()), "</check>"@))
}

/// The payload of the model's answer.
pub fn reply_payload(content: &str) -> (r: String)
    ensures
        r@ == reply_payload_spec(content@),
{
    let stripped = trim_end_matches_str(content, "<｜end▁of▁sentence｜>");
    let last = after_last_str(stripped.as_str(), "</check>");
    trim_str(last.as_str())
}

/// The bot's reply as stored in the conversation: `[stamp] text`.
pub fn assistant_message(stamp: &str, text: &str) -> (r: ModelMessageData)
    ensures
        is_message(r, "assistant"@, "["@ + stamp@ + "] "@ + text@),
{
    let mut content = String::from_str("[");
    content.append(stamp);
    content.append("] ");
    content.append(text);
    ModelMessageData { role: String::from_str("assistant"), content, images: None }
}

/// Messages kept of a conversation between requests.
pub const CONTEXT_KEPT: usize = 9;

/// What is stored after a reply: the request's messages with the images of
/// the last (the user's) message dropped, then the reply; without the
/// `prefix_len` context messages at the front; and of those only the last
/// nine when there are ten or more.
pub open spec fn stored_context(messages: Seq<ModelMessageData>, reply: ModelMessageData, prefix_len: int) -> Seq<ModelMessageData> {
    let all = messages.drop_last().push(ModelMessageData { images: None, ..messages.last() }).push(reply);
    let rest = all.skip(if prefix_len <= all.len() { prefix_len } else { all.len() as int });
    if rest.len() >= 10 {
        rest.skip(rest.len() - 9)
    } else {
        rest
    }
}

/// The conversation to store after a reply.
pub fn finish_context(messages: Vec<ModelMessageData>, reply: ModelMessageData, prefix_len: usize) -> (r: Vec<ModelMessageData>)
    requires
        messages.len() > 0,
    ensures
        r@ == stored_context(messages@, reply, prefix_len as int),
        r.len() <= CONTEXT_KEPT,
{
    let mut messages = messages;
    let ghost orig = messages@;
    let mut last = messages.pop().unwrap();
    last.images = None;
    messages.push(last);
    messages.push(reply);
    let ghost all = orig.drop_last().push(ModelMessageData { images: None, ..orig.last() }).push(reply);
    assert(messages@ == all);
    let skip = if prefix_len <= messages.len() { prefix_len } else { messages.len() };
    let mut rest = messages.split_off(skip);
    assert(rest@ == all.skip(skip as int));
    if rest.len() >= 10 {
        let kept = rest.split_off(rest.len() - 9);
        kept
    } else {
        rest
    }
}

/// Where the first `c` stands in `s`, if anywhere.
pub open spec fn first_index_of(s: Seq<char>, c: char) -> Option<int> {
    if exists|i: int| 0 <= i < s.len() && s[i] == c {
        Some(choose|i: int| 0 <= i < s.len() && s[i] == c && forall|j: int| 0 <= j < i ==> s[j] != c)
    } else {
        None
    }
}

/// Where the last `c` stands in `s`, if anywhere.
pub open spec fn last_index_of(s: Seq<char>, c: char) -> Option<int> {
    if exists|i: int| 0 <= i < s.len() && s[i] == c {
        Some(choose|i: int| 0 <= i < s.len() && s[i] == c && forall|j: int| i < j < s.len() ==> s[j] != c)
    } else {
        None
    }
}

/// The span from the first `{` to the last `}` of a text, where a model may
/// have put its JSON inside other text.
pub enum JsonSpan {
    /// There is no `{` or no `}`.
    Missing,
    /// The text from the first `{` through the last `}`.
    Found(String),
    /// The last `}` comes more than one character before the first `{`; the
    /// span cannot be cut out.
    Reversed,
}

/// The span from the first `{` to the last `}` of `raw`.
pub open spec fn json_span_spec(raw: Seq<char>) -> Option<Option<Seq<char>>> {
    match (first_index_of(raw, '{'), last_index_of(raw, '}')) {
        (Some(a), Some(b)) => if a <= b + 1 { Some(Some(raw.subrange(a, b + 1))) } else { Some(None) },
        _ => None,
    }
}

/// The span from the first `{` to the last `}` of `raw`.
pub fn json_span(raw: &str) -> (r: JsonSpan)
    ensures
        r is Missing <==> json_span_spec(raw@) is None,
        r is Reversed <==> json_span_spec(raw@) == Some(None::<Seq<char>>),
        r matches JsonSpan::Found(t) ==> json_span_spec(raw@) == Some(Some(t@)),
{
    let cs = crate::text::chars_of(raw);
    let mut a: usize = 0;
    while a < cs.len() && cs[a] != '{'
        invariant
            a <= cs.len(),
            forall|j: int| 0 <= j < a ==> cs@[j] != '{',
        decreases cs.len() - a,
    {
        a = a + 1;
    }
    let mut b: usize = cs.len();
    while b > 0 && cs[b - 1] != '}'
        invariant
            b <= cs.len(),
            forall|j: int| b <= j < cs.len() ==> cs@[j] != '}',
        decreases b,
    {
        b = b - 1;
    }
    if a == cs.len() || b == 0 {
        proof {
            if a == cs.len() {
                assert(!exists|i: int| 0 <= i < cs@.len() && cs@[i] == '{');
            } else {
                assert(!exists|i: int| 0 <= i < cs@.len() && cs@[i] == '}');
            }
        }
        return JsonSpan::Missing;
    }
    let end = b - 1;
    proof {
        assert(cs@[a as int] == '{');
        let fa = first_index_of(cs@, '{')->0;
        assert(fa == a) by {
            if fa < a { assert(cs@[fa] != '{'); }
            if fa > a { assert(cs@[a as int] != '{'); }
        }
        let lb = last_index_of(cs@, '}')->0;
        assert(cs@[end as int] == '}');
        assert(lb == end) by {
            if lb > end { assert(cs@[lb] != '}'); }
            if lb < end { assert(cs@[end as int] != '}'); }
        }
    }
    if a <= end + 1 {
        JsonSpan::Found(crate::text::string_from_range(&cs, a, end + 1))
    } else {
        JsonSpan::Reversed
    }
}

/// The reply with its text trimmed.
pub fn clean_response(r: RinResponse) -> (c: RinResponse)
    ensures
        c.text@ == trim(r.text@),
        c.embed == r.embed,
        c.react_user == r.react_user,
        c.react_self == r.react_self,
        c.memory == r.memory,
{
    let text = trim_str(r.text.as_str());
    RinResponse { text, ..r }
}

/// The reply used when the model's output is not structured: all of it,
/// trimmed, as plain text.
pub fn plain_response(raw: &str) -> (c: RinResponse)
    ensures
        c.text@ == trim(raw@),
        c.embed is None,
        c.react_user is None,
        c.react_self is None,
        c.memory is None,
{
    RinResponse { text: trim_str(raw), embed: None, react_user: None, react_self: None, memory: None }
}

/// `c` is the reply `r` with its text trimmed.
pub open spec fn cleaned(r: RinResponse, c: RinResponse) -> bool {
    &&& c.text@ == trim(r.text@)
    &&& c.embed == r.embed
    &&& c.react_user == r.react_user
    &&& c.react_self == r.react_self
    &&& c.memory == r.memory
}

/// `c` is the plain-text reply made of all of `raw`, trimmed.
pub open spec fn plain(raw: Seq<char>, c: RinResponse) -> bool {
    &&& c.text@ == trim(raw)
    &&& c.embed is None
    &&& c.react_user is None
    &&& c.react_self is None
    &&& c.memory is None
}

/// The reply to use, given the model's payload `raw`, what parsing all of it
/// as a structured reply gave (`direct`), its JSON span, and what parsing
/// that span gave (`from_span`): the whole payload when it parsed, else the
/// span when there is one and it parsed, else the payload as plain text.
/// Either way the text is trimmed.
pub fn pick_response(direct: Option<RinResponse>, span: JsonSpan, from_span: Option<RinResponse>, raw: &str) -> (c: RinResponse)
    requires
        direct is None ==> !(span is Reversed),
    ensures
        direct matches Some(r) ==> cleaned(r, c),
        direct is None && span is Found && from_span is Some ==> cleaned(from_span->0, c),
        direct is None && !(span is Found && from_span is Some) ==> plain(raw@, c),
{
    match direct {
        Some(r) => clean_response(r),
        None => {
            match (span, from_span) {
                (JsonSpan::Found(_), Some(r)) => clean_response(r),
                _ => plain_response(raw),
            }
        },
    }
}

/// The lines of a streamed reply worth reading: each trimmed, blank ones left out.
pub fn reply_lines(text: &str) -> (r: Vec<String>)
    ensures
        views(r@) == nonblank_lines(text@),
{
    nonblank_lines_of(text)
}

/// Whether a parsed line is the final chunk of a reply.
pub open spec fn is_final(chunk: Option<ChatChunk>) -> bool {
    chunk matches Some(c) && c.done
}

/// Where the last final chunk stands among the parsed lines of a reply.
pub fn last_final_chunk(chunks: &Vec<Option<ChatChunk>>) -> (r: Option<usize>)
    ensures
        r matches Some(i) ==> i < chunks.len() && is_final(chunks@[i as int])
            && forall|j: int| i < j < chunks.len() ==> !is_final(#[trigger] chunks@[j]),
        r is None ==> forall|j: int| 0 <= j < chunks.len() ==> !is_final(#[trigger] chunks@[j]),
{
    let mut i = chunks.len();
    while i > 0
        invariant
            i <= chunks.len(),
            forall|j: int| i <= j < chunks.len() ==> !is_final(#[trigger] chunks@[j]),
        decreases i,
    {
        let is_final = match &chunks[i - 1] {
            Some(c) => c.done,
            None => false,
        };
        if is_final {
            return Some(i - 1);
        }
        i = i - 1;
    }
    None
}

/// The text a reply line carries as its final answer: the line is JSON
/// with `done` true and a string at `/message/content`.
pub open spec fn line_final_text(line: Seq<char>) -> Option<Seq<char>> {
    if json_at(line, "/done"@) == Some(JsonLeaf::Bool(true)) {
        match json_at(line, "/message/content"@) {
            Some(JsonLeaf::Str(c)) => Some(c),
            _ => None,
        }
    } else {
        None
    }
}

/// The trimmed text of the first line that is final and carries text (with
/// `nonblank`, the first whose trimmed text is not empty), or nothing.
pub open spec fn first_final_text(lines: Seq<Seq<char>>, nonblank: bool) -> Seq<char>
    decreases lines.len(),
{
    if lines.len() == 0 {
        seq![]
    } else {
        match line_final_text(lines[0]) {
            Some(t) => if !nonblank || trim(t).len() > 0 {
                trim(t)
            } else {
                first_final_text(lines.drop_first(), nonblank)
            },
            None => first_final_text(lines.drop_first(), nonblank),
        }
    }
}

/// The final text of one reply line, if it carries one.
fn final_text_of_line(line: &str) -> (r: Option<String>)
    ensures
        (match r { Some(t) => Some(t@), None => None::<Seq<char>> }) == line_final_text(line@),
{
    let done = read_json_at(line, "/done");
    match done {
        Some(JsonValue::Bool(true)) => {
            match read_json_at(line, "/message/content") {
                Some(JsonValue::Str(c)) => Some(c),
                _ => None,
            }
        },
        _ => None,
    }
}

/// The answer in the body of a streamed (or single) chat reply: of its
/// non-blank lines, trimmed, the first that is final and carries text, that
/// text trimmed (with `nonblank`, the first whose trimmed text is not
/// empty); an empty string when there is none.
pub fn reply_text(body: &str, nonblank: bool) -> (r: String)
    ensures
        r@ == first_final_text(nonblank_lines(body@), nonblank),
{
    let lines = reply_lines(body);
    let ghost ls = views(lines@);
    let mut i: usize = 0;
    assert(ls.skip(0) == ls);
    while i < lines.len()
        invariant
            ls == views(lines@),
            ls == nonblank_lines(body@),
            i <= lines.len(),
            first_final_text(ls, nonblank) == first_final_text(ls.skip(i as int), nonblank),
        decreases lines.len() - i,
    {
        assert(ls.skip(i as int).drop_first() == ls.skip(i + 1));
        assert(ls.skip(i as int)[0] == lines@[i as int]@);
        match final_text_of_line(lines[i].as_str()) {
            Some(t) => {
                let tt = trim_str(t.as_str());
                if !nonblank || !tt.as_str().is_empty() {
                    return tt;
                }
            },
            None => {},
        }
        i = i + 1;
    }
    String::new()
}

/// What the query expander is asked: the message alone, or after the
/// recent conversation when there is any.
pub open spec fn expansion_prompt_spec(query: Seq<char>, recent: Seq<ModelMessageData>) -> Seq<char> {
    let context = join(contents(recent), "\n"@);
    if context.len() == 0 {
        "Message: "@ + query
    } else {
        "Recent conversation:\n"@ + context + "\n\nNew message: "@ + query
    }
}

/// What the query expander is asked.
pub fn expansion_prompt(query: &str, recent: &Vec<ModelMessageData>) -> (r: String)
    ensures
        r@ == expansion_prompt_spec(query@, recent@),
{
    let parts = content_strings(recent);
    let context = join_strings(&parts, "\n");
    if context.as_str().is_empty() {
        let mut r = String::from_str("Message: ");
        r.append(query);
        r
    } else {
        let mut r = String::from_str("Recent conversation:\n");
        r.append(context.as_str());
        r.append("\n\nNew message: ");
        r.append(query);
        r
    }
}

/// The character of the standard base64 alphabet for the six-bit value `v`.
pub open spec fn base64_digit(v: int) -> char {
    if v < 26 {
        (65 + v) as char
    } else if v < 52 {
        (97 + v - 26) as char
    } else if v < 62 {
        (48 + v - 52) as char
    } else if v == 62 {
        '+'
    } else {
        '/'
    }
}

/// Standard base64 with padding (RFC 4648, section 4), which is what
/// `base64::engine::general_purpose::STANDARD.encode(bytes)` gives: each
/// group of three bytes becomes four characters, and a final group of one or
/// two bytes is padded with `=`.
pub open spec fn base64_standard(bytes: Seq<u8>) -> Seq<char>
    decreases bytes.len(),
{
    if bytes.len() == 0 {
        seq![]
    } else if bytes.len() == 1 {
        let x = bytes[0] as int;
        seq![base64_digit(x / 4), base64_digit((x % 4) * 16), '=', '=']
    } else if bytes.len() == 2 {
        let x = bytes[0] as int;
        let y = bytes[1] as int;
        seq![base64_digit(x / 4), base64_digit((x % 4) * 16 + y / 16), base64_digit((y % 16) * 4), '=']
    } else {
        let x = bytes[0] as int;
        let y = bytes[1] as int;
        let z = bytes[2] as int;
        seq![base64_digit(x / 4), base64_digit((x % 4) * 16 + y / 16), base64_digit((y % 16) * 4 + z / 64), base64_digit(z % 64)]
            + base64_standard(bytes.skip(3))
    }
}

/// Standard, padded base64 of `bytes`.
#[verifier::external_body]
pub(crate) fn base64_encode(bytes: &[u8]) -> (r: String)
    ensures
        r@ == base64_standard(bytes@),
{
    base64::engine::general_purpose::STANDARD.encode(bytes)
}

/// The images sent with a message: the downloaded attachment in base64,
/// none when the download failed or gave an empty encoding.
pub fn attachment_images(download: Option<Vec<u8>>) -> (r: Vec<String>)
    ensures
        match download {
            Some(b) => if base64_standard(b@).len() > 0 {
                views(r@) == seq![base64_standard(b@)]
            } else {
                r.len() == 0
            },
            None => r.len() == 0,
        },
{
    let mut r: Vec<String> = Vec::new();
    match download {
        Some(bytes) => {
            let encoded = base64_encode(bytes.as_slice());
            if !encoded.as_str().is_empty() {
                r.push(encoded);
                assert(views(r@) == seq![r@[0]@]);
            }
        },
        None => {},
    }
    r
}

} // verus!
