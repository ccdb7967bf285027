use rust_discord_bot::brain::{appended_memory_text, auth_header, is_enabled, memory_doc_message, memory_index_key, OutlineDoc};
use rust_discord_bot::chat::{
    assistant_message, attachment_images, clean_response, expansion_prompt,
    finish_context, history_context_message, json_span, last_final_chunk, memory_context_message,
    pick_response, plain_response, recent_context, request_messages, reply_lines, reply_payload, reply_text, system_message, system_prompt_message,
    user_message, ChatChunk, JsonSpan, ModelMessageData, RinResponse,
};
use rust_discord_bot::clock::{minute_stamp_text, time_description, UtcInstant};

fn msg(role: &str, content: &str) -> ModelMessageData {
    ModelMessageData { role: role.to_string(), content: content.to_string(), images: None }
}

fn chunk(done: bool, content: Option<&str>) -> Option<ChatChunk> {
    Some(ChatChunk { done, content: content.map(|c| c.to_string()) })
}

#[test]
fn default_message_is_the_system_instruction() {
    let m = ModelMessageData::default();
    assert_eq!(m.role, "system");
    assert!(m.content.starts_with("Given the following conversation"));
    assert!(m.images.is_none());
}

#[test]
fn system_prompt_gets_format_instructions() {
    let m = system_prompt_message("You are Rin.");
    assert_eq!(m.role, "system");
    assert!(m.content.starts_with("You are Rin.\n\nRespond using the JSON schema provided."));
    assert!(m.content.ends_with("Use null if nothing is worth saving."));
}

#[test]
fn context_blocks() {
    assert!(memory_context_message(&vec![]).is_none());
    let m = memory_context_message(&vec![msg("system", "a"), msg("system", "b")]).unwrap();
    assert_eq!(
        m.content,
        "The following are relevant long-term memories. Use them as background context.\n\na\n\nb"
    );
    let h = history_context_message(&vec![msg("system", "x"), msg("system", "y")]).unwrap();
    assert!(h.content.ends_with("Timestamps indicate when each was sent.\n\nx\ny"));
    assert!(history_context_message(&vec![]).is_none());
}

#[test]
fn recent_context_is_last_three() {
    let stored: Vec<ModelMessageData> = (0..5).map(|i| msg("user", &i.to_string())).collect();
    let r: Vec<String> = recent_context(&stored).into_iter().map(|m| m.content).collect();
    assert_eq!(r, vec!["2", "3", "4"]);
    let two = vec![msg("user", "a"), msg("assistant", "b")];
    assert_eq!(recent_context(&two).len(), 2);
}

#[test]
fn user_message_strips_mention() {
    let m = user_message("2026-01-01 10:00 UTC", "ann", "@Rin#7236   what's up", vec!["img".to_string()]);
    assert_eq!(m.role, "user");
    assert_eq!(m.content, "[2026-01-01 10:00 UTC] ann says: what's up");
    assert_eq!(m.images, Some(vec!["img".to_string()]));
}

#[test]
fn reply_payload_cleanup() {
    assert_eq!(reply_payload("thinking</check>  {\"text\":\"hi\"} <｜end▁of▁sentence｜>"), "{\"text\":\"hi\"}");
    assert_eq!(reply_payload("  plain  "), "plain");
    assert_eq!(reply_payload("a</check>b</check> c"), "c");
}

#[test]
fn stored_context_keeps_last_nine_without_prefix() {
    let mut messages = vec![msg("system", "prompt"), msg("system", "rag")];
    for i in 0..12 {
        messages.push(msg("user", &i.to_string()));
    }
    let mut last = msg("user", "question");
    last.images = Some(vec!["img".to_string()]);
    messages.push(last);
    let bot = assistant_message("now", "answer");
    let stored = finish_context(messages, bot, 2);
    assert_eq!(stored.len(), 9);
    assert_eq!(stored[8].content, "[now] answer");
    assert_eq!(stored[7].content, "question");
    assert!(stored[7].images.is_none());
    assert_eq!(stored[0].content, "5");

    let short = finish_context(vec![msg("system", "p"), msg("user", "q")], assistant_message("t", "a"), 1);
    let contents: Vec<&str> = short.iter().map(|m| m.content.as_str()).collect();
    assert_eq!(contents, vec!["q", "[t] a"]);
}

#[test]
fn json_span_cases() {
    match json_span("```json\n{\"text\": \"hi\"}\n```") {
        JsonSpan::Found(s) => assert_eq!(s, "{\"text\": \"hi\"}"),
        _ => panic!("expected a span"),
    }
    assert!(matches!(json_span("no braces"), JsonSpan::Missing));
    assert!(matches!(json_span("only { open"), JsonSpan::Missing));
    assert!(matches!(json_span("} x {"), JsonSpan::Reversed));
    match json_span("}{") {
        JsonSpan::Found(s) => assert_eq!(s, ""),
        _ => panic!("adjacent braces give an empty span"),
    }
}

#[test]
fn responses() {
    let r = clean_response(RinResponse {
        text: "  hi \n".to_string(),
        embed: None,
        react_user: Some("👍".to_string()),
        react_self: None,
        memory: None,
    });
    assert_eq!(r.text, "hi");
    assert_eq!(r.react_user.as_deref(), Some("👍"));
    let p = plain_response("  not json ");
    assert_eq!(p.text, "not json");
    assert!(p.embed.is_none() && p.memory.is_none());
}

#[test]
fn stream_chunks() {
    assert_eq!(reply_lines("{\"a\":1}\n\n {\"b\":2} \n"), vec!["{\"a\":1}", "{\"b\":2}"]);
    let chunks = vec![chunk(false, Some("thinking")), None, chunk(true, Some("  tags, here ")), chunk(true, Some("later"))];
    assert_eq!(last_final_chunk(&chunks), Some(3));
    assert_eq!(last_final_chunk(&vec![chunk(false, Some("x"))]), None);
}

#[test]
fn reply_text_reads_the_first_final_line() {
    let body = "{\"done\":false,\"message\":{\"content\":\"thinking\"}}\nnot json\n\n  {\"done\":true,\"message\":{\"role\":\"assistant\",\"content\":\"  tags, here \"}}\n{\"done\":true,\"message\":{\"content\":\"later\"}}\n";
    assert_eq!(reply_text(body, false), "tags, here");
    assert_eq!(reply_text(body, true), "tags, here");
    let blank_first = "{\"done\":true,\"message\":{\"content\":\"   \"}}\n{\"done\":true,\"message\":{\"content\":\"terms\"}}";
    assert_eq!(reply_text(blank_first, false), "");
    assert_eq!(reply_text(blank_first, true), "terms");
    // `done` must be the boolean true; content must be a string.
    assert_eq!(reply_text("{\"done\":\"true\",\"message\":{\"content\":\"x\"}}", false), "");
    assert_eq!(reply_text("{\"done\":true,\"message\":{\"content\":5}}", false), "");
    assert_eq!(reply_text("{\"done\":true}", false), "");
    assert_eq!(reply_text("", true), "");
}

#[test]
fn expansion_prompt_forms() {
    assert_eq!(expansion_prompt("cats?", &vec![]), "Message: cats?");
    assert_eq!(
        expansion_prompt("cats?", &vec![msg("user", "hi"), msg("assistant", "hello")]),
        "Recent conversation:\nhi\nhello\n\nNew message: cats?"
    );
    assert_eq!(expansion_prompt("q", &vec![msg("user", "")]), "Message: q");
}

#[test]
fn images_are_base64() {
    assert_eq!(attachment_images(Some(b"hi".to_vec())), vec!["aGk=".to_string()]);
    assert!(attachment_images(Some(Vec::new())).is_empty());
    assert!(attachment_images(None).is_empty());
    // RFC 4648 test vectors and the last two alphabet characters.
    let cases: [(&[u8], &str); 7] = [
        (b"f", "Zg=="),
        (b"fo", "Zm8="),
        (b"foo", "Zm9v"),
        (b"foob", "Zm9vYg=="),
        (b"fooba", "Zm9vYmE="),
        (b"foobar", "Zm9vYmFy"),
        (&[0xfb, 0xff, 0xbf], "+/+/"),
    ];
    for (bytes, encoded) in cases {
        assert_eq!(attachment_images(Some(bytes.to_vec())), vec![encoded.to_string()]);
    }
}

#[test]
fn brain_helpers() {
    assert!(is_enabled("http://wiki", "key"));
    assert!(!is_enabled("", "key"));
    assert!(!is_enabled("http://wiki", ""));
    assert_eq!(auth_header("SECRET-REDACTED"), "Bearer SECRET-REDACTED");
    assert_eq!(appended_memory_text("  old fact \n", "\tnew fact "), "old fact\n\nnew fact");
    let doc = OutlineDoc { id: "1".into(), title: "Cats".into(), text: "short".into() };
    assert_eq!(memory_doc_message(&doc).content, "[Memory: Cats]\nshort");
    let long = OutlineDoc { id: "2".into(), title: "Long".into(), text: "y".repeat(900) };
    assert_eq!(memory_doc_message(&long).content, format!("[Memory: Long]\n{}…", "y".repeat(800)));
    let m = system_message("x".to_string());
    assert_eq!(m.role, "system");
}

#[test]
fn clock_texts() {
    assert_eq!(minute_stamp_text(0, "unknown time"), "1970-01-01 00:00 UTC");
    assert_eq!(minute_stamp_text(1_780_000_000, "unknown time"), "2026-05-28 20:26 UTC");
    assert_eq!(minute_stamp_text(i64::MAX, "unknown time"), "unknown time");
    let now = UtcInstant { secs: 1_780_000_000, nanos: 0 };
    let d = time_description(now);
    assert!(d.contains("Thursday, May 28 2026  08:26:40 PM UTC"));
    assert!(d.contains("Friday, May 29 2026  05:26:40 AM JST"));
    assert!(d.starts_with("**🇺🇸 Los Angeles**\n"));
    assert!(d.contains("**🌐 UTC**\n"));
    assert!(d.contains("**🇯🇵 Japan**\n"));
    assert_eq!(d, d.trim_end());
}

#[test]
fn request_messages_order_and_prefix() {
    let stored = vec![msg("user", "a"), msg("assistant", "b")];
    let (m, n) = request_messages("P", &vec![], &vec![], stored, msg("user", "u"));
    assert_eq!(n, 1);
    assert_eq!(m.len(), 4);
    assert!(m[0].content.starts_with("P\n\nRespond using the JSON schema provided."));
    assert_eq!((m[1].content.as_str(), m[2].content.as_str(), m[3].content.as_str()), ("a", "b", "u"));

    let (m, n) = request_messages("P", &vec![msg("system", "m1"), msg("system", "m2")], &vec![msg("system", "h1")], vec![], msg("user", "u"));
    assert_eq!(n, 3);
    assert_eq!(m.len(), 4);
    assert_eq!(m[1].content, "The following are relevant long-term memories. Use them as background context.\n\nm1\n\nm2");
    assert!(m[2].content.ends_with("Timestamps indicate when each was sent.\n\nh1"));
    assert_eq!(m[3].content, "u");

    let (_, n) = request_messages("P", &vec![], &vec![msg("system", "h")], vec![], msg("user", "u"));
    assert_eq!(n, 2);
}

#[test]
fn clock_range_matches_chrono() {
    assert_eq!(
        rust_discord_bot::clock::CHRONO_MAX_SECS,
        chrono::DateTime::<chrono::Utc>::MAX_UTC.timestamp()
    );
    let late = UtcInstant { secs: rust_discord_bot::clock::CHRONO_MAX_SECS - 86400, nanos: 999_999_999 };
    let d = time_description(late);
    assert!(d.contains("262142"));
}

fn reply(text: &str) -> RinResponse {
    RinResponse { text: text.to_string(), embed: None, react_user: None, react_self: None, memory: None }
}

#[test]
fn pick_response_prefers_whole_then_span_then_plain() {
    let r = pick_response(Some(reply(" a ")), JsonSpan::Missing, Some(reply("b")), " raw ");
    assert_eq!(r.text, "a");
    let r = pick_response(None, JsonSpan::Found("{}".to_string()), Some(reply(" b ")), " raw ");
    assert_eq!(r.text, "b");
    let r = pick_response(None, JsonSpan::Found("{}".to_string()), None, " raw ");
    assert_eq!(r.text, "raw");
    let r = pick_response(None, JsonSpan::Missing, None, "  plain text\n");
    assert_eq!(r.text, "plain text");
    assert!(r.embed.is_none() && r.memory.is_none());
}

#[test]
fn memory_keys_ignore_case() {
    assert_eq!(memory_index_key("Favourite Food ÄB"), "favourite food äb");
}
