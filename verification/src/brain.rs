//! Long-term memory kept as documents in an Outline wiki.
use vstd::prelude::*;
use crate::chat::{ModelMessageData, is_message, system_message};
use crate::text::{trim, trim_str, byte_len, byte_len_of, at_char_boundary, byte_prefix, byte_prefix_str};

verus! {

/// A document of the wiki.
pub struct OutlineDoc {
    pub id: String,
    pub title: String,
    pub text: String,
}

/// A local index entry that finds a memory document by its title.
pub struct BrainIndexEntry {
    pub id: String,
    pub title: String,
}

/// The key under which a memory document is found by its title: the title
/// lower-cased, so titles differing only in case share a document.
pub fn memory_index_key(title: &str) -> (r: String)
    ensures
        r@ == crate::rag::lowercased(title@),
{
    crate::rag::lowercase(title)
}

/// Longest part of a document, in bytes, that goes into the conversation.
pub const SNIPPET_BYTES: usize = 800;

/// Whether the memory store is configured: both its URL and its key are set.
pub fn is_enabled(outline_url: &str, outline_api_key: &str) -> (r: bool)
    ensures
        r == (outline_url@.len() > 0 && outline_api_key@.len() > 0),
{
    !outline_url.is_empty() && !outline_api_key.is_empty()
}

/// The authorization header value for the wiki's API: `Bearer <key>`.
pub fn auth_header(api_key: &str) -> (r: String)
    ensures
        r@ == "Bearer "@ + api_key@,
{
    let mut r = String::from_str("Bearer ");
    r.append(api_key);
    r
}

/// What of a document goes into the conversation: all of it, or its first
/// 800 bytes followed by `…`.
pub open spec fn snippet(text: Seq<char>) -> Seq<char> {
    if byte_len(text) > SNIPPET_BYTES {
        byte_prefix(text, SNIPPET_BYTES as int) + seq!['…']
    } else {
        text
    }
}

/// A document as a memory message: `[Memory: title]` and its snippet.
pub fn memory_doc_message(doc: &OutlineDoc) -> (r: ModelMessageData)
    requires
        byte_len(doc.text@) > SNIPPET_BYTES ==> at_char_boundary(doc.text@, SNIPPET_BYTES as int),
    ensures
        is_message(r, "system"@, "[Memory: "@ + doc.title@ + "]\n"@ + snippet(doc.text@)),
{
    let snippet = if byte_len_of(doc.text.as_str()) > SNIPPET_BYTES {
        let mut s = byte_prefix_str(doc.text.as_str(), SNIPPET_BYTES);
        crate::text::push_char(&mut s, '…');
        assert(s@ == byte_prefix(doc.text@, SNIPPET_BYTES as int) + seq!['…']);
        s
    } else {
        doc.text.clone()
    };
    let mut content = String::from_str("[Memory: ");
    content.append(doc.title.as_str());
    content.append("]\n");
    content.append(snippet.as_str());
    system_message(content)
}

/// A document's text with a new memory appended: both trimmed, separated
/// by a blank line.
pub fn appended_memory_text(existing: &str, addition: &str) -> (r: String)
    ensures
        r@ == trim(existing@) + "\n\n"@ + trim(addition@),
{
    let mut r = trim_str(existing);
    r.append("\n\n");
    let a = trim_str(addition);
    r.append(a.as_str());
    r
}

} // verus!
