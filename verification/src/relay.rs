//! Decision and formatting helpers of the relay around the segmenter:
//! whose messages are stored and answered, how a conversation message is
//! framed for the assistant, and what each run status means for the
//! polling loop. All of it is pure computation on plain values; the
//! transport and store calls that act on these decisions live outside
//! the library.

use vstd::prelude::*;
use vstd::string::StrSliceExecFns;
use vstd::string::StringExecFns;

use crate::chars::{find_first, str_to_chars};

verus! {

/// An upper-case ASCII letter mapped to lower case; every other
/// character kept as it is.
pub open spec fn to_lower(c: char) -> char {
    if 'A' as u32 <= c as u32 && c as u32 <= 'Z' as u32 {
        ((c as u32 + 32) as u32) as char
    } else {
        c
    }
}

/// A sequence of characters mapped to ASCII lower case.
pub open spec fn lower_seq(s: Seq<char>) -> Seq<char> {
    s.map_values(|c: char| to_lower(c))
}

/// Relies on char::to_ascii_lowercase: maps an upper-case ASCII letter
/// to its lower-case counterpart and leaves every other character
/// unchanged.
#[verifier::external_body]
fn lower_char(c: char) -> (r: char)
    ensures
        r == to_lower(c),
{
    c.to_ascii_lowercase()
}

/// Copy of `v` with every character mapped to ASCII lower case.
pub fn lower_chars(v: &Vec<char>) -> (r: Vec<char>)
    ensures
        r@ == lower_seq(v@),
{
    let mut r: Vec<char> = Vec::new();
    let mut i: usize = 0;
    while i < v.len()
        invariant
            i <= v.len(),
            r@.len() == i,
            forall|k: int| 0 <= k < i ==> r@[k] == to_lower(v@[k]),
        decreases v.len() - i,
    {
        r.push(lower_char(v[i]));
        i += 1;
    }
    proof {
        assert(r@ =~= lower_seq(v@));
    }
    r
}

/// Whether `pat` occurs in `hay`; an empty pattern occurs everywhere.
pub open spec fn contains_seq(hay: Seq<char>, pat: Seq<char>) -> bool {
    pat.len() == 0 || find_first(hay, pat) is Some
}

/// Whether `hay` contains `pat` as a contiguous run of characters.
pub fn contains_chars(hay: &Vec<char>, pat: &Vec<char>) -> (r: bool)
    ensures
        r == contains_seq(hay@, pat@),
{
    if pat.len() == 0 {
        return true;
    }
    match crate::chars::find_first_in(hay, pat) {
        Some(_) => true,
        None => false,
    }
}

/// The display name to show for a sender: the global name when one is
/// set, the account name otherwise.
pub fn get_user_name(global_name: &Option<String>, name: &str) -> (r: String)
    ensures
        r@ == match global_name {
            Some(g) => g@,
            None => name@,
        },
{
    match global_name {
        Some(g) => g.clone(),
        None => name.to_owned(),
    }
}

/// Whether an incoming message is stored in the conversation thread:
/// only non-empty messages from someone other than this bot, and never
/// from another bot.
pub fn should_store(author_id: u64, own_id: u64, content: &str, author_is_bot: bool) -> (r: bool)
    ensures
        r == (author_id != own_id && content@.len() > 0 && !author_is_bot),
{
    author_id != own_id && !content.is_empty() && !author_is_bot
}

/// Whether the bot answers an incoming message: never one from a bot,
/// and otherwise when the message names the bot (ignoring ASCII case),
/// mentions it, replies to it, or arrives in a direct conversation.
pub fn should_reply(
    author_is_bot: bool,
    content: &str,
    own_name: &str,
    own_id: u64,
    mentions_me: bool,
    referenced_author_id: &Option<u64>,
    is_dm: bool,
) -> (r: bool)
    ensures
        r == (!author_is_bot && (contains_seq(lower_seq(content@), lower_seq(own_name@))
            || mentions_me || *referenced_author_id == Some(own_id) || is_dm)),
{
    if author_is_bot {
        return false;
    }
    let replies_to_me = match referenced_author_id {
        Some(id) => *id == own_id,
        None => false,
    };
    let content_lower = lower_chars(&str_to_chars(content));
    let name_lower = lower_chars(&str_to_chars(own_name));
    let contains_my_name = contains_chars(&content_lower, &name_lower);
    contains_my_name || mentions_me || replies_to_me || is_dm
}

/// What the polling loop does with one observed run status.
#[derive(Clone, Copy, Debug, PartialEq, Eq, Structural)]
pub enum RunDecision {
    /// The run is still working: poll again.
    Wait,
    /// The run completed: fetch its result.
    FetchResult,
    /// The run ended without completing: give up.
    Abort,
}

/// The run statuses after which polling must stop.
pub open spec fn is_terminal_status(s: Seq<char>) -> bool {
    s == "completed"@ || s == "expired"@ || s == "failed"@ || s == "cancelled"@ || s
        == "incomplete"@
}

/// Whether two strings hold the same characters.
pub fn str_eq(a: &str, b: &str) -> (r: bool)
    ensures
        r == (a@ == b@),
{
    let n = a.unicode_len();
    let m = b.unicode_len();
    if n != m {
        return false;
    }
    let mut i: usize = 0;
    while i < n
        invariant
            i <= n,
            n == a@.len() && n == b@.len(),
            forall|k: int| 0 <= k < i ==> a@[k] == b@[k],
        decreases n - i,
    {
        if a.get_char(i) != b.get_char(i) {
            return false;
        }
        i += 1;
    }
    proof {
        assert(a@ =~= b@);
    }
    true
}

/// Maps one observed run status to the polling loop's next move:
/// a completed run is fetched, any other terminal status aborts, and
/// everything else means the run is still working.
pub fn decide_run(status: &str) -> (r: RunDecision)
    ensures
        r == (if status@ == "completed"@ {
            RunDecision::FetchResult
        } else if is_terminal_status(status@) {
            RunDecision::Abort
        } else {
            RunDecision::Wait
        }),
{
    if str_eq(status, "completed") {
        RunDecision::FetchResult
    } else if str_eq(status, "expired") || str_eq(status, "failed") || str_eq(status, "cancelled")
        || str_eq(status, "incomplete") {
        RunDecision::Abort
    } else {
        RunDecision::Wait
    }
}

/// The framing of one stored conversation message: the sender's name and
/// identifier, the quoted message body, and any formatted attachments.
pub open spec fn thread_message(
    user_name: Seq<char>,
    user_id: Seq<char>,
    content: Seq<char>,
    attachments: Seq<char>,
) -> Seq<char> {
    user_name + " ("@ + user_id + "): \"\"\"\n"@ + content + "\n\"\"\""@ + attachments
}

/// Builds the text stored in the conversation thread for one incoming
/// message, exactly as `thread_message` describes.
pub fn create_thread_message(
    user_name: &str,
    user_id: &str,
    content: &str,
    attachments: &str,
) -> (r: String)
    ensures
        r@ == thread_message(user_name@, user_id@, content@, attachments@),
{
    let mut r = user_name.to_owned();
    r.append(" (");
    r.append(user_id);
    r.append("): \"\"\"\n");
    r.append(content);
    r.append("\n\"\"\"");
    r.append(attachments);
    r
}

/// One downloaded attachment: its file name, and its decoded text when
/// the download and decoding succeeded.
pub struct AttachmentText {
    pub filename: String,
    pub data: Option<String>,
}

/// The framing of one attachment inside a stored message.
pub open spec fn attachment_block(filename: Seq<char>, data: Seq<char>) -> Seq<char> {
    "\nAttachment \""@ + filename + "\": \"\"\"\n"@ + data + "\n\"\"\""@
}

/// The concatenated framing of a list of attachments, in order, with
/// the ones whose text is missing left out.
pub open spec fn format_attachments_spec(items: Seq<AttachmentText>) -> Seq<char>
    decreases items.len(),
{
    if items.len() == 0 {
        Seq::empty()
    } else {
        format_attachments_spec(items.drop_last()) + (match items.last().data {
            Some(d) => attachment_block(items.last().filename@, d@),
            None => Seq::empty(),
        })
    }
}

/// Builds the attachment section of a stored message: one block per
/// attachment whose text is present, in the order given.
pub fn format_attachments(items: &Vec<AttachmentText>) -> (r: String)
    ensures
        r@ == format_attachments_spec(items@),
{
    let mut r = String::new();
    let mut i: usize = 0;
    proof {
        assert(items@.subrange(0, 0) =~= Seq::<AttachmentText>::empty());
    }
    while i < items.len()
        invariant
            i <= items.len(),
            r@ == format_attachments_spec(items@.subrange(0, i as int)),
        decreases items.len() - i,
    {
        proof {
            assert(items@.subrange(0, i + 1).drop_last() =~= items@.subrange(0, i as int));
            assert(items@.subrange(0, i + 1).last() == items@[i as int]);
        }
        match &items[i].data {
            Some(d) => {
                r.append("\nAttachment \"");
                r.append(items[i].filename.as_str());
                r.append("\": \"\"\"\n");
                r.append(d.as_str());
                r.append("\n\"\"\"");
            },
            None => {},
        }
        i += 1;
    }
    proof {
        assert(items@.subrange(0, items@.len() as int) =~= items@);
    }
    r
}

/// The JSON object row that maps a conversation thread to a channel in
/// the persistent store.
pub fn thread_row_json(thread_id: &str, channel_id: &str) -> (r: String)
    ensures
        r@ == "{ \"thread_id\": \""@ + thread_id@ + "\", \"channel_id\": \""@ + channel_id@
            + "\" }"@,
{
    let mut r = String::new();
    r.append("{ \"thread_id\": \"");
    r.append(thread_id);
    r.append("\", \"channel_id\": \"");
    r.append(channel_id);
    r.append("\" }");
    r
}

} // verus!
