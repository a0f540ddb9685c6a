use vstd::prelude::*;
use crate::extract::{ParsedMedia, MediaView, medias_view, extract_media, extracted_media, all_refs};
use crate::facebook::{FacebookExport, Message, MessageView, Participant, messages_view, opt_string_view};
use crate::mojibake::{chars_of, fix_mojibake, repaired};

verus! {

/// A parsed conversation with all its media items.
pub struct ParsedConversation {
    pub folder_name: String,
    pub title: String,
    pub thread_path: String,
    pub chat_type: String,
    pub participants: Vec<String>,
    pub media: Vec<ParsedMedia>,
    pub source_type: String,
    pub source_path: String,
}

/// Result of parsing a whole export.
pub struct ParseResult {
    pub conversations: Vec<ParsedConversation>,
}

/// Detected data format.
#[derive(Debug, Clone, Copy, PartialEq, Eq, Structural)]
pub enum DataFormat {
    Facebook,
    Messenger,
}

/// What the format detection looks at in an export root.
pub struct ExportLayout {
    /// `your_facebook_activity/messages/inbox` exists under the root.
    pub has_inbox_dir: bool,
    /// `media` is a directory under the root.
    pub has_media_dir: bool,
    /// At least one `*.json` file lies directly under the root.
    pub has_root_json: bool,
}

/// The thread of one conversation before media extraction: normalized
/// metadata and the chronological message list.
pub struct Thread {
    pub title: String,
    pub thread_path: String,
    pub participants: Vec<String>,
    pub messages: Vec<Message>,
}

pub struct ConversationView {
    pub folder_name: Seq<char>,
    pub title: Seq<char>,
    pub thread_path: Seq<char>,
    pub chat_type: Seq<char>,
    pub participants: Seq<Seq<char>>,
    pub media: Seq<MediaView>,
    pub source_type: Seq<char>,
    pub source_path: Seq<char>,
}

pub open spec fn names_view(v: Seq<String>) -> Seq<Seq<char>> {
    v.map_values(|s: String| s@)
}

impl View for ParsedConversation {
    type V = ConversationView;

    open spec fn view(&self) -> ConversationView {
        ConversationView {
            folder_name: self.folder_name@,
            title: self.title@,
            thread_path: self.thread_path@,
            chat_type: self.chat_type@,
            participants: names_view(self.participants@),
            media: medias_view(self.media@),
            source_type: self.source_type@,
            source_path: self.source_path@,
        }
    }
}

pub open spec fn conversations_view(v: Seq<ParsedConversation>) -> Seq<ConversationView> {
    v.map_values(|c: ParsedConversation| c@)
}

/// The layout decision: the Facebook inbox first, then a media directory with
/// JSON files beside it.
pub open spec fn detected(layout: ExportLayout) -> Option<DataFormat> {
    if layout.has_inbox_dir {
        Some(DataFormat::Facebook)
    } else if layout.has_media_dir && layout.has_root_json {
        Some(DataFormat::Messenger)
    } else {
        None
    }
}

/// Classify an export root by what it holds.
pub fn detect_format(layout: &ExportLayout) -> (r: Result<DataFormat, String>)
    ensures
        r is Ok <==> detected(*layout) is Some,
        r is Ok ==> r->Ok_0 == detected(*layout)->Some_0,
{
    if layout.has_inbox_dir {
        Ok(DataFormat::Facebook)
    } else if layout.has_media_dir && layout.has_root_json {
        Ok(DataFormat::Messenger)
    } else {
        Err("Unrecognized export format. Expected Facebook or Messenger data.".to_string())
    }
}

/// The chat type of a conversation with `n` participants.
pub open spec fn chat_type_of(n: int) -> Seq<char> {
    if n <= 2 {
        "dm"@
    } else {
        "group"@
    }
}

/// A conversation is a direct message exactly when it has at most two
/// participants.
pub proof fn lemma_chat_type_dm_iff(n: int)
    ensures
        chat_type_of(n) == "dm"@ <==> n <= 2,
{
    reveal_strlit("dm");
    reveal_strlit("group");
    if n > 2 {
        assert(chat_type_of(n).len() != "dm"@.len());
    }
}

/// The chat type for a participant count.
pub fn chat_type_for(participant_count: usize) -> (r: String)
    ensures
        r@ == chat_type_of(participant_count as int),
{
    if participant_count <= 2 {
        "dm".to_string()
    } else {
        "group".to_string()
    }
}

pub open spec fn thread_messages(t: Thread) -> Seq<MessageView> {
    messages_view(t.messages@)
}

/// The conversation built from a thread: media extracted with context, chat
/// type derived from the participant count.
pub open spec fn conversation_of(
    root: Seq<char>,
    folder_name: Seq<char>,
    t: Thread,
    window: int,
    source_type: Seq<char>,
    source_path: Seq<char>,
    present: Seq<bool>,
) -> ConversationView {
    ConversationView {
        folder_name: folder_name,
        title: t.title@,
        thread_path: t.thread_path@,
        chat_type: chat_type_of(t.participants@.len() as int),
        participants: names_view(t.participants@),
        media: extracted_media(root, thread_messages(t), window, present),
        source_type: source_type,
        source_path: source_path,
    }
}

/// Build a conversation from a thread. `present[k]` tells whether the file of
/// the `k`-th media reference of the thread exists.
pub fn build_conversation(
    export_root: &str,
    folder_name: String,
    thread: Thread,
    context_window: usize,
    source_type: &str,
    source_path: &str,
    present: &Vec<bool>,
) -> (r: ParsedConversation)
    requires
        present@.len() == all_refs(thread_messages(thread)).len(),
    ensures
        r@ == conversation_of(export_root@, folder_name@, thread, context_window as int, source_type@, source_path@, present@),
{
    let media = extract_media(export_root, &thread.messages, context_window, present);
    let chat_type = chat_type_for(thread.participants.len());
    ParsedConversation {
        folder_name,
        title: thread.title,
        thread_path: thread.thread_path,
        chat_type,
        participants: thread.participants,
        media,
        source_type: source_type.to_string(),
        source_path: source_path.to_string(),
    }
}

impl ParseResult {
    pub fn new() -> (r: ParseResult)
        ensures
            r.conversations@.len() == 0,
    {
        ParseResult { conversations: Vec::new() }
    }

    /// Keeps a conversation only for its media: one without media is dropped.
    pub fn push_if_has_media(&mut self, conv: ParsedConversation)
        ensures
            conv.media@.len() > 0 ==> final(self).conversations@ == old(self).conversations@.push(conv),
            conv.media@.len() == 0 ==> final(self).conversations@ == old(self).conversations@,
    {
        if conv.media.len() > 0 {
            self.conversations.push(conv);
        }
    }
}

pub open spec fn shard_messages(shards: Seq<FacebookExport>) -> Seq<Seq<MessageView>> {
    shards.map_values(|sh: FacebookExport| messages_view(sh.messages@))
}

/// A message with its sender name and content repaired.
pub open spec fn repaired_message(m: MessageView) -> MessageView {
    MessageView {
        sender_name: repaired(m.sender_name),
        content: match m.content {
            Some(c) => Some(repaired(c)),
            None => None,
        },
        ..m
    }
}

/// The messages of all shards in shard order, reversed to oldest first, with
/// their text repaired.
pub open spec fn chronological_messages(shards: Seq<FacebookExport>) -> Seq<MessageView> {
    shard_messages(shards).flatten().reverse().map_values(|m: MessageView| repaired_message(m))
}

/// The shard the metadata comes from, searching from index `i`: the first
/// whose repaired title is non-empty, else the last one.
pub open spec fn meta_from(shards: Seq<FacebookExport>, i: int) -> int
    decreases shards.len() - i,
{
    if i >= shards.len() - 1 {
        shards.len() - 1
    } else if repaired(shards[i].title@).len() > 0 {
        i
    } else {
        meta_from(shards, i + 1)
    }
}

pub open spec fn meta_index(shards: Seq<FacebookExport>) -> int {
    meta_from(shards, 0)
}

pub open spec fn repaired_names(ps: Seq<Participant>) -> Seq<Seq<char>> {
    ps.map_values(|p: Participant| repaired(p.name@))
}

fn repair_message(m: Message) -> (r: Message)
    ensures
        r@ == repaired_message(m@),
{
    let content = match &m.content {
        Some(c) => Some(fix_mojibake(c.as_str())),
        None => None,
    };
    Message {
        sender_name: fix_mojibake(m.sender_name.as_str()),
        timestamp_ms: m.timestamp_ms,
        content,
        photos: m.photos,
        videos: m.videos,
        gifs: m.gifs,
        reactions: m.reactions,
        is_geoblocked_for_viewer: m.is_geoblocked_for_viewer,
        message_type: m.message_type,
    }
}

/// Concatenates the shards' message lists in shard order.
fn concat_shard_messages(shards: Vec<FacebookExport>) -> (r: Vec<Message>)
    ensures
        messages_view(r@) == shard_messages(shards@).flatten(),
{
    let ghost sh = shard_messages(shards@);
    let mut shards = shards;
    let mut rev: Vec<FacebookExport> = Vec::new();
    while shards.len() > 0
        invariant
            sh.len() == shards.len() + rev.len(),
            forall|k: int| 0 <= k < shards.len() ==> messages_view(shards@[k].messages@) == sh[k],
            forall|k: int| 0 <= k < rev.len() ==> messages_view(rev@[k].messages@) == sh[sh.len() - 1 - k],
        decreases shards.len(),
    {
        let last = shards.pop().unwrap();
        rev.push(last);
    }
    let mut all: Vec<Message> = Vec::new();
    assert(sh.take(0).flatten() =~= Seq::<MessageView>::empty());
    while rev.len() > 0
        invariant
            sh.len() >= rev.len(),
            forall|k: int| 0 <= k < rev.len() ==> messages_view(rev@[k].messages@) == sh[sh.len() - 1 - k],
            messages_view(all@) == sh.take(sh.len() - rev.len()).flatten(),
        decreases rev.len(),
    {
        let ghost done = sh.len() - rev.len();
        let mut next = rev.pop().unwrap();
        let ghost before = all@;
        let ghost added = next.messages@;
        all.append(&mut next.messages);
        proof {
            assert(sh.take(done + 1) =~= sh.take(done).push(sh[done]));
            sh.take(done).lemma_flatten_push(sh[done]);
            assert(messages_view(all@) =~= messages_view(before) + messages_view(added));
        }
    }
    assert(sh.take(sh.len() as int) =~= sh);
    all
}

/// Collect one Facebook conversation from its shards, given in file-name
/// order: metadata from the first shard with a title, messages concatenated,
/// reversed to oldest first, and their text repaired.
pub fn collect_facebook_thread(shards: Vec<FacebookExport>) -> (r: Result<Thread, String>)
    ensures
        r is Err <==> shards@.len() == 0,
        r is Ok ==> ({
            let t = r->Ok_0;
            let m = meta_index(shards@);
            &&& t.title@ == repaired(shards@[m].title@)
            &&& t.thread_path@ == shards@[m].thread_path@
            &&& names_view(t.participants@) == repaired_names(shards@[m].participants@)
            &&& thread_messages(t) == chronological_messages(shards@)
        }),
{
    if shards.len() == 0 {
        return Err("No message JSON files found".to_string());
    }
    let n = shards.len();
    let mut i: usize = 0;
    let mut title = fix_mojibake(shards[0].title.as_str());
    while i + 1 < n && title.as_str().is_empty()
        invariant
            n == shards.len(),
            i < n,
            title@ == repaired(shards@[i as int].title@),
            meta_from(shards@, 0) == meta_from(shards@, i as int),
        decreases n - i,
    {
        i = i + 1;
        title = fix_mojibake(shards[i].title.as_str());
    }
    proof {
        assert(meta_from(shards@, i as int) == i as int);
    }
    let thread_path = shards[i].thread_path.clone();
    let source = &shards[i].participants;
    let mut participants: Vec<String> = Vec::new();
    for j in 0..source.len()
        invariant
            participants.len() == j,
            forall|k: int| 0 <= k < j ==> participants@[k]@ == repaired(source@[k].name@),
    {
        participants.push(fix_mojibake(source[j].name.as_str()));
    }
    assert(names_view(participants@) =~= repaired_names(source@));
    let ghost sh = shards@;
    let all = concat_shard_messages(shards);
    let ghost flat = messages_view(all@);
    let mut all = all;
    let mut messages: Vec<Message> = Vec::new();
    let total = all.len();
    while all.len() > 0
        invariant
            flat.len() == total,
            all.len() <= total,
            forall|k: int| 0 <= k < all.len() ==> all@[k]@ == flat[k],
            messages.len() == total - all.len(),
            forall|k: int| 0 <= k < messages.len() ==> messages@[k]@ == repaired_message(flat[total - 1 - k]),
        decreases all.len(),
    {
        let m = all.pop().unwrap();
        messages.push(repair_message(m));
    }
    assert(messages_view(messages@) =~= flat.reverse().map_values(|m: MessageView| repaired_message(m)));
    Ok(Thread { title, thread_path, participants, messages })
}

/// A file name of a Facebook message shard: `message_` ... `.json`.
pub open spec fn is_shard_name(name: Seq<char>) -> bool {
    name.len() >= 8 && name.take(8) == "message_"@ && name.len() >= 5 && name.skip(name.len() - 5) == ".json"@
}

fn has_prefix_at(chars: &Vec<char>, start: usize, text: &str) -> (r: bool)
    requires
        start <= chars.len(),
    ensures
        r == (start + text@.len() <= chars.len() && chars@.subrange(start as int, start + text@.len()) == text@),
{
    let t = chars_of(text);
    if t.len() > chars.len() - start {
        return false;
    }
    let mut i: usize = 0;
    while i < t.len()
        invariant
            t@ == text@,
            start + t.len() <= chars.len(),
            i <= t.len(),
            forall|k: int| 0 <= k < i ==> chars@[start + k] == t@[k],
        decreases t.len() - i,
    {
        if chars[start + i] != t[i] {
            assert(chars@.subrange(start as int, start + text@.len())[i as int] != text@[i as int]);
            return false;
        }
        i = i + 1;
    }
    assert(chars@.subrange(start as int, start + text@.len()) =~= text@);
    true
}

/// Whether a file name is that of a message shard.
pub fn is_message_shard(name: &str) -> (r: bool)
    ensures
        r == is_shard_name(name@),
{
    let chars = chars_of(name);
    if chars.len() < 8 {
        return false;
    }
    let starts = has_prefix_at(&chars, 0, "message_");
    let ends = has_prefix_at(&chars, chars.len() - 5, ".json");
    proof {
        reveal_strlit("message_");
        reveal_strlit(".json");
        assert(chars@.take(8) =~= chars@.subrange(0, 8));
        assert(chars@.skip(chars@.len() - 5) =~= chars@.subrange(chars@.len() - 5, chars@.len() as int));
    }
    starts && ends
}

} // verus!
