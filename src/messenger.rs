use vstd::prelude::*;
use vstd::string::StrSliceExecFns;
use crate::facebook::{Message, MessageView, MediaRef, MediaRefView, GifRef, Reaction, refs_view, gifs_view, opt_string_view, messages_view};
use crate::mojibake::chars_of;
use crate::parser::Thread;

verus! {

/// Top-level structure of a Messenger export JSON file.
pub struct MessengerExport {
    pub participants: Vec<String>,
    pub thread_name: String,
    pub messages: Vec<MessengerMessage>,
}

pub struct MessengerMessage {
    pub sender_name: String,
    pub timestamp: i64,
    pub text: String,
    pub media: Vec<MessengerMediaRef>,
    pub is_unsent: bool,
    pub message_type: String,
    pub reactions: Vec<MessengerReaction>,
}

pub struct MessengerMediaRef {
    pub uri: String,
}

pub struct MessengerReaction {
    pub actor: String,
    pub reaction: String,
}

/// The kind of media a file extension stands for.
#[derive(Debug, Clone, Copy, PartialEq, Eq, Structural)]
pub enum MediaClass {
    Photo,
    Video,
    Gif,
}

/// The lowercase form that `str::to_lowercase` gives.
pub uninterp spec fn lower_of(s: Seq<char>) -> Seq<char>;

/// Relies on `str::to_lowercase`: the result depends on the characters alone.
#[verifier::external_body]
pub(crate) fn lowercase(s: &str) -> (r: String)
    ensures
        r@ == lower_of(s@),
{
    s.to_lowercase()
}

/// The text after the last `.` of a URI, or the whole URI without a `.`.
pub open spec fn extension_of(uri: Seq<char>) -> Seq<char>
    decreases uri.len(),
{
    if uri.len() == 0 {
        uri
    } else if uri.last() == '.' {
        Seq::empty()
    } else {
        extension_of(uri.drop_last()).push(uri.last())
    }
}

/// The media class of a lowercase extension, if it is one that is kept.
pub open spec fn class_of_extension(e: Seq<char>) -> Option<MediaClass> {
    if e == "jpg"@ || e == "jpeg"@ || e == "png"@ || e == "webp"@ {
        Some(MediaClass::Photo)
    } else if e == "mp4"@ {
        Some(MediaClass::Video)
    } else if e == "gif"@ {
        Some(MediaClass::Gif)
    } else {
        None
    }
}

pub open spec fn class_of_uri(uri: Seq<char>) -> Option<MediaClass> {
    class_of_extension(lower_of(extension_of(uri)))
}

/// Classify a lowercase file extension.
pub fn classify_extension(ext: &str) -> (r: Option<MediaClass>)
    ensures
        r == class_of_extension(ext@),
{
    let e = ext.to_string();
    if e == "jpg".to_string() || e == "jpeg".to_string() || e == "png".to_string() || e == "webp".to_string() {
        Some(MediaClass::Photo)
    } else if e == "mp4".to_string() {
        Some(MediaClass::Video)
    } else if e == "gif".to_string() {
        Some(MediaClass::Gif)
    } else {
        None
    }
}

proof fn lemma_extension_of_suffix(uri: Seq<char>, p: int)
    requires
        0 <= p <= uri.len(),
        forall|k: int| p <= k < uri.len() ==> uri[k] != '.',
        p == 0 || uri[p - 1] == '.',
    ensures
        extension_of(uri) == uri.subrange(p, uri.len() as int),
    decreases uri.len(),
{
    if uri.len() == p {
        if p > 0 {
            assert(uri.last() == '.');
        }
        assert(uri.subrange(p, uri.len() as int) =~= Seq::<char>::empty());
    } else {
        lemma_extension_of_suffix(uri.drop_last(), p);
        assert(uri.subrange(p, uri.len() as int) =~= uri.drop_last().subrange(p, uri.len() - 1).push(uri.last()));
    }
}

/// The media class of a declared URI, by its lowercased extension.
pub fn class_of_media_uri(uri: &str) -> (r: Option<MediaClass>)
    ensures
        r == class_of_uri(uri@),
{
    let chars = chars_of(uri);
    let n = chars.len();
    let mut p: usize = n;
    while p > 0 && chars[p - 1] != '.'
        invariant
            p <= n,
            n == chars.len(),
            chars@ == uri@,
            forall|k: int| p <= k < n ==> chars@[k] != '.',
        decreases p,
    {
        p = p - 1;
    }
    proof {
        lemma_extension_of_suffix(uri@, p as int);
    }
    let ext = uri.substring_char(p, n);
    let lowered = lowercase(ext);
    classify_extension(lowered.as_str())
}

/// The URIs among `media` that have class `c`, in order.
pub open spec fn uris_of_class(media: Seq<MessengerMediaRef>, c: MediaClass) -> Seq<Seq<char>>
    decreases media.len(),
{
    if media.len() == 0 {
        Seq::empty()
    } else if class_of_uri(media.last().uri@) == Some(c) {
        uris_of_class(media.drop_last(), c).push(media.last().uri@)
    } else {
        uris_of_class(media.drop_last(), c)
    }
}

pub open spec fn plain_refs(uris: Seq<Seq<char>>) -> Seq<MediaRefView> {
    uris.map_values(|u: Seq<char>| MediaRefView { uri: u, creation_timestamp: None })
}

/// The shared message shape of a Messenger message.
pub open spec fn converted_message(m: MessengerMessage) -> MessageView {
    MessageView {
        sender_name: m.sender_name@,
        timestamp_ms: m.timestamp,
        content: if m.text@.len() == 0 { None } else { Some(m.text@) },
        photos: plain_refs(uris_of_class(m.media@, MediaClass::Photo)),
        videos: plain_refs(uris_of_class(m.media@, MediaClass::Video)),
        gifs: uris_of_class(m.media@, MediaClass::Gif),
    }
}

proof fn lemma_uris_of_class_step(media: Seq<MessengerMediaRef>, c: MediaClass, i: int)
    requires
        0 <= i < media.len(),
    ensures
        uris_of_class(media.take(i + 1), c) == if class_of_uri(media[i].uri@) == Some(c) {
            uris_of_class(media.take(i), c).push(media[i].uri@)
        } else {
            uris_of_class(media.take(i), c)
        },
{
    assert(media.take(i + 1).drop_last() =~= media.take(i));
}

/// Convert a Messenger message into the shared message shape: media sorted
/// into photos, videos and gifs by extension (others dropped), empty text and
/// empty lists absent.
pub fn to_facebook_message(msg: &MessengerMessage) -> (r: Message)
    ensures
        r@ == converted_message(*msg),
        r.photos is Some <==> uris_of_class(msg.media@, MediaClass::Photo).len() > 0,
        r.videos is Some <==> uris_of_class(msg.media@, MediaClass::Video).len() > 0,
        r.gifs is Some <==> uris_of_class(msg.media@, MediaClass::Gif).len() > 0,
        r.reactions is Some <==> msg.reactions@.len() > 0,
        r.reactions is Some ==> r.reactions->Some_0@.len() == msg.reactions@.len() && forall|k: int|
            0 <= k < msg.reactions@.len() ==> (#[trigger] r.reactions->Some_0@[k]).reaction@
                == msg.reactions@[k].reaction@ && r.reactions->Some_0@[k].actor@ == msg.reactions@[k].actor@,
        opt_string_view(r.message_type) == Some(msg.message_type@),
        !r.is_geoblocked_for_viewer,
{
    let mut photos: Vec<MediaRef> = Vec::new();
    let mut videos: Vec<MediaRef> = Vec::new();
    let mut gifs: Vec<GifRef> = Vec::new();
    let ghost media = msg.media@;
    for i in 0..msg.media.len()
        invariant
            media == msg.media@,
            refs_view(Some(photos)) == plain_refs(uris_of_class(media.take(i as int), MediaClass::Photo)),
            refs_view(Some(videos)) == plain_refs(uris_of_class(media.take(i as int), MediaClass::Video)),
            gifs_view(Some(gifs)) == uris_of_class(media.take(i as int), MediaClass::Gif),
    {
        proof {
            lemma_uris_of_class_step(media, MediaClass::Photo, i as int);
            lemma_uris_of_class_step(media, MediaClass::Video, i as int);
            lemma_uris_of_class_step(media, MediaClass::Gif, i as int);
        }
        let uri = &msg.media[i].uri;
        match class_of_media_uri(uri.as_str()) {
            Some(MediaClass::Photo) => {
                let ghost before = refs_view(Some(photos));
                photos.push(MediaRef { uri: uri.clone(), creation_timestamp: None });
                assert(refs_view(Some(photos)) =~= before.push(MediaRefView { uri: uri@, creation_timestamp: None }));
                assert(plain_refs(uris_of_class(media.take(i + 1), MediaClass::Photo)) =~= plain_refs(
                    uris_of_class(media.take(i as int), MediaClass::Photo),
                ).push(MediaRefView { uri: uri@, creation_timestamp: None }));
            },
            Some(MediaClass::Video) => {
                let ghost before = refs_view(Some(videos));
                videos.push(MediaRef { uri: uri.clone(), creation_timestamp: None });
                assert(refs_view(Some(videos)) =~= before.push(MediaRefView { uri: uri@, creation_timestamp: None }));
                assert(plain_refs(uris_of_class(media.take(i + 1), MediaClass::Video)) =~= plain_refs(
                    uris_of_class(media.take(i as int), MediaClass::Video),
                ).push(MediaRefView { uri: uri@, creation_timestamp: None }));
            },
            Some(MediaClass::Gif) => {
                let ghost before = gifs_view(Some(gifs));
                gifs.push(GifRef { uri: uri.clone() });
                assert(gifs_view(Some(gifs)) =~= before.push(uri@));
            },
            None => {},
        }
    }
    assert(media.take(media.len() as int) =~= media);
    let content = if msg.text.as_str().is_empty() {
        None
    } else {
        Some(msg.text.clone())
    };
    let reactions = if msg.reactions.len() == 0 {
        None
    } else {
        let mut out: Vec<Reaction> = Vec::new();
        for k in 0..msg.reactions.len()
            invariant
                out.len() == k,
                forall|q: int| 0 <= q < k ==> (#[trigger] out@[q]).reaction@ == msg.reactions@[q].reaction@
                    && out@[q].actor@ == msg.reactions@[q].actor@,
        {
            out.push(Reaction { reaction: msg.reactions[k].reaction.clone(), actor: msg.reactions[k].actor.clone() });
        }
        Some(out)
    };
    let photos = if photos.len() == 0 {
        assert(refs_view(Some(photos)) =~= Seq::<MediaRefView>::empty());
        None
    } else {
        Some(photos)
    };
    let videos = if videos.len() == 0 {
        assert(refs_view(Some(videos)) =~= Seq::<MediaRefView>::empty());
        None
    } else {
        Some(videos)
    };
    let gifs = if gifs.len() == 0 {
        assert(gifs_view(Some(gifs)) =~= Seq::<Seq<char>>::empty());
        None
    } else {
        Some(gifs)
    };
    Message {
        sender_name: msg.sender_name.clone(),
        timestamp_ms: msg.timestamp,
        content,
        photos,
        videos,
        gifs,
        reactions,
        is_geoblocked_for_viewer: false,
        message_type: Some(msg.message_type.clone()),
    }
}

pub open spec fn is_digit(c: char) -> bool {
    '0' <= c && c <= '9'
}

/// How many decimal digits end `s`.
pub open spec fn digit_suffix_len(s: Seq<char>) -> int
    decreases s.len(),
{
    if s.len() > 0 && is_digit(s.last()) {
        1 + digit_suffix_len(s.drop_last())
    } else {
        0
    }
}

/// A thread name without a trailing `_<digits>`, where it has one.
pub open spec fn stripped_title(s: Seq<char>) -> Seq<char> {
    let d = digit_suffix_len(s);
    if d > 0 && d < s.len() && s[s.len() - 1 - d] == '_' {
        s.take(s.len() - 1 - d)
    } else {
        s
    }
}

proof fn lemma_digit_suffix_len(s: Seq<char>, p: int)
    requires
        0 <= p <= s.len(),
        forall|k: int| p <= k < s.len() ==> is_digit(s[k]),
        p == 0 || !is_digit(s[p - 1]),
    ensures
        digit_suffix_len(s) == s.len() - p,
    decreases s.len(),
{
    if s.len() > p {
        lemma_digit_suffix_len(s.drop_last(), p);
    }
}

/// A human-readable title from a Messenger thread name: a trailing
/// `_<digits>` is stripped.
pub fn title_from_thread_name(thread_name: &str) -> (r: String)
    ensures
        r@ == stripped_title(thread_name@),
{
    let chars = chars_of(thread_name);
    let n = chars.len();
    let mut p: usize = n;
    while p > 0 && '0' <= chars[p - 1] && chars[p - 1] <= '9'
        invariant
            p <= n,
            n == chars.len(),
            chars@ == thread_name@,
            forall|k: int| p <= k < n ==> is_digit(chars@[k]),
        decreases p,
    {
        p = p - 1;
    }
    proof {
        lemma_digit_suffix_len(thread_name@, p as int);
    }
    if p < n && p > 0 && chars[p - 1] == '_' {
        thread_name.substring_char(0, p - 1).to_string()
    } else {
        thread_name.to_string()
    }
}

/// Index of the first message of `s` later than time `t`, or `s.len()`.
pub open spec fn first_later(s: Seq<MessageView>, t: i64) -> int
    decreases s.len(),
{
    if s.len() == 0 {
        0
    } else if s[0].timestamp_ms > t {
        0
    } else {
        1 + first_later(s.drop_first(), t)
    }
}

/// `s` with `m` inserted after every message not later than it.
pub open spec fn insert_by_time(s: Seq<MessageView>, m: MessageView) -> Seq<MessageView> {
    s.insert(first_later(s, m.timestamp_ms), m)
}

/// The messages ordered by timestamp; messages with equal timestamps keep
/// their order.
pub open spec fn sorted_by_time(s: Seq<MessageView>) -> Seq<MessageView>
    decreases s.len(),
{
    if s.len() == 0 {
        s
    } else {
        insert_by_time(sorted_by_time(s.drop_last()), s.last())
    }
}

pub open spec fn is_time_ordered(s: Seq<MessageView>) -> bool {
    forall|i: int, j: int| 0 <= i < j < s.len() ==> s[i].timestamp_ms <= s[j].timestamp_ms
}

proof fn lemma_first_later_props(s: Seq<MessageView>, t: i64)
    ensures
        0 <= first_later(s, t) <= s.len(),
        forall|k: int| 0 <= k < first_later(s, t) ==> s[k].timestamp_ms <= t,
        first_later(s, t) < s.len() ==> s[first_later(s, t)].timestamp_ms > t,
    decreases s.len(),
{
    if s.len() > 0 && s[0].timestamp_ms <= t {
        lemma_first_later_props(s.drop_first(), t);
        assert forall|k: int| 0 <= k < first_later(s, t) implies s[k].timestamp_ms <= t by {
            if k > 0 {
                assert(s[k] == s.drop_first()[k - 1]);
            }
        }
    }
}

proof fn lemma_first_later_at(s: Seq<MessageView>, t: i64, j: int)
    requires
        0 <= j <= s.len(),
        forall|k: int| 0 <= k < j ==> s[k].timestamp_ms <= t,
        j == s.len() || s[j].timestamp_ms > t,
    ensures
        first_later(s, t) == j,
    decreases j,
{
    if j > 0 {
        lemma_first_later_at(s.drop_first(), t, j - 1);
    }
}

/// Sorting by time yields an ordered list of the same length.
pub proof fn lemma_sorted_by_time_ordered(s: Seq<MessageView>)
    ensures
        is_time_ordered(sorted_by_time(s)),
        sorted_by_time(s).len() == s.len(),
    decreases s.len(),
{
    if s.len() > 0 {
        let r = sorted_by_time(s.drop_last());
        lemma_sorted_by_time_ordered(s.drop_last());
        let m = s.last();
        lemma_first_later_props(r, m.timestamp_ms);
        let p = first_later(r, m.timestamp_ms);
        let q = r.insert(p, m);
        assert forall|i: int, j: int| 0 <= i < j < q.len() implies q[i].timestamp_ms <= q[j].timestamp_ms by {
            if j < p {
            } else if j == p {
            } else if i < p {
                assert(r[i].timestamp_ms <= m.timestamp_ms);
                assert(r[p].timestamp_ms > m.timestamp_ms);
            } else if i == p {
                assert(r[p].timestamp_ms > m.timestamp_ms);
            } else {
            }
        }
    }
}

/// Sorts messages by timestamp, keeping the order of equal timestamps.
fn sort_messages_by_time(messages: Vec<Message>) -> (r: Vec<Message>)
    ensures
        messages_view(r@) == sorted_by_time(messages_view(messages@)),
{
    let ghost input = messages_view(messages@);
    let mut rest = messages;
    let mut pending: Vec<Message> = Vec::new();
    while rest.len() > 0
        invariant
            input.len() == rest.len() + pending.len(),
            forall|k: int| 0 <= k < rest.len() ==> rest@[k]@ == input[k],
            forall|k: int| 0 <= k < pending.len() ==> pending@[k]@ == input[input.len() - 1 - k],
        decreases rest.len(),
    {
        let m = rest.pop().unwrap();
        pending.push(m);
    }
    let mut out: Vec<Message> = Vec::new();
    assert(messages_view(out@) =~= sorted_by_time(input.take(0)));
    while pending.len() > 0
        invariant
            input.len() >= pending.len(),
            forall|k: int| 0 <= k < pending.len() ==> pending@[k]@ == input[input.len() - 1 - k],
            messages_view(out@) == sorted_by_time(input.take(input.len() - pending.len())),
        decreases pending.len(),
    {
        let ghost done = input.len() - pending.len();
        let m = pending.pop().unwrap();
        let t = m.timestamp_ms;
        let mut j: usize = 0;
        while j < out.len() && out[j].timestamp_ms <= t
            invariant
                j <= out.len(),
                forall|k: int| 0 <= k < j ==> out@[k].timestamp_ms <= t,
            decreases out.len() - j,
        {
            j = j + 1;
        }
        let ghost before = messages_view(out@);
        proof {
            lemma_first_later_at(before, t, j as int);
            assert(input.take(done + 1).drop_last() =~= input.take(done));
        }
        out.insert(j, m);
        assert(messages_view(out@) =~= before.insert(j as int, m@));
    }
    assert(input.take(input.len() as int) =~= input);
    out
}

pub open spec fn converted_messages(ms: Seq<MessengerMessage>) -> Seq<MessageView> {
    ms.map_values(|m: MessengerMessage| converted_message(m))
}

/// Collect one Messenger conversation: title from the thread name, the
/// participant list as it is, messages converted and ordered by time.
pub fn collect_messenger_thread(export: &MessengerExport) -> (r: Thread)
    ensures
        r.title@ == stripped_title(export.thread_name@),
        r.thread_path@ == export.thread_name@,
        r.participants@.map_values(|p: String| p@) == export.participants@.map_values(|p: String| p@),
        messages_view(r.messages@) == sorted_by_time(converted_messages(export.messages@)),
{
    let mut converted: Vec<Message> = Vec::new();
    for i in 0..export.messages.len()
        invariant
            converted.len() == i,
            forall|k: int| 0 <= k < i ==> converted@[k]@ == converted_message(export.messages@[k]),
    {
        converted.push(to_facebook_message(&export.messages[i]));
    }
    assert(messages_view(converted@) =~= converted_messages(export.messages@));
    let mut participants: Vec<String> = Vec::new();
    for i in 0..export.participants.len()
        invariant
            participants.len() == i,
            forall|k: int| 0 <= k < i ==> participants@[k]@ == export.participants@[k]@,
    {
        participants.push(export.participants[i].clone());
    }
    assert(participants@.map_values(|p: String| p@) =~= export.participants@.map_values(|p: String| p@));
    Thread {
        title: title_from_thread_name(export.thread_name.as_str()),
        thread_path: export.thread_name.clone(),
        participants,
        messages: sort_messages_by_time(converted),
    }
}

} // verus!
