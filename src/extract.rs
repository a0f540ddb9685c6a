use vstd::prelude::*;
use crate::facebook::{Message, MessageView, MediaRef, MediaRefView, GifRef, messages_view, refs_view, gifs_view, opt_string_view, has_some_refs, has_some_gifs};
use vstd::string::StrSliceExecFns;

verus! {

/// A context message surrounding a media item.
pub struct ContextMsg {
    pub sender_name: String,
    pub content: String,
    pub timestamp_ms: i64,
}

/// A parsed media item ready to be stored.
pub struct ParsedMedia {
    pub file_path: String,
    pub relative_uri: String,
    pub file_type: String,
    pub timestamp_ms: i64,
    pub creation_timestamp: Option<i64>,
    pub sender_name: String,
    pub message_content: Option<String>,
    pub context_before: Vec<ContextMsg>,
    pub context_after: Vec<ContextMsg>,
}

pub struct ContextView {
    pub sender_name: Seq<char>,
    pub content: Seq<char>,
    pub timestamp_ms: i64,
}

pub struct MediaView {
    pub file_path: Seq<char>,
    pub relative_uri: Seq<char>,
    pub file_type: Seq<char>,
    pub timestamp_ms: i64,
    pub creation_timestamp: Option<i64>,
    pub sender_name: Seq<char>,
    pub message_content: Option<Seq<char>>,
    pub context_before: Seq<ContextView>,
    pub context_after: Seq<ContextView>,
}

impl View for ContextMsg {
    type V = ContextView;

    open spec fn view(&self) -> ContextView {
        ContextView { sender_name: self.sender_name@, content: self.content@, timestamp_ms: self.timestamp_ms }
    }
}

pub open spec fn contexts_view(v: Seq<ContextMsg>) -> Seq<ContextView> {
    v.map_values(|c: ContextMsg| c@)
}

impl View for ParsedMedia {
    type V = MediaView;

    open spec fn view(&self) -> MediaView {
        MediaView {
            file_path: self.file_path@,
            relative_uri: self.relative_uri@,
            file_type: self.file_type@,
            timestamp_ms: self.timestamp_ms,
            creation_timestamp: self.creation_timestamp,
            sender_name: self.sender_name@,
            message_content: opt_string_view(self.message_content),
            context_before: contexts_view(self.context_before@),
            context_after: contexts_view(self.context_after@),
        }
    }
}

pub open spec fn medias_view(v: Seq<ParsedMedia>) -> Seq<MediaView> {
    v.map_values(|m: ParsedMedia| m@)
}

/// The text shown for a message in a context list: its content if non-empty,
/// else a placeholder for the first kind of media it carries.
pub open spec fn display_text(m: MessageView) -> Seq<char> {
    if m.content is Some && m.content->Some_0.len() > 0 {
        m.content->Some_0
    } else if m.photos.len() > 0 {
        "[Photo]"@
    } else if m.videos.len() > 0 {
        "[Video]"@
    } else if m.gifs.len() > 0 {
        "[GIF]"@
    } else {
        "[Message]"@
    }
}

pub open spec fn context_of(m: MessageView) -> ContextView {
    ContextView { sender_name: m.sender_name, content: display_text(m), timestamp_ms: m.timestamp_ms }
}

/// First index of the context before message `i`.
pub open spec fn before_start(i: int, window: int) -> int {
    if i >= window { i - window } else { 0 }
}

/// One past the last index of the context after message `i`.
pub open spec fn after_end(n: int, i: int, window: int) -> int {
    if i + 1 + window <= n { i + 1 + window } else { n }
}

/// Up to `window` messages right before message `i`, oldest first.
pub open spec fn context_before_of(msgs: Seq<MessageView>, i: int, window: int) -> Seq<ContextView> {
    msgs.subrange(before_start(i, window), i).map_values(|m: MessageView| context_of(m))
}

/// Up to `window` messages right after message `i`, in order.
pub open spec fn context_after_of(msgs: Seq<MessageView>, i: int, window: int) -> Seq<ContextView> {
    msgs.subrange(i + 1, after_end(msgs.len() as int, i, window)).map_values(|m: MessageView| context_of(m))
}

fn copy_opt_string(o: &Option<String>) -> (r: Option<String>)
    ensures
        opt_string_view(r) == opt_string_view(*o),
{
    match o {
        Some(s) => Some(s.clone()),
        None => None,
    }
}

fn copy_contexts(v: &Vec<ContextMsg>) -> (r: Vec<ContextMsg>)
    ensures
        contexts_view(r@) == contexts_view(v@),
{
    let mut out: Vec<ContextMsg> = Vec::new();
    let mut i: usize = 0;
    while i < v.len()
        invariant
            i <= v.len(),
            out.len() == i,
            forall|k: int| 0 <= k < i ==> out@[k]@ == v@[k]@,
        decreases v.len() - i,
    {
        let c = &v[i];
        out.push(ContextMsg { sender_name: c.sender_name.clone(), content: c.content.clone(), timestamp_ms: c.timestamp_ms });
        i = i + 1;
    }
    assert(contexts_view(out@) =~= contexts_view(v@));
    out
}

/// Get display text for a message, using placeholders for media-only messages.
pub fn get_display_text(msg: &Message) -> (r: String)
    ensures
        r@ == display_text(msg@),
{
    if let Some(content) = &msg.content {
        if !content.as_str().is_empty() {
            return content.clone();
        }
    }
    if has_some_refs(&msg.photos) {
        return "[Photo]".to_string();
    }
    if has_some_refs(&msg.videos) {
        return "[Video]".to_string();
    }
    if has_some_gifs(&msg.gifs) {
        return "[GIF]".to_string();
    }
    "[Message]".to_string()
}

/// Build context messages before or after a given message index.
pub fn build_context(messages: &Vec<Message>, index: usize, window: usize, before: bool) -> (r: Vec<ContextMsg>)
    requires
        index < messages.len(),
    ensures
        before ==> contexts_view(r@) == context_before_of(messages_view(messages@), index as int, window as int),
        !before ==> contexts_view(r@) == context_after_of(messages_view(messages@), index as int, window as int),
{
    let ghost msgs = messages_view(messages@);
    let mut context: Vec<ContextMsg> = Vec::new();
    let (start, end) = if before {
        (if index >= window { index - window } else { 0 }, index)
    } else {
        (index + 1, if window <= messages.len() - index - 1 { index + 1 + window } else { messages.len() })
    };
    let ghost lo = if before { before_start(index as int, window as int) } else { index + 1 };
    let mut j: usize = start;
    while j < end
        invariant
            start <= j <= end <= messages.len(),
            lo == start,
            context.len() == j - start,
            msgs == messages_view(messages@),
            forall|k: int| 0 <= k < context.len() ==> context@[k]@ == context_of(msgs[lo + k]),
        decreases end - j,
    {
        let text = get_display_text(&messages[j]);
        context.push(ContextMsg {
            sender_name: messages[j].sender_name.clone(),
            content: text,
            timestamp_ms: messages[j].timestamp_ms,
        });
        j = j + 1;
    }
    assert(contexts_view(context@) =~= msgs.subrange(lo, end as int).map_values(|m: MessageView| context_of(m)));
    context
}

/// The path that `Path::join` gives for `rel` under `root`, as text.
pub uninterp spec fn joined_path(root: Seq<char>, rel: Seq<char>) -> Seq<char>;

/// Relies on `Path::join` (read back with `to_string_lossy`): the joined path
/// depends on the two strings alone.
#[verifier::external_body]
fn join_path(root: &str, rel: &str) -> (r: String)
    ensures
        r@ == joined_path(root@, rel@),
{
    std::path::Path::new(root).join(rel).to_string_lossy().to_string()
}

/// A declared URI without a leading `./`.
pub open spec fn cleaned_uri(uri: Seq<char>) -> Seq<char> {
    if uri.len() >= 2 && uri[0] == '.' && uri[1] == '/' {
        uri.subrange(2, uri.len() as int)
    } else {
        uri
    }
}

/// The absolute path of a declared URI under the export root.
pub open spec fn resolved_path(root: Seq<char>, uri: Seq<char>) -> Seq<char> {
    joined_path(root, cleaned_uri(uri))
}

/// Resolve a relative URI from an export to a filesystem path under its root.
pub fn resolve_uri(export_root: &str, uri: &str) -> (r: String)
    ensures
        r@ == resolved_path(export_root@, uri@),
{
    let n = uri.unicode_len();
    if n >= 2 && uri.get_char(0) == '.' && uri.get_char(1) == '/' {
        let cleaned = uri.substring_char(2, n);
        join_path(export_root, cleaned)
    } else {
        join_path(export_root, uri)
    }
}

/// One media reference of a message, as plain values.
pub struct RefSpec {
    pub uri: Seq<char>,
    pub file_type: Seq<char>,
    pub creation_timestamp: Option<i64>,
}

pub open spec fn photo_ref(r: MediaRefView) -> RefSpec {
    RefSpec { uri: r.uri, file_type: "image"@, creation_timestamp: r.creation_timestamp }
}

pub open spec fn video_ref(r: MediaRefView) -> RefSpec {
    RefSpec { uri: r.uri, file_type: "video"@, creation_timestamp: r.creation_timestamp }
}

pub open spec fn gif_ref(uri: Seq<char>) -> RefSpec {
    RefSpec { uri: uri, file_type: "gif"@, creation_timestamp: None }
}

/// The media references of a message: photos, then videos, then gifs.
pub open spec fn refs_of(m: MessageView) -> Seq<RefSpec> {
    m.photos.map_values(|r: MediaRefView| photo_ref(r)) + m.videos.map_values(|r: MediaRefView| video_ref(r))
        + m.gifs.map_values(|u: Seq<char>| gif_ref(u))
}

/// The media references of the first `j` messages, in order.
pub open spec fn refs_before(msgs: Seq<MessageView>, j: int) -> Seq<RefSpec>
    decreases j,
{
    if j <= 0 {
        Seq::empty()
    } else {
        refs_before(msgs, j - 1) + refs_of(msgs[j - 1])
    }
}

/// All media references of a message list, in order.
pub open spec fn all_refs(msgs: Seq<MessageView>) -> Seq<RefSpec> {
    refs_before(msgs, msgs.len() as int)
}

/// The media record for reference `r` of message `i`.
pub open spec fn media_record(root: Seq<char>, msgs: Seq<MessageView>, i: int, window: int, r: RefSpec) -> MediaView {
    MediaView {
        file_path: resolved_path(root, r.uri),
        relative_uri: r.uri,
        file_type: r.file_type,
        timestamp_ms: msgs[i].timestamp_ms,
        creation_timestamp: r.creation_timestamp,
        sender_name: msgs[i].sender_name,
        message_content: msgs[i].content,
        context_before: context_before_of(msgs, i, window),
        context_after: context_after_of(msgs, i, window),
    }
}

/// The items of `xs` whose flag, read in `present` from offset `lo`, is set.
pub open spec fn select_at<A>(xs: Seq<A>, present: Seq<bool>, lo: int) -> Seq<A>
    decreases xs.len(),
{
    if xs.len() == 0 {
        Seq::empty()
    } else {
        let rest = select_at(xs.drop_last(), present, lo);
        if present[lo + xs.len() - 1] {
            rest.push(xs.last())
        } else {
            rest
        }
    }
}

/// The media records of the first `j` messages, keeping the references whose
/// file is present.
pub open spec fn media_upto(root: Seq<char>, msgs: Seq<MessageView>, window: int, present: Seq<bool>, j: int) -> Seq<MediaView>
    decreases j,
{
    if j <= 0 {
        Seq::empty()
    } else {
        let i = j - 1;
        media_upto(root, msgs, window, present, i) + select_at(
            refs_of(msgs[i]).map_values(|r: RefSpec| media_record(root, msgs, i, window, r)),
            present,
            refs_before(msgs, i).len() as int,
        )
    }
}

/// The media records of a chronological message list: one per media reference
/// whose file is present, in order.
pub open spec fn extracted_media(root: Seq<char>, msgs: Seq<MessageView>, window: int, present: Seq<bool>) -> Seq<MediaView> {
    media_upto(root, msgs, window, present, msgs.len() as int)
}

proof fn lemma_refs_before_grows(msgs: Seq<MessageView>, i: int, j: int)
    requires
        0 <= i <= j,
    ensures
        refs_before(msgs, i).len() <= refs_before(msgs, j).len(),
    decreases j - i,
{
    if i < j {
        lemma_refs_before_grows(msgs, i, j - 1);
    }
}

fn make_media(
    export_root: &str,
    msg: &Message,
    uri: &String,
    file_type: &str,
    creation_timestamp: Option<i64>,
    before: &Vec<ContextMsg>,
    after: &Vec<ContextMsg>,
) -> (r: ParsedMedia)
    ensures
        r.file_path@ == resolved_path(export_root@, uri@),
        r.relative_uri@ == uri@,
        r.file_type@ == file_type@,
        r.timestamp_ms == msg.timestamp_ms,
        r.creation_timestamp == creation_timestamp,
        r.sender_name@ == msg.sender_name@,
        opt_string_view(r.message_content) == opt_string_view(msg.content),
        contexts_view(r.context_before@) == contexts_view(before@),
        contexts_view(r.context_after@) == contexts_view(after@),
{
    ParsedMedia {
        file_path: resolve_uri(export_root, uri.as_str()),
        relative_uri: uri.clone(),
        file_type: file_type.to_string(),
        timestamp_ms: msg.timestamp_ms,
        creation_timestamp: creation_timestamp,
        sender_name: msg.sender_name.clone(),
        message_content: copy_opt_string(&msg.content),
        context_before: copy_contexts(before),
        context_after: copy_contexts(after),
    }
}

proof fn lemma_medias_view_push(s: Seq<ParsedMedia>, m: ParsedMedia)
    ensures
        medias_view(s.push(m)) == medias_view(s).push(m@),
{
    assert(medias_view(s.push(m)) =~= medias_view(s).push(m@));
}

proof fn lemma_select_step<A>(xs: Seq<A>, present: Seq<bool>, lo: int, t: int)
    requires
        0 <= t < xs.len(),
    ensures
        select_at(xs.take(t + 1), present, lo) == if present[lo + t] {
            select_at(xs.take(t), present, lo).push(xs[t])
        } else {
            select_at(xs.take(t), present, lo)
        },
{
    assert(xs.take(t + 1).drop_last() =~= xs.take(t));
}

/// Extract all media items from chronological messages with surrounding
/// context. `present[k]` tells whether the file of the `k`-th media reference
/// (photos, then videos, then gifs of each message, in message order) exists.
#[verifier::loop_isolation(false)]
pub fn extract_media(export_root: &str, messages: &Vec<Message>, context_window: usize, present: &Vec<bool>) -> (r: Vec<ParsedMedia>)
    requires
        present@.len() == all_refs(messages_view(messages@)).len(),
    ensures
        medias_view(r@) == extracted_media(export_root@, messages_view(messages@), context_window as int, present@),
{
    let ghost msgs = messages_view(messages@);
    let ghost root = export_root@;
    let ghost w = context_window as int;
    let mut media_items: Vec<ParsedMedia> = Vec::new();
    let mut k: usize = 0;
    let mut i: usize = 0;
    while i < messages.len()
        invariant
            i <= messages.len(),
            k == refs_before(msgs, i as int).len(),
            medias_view(media_items@) == media_upto(root, msgs, w, present@, i as int),
        decreases messages.len() - i,
    {
        proof {
            lemma_refs_before_grows(msgs, i + 1, msgs.len() as int);
        }
        let msg = &messages[i];
        let ghost m = msgs[i as int];
        let ghost lo = k as int;
        let ghost recs = refs_of(m).map_values(|r: RefSpec| media_record(root, msgs, i as int, w, r));
        let ghost base = medias_view(media_items@);
        let ghost np = m.photos.len() as int;
        let ghost nv = m.videos.len() as int;
        let ghost ng = m.gifs.len() as int;
        assert(recs.len() == np + nv + ng);
        assert(refs_before(msgs, i + 1) == refs_before(msgs, i as int) + refs_of(m));
        assert(lo + np + nv + ng <= present@.len());
        if msg.has_media() {
            let before = build_context(messages, i, context_window, true);
            let after = build_context(messages, i, context_window, false);
            if let Some(photos) = &msg.photos {
                assert(photos.len() == np);
                let mut t: usize = 0;
                while t < photos.len()
                    invariant
                        t <= photos.len(),
                        k == lo + t,
                        medias_view(media_items@) == base + select_at(recs.take(t as int), present@, lo),
                    decreases photos.len() - t,
                {
                    proof {
                        lemma_select_step(recs, present@, lo, t as int);
                    }
                    if present[k] {
                        let item = make_media(export_root, msg, &photos[t].uri, "image", photos[t].creation_timestamp, &before, &after);
                        proof {
                            lemma_medias_view_push(media_items@, item);
                            assert(item@ == recs[t as int]);
                        }
                        media_items.push(item);
                    }
                    assert(k < present.len());
                    k = k + 1;
                    t = t + 1;
                }
            }
            assert(medias_view(media_items@) == base + select_at(recs.take(np), present@, lo));
            if let Some(videos) = &msg.videos {
                assert(videos.len() == nv);
                let mut t: usize = 0;
                while t < videos.len()
                    invariant
                        t <= videos.len(),
                        k == lo + np + t,
                        lo + np + nv + ng <= present@.len(),
                        medias_view(media_items@) == base + select_at(recs.take(np + t), present@, lo),
                    decreases videos.len() - t,
                {
                    proof {
                        lemma_select_step(recs, present@, lo, np + t);
                    }
                    if present[k] {
                        let item = make_media(export_root, msg, &videos[t].uri, "video", videos[t].creation_timestamp, &before, &after);
                        proof {
                            lemma_medias_view_push(media_items@, item);
                            assert(item@ == recs[np + t]);
                        }
                        media_items.push(item);
                    }
                    assert(k < present.len());
                    k = k + 1;
                    t = t + 1;
                }
            }
            assert(medias_view(media_items@) == base + select_at(recs.take(np + nv), present@, lo));
            if let Some(gifs) = &msg.gifs {
                assert(gifs.len() == ng);
                let mut t: usize = 0;
                while t < gifs.len()
                    invariant
                        t <= gifs.len(),
                        k == lo + np + nv + t,
                        lo + np + nv + ng <= present@.len(),
                        medias_view(media_items@) == base + select_at(recs.take(np + nv + t), present@, lo),
                    decreases gifs.len() - t,
                {
                    proof {
                        lemma_select_step(recs, present@, lo, np + nv + t);
                    }
                    if present[k] {
                        let item = make_media(export_root, msg, &gifs[t].uri, "gif", None, &before, &after);
                        proof {
                            lemma_medias_view_push(media_items@, item);
                            assert(item@ == recs[np + nv + t]);
                        }
                        media_items.push(item);
                    }
                    assert(k < present.len());
                    k = k + 1;
                    t = t + 1;
                }
            }
            assert(recs.take(np + nv + ng) =~= recs);
        } else {
            assert(recs.len() == 0);
            assert(select_at(recs, present@, lo) == Seq::<MediaView>::empty());
            assert(base + Seq::<MediaView>::empty() =~= base);
        }
        i = i + 1;
    }
    media_items
}

pub open spec fn strings_view(v: Seq<String>) -> Seq<Seq<char>> {
    v.map_values(|s: String| s@)
}

pub open spec fn ref_uris(refs: Seq<RefSpec>) -> Seq<Seq<char>> {
    refs.map_values(|r: RefSpec| r.uri)
}

proof fn lemma_uri_push(v: Seq<String>, s: String, refs: Seq<RefSpec>, t: int)
    requires
        0 <= t < refs.len(),
        strings_view(v) == ref_uris(refs.take(t)),
        s@ == refs[t].uri,
    ensures
        strings_view(v.push(s)) == ref_uris(refs.take(t + 1)),
{
    assert(strings_view(v).len() == v.len());
    assert(v.len() == t);
    assert forall|q: int| 0 <= q < t implies strings_view(v.push(s))[q] == ref_uris(refs.take(t + 1))[q] by {
        assert(strings_view(v)[q] == ref_uris(refs.take(t))[q]);
        assert(v.push(s)[q] == v[q]);
    }
    assert(strings_view(v.push(s)) =~= ref_uris(refs.take(t + 1)));
}

/// Appends the declared URIs of one message's media references.
fn push_message_uris(msg: &Message, uris: &mut Vec<String>)
    ensures
        strings_view(final(uris)@) == strings_view(old(uris)@) + ref_uris(refs_of(msg@)),
{
    let ghost base = old(uris)@;
    let ghost refs = refs_of(msg@);
    let ghost np = msg@.photos.len() as int;
    let ghost nv = msg@.videos.len() as int;
    let ghost ng = msg@.gifs.len() as int;
    let mut local: Vec<String> = Vec::new();
    assert(strings_view(local@) =~= ref_uris(refs.take(0)));
    if let Some(photos) = &msg.photos {
        assert(photos.len() == np);
        for t in 0..photos.len()
            invariant
                refs == refs_of(msg@),
                photos.len() == np,
                np + nv + ng == refs.len(),
                0 <= np && 0 <= nv && 0 <= ng,
                np == msg@.photos.len() && nv == msg@.videos.len() && ng == msg@.gifs.len(),
                msg.photos == Some(*photos),
                strings_view(local@) == ref_uris(refs.take(t as int)),
        {
            proof {
                lemma_uri_push(local@, photos[t as int].uri, refs, t as int);
            }
            local.push(photos[t].uri.clone());
        }
    }
    assert(strings_view(local@) == ref_uris(refs.take(np)));
    if let Some(videos) = &msg.videos {
        assert(videos.len() == nv);
        for t in 0..videos.len()
            invariant
                refs == refs_of(msg@),
                videos.len() == nv,
                np + nv + ng == refs.len(),
                0 <= np && 0 <= nv && 0 <= ng,
                np == msg@.photos.len() && nv == msg@.videos.len() && ng == msg@.gifs.len(),
                msg.videos == Some(*videos),
                strings_view(local@) == ref_uris(refs.take(np + t)),
        {
            proof {
                lemma_uri_push(local@, videos[t as int].uri, refs, np + t);
            }
            local.push(videos[t].uri.clone());
        }
    }
    assert(strings_view(local@) == ref_uris(refs.take(np + nv)));
    if let Some(gifs) = &msg.gifs {
        assert(gifs.len() == ng);
        for t in 0..gifs.len()
            invariant
                refs == refs_of(msg@),
                gifs.len() == ng,
                np + nv + ng == refs.len(),
                0 <= np && 0 <= nv && 0 <= ng,
                np == msg@.photos.len() && nv == msg@.videos.len() && ng == msg@.gifs.len(),
                msg.gifs == Some(*gifs),
                strings_view(local@) == ref_uris(refs.take(np + nv + t)),
        {
            proof {
                lemma_uri_push(local@, gifs[t as int].uri, refs, np + nv + t);
            }
            local.push(gifs[t].uri.clone());
        }
    }
    assert(refs.take(np + nv + ng) =~= refs);
    let ghost mid = uris@;
    let ghost added = local@;
    uris.append(&mut local);
    assert(strings_view(uris@) =~= strings_view(mid) + strings_view(added));
}

/// The declared URIs of all media references, in the order in which
/// `extract_media` reads its `present` flags.
pub fn media_uris(messages: &Vec<Message>) -> (r: Vec<String>)
    ensures
        strings_view(r@) == ref_uris(all_refs(messages_view(messages@))),
{
    let ghost msgs = messages_view(messages@);
    let mut uris: Vec<String> = Vec::new();
    let mut i: usize = 0;
    while i < messages.len()
        invariant
            i <= messages.len(),
            msgs == messages_view(messages@),
            strings_view(uris@) == ref_uris(refs_before(msgs, i as int)),
        decreases messages.len() - i,
    {
        push_message_uris(&messages[i], &mut uris);
        assert(ref_uris(refs_before(msgs, i + 1)) =~= ref_uris(refs_before(msgs, i as int)) + ref_uris(refs_of(msgs[i as int])));
        i = i + 1;
    }
    uris
}

/// Each context list holds at most `window` messages, and fewer only where
/// the conversation starts (before) or ends (after) inside the window.
pub proof fn lemma_context_window_bounds(msgs: Seq<MessageView>, i: int, window: int)
    requires
        0 <= i < msgs.len(),
        0 <= window,
    ensures
        context_before_of(msgs, i, window).len() <= window,
        context_after_of(msgs, i, window).len() <= window,
        context_before_of(msgs, i, window).len() < window ==> context_before_of(msgs, i, window).len() == i,
        context_after_of(msgs, i, window).len() < window ==> context_after_of(msgs, i, window).len() == msgs.len() - 1 - i,
{
}

/// The record's context lists are those of message `i`.
pub open spec fn context_of_message(r: MediaView, msgs: Seq<MessageView>, window: int, i: int) -> bool {
    &&& 0 <= i < msgs.len()
    &&& r.context_before == context_before_of(msgs, i, window)
    &&& r.context_after == context_after_of(msgs, i, window)
}

/// The record's context lists are those of some message.
pub open spec fn context_of_some_message(r: MediaView, msgs: Seq<MessageView>, window: int) -> bool {
    exists|i: int| #[trigger] context_of_message(r, msgs, window, i)
}

proof fn lemma_select_at_from<A>(xs: Seq<A>, present: Seq<bool>, lo: int)
    ensures
        forall|q: int| 0 <= q < select_at(xs, present, lo).len() ==> xs.contains(#[trigger] select_at(xs, present, lo)[q]),
    decreases xs.len(),
{
    if xs.len() > 0 {
        lemma_select_at_from(xs.drop_last(), present, lo);
        let rest = select_at(xs.drop_last(), present, lo);
        let sel = select_at(xs, present, lo);
        assert forall|q: int| 0 <= q < sel.len() implies xs.contains(#[trigger] sel[q]) by {
            if q < rest.len() {
                assert(sel[q] == rest[q]);
                assert(xs.drop_last().contains(rest[q]));
                let k = choose|k: int| 0 <= k < xs.drop_last().len() && xs.drop_last()[k] == rest[q];
                assert(xs[k] == sel[q]);
            } else {
                assert(sel[q] == xs[xs.len() - 1]);
            }
        }
    }
}

proof fn lemma_media_upto_contexts(root: Seq<char>, msgs: Seq<MessageView>, window: int, present: Seq<bool>, j: int)
    requires
        0 <= j <= msgs.len(),
    ensures
        forall|q: int| 0 <= q < media_upto(root, msgs, window, present, j).len() ==> context_of_some_message(
            #[trigger] media_upto(root, msgs, window, present, j)[q],
            msgs,
            window,
        ),
    decreases j,
{
    if j > 0 {
        let i = j - 1;
        lemma_media_upto_contexts(root, msgs, window, present, i);
        let rest = media_upto(root, msgs, window, present, i);
        let recs = refs_of(msgs[i]).map_values(|r: RefSpec| media_record(root, msgs, i, window, r));
        let lo = refs_before(msgs, i).len() as int;
        lemma_select_at_from(recs, present, lo);
        let sel = select_at(recs, present, lo);
        let all = media_upto(root, msgs, window, present, j);
        assert(all == rest + sel);
        assert forall|q: int| 0 <= q < all.len() implies context_of_some_message(#[trigger] all[q], msgs, window) by {
            if q < rest.len() {
                assert(all[q] == rest[q]);
            } else {
                assert(all[q] == sel[q - rest.len()]);
                assert(recs.contains(sel[q - rest.len()]));
                let k = choose|k: int| 0 <= k < recs.len() && recs[k] == sel[q - rest.len()];
                assert(context_of_message(all[q], msgs, window, i));
            }
        }
    }
}

/// The record's context lists are those of some message `i`, each holds at
/// most `window` messages, and fewer only at the start or end of the list.
pub open spec fn context_within_window(r: MediaView, msgs: Seq<MessageView>, window: int) -> bool {
    exists|i: int| {
        &&& #[trigger] context_of_message(r, msgs, window, i)
        &&& r.context_before.len() <= window
        &&& r.context_after.len() <= window
        &&& r.context_before.len() < window ==> r.context_before.len() == i
        &&& r.context_after.len() < window ==> r.context_after.len() == msgs.len() - 1 - i
    }
}

/// Each extracted media item carries at most `window` messages before and
/// after it, and fewer only where the conversation starts or ends within the
/// window.
pub proof fn lemma_extracted_context_bounds(root: Seq<char>, msgs: Seq<MessageView>, window: int, present: Seq<bool>)
    requires
        0 <= window,
    ensures
        forall|q: int| 0 <= q < extracted_media(root, msgs, window, present).len() ==> context_within_window(
            #[trigger] extracted_media(root, msgs, window, present)[q],
            msgs,
            window,
        ),
{
    lemma_media_upto_contexts(root, msgs, window, present, msgs.len() as int);
    let all = extracted_media(root, msgs, window, present);
    assert forall|q: int| 0 <= q < all.len() implies context_within_window(#[trigger] all[q], msgs, window) by {
        assert(context_of_some_message(all[q], msgs, window));
        let i = choose|i: int| context_of_message(all[q], msgs, window, i);
        lemma_context_window_bounds(msgs, i, window);
        assert(context_of_message(all[q], msgs, window, i));
    }
}

} // verus!
