use vstd::prelude::*;
use vstd::hash_set::HashSetWithView;
use crate::facebook::opt_string_view;
use crate::extract::{ContextMsg, ContextView, ParsedMedia, MediaView, contexts_view, medias_view};
use crate::parser::{chat_type_of, chat_type_for, ParsedConversation, ConversationView, ParseResult, conversations_view, names_view};

verus! {

/// A stored conversation.
pub struct ConversationRow {
    pub id: i64,
    pub folder_name: String,
    pub title: String,
    pub chat_type: String,
    pub participant_count: i64,
    pub thread_path: String,
    pub source_type: String,
    pub source_path: String,
}

/// A stored sender, unique by name.
pub struct SenderRow {
    pub id: i64,
    pub name: String,
}

/// A link between a conversation and one of its participants.
#[derive(Debug, Clone, Copy, PartialEq, Eq, Structural)]
pub struct ParticipantRow {
    pub conversation_id: i64,
    pub sender_id: i64,
}

/// A stored media item.
pub struct MediaRow {
    pub id: i64,
    pub conversation_id: i64,
    pub sender_id: i64,
    pub file_path: String,
    pub relative_uri: String,
    pub file_type: String,
    pub timestamp_ms: i64,
    pub creation_timestamp: Option<i64>,
    pub message_content: Option<String>,
}

/// A stored context message of a media item. `position` is negative before
/// the media message (-1 nearest) and positive after it (1 nearest).
pub struct ContextRow {
    pub id: i64,
    pub media_id: i64,
    pub sender_id: i64,
    pub content: String,
    pub timestamp_ms: i64,
    pub position: i64,
}

pub struct ConversationRowView {
    pub id: i64,
    pub folder_name: Seq<char>,
    pub title: Seq<char>,
    pub chat_type: Seq<char>,
    pub participant_count: i64,
    pub thread_path: Seq<char>,
    pub source_type: Seq<char>,
    pub source_path: Seq<char>,
}

pub struct SenderRowView {
    pub id: i64,
    pub name: Seq<char>,
}

pub struct MediaRowView {
    pub id: i64,
    pub conversation_id: i64,
    pub sender_id: i64,
    pub file_path: Seq<char>,
    pub relative_uri: Seq<char>,
    pub file_type: Seq<char>,
    pub timestamp_ms: i64,
    pub creation_timestamp: Option<i64>,
    pub message_content: Option<Seq<char>>,
}

pub struct ContextRowView {
    pub id: i64,
    pub media_id: i64,
    pub sender_id: i64,
    pub content: Seq<char>,
    pub timestamp_ms: i64,
    pub position: i64,
}

impl View for ConversationRow {
    type V = ConversationRowView;

    open spec fn view(&self) -> ConversationRowView {
        ConversationRowView {
            id: self.id,
            folder_name: self.folder_name@,
            title: self.title@,
            chat_type: self.chat_type@,
            participant_count: self.participant_count,
            thread_path: self.thread_path@,
            source_type: self.source_type@,
            source_path: self.source_path@,
        }
    }
}

impl View for SenderRow {
    type V = SenderRowView;

    open spec fn view(&self) -> SenderRowView {
        SenderRowView { id: self.id, name: self.name@ }
    }
}

impl View for MediaRow {
    type V = MediaRowView;

    open spec fn view(&self) -> MediaRowView {
        MediaRowView {
            id: self.id,
            conversation_id: self.conversation_id,
            sender_id: self.sender_id,
            file_path: self.file_path@,
            relative_uri: self.relative_uri@,
            file_type: self.file_type@,
            timestamp_ms: self.timestamp_ms,
            creation_timestamp: self.creation_timestamp,
            message_content: opt_string_view(self.message_content),
        }
    }
}

impl View for ContextRow {
    type V = ContextRowView;

    open spec fn view(&self) -> ContextRowView {
        ContextRowView {
            id: self.id,
            media_id: self.media_id,
            sender_id: self.sender_id,
            content: self.content@,
            timestamp_ms: self.timestamp_ms,
            position: self.position,
        }
    }
}

/// The whole store as plain values. Each `next_*` is the id the next row of
/// that table receives.
pub struct StoreView {
    pub conversations: Seq<ConversationRowView>,
    pub senders: Seq<SenderRowView>,
    pub participants: Seq<ParticipantRow>,
    pub media: Seq<MediaRowView>,
    pub context_messages: Seq<ContextRowView>,
    pub next_conversation_id: i64,
    pub next_sender_id: i64,
    pub next_media_id: i64,
    pub next_context_id: i64,
}

/// The normalized store: conversations, senders, participant links, media and
/// their context messages. A new row takes the table's next id; removing a
/// source resets each next id to one past the largest id left, so the ids of
/// removed rows may be given out again.
pub struct Store {
    pub conversations: Vec<ConversationRow>,
    pub senders: Vec<SenderRow>,
    pub participants: Vec<ParticipantRow>,
    pub media: Vec<MediaRow>,
    pub context_messages: Vec<ContextRow>,
    pub next_conversation_id: i64,
    pub next_sender_id: i64,
    pub next_media_id: i64,
    pub next_context_id: i64,
}

pub open spec fn conversation_rows(v: Seq<ConversationRow>) -> Seq<ConversationRowView> {
    v.map_values(|r: ConversationRow| r@)
}

pub open spec fn sender_rows(v: Seq<SenderRow>) -> Seq<SenderRowView> {
    v.map_values(|r: SenderRow| r@)
}

pub open spec fn media_rows(v: Seq<MediaRow>) -> Seq<MediaRowView> {
    v.map_values(|r: MediaRow| r@)
}

pub open spec fn context_rows(v: Seq<ContextRow>) -> Seq<ContextRowView> {
    v.map_values(|r: ContextRow| r@)
}

impl View for Store {
    type V = StoreView;

    open spec fn view(&self) -> StoreView {
        StoreView {
            conversations: conversation_rows(self.conversations@),
            senders: sender_rows(self.senders@),
            participants: self.participants@,
            media: media_rows(self.media@),
            context_messages: context_rows(self.context_messages@),
            next_conversation_id: self.next_conversation_id,
            next_sender_id: self.next_sender_id,
            next_media_id: self.next_media_id,
            next_context_id: self.next_context_id,
        }
    }
}

/// One past the largest id (at most `i64::MAX`), and at least 1.
pub open spec fn next_id_after(ids: Seq<i64>) -> int
    decreases ids.len(),
{
    if ids.len() == 0 {
        1
    } else {
        let rest = next_id_after(ids.drop_last());
        let candidate = if ids.last() < i64::MAX { ids.last() + 1 } else { i64::MAX as int };
        if candidate > rest {
            candidate
        } else {
            rest
        }
    }
}

pub open spec fn conversation_ids(s: StoreView) -> Seq<i64> {
    s.conversations.map_values(|r: ConversationRowView| r.id)
}

pub open spec fn sender_ids(s: StoreView) -> Seq<i64> {
    s.senders.map_values(|r: SenderRowView| r.id)
}

pub open spec fn media_ids(s: StoreView) -> Seq<i64> {
    s.media.map_values(|r: MediaRowView| r.id)
}

pub open spec fn context_ids(s: StoreView) -> Seq<i64> {
    s.context_messages.map_values(|r: ContextRowView| r.id)
}

pub open spec fn all_distinct(ids: Seq<i64>) -> bool {
    forall|i: int, j: int| 0 <= i < j < ids.len() ==> ids[i] != ids[j]
}

pub open spec fn all_below(ids: Seq<i64>, bound: i64) -> bool {
    forall|i: int| 0 <= i < ids.len() ==> ids[i] < bound
}

pub open spec fn has_conversation(s: StoreView, id: i64) -> bool {
    exists|k: int| 0 <= k < s.conversations.len() && s.conversations[k].id == id
}

pub open spec fn has_sender(s: StoreView, id: i64) -> bool {
    exists|k: int| 0 <= k < s.senders.len() && s.senders[k].id == id
}

pub open spec fn has_media(s: StoreView, id: i64) -> bool {
    exists|k: int| 0 <= k < s.media.len() && s.media[k].id == id
}

/// Ids are unique per table and below the next id, a conversation's chat type
/// follows from its participant count, conversations are unique on (source
/// path, folder name), and every reference points at an existing row.
pub open spec fn well_formed(s: StoreView) -> bool {
    &&& all_distinct(conversation_ids(s)) && all_below(conversation_ids(s), s.next_conversation_id)
    &&& forall|k: int| 0 <= k < s.conversations.len() ==> (#[trigger] s.conversations[k]).chat_type == chat_type_of(
        s.conversations[k].participant_count as int,
    )
    &&& forall|i: int, j: int|
        0 <= i < j < s.conversations.len() ==> !(#[trigger] s.conversations[i].source_path == #[trigger] s.conversations[j].source_path
            && s.conversations[i].folder_name == s.conversations[j].folder_name)
    &&& all_distinct(sender_ids(s)) && all_below(sender_ids(s), s.next_sender_id)
    &&& all_distinct(media_ids(s)) && all_below(media_ids(s), s.next_media_id)
    &&& all_distinct(context_ids(s)) && all_below(context_ids(s), s.next_context_id)
    &&& forall|k: int| 0 <= k < s.participants.len() ==> has_conversation(s, #[trigger] s.participants[k].conversation_id)
        && has_sender(s, s.participants[k].sender_id)
    &&& forall|k: int| 0 <= k < s.media.len() ==> has_conversation(s, #[trigger] s.media[k].conversation_id)
        && has_sender(s, s.media[k].sender_id)
    &&& forall|k: int| 0 <= k < s.context_messages.len() ==> has_media(s, #[trigger] s.context_messages[k].media_id)
        && has_sender(s, s.context_messages[k].sender_id)
}

impl Store {
    /// An empty store.
    pub fn new() -> (r: Store)
        ensures
            r@.conversations.len() == 0,
            r@.senders.len() == 0,
            r@.participants.len() == 0,
            r@.media.len() == 0,
            r@.context_messages.len() == 0,
            r@.next_conversation_id == 1 && r@.next_sender_id == 1 && r@.next_media_id == 1 && r@.next_context_id == 1,
            well_formed(r@),
    {
        Store {
            conversations: Vec::new(),
            senders: Vec::new(),
            participants: Vec::new(),
            media: Vec::new(),
            context_messages: Vec::new(),
            next_conversation_id: 1,
            next_sender_id: 1,
            next_media_id: 1,
            next_context_id: 1,
        }
    }
}

/// A conversation of source `p` has id `cid`.
pub open spec fn conversation_removed(s: StoreView, p: Seq<char>, cid: i64) -> bool {
    exists|k: int| 0 <= k < s.conversations.len() && s.conversations[k].id == cid && s.conversations[k].source_path == p
}

/// A media row in a conversation of source `p` has id `mid`.
pub open spec fn media_removed(s: StoreView, p: Seq<char>, mid: i64) -> bool {
    exists|k: int| 0 <= k < s.media.len() && s.media[k].id == mid && conversation_removed(s, p, s.media[k].conversation_id)
}

/// Some media row, participant link or context message refers to sender `sid`.
pub open spec fn sender_referenced(s: StoreView, sid: i64) -> bool {
    ||| exists|k: int| 0 <= k < s.media.len() && s.media[k].sender_id == sid
    ||| exists|k: int| 0 <= k < s.participants.len() && s.participants[k].sender_id == sid
    ||| exists|k: int| 0 <= k < s.context_messages.len() && s.context_messages[k].sender_id == sid
}

/// The store without the rows of source `p`, before sender clean-up.
pub open spec fn without_source_rows(s: StoreView, p: Seq<char>) -> StoreView {
    StoreView {
        conversations: s.conversations.filter(|c: ConversationRowView| c.source_path != p),
        participants: s.participants.filter(|l: ParticipantRow| !conversation_removed(s, p, l.conversation_id)),
        media: s.media.filter(|m: MediaRowView| !conversation_removed(s, p, m.conversation_id)),
        context_messages: s.context_messages.filter(|x: ContextRowView| !media_removed(s, p, x.media_id)),
        ..s
    }
}

/// The store after removing source `p`: its conversations, their participant
/// links, media and context messages, then every sender that nothing refers
/// to any more. Next ids restart one past the largest id left.
pub open spec fn cleared(s: StoreView, p: Seq<char>) -> StoreView {
    let k = without_source_rows(s, p);
    let senders = k.senders.filter(|x: SenderRowView| sender_referenced(k, x.id));
    StoreView {
        senders: senders,
        next_conversation_id: next_id_after(conversation_ids(k)) as i64,
        next_sender_id: next_id_after(senders.map_values(|r: SenderRowView| r.id)) as i64,
        next_media_id: next_id_after(media_ids(k)) as i64,
        next_context_id: next_id_after(context_ids(k)) as i64,
        ..k
    }
}

pub(crate) proof fn lemma_filter_step<A>(s: Seq<A>, f: spec_fn(A) -> bool, i: int)
    requires
        0 <= i < s.len(),
    ensures
        s.take(i + 1).filter(f) == if f(s[i]) {
            s.take(i).filter(f).push(s[i])
        } else {
            s.take(i).filter(f)
        },
{
    reveal(Seq::filter);
    assert(s.take(i + 1).drop_last() =~= s.take(i));
}

proof fn lemma_filter_view_step<B>(view: Seq<B>, keep: spec_fn(B) -> bool, out: Seq<B>, i: int)
    requires
        0 <= i < view.len(),
        out == view.take(i).filter(keep),
    ensures
        keep(view[i]) ==> out.push(view[i]) == view.take(i + 1).filter(keep),
        !keep(view[i]) ==> out == view.take(i + 1).filter(keep),
{
    lemma_filter_step(view, keep, i);
}

/// Largest id plus one over a table's ids, and at least 1.
fn next_id_of(ids: &Vec<i64>) -> (r: i64)
    ensures
        r == next_id_after(ids@),
{
    let mut best: i64 = 1;
    for i in 0..ids.len()
        invariant
            best == next_id_after(ids@.take(i as int)),
    {
        proof {
            assert(ids@.take(i + 1).drop_last() =~= ids@.take(i as int));
        }
        let candidate = if ids[i] < i64::MAX { ids[i] + 1 } else { i64::MAX };
        if candidate > best {
            best = candidate;
        }
    }
    assert(ids@.take(ids.len() as int) =~= ids@);
    best
}

pub(crate) proof fn lemma_next_id_bounds(ids: Seq<i64>)
    requires
        forall|k: int| 0 <= k < ids.len() ==> ids[k] < i64::MAX,
    ensures
        forall|k: int| 0 <= k < ids.len() ==> ids[k] < next_id_after(ids),
        1 <= next_id_after(ids) <= i64::MAX,
    decreases ids.len(),
{
    if ids.len() > 0 {
        lemma_next_id_bounds(ids.drop_last());
        assert forall|k: int| 0 <= k < ids.len() implies ids[k] < next_id_after(ids) by {
            if k < ids.len() - 1 {
                assert(ids[k] == ids.drop_last()[k]);
            }
        }
    }
}

impl ConversationRow {
    pub fn copy(&self) -> (r: ConversationRow)
        ensures
            r@ == self@,
    {
        ConversationRow {
            id: self.id,
            folder_name: self.folder_name.clone(),
            title: self.title.clone(),
            chat_type: self.chat_type.clone(),
            participant_count: self.participant_count,
            thread_path: self.thread_path.clone(),
            source_type: self.source_type.clone(),
            source_path: self.source_path.clone(),
        }
    }
}

impl SenderRow {
    pub fn copy(&self) -> (r: SenderRow)
        ensures
            r@ == self@,
    {
        SenderRow { id: self.id, name: self.name.clone() }
    }
}

impl MediaRow {
    pub fn copy(&self) -> (r: MediaRow)
        ensures
            r@ == self@,
    {
        MediaRow {
            id: self.id,
            conversation_id: self.conversation_id,
            sender_id: self.sender_id,
            file_path: self.file_path.clone(),
            relative_uri: self.relative_uri.clone(),
            file_type: self.file_type.clone(),
            timestamp_ms: self.timestamp_ms,
            creation_timestamp: self.creation_timestamp,
            message_content: match &self.message_content {
                Some(c) => Some(c.clone()),
                None => None,
            },
        }
    }
}

impl ContextRow {
    pub fn copy(&self) -> (r: ContextRow)
        ensures
            r@ == self@,
    {
        ContextRow {
            id: self.id,
            media_id: self.media_id,
            sender_id: self.sender_id,
            content: self.content.clone(),
            timestamp_ms: self.timestamp_ms,
            position: self.position,
        }
    }
}

fn conversation_id_list(rows: &Vec<ConversationRow>) -> (r: Vec<i64>)
    ensures
        r@ == rows@.map_values(|x: ConversationRow| x@).map_values(|x: ConversationRowView| x.id),
{
    let mut out: Vec<i64> = Vec::new();
    for i in 0..rows.len()
        invariant
            out@ =~= rows@.take(i as int).map_values(|x: ConversationRow| x@).map_values(|x: ConversationRowView| x.id),
    {
        out.push(rows[i].id);
    }
    assert(rows@.take(rows.len() as int) =~= rows@);
    out
}

fn sender_id_list(rows: &Vec<SenderRow>) -> (r: Vec<i64>)
    ensures
        r@ == rows@.map_values(|x: SenderRow| x@).map_values(|x: SenderRowView| x.id),
{
    let mut out: Vec<i64> = Vec::new();
    for i in 0..rows.len()
        invariant
            out@ =~= rows@.take(i as int).map_values(|x: SenderRow| x@).map_values(|x: SenderRowView| x.id),
    {
        out.push(rows[i].id);
    }
    assert(rows@.take(rows.len() as int) =~= rows@);
    out
}

fn media_id_list(rows: &Vec<MediaRow>) -> (r: Vec<i64>)
    ensures
        r@ == rows@.map_values(|x: MediaRow| x@).map_values(|x: MediaRowView| x.id),
{
    let mut out: Vec<i64> = Vec::new();
    for i in 0..rows.len()
        invariant
            out@ =~= rows@.take(i as int).map_values(|x: MediaRow| x@).map_values(|x: MediaRowView| x.id),
    {
        out.push(rows[i].id);
    }
    assert(rows@.take(rows.len() as int) =~= rows@);
    out
}

fn context_id_list(rows: &Vec<ContextRow>) -> (r: Vec<i64>)
    ensures
        r@ == rows@.map_values(|x: ContextRow| x@).map_values(|x: ContextRowView| x.id),
{
    let mut out: Vec<i64> = Vec::new();
    for i in 0..rows.len()
        invariant
            out@ =~= rows@.take(i as int).map_values(|x: ContextRow| x@).map_values(|x: ContextRowView| x.id),
    {
        out.push(rows[i].id);
    }
    assert(rows@.take(rows.len() as int) =~= rows@);
    out
}

impl Store {
    /// Delete the data of one source path: its conversations, their participant
    /// links, media and context messages, then the senders that nothing refers
    /// to any more.
    pub fn clear_source(&mut self, source_path: &str)
        ensures
            final(self)@ == cleared(old(self)@, source_path@),
            well_formed(old(self)@) ==> well_formed(final(self)@),
    {
        proof {
            if well_formed(self@) {
                crate::invariants::lemma_cleared_wf(self@, source_path@);
            }
        }
        broadcast use vstd::std_specs::hash::group_hash_axioms;

        let ghost s = self@;
        let ghost p = source_path@;
        let ghost k = without_source_rows(s, p);
        let path = source_path.to_string();

        let mut removed_convs: HashSetWithView<i64> = HashSetWithView::new();
        let mut conversations: Vec<ConversationRow> = Vec::new();
        let ghost keep_conv = |c: ConversationRowView| c.source_path != p;
        for i in 0..self.conversations.len()
            invariant
                s == old(self)@,
                self@ == s,
                path@ == p,
                forall|c: ConversationRowView| #[trigger] keep_conv(c) == (c.source_path != p),
                forall|x: i64| #[trigger] removed_convs@.contains(x) <==> exists|q: int|
                    0 <= q < i && s.conversations[q].id == x && s.conversations[q].source_path == p,
                conversation_rows(conversations@) == s.conversations.take(i as int).filter(keep_conv),
        {
            let row = &self.conversations[i];
            proof {
                lemma_filter_view_step(s.conversations, keep_conv, conversation_rows(conversations@), i as int);
            }
            if row.source_path == path {
                removed_convs.insert(row.id);
                assert(s.conversations[i as int].id == row.id && s.conversations[i as int].source_path == p);
            } else {
                let c = row.copy();
                let ghost prev = conversation_rows(conversations@);
                conversations.push(c);
                assert(conversation_rows(conversations@) =~= prev.push(c@));
            }
        }
        assert(s.conversations.take(s.conversations.len() as int) =~= s.conversations);
        assert(keep_conv =~= |c: ConversationRowView| c.source_path != p);
        assert(conversation_rows(conversations@) == k.conversations);

        let mut removed_media: HashSetWithView<i64> = HashSetWithView::new();
        let mut media: Vec<MediaRow> = Vec::new();
        let ghost keep_media = |m: MediaRowView| !conversation_removed(s, p, m.conversation_id);
        for i in 0..self.media.len()
            invariant
                s == old(self)@,
                self@ == s,
                forall|x: i64| #[trigger] removed_convs@.contains(x) <==> conversation_removed(s, p, x),
                forall|m: MediaRowView| #[trigger] keep_media(m) == !conversation_removed(s, p, m.conversation_id),
                forall|x: i64| #[trigger] removed_media@.contains(x) <==> exists|q: int|
                    0 <= q < i && s.media[q].id == x && conversation_removed(s, p, s.media[q].conversation_id),
                media_rows(media@) == s.media.take(i as int).filter(keep_media),
        {
            let row = &self.media[i];
            proof {
                lemma_filter_view_step(s.media, keep_media, media_rows(media@), i as int);
            }
            if removed_convs.contains(&row.conversation_id) {
                removed_media.insert(row.id);
                assert(s.media[i as int].id == row.id);
            } else {
                let m = row.copy();
                let ghost prev = media_rows(media@);
                media.push(m);
                assert(media_rows(media@) =~= prev.push(m@));
            }
        }
        assert(s.media.take(s.media.len() as int) =~= s.media);
        assert(keep_media =~= |m: MediaRowView| !conversation_removed(s, p, m.conversation_id));
        assert(media_rows(media@) == k.media);

        let mut participants: Vec<ParticipantRow> = Vec::new();
        let ghost keep_link = |l: ParticipantRow| !conversation_removed(s, p, l.conversation_id);
        for i in 0..self.participants.len()
            invariant
                s == old(self)@,
                self@ == s,
                forall|x: i64| #[trigger] removed_convs@.contains(x) <==> conversation_removed(s, p, x),
                forall|l: ParticipantRow| #[trigger] keep_link(l) == !conversation_removed(s, p, l.conversation_id),
                participants@ == s.participants.take(i as int).filter(keep_link),
        {
            let link = self.participants[i];
            proof {
                lemma_filter_step(s.participants, keep_link, i as int);
            }
            if !removed_convs.contains(&link.conversation_id) {
                participants.push(link);
            }
        }
        assert(s.participants.take(s.participants.len() as int) =~= s.participants);
        assert(keep_link =~= |l: ParticipantRow| !conversation_removed(s, p, l.conversation_id));
        assert(participants@ == k.participants);

        let mut context_messages: Vec<ContextRow> = Vec::new();
        let ghost keep_ctx = |x: ContextRowView| !media_removed(s, p, x.media_id);
        for i in 0..self.context_messages.len()
            invariant
                s == old(self)@,
                self@ == s,
                forall|x: i64| #[trigger] removed_media@.contains(x) <==> media_removed(s, p, x),
                forall|x: ContextRowView| #[trigger] keep_ctx(x) == !media_removed(s, p, x.media_id),
                context_rows(context_messages@) == s.context_messages.take(i as int).filter(keep_ctx),
        {
            let row = &self.context_messages[i];
            proof {
                lemma_filter_view_step(s.context_messages, keep_ctx, context_rows(context_messages@), i as int);
            }
            if !removed_media.contains(&row.media_id) {
                let c = row.copy();
                let ghost prev = context_rows(context_messages@);
                context_messages.push(c);
                assert(context_rows(context_messages@) =~= prev.push(c@));
            }
        }
        assert(s.context_messages.take(s.context_messages.len() as int) =~= s.context_messages);
        assert(keep_ctx =~= |x: ContextRowView| !media_removed(s, p, x.media_id));
        assert(context_rows(context_messages@) == k.context_messages);

        let mut referenced: HashSetWithView<i64> = HashSetWithView::new();
        for i in 0..media.len()
            invariant
                forall|x: i64| #[trigger] referenced@.contains(x) <==> exists|q: int| 0 <= q < i && media@[q].sender_id == x,
        {
            referenced.insert(media[i].sender_id);
        }
        let ghost after_media = referenced@;
        for i in 0..participants.len()
            invariant
                forall|x: i64| #[trigger] referenced@.contains(x) <==> after_media.contains(x) || exists|q: int|
                    0 <= q < i && participants@[q].sender_id == x,
        {
            referenced.insert(participants[i].sender_id);
        }
        let ghost after_links = referenced@;
        for i in 0..context_messages.len()
            invariant
                forall|x: i64| #[trigger] referenced@.contains(x) <==> after_links.contains(x) || exists|q: int|
                    0 <= q < i && context_messages@[q].sender_id == x,
        {
            referenced.insert(context_messages[i].sender_id);
        }
        assert forall|x: i64| #[trigger] referenced@.contains(x) <== sender_referenced(k, x) by {
            if exists|q: int| 0 <= q < k.media.len() && k.media[q].sender_id == x {
                let q = choose|q: int| 0 <= q < k.media.len() && k.media[q].sender_id == x;
                assert(media@[q].sender_id == x);
            }
            if exists|q: int| 0 <= q < k.context_messages.len() && k.context_messages[q].sender_id == x {
                let q = choose|q: int| 0 <= q < k.context_messages.len() && k.context_messages[q].sender_id == x;
                assert(context_messages@[q].sender_id == x);
            }
        }
        assert forall|x: i64| #[trigger] referenced@.contains(x) ==> sender_referenced(k, x) by {
            if exists|q: int| 0 <= q < media.len() && media@[q].sender_id == x {
                let q = choose|q: int| 0 <= q < media.len() && media@[q].sender_id == x;
                assert(k.media[q].sender_id == x);
            }
            if exists|q: int| 0 <= q < context_messages.len() && context_messages@[q].sender_id == x {
                let q = choose|q: int| 0 <= q < context_messages.len() && context_messages@[q].sender_id == x;
                assert(k.context_messages[q].sender_id == x);
            }
        }

        let mut senders: Vec<SenderRow> = Vec::new();
        let ghost keep_sender = |x: SenderRowView| sender_referenced(k, x.id);
        for i in 0..self.senders.len()
            invariant
                s == old(self)@,
                self@ == s,
                k.senders == s.senders,
                forall|x: i64| #[trigger] referenced@.contains(x) <==> sender_referenced(k, x),
                forall|x: SenderRowView| #[trigger] keep_sender(x) == sender_referenced(k, x.id),
                sender_rows(senders@) == s.senders.take(i as int).filter(keep_sender),
        {
            let row = &self.senders[i];
            proof {
                lemma_filter_view_step(s.senders, keep_sender, sender_rows(senders@), i as int);
            }
            if referenced.contains(&row.id) {
                let c = row.copy();
                let ghost prev = sender_rows(senders@);
                senders.push(c);
                assert(sender_rows(senders@) =~= prev.push(c@));
            }
        }
        assert(s.senders.take(s.senders.len() as int) =~= s.senders);
        assert(keep_sender =~= |x: SenderRowView| sender_referenced(k, x.id));

        self.next_conversation_id = next_id_of(&conversation_id_list(&conversations));
        self.next_sender_id = next_id_of(&sender_id_list(&senders));
        self.next_media_id = next_id_of(&media_id_list(&media));
        self.next_context_id = next_id_of(&context_id_list(&context_messages));
        self.conversations = conversations;
        self.senders = senders;
        self.participants = participants;
        self.media = media;
        self.context_messages = context_messages;
    }
}

/// Index of the first sender named `name`, or -1.
pub open spec fn find_sender(senders: Seq<SenderRowView>, name: Seq<char>) -> int
    decreases senders.len(),
{
    if senders.len() == 0 {
        -1
    } else {
        let k = find_sender(senders.drop_last(), name);
        if k >= 0 {
            k
        } else if senders.last().name == name {
            senders.len() - 1
        } else {
            -1
        }
    }
}

/// Get-or-create a sender by name: the id of the first sender with that name,
/// or a new sender row. `None` when no id is left.
pub open spec fn sender_step(s: StoreView, name: Seq<char>) -> Option<(StoreView, i64)> {
    let k = find_sender(s.senders, name);
    if k >= 0 {
        Some((s, s.senders[k].id))
    } else if s.next_sender_id < i64::MAX {
        Some(
            (
                StoreView {
                    senders: s.senders.push(SenderRowView { id: s.next_sender_id, name: name }),
                    next_sender_id: (s.next_sender_id + 1) as i64,
                    ..s
                },
                s.next_sender_id,
            ),
        )
    } else {
        None
    }
}

/// Adds a participant link unless it is already there.
pub open spec fn with_link(s: StoreView, link: ParticipantRow) -> StoreView {
    if s.participants.contains(link) {
        s
    } else {
        StoreView { participants: s.participants.push(link), ..s }
    }
}

/// Links each named participant to conversation `cid`, creating senders as
/// needed.
pub open spec fn with_participants(s: StoreView, cid: i64, names: Seq<Seq<char>>) -> Option<StoreView>
    decreases names.len(),
{
    if names.len() == 0 {
        Some(s)
    } else {
        match with_participants(s, cid, names.drop_last()) {
            None => None,
            Some(s1) => match sender_step(s1, names.last()) {
                None => None,
                Some((s2, sid)) => Some(with_link(s2, ParticipantRow { conversation_id: cid, sender_id: sid })),
            },
        }
    }
}

/// Stores the context list of media `mid`; item `k` gets position `base + k`.
pub open spec fn with_contexts(s: StoreView, mid: i64, ctxs: Seq<ContextView>, base: int) -> Option<StoreView>
    decreases ctxs.len(),
{
    if ctxs.len() == 0 {
        Some(s)
    } else {
        match with_contexts(s, mid, ctxs.drop_last(), base) {
            None => None,
            Some(s1) => match sender_step(s1, ctxs.last().sender_name) {
                None => None,
                Some((s2, sid)) => if s2.next_context_id < i64::MAX {
                    Some(
                        StoreView {
                            context_messages: s2.context_messages.push(
                                ContextRowView {
                                    id: s2.next_context_id,
                                    media_id: mid,
                                    sender_id: sid,
                                    content: ctxs.last().content,
                                    timestamp_ms: ctxs.last().timestamp_ms,
                                    position: (base + ctxs.len() - 1) as i64,
                                },
                            ),
                            next_context_id: (s2.next_context_id + 1) as i64,
                            ..s2
                        },
                    )
                } else {
                    None
                },
            },
        }
    }
}

/// Position of the `k`-th of `n` messages before a media item: from `-n`
/// (farthest) up to `-1` (nearest).
pub open spec fn before_position(n: int, k: int) -> int {
    k - n
}

/// Position of the `k`-th message after a media item: from 1 (nearest).
pub open spec fn after_position(k: int) -> int {
    k + 1
}

/// Stores one media item of conversation `cid` with its sender and context.
pub open spec fn with_media_item(s: StoreView, cid: i64, m: MediaView) -> Option<StoreView> {
    match sender_step(s, m.sender_name) {
        None => None,
        Some((s1, sid)) => if s1.next_media_id < i64::MAX && m.context_before.len() <= i64::MAX && m.context_after.len() < i64::MAX {
            let mid = s1.next_media_id;
            let s2 = StoreView {
                media: s1.media.push(
                    MediaRowView {
                        id: mid,
                        conversation_id: cid,
                        sender_id: sid,
                        file_path: m.file_path,
                        relative_uri: m.relative_uri,
                        file_type: m.file_type,
                        timestamp_ms: m.timestamp_ms,
                        creation_timestamp: m.creation_timestamp,
                        message_content: m.message_content,
                    },
                ),
                next_media_id: (mid + 1) as i64,
                ..s1
            };
            match with_contexts(s2, mid, m.context_before, before_position(m.context_before.len() as int, 0)) {
                None => None,
                Some(s3) => with_contexts(s3, mid, m.context_after, after_position(0)),
            }
        } else {
            None
        },
    }
}

pub open spec fn with_media_items(s: StoreView, cid: i64, ms: Seq<MediaView>) -> Option<StoreView>
    decreases ms.len(),
{
    if ms.len() == 0 {
        Some(s)
    } else {
        match with_media_items(s, cid, ms.drop_last()) {
            None => None,
            Some(s1) => with_media_item(s1, cid, ms.last()),
        }
    }
}

/// Stores one parsed conversation: its row, participant links, and media.
/// Some conversation of source path `path` has folder name `folder`.
pub open spec fn has_folder(s: StoreView, path: Seq<char>, folder: Seq<char>) -> bool {
    exists|k: int| 0 <= k < s.conversations.len() && #[trigger] s.conversations[k].source_path == path
        && s.conversations[k].folder_name == folder
}

/// Stores one parsed conversation: its row (chat type derived from the number
/// of participants), participant links, and media. `None` when its (source path, folder name) is already stored or ids run out.
pub open spec fn with_conversation(s: StoreView, c: ConversationView) -> Option<StoreView> {
    if !has_folder(s, c.source_path, c.folder_name) && s.next_conversation_id < i64::MAX && c.participants.len() <= i64::MAX {
        let cid = s.next_conversation_id;
        let s1 = StoreView {
            conversations: s.conversations.push(
                ConversationRowView {
                    id: cid,
                    folder_name: c.folder_name,
                    title: c.title,
                    chat_type: chat_type_of(c.participants.len() as int),
                    participant_count: c.participants.len() as i64,
                    thread_path: c.thread_path,
                    source_type: c.source_type,
                    source_path: c.source_path,
                },
            ),
            next_conversation_id: (cid + 1) as i64,
            ..s
        };
        match with_participants(s1, cid, c.participants) {
            None => None,
            Some(s2) => with_media_items(s2, cid, c.media),
        }
    } else {
        None
    }
}

/// Stores all parsed conversations in order; `None` when ids run out.
pub open spec fn with_conversations(s: StoreView, cs: Seq<ConversationView>) -> Option<StoreView>
    decreases cs.len(),
{
    if cs.len() == 0 {
        Some(s)
    } else {
        match with_conversations(s, cs.drop_last()) {
            None => None,
            Some(s1) => with_conversation(s1, cs.last()),
        }
    }
}

/// Context positions run from -n up to -1 before a media item and from 1
/// upward after it; each position's magnitude is the distance, in messages,
/// from the media message, so it grows strictly with that distance.
pub proof fn lemma_context_positions(n: int, k1: int, k2: int)
    requires
        0 <= k1 < k2,
    ensures
        k2 < n ==> before_position(n, k1) < before_position(n, k2) < 0,
        k2 < n ==> -before_position(n, k1) > -before_position(n, k2) >= 1,
        k2 < n ==> -before_position(n, k1) == n - k1,
        1 <= after_position(k1) < after_position(k2),
        after_position(0) == 1,
{
}

proof fn lemma_find_sender_absent(senders: Seq<SenderRowView>, name: Seq<char>)
    requires
        forall|q: int| 0 <= q < senders.len() ==> senders[q].name != name,
    ensures
        find_sender(senders, name) == -1,
    decreases senders.len(),
{
    if senders.len() > 0 {
        lemma_find_sender_absent(senders.drop_last(), name);
    }
}

proof fn lemma_find_sender_at(senders: Seq<SenderRowView>, name: Seq<char>, j: int)
    requires
        0 <= j < senders.len(),
        senders[j].name == name,
        forall|q: int| 0 <= q < j ==> senders[q].name != name,
    ensures
        find_sender(senders, name) == j,
    decreases senders.len(),
{
    if j < senders.len() - 1 {
        lemma_find_sender_at(senders.drop_last(), name, j);
    } else {
        lemma_find_sender_absent(senders.drop_last(), name);
    }
}

proof fn lemma_participants_none(s: StoreView, cid: i64, names: Seq<Seq<char>>, i: int)
    requires
        0 <= i <= names.len(),
        with_participants(s, cid, names.take(i)) is None,
    ensures
        with_participants(s, cid, names) is None,
    decreases names.len() - i,
{
    if i < names.len() {
        assert(names.take(i + 1).drop_last() =~= names.take(i));
        lemma_participants_none(s, cid, names, i + 1);
    } else {
        assert(names.take(i) =~= names);
    }
}

proof fn lemma_contexts_none(s: StoreView, mid: i64, ctxs: Seq<ContextView>, base: int, i: int)
    requires
        0 <= i <= ctxs.len(),
        with_contexts(s, mid, ctxs.take(i), base) is None,
    ensures
        with_contexts(s, mid, ctxs, base) is None,
    decreases ctxs.len() - i,
{
    if i < ctxs.len() {
        assert(ctxs.take(i + 1).drop_last() =~= ctxs.take(i));
        lemma_contexts_none(s, mid, ctxs, base, i + 1);
    } else {
        assert(ctxs.take(i) =~= ctxs);
    }
}

proof fn lemma_media_items_none(s: StoreView, cid: i64, ms: Seq<MediaView>, i: int)
    requires
        0 <= i <= ms.len(),
        with_media_items(s, cid, ms.take(i)) is None,
    ensures
        with_media_items(s, cid, ms) is None,
    decreases ms.len() - i,
{
    if i < ms.len() {
        assert(ms.take(i + 1).drop_last() =~= ms.take(i));
        lemma_media_items_none(s, cid, ms, i + 1);
    } else {
        assert(ms.take(i) =~= ms);
    }
}

proof fn lemma_conversations_none(s: StoreView, cs: Seq<ConversationView>, i: int)
    requires
        0 <= i <= cs.len(),
        with_conversations(s, cs.take(i)) is None,
    ensures
        with_conversations(s, cs) is None,
    decreases cs.len() - i,
{
    if i < cs.len() {
        assert(cs.take(i + 1).drop_last() =~= cs.take(i));
        lemma_conversations_none(s, cs, i + 1);
    } else {
        assert(cs.take(i) =~= cs);
    }
}

impl Store {
    /// Get or create a sender by name.
    fn get_or_create_sender(&mut self, name: &String) -> (r: Result<i64, String>)
        ensures
            sender_step(old(self)@, name@) is Some ==> r is Ok && r->Ok_0 == sender_step(old(self)@, name@)->Some_0.1
                && final(self)@ == sender_step(old(self)@, name@)->Some_0.0,
            sender_step(old(self)@, name@) is None ==> r is Err,
    {
        let ghost s = self@;
        let mut i: usize = 0;
        while i < self.senders.len()
            invariant
                self@ == s,
                i <= self.senders.len(),
                forall|q: int| 0 <= q < i ==> s.senders[q].name != name@,
            decreases self.senders.len() - i,
        {
            if self.senders[i].name == *name {
                proof {
                    lemma_find_sender_at(s.senders, name@, i as int);
                }
                return Ok(self.senders[i].id);
            }
            i = i + 1;
        }
        proof {
            lemma_find_sender_absent(s.senders, name@);
        }
        if self.next_sender_id == i64::MAX {
            return Err("no sender id is left".to_string());
        }
        let id = self.next_sender_id;
        let ghost prev = sender_rows(self.senders@);
        self.senders.push(SenderRow { id, name: name.clone() });
        self.next_sender_id = id + 1;
        assert(sender_rows(self.senders@) =~= prev.push(SenderRowView { id: id, name: name@ }));
        Ok(id)
    }

    fn link_participant(&mut self, link: ParticipantRow)
        ensures
            final(self)@ == with_link(old(self)@, link),
    {
        let mut i: usize = 0;
        while i < self.participants.len()
            invariant
                self@ == old(self)@,
                i <= self.participants.len(),
                forall|q: int| 0 <= q < i ==> self.participants@[q] != link,
            decreases self.participants.len() - i,
        {
            if self.participants[i] == link {
                assert(self@.participants[i as int] == link);
                return;
            }
            i = i + 1;
        }
        self.participants.push(link);
    }

    fn insert_participants(&mut self, cid: i64, names: &Vec<String>) -> (r: Result<(), String>)
        ensures
            with_participants(old(self)@, cid, names_view(names@)) is Some ==> r is Ok
                && final(self)@ == with_participants(old(self)@, cid, names_view(names@))->Some_0,
            with_participants(old(self)@, cid, names_view(names@)) is None ==> r is Err,
    {
        let ghost s = self@;
        let ghost nv = names_view(names@);
        for i in 0..names.len()
            invariant
                s == old(self)@,
                nv == names_view(names@),
                with_participants(s, cid, nv.take(i as int)) == Some(self@),
        {
            proof {
                assert(nv.take(i + 1).drop_last() =~= nv.take(i as int));
            }
            match self.get_or_create_sender(&names[i]) {
                Ok(sid) => {
                    self.link_participant(ParticipantRow { conversation_id: cid, sender_id: sid });
                },
                Err(e) => {
                    proof {
                        lemma_participants_none(s, cid, nv, i + 1);
                    }
                    return Err(e);
                },
            }
        }
        assert(nv.take(names.len() as int) =~= nv);
        Ok(())
    }

    fn insert_context_messages(&mut self, mid: i64, ctxs: &Vec<ContextMsg>, base: i64) -> (r: Result<(), String>)
        requires
            base + ctxs.len() <= i64::MAX,
            ctxs.len() <= i64::MAX,
            -i64::MAX <= base,
        ensures
            with_contexts(old(self)@, mid, contexts_view(ctxs@), base as int) is Some ==> r is Ok
                && final(self)@ == with_contexts(old(self)@, mid, contexts_view(ctxs@), base as int)->Some_0,
            with_contexts(old(self)@, mid, contexts_view(ctxs@), base as int) is None ==> r is Err,
    {
        let ghost s = self@;
        let ghost cv = contexts_view(ctxs@);
        for i in 0..ctxs.len()
            invariant
                s == old(self)@,
                cv == contexts_view(ctxs@),
                base + ctxs.len() <= i64::MAX,
                ctxs.len() <= i64::MAX,
                -i64::MAX <= base,
                with_contexts(s, mid, cv.take(i as int), base as int) == Some(self@),
        {
            proof {
                assert(cv.take(i + 1).drop_last() =~= cv.take(i as int));
            }
            let ctx = &ctxs[i];
            assert(cv.take(i + 1).last() == ctx@);
            match self.get_or_create_sender(&ctx.sender_name) {
                Ok(sid) => {
                    if self.next_context_id == i64::MAX {
                        proof {
                            lemma_contexts_none(s, mid, cv, base as int, i + 1);
                        }
                        return Err("no context message id is left".to_string());
                    }
                    let id = self.next_context_id;
                    let row = ContextRow {
                        id,
                        media_id: mid,
                        sender_id: sid,
                        content: ctx.content.clone(),
                        timestamp_ms: ctx.timestamp_ms,
                        position: base + i as i64,
                    };
                    let ghost prev = context_rows(self.context_messages@);
                    self.context_messages.push(row);
                    self.next_context_id = id + 1;
                    assert(context_rows(self.context_messages@) =~= prev.push(row@));
                },
                Err(e) => {
                    proof {
                        lemma_contexts_none(s, mid, cv, base as int, i + 1);
                    }
                    return Err(e);
                },
            }
        }
        assert(cv.take(ctxs.len() as int) =~= cv);
        Ok(())
    }

    fn insert_media_item(&mut self, cid: i64, m: &ParsedMedia) -> (r: Result<(), String>)
        ensures
            with_media_item(old(self)@, cid, m@) is Some ==> r is Ok && final(self)@ == with_media_item(old(self)@, cid, m@)->Some_0,
            with_media_item(old(self)@, cid, m@) is None ==> r is Err,
    {
        let sid = self.get_or_create_sender(&m.sender_name)?;
        let nb = m.context_before.len();
        if self.next_media_id == i64::MAX || nb as u64 > i64::MAX as u64 || m.context_after.len() as u64 >= i64::MAX as u64 {
            return Err("no media id is left".to_string());
        }
        let mid = self.next_media_id;
        let row = MediaRow {
            id: mid,
            conversation_id: cid,
            sender_id: sid,
            file_path: m.file_path.clone(),
            relative_uri: m.relative_uri.clone(),
            file_type: m.file_type.clone(),
            timestamp_ms: m.timestamp_ms,
            creation_timestamp: m.creation_timestamp,
            message_content: match &m.message_content {
                Some(c) => Some(c.clone()),
                None => None,
            },
        };
        let ghost prev = media_rows(self.media@);
        self.media.push(row);
        self.next_media_id = mid + 1;
        assert(media_rows(self.media@) =~= prev.push(row@));
        self.insert_context_messages(mid, &m.context_before, 0 - nb as i64)?;
        self.insert_context_messages(mid, &m.context_after, 1)?;
        Ok(())
    }

    fn insert_conversation(&mut self, c: &ParsedConversation) -> (r: Result<(), String>)
        ensures
            with_conversation(old(self)@, c@) is Some ==> r is Ok && final(self)@ == with_conversation(old(self)@, c@)->Some_0,
            with_conversation(old(self)@, c@) is None ==> r is Err,
    {
        let mut k: usize = 0;
        while k < self.conversations.len()
            invariant
                self@ == old(self)@,
                k <= self.conversations.len(),
                forall|q: int| 0 <= q < k ==> !(self@.conversations[q].source_path == c@.source_path
                    && self@.conversations[q].folder_name == c@.folder_name),
            decreases self.conversations.len() - k,
        {
            if self.conversations[k].source_path == c.source_path && self.conversations[k].folder_name == c.folder_name {
                assert(self@.conversations[k as int].source_path == c@.source_path);
                return Err("conversation already stored for this source and folder".to_string());
            }
            k = k + 1;
        }
        if self.next_conversation_id == i64::MAX || c.participants.len() as u64 > i64::MAX as u64 {
            return Err("no conversation id is left".to_string());
        }
        let cid = self.next_conversation_id;
        let row = ConversationRow {
            id: cid,
            folder_name: c.folder_name.clone(),
            title: c.title.clone(),
            chat_type: chat_type_for(c.participants.len()),
            participant_count: c.participants.len() as i64,
            thread_path: c.thread_path.clone(),
            source_type: c.source_type.clone(),
            source_path: c.source_path.clone(),
        };
        let ghost prev = conversation_rows(self.conversations@);
        self.conversations.push(row);
        self.next_conversation_id = cid + 1;
        assert(conversation_rows(self.conversations@) =~= prev.push(row@));
        self.insert_participants(cid, &c.participants)?;
        let ghost s2 = self@;
        let ghost mv = medias_view(c.media@);
        assert(with_conversation(old(self)@, c@) == with_media_items(s2, cid, mv));
        for i in 0..c.media.len()
            invariant
                mv == medias_view(c.media@),
                with_conversation(old(self)@, c@) == with_media_items(s2, cid, mv),
                with_media_items(s2, cid, mv.take(i as int)) == Some(self@),
        {
            proof {
                assert(mv.take(i + 1).drop_last() =~= mv.take(i as int));
            }
            match self.insert_media_item(cid, &c.media[i]) {
                Ok(()) => {},
                Err(e) => {
                    proof {
                        lemma_media_items_none(s2, cid, mv, i + 1);
                    }
                    return Err(e);
                },
            }
        }
        assert(mv.take(c.media.len() as int) =~= mv);
        Ok(())
    }
}

/// Counts of one import.
pub struct ImportStats {
    pub conversations: usize,
    pub media: usize,
    pub senders: usize,
}

/// Number of media items over a list of parsed conversations.
pub open spec fn total_media(cs: Seq<ConversationView>) -> int
    decreases cs.len(),
{
    if cs.len() == 0 {
        0
    } else {
        total_media(cs.drop_last()) + cs.last().media.len()
    }
}

/// The store after removing each of the given source paths in turn.
pub open spec fn cleared_paths(s: StoreView, paths: Seq<Seq<char>>) -> StoreView
    decreases paths.len(),
{
    if paths.len() == 0 {
        s
    } else {
        cleared(cleared_paths(s, paths.drop_last()), paths.last())
    }
}

/// What an import leaves: the given sources removed, then the parsed
/// conversations stored; `None` when ids run out.
pub open spec fn imported(s: StoreView, paths: Seq<Seq<char>>, cs: Seq<ConversationView>) -> Option<StoreView> {
    with_conversations(cleared_paths(s, paths), cs)
}

impl Store {
    /// Insert all parsed conversations; the sender count is over the whole
    /// store afterwards. On failure some rows may already be in: `import`
    /// works on a copy for that reason.
    pub fn insert_all(&mut self, result: &ParseResult) -> (r: Result<ImportStats, String>)
        ensures
            r is Ok <==> with_conversations(old(self)@, conversations_view(result.conversations@)) is Some
                && total_media(conversations_view(result.conversations@)) <= usize::MAX,
            r is Ok ==> ({
                let st = r->Ok_0;
                &&& final(self)@ == with_conversations(old(self)@, conversations_view(result.conversations@))->Some_0
                &&& st.conversations == result.conversations@.len()
                &&& st.media == total_media(conversations_view(result.conversations@))
                &&& st.senders == final(self)@.senders.len()
            }),
            r is Ok && well_formed(old(self)@) ==> well_formed(final(self)@),
    {
        let ghost s = self@;
        let ghost cv = conversations_view(result.conversations@);
        proof {
            if well_formed(s) && with_conversations(s, cv) is Some {
                crate::invariants::lemma_conversations_wf(s, cv);
            }
        }
        let mut media: usize = 0;
        let mut overflow = false;
        for i in 0..result.conversations.len()
            invariant
                s == old(self)@,
                cv == conversations_view(result.conversations@),
                with_conversations(s, cv.take(i as int)) == Some(self@),
                !overflow ==> media == total_media(cv.take(i as int)),
                overflow ==> total_media(cv.take(i as int)) > usize::MAX,
        {
            proof {
                assert(cv.take(i + 1).drop_last() =~= cv.take(i as int));
            }
            let conv = &result.conversations[i];
            match self.insert_conversation(conv) {
                Ok(()) => {},
                Err(e) => {
                    proof {
                        lemma_conversations_none(s, cv, i + 1);
                    }
                    return Err(e);
                },
            }
            if !overflow {
                if media <= usize::MAX - conv.media.len() {
                    media = media + conv.media.len();
                } else {
                    overflow = true;
                }
            }
        }
        assert(cv.take(result.conversations.len() as int) =~= cv);
        if overflow {
            return Err("too many media items".to_string());
        }
        Ok(ImportStats { conversations: result.conversations.len(), media, senders: self.senders.len() })
    }

    /// A copy of the store.
    pub fn duplicate(&self) -> (r: Store)
        ensures
            r@ == self@,
    {
        let mut conversations: Vec<ConversationRow> = Vec::new();
        for i in 0..self.conversations.len()
            invariant
                conversations.len() == i,
                forall|q: int| 0 <= q < i ==> conversations@[q]@ == self.conversations@[q]@,
        {
            conversations.push(self.conversations[i].copy());
        }
        let mut senders: Vec<SenderRow> = Vec::new();
        for i in 0..self.senders.len()
            invariant
                senders.len() == i,
                forall|q: int| 0 <= q < i ==> senders@[q]@ == self.senders@[q]@,
        {
            senders.push(self.senders[i].copy());
        }
        let mut participants: Vec<ParticipantRow> = Vec::new();
        for i in 0..self.participants.len()
            invariant
                participants.len() == i,
                forall|q: int| 0 <= q < i ==> participants@[q] == self.participants@[q],
        {
            participants.push(self.participants[i]);
        }
        let mut media: Vec<MediaRow> = Vec::new();
        for i in 0..self.media.len()
            invariant
                media.len() == i,
                forall|q: int| 0 <= q < i ==> media@[q]@ == self.media@[q]@,
        {
            media.push(self.media[i].copy());
        }
        let mut context_messages: Vec<ContextRow> = Vec::new();
        for i in 0..self.context_messages.len()
            invariant
                context_messages.len() == i,
                forall|q: int| 0 <= q < i ==> context_messages@[q]@ == self.context_messages@[q]@,
        {
            context_messages.push(self.context_messages[i].copy());
        }
        let r = Store {
            conversations,
            senders,
            participants,
            media,
            context_messages,
            next_conversation_id: self.next_conversation_id,
            next_sender_id: self.next_sender_id,
            next_media_id: self.next_media_id,
            next_context_id: self.next_context_id,
        };
        assert(r@.conversations =~= self@.conversations);
        assert(r@.senders =~= self@.senders);
        assert(r@.participants =~= self@.participants);
        assert(r@.media =~= self@.media);
        assert(r@.context_messages =~= self@.context_messages);
        r
    }

    /// Import parsed sources in one transaction: the data of every given source
    /// path is removed, then all parsed conversations are stored. On failure
    /// the store is left as it was.
    pub fn import(&mut self, source_paths: &Vec<String>, result: &ParseResult) -> (r: Result<ImportStats, String>)
        ensures
            r is Ok <==> imported(old(self)@, names_view(source_paths@), conversations_view(result.conversations@)) is Some
                && total_media(conversations_view(result.conversations@)) <= usize::MAX,
            r is Ok ==> ({
                let st = r->Ok_0;
                &&& final(self)@ == imported(old(self)@, names_view(source_paths@), conversations_view(result.conversations@))->Some_0
                &&& st.conversations == result.conversations@.len()
                &&& st.media == total_media(conversations_view(result.conversations@))
                &&& st.senders == final(self)@.senders.len()
            }),
            r is Err ==> final(self)@ == old(self)@,
            well_formed(old(self)@) ==> well_formed(final(self)@),
    {
        proof {
            if well_formed(self@) {
                crate::invariants::lemma_cleared_paths_wf(self@, names_view(source_paths@));
            }
        }
        let mut work = self.duplicate();
        let ghost pv = names_view(source_paths@);
        for i in 0..source_paths.len()
            invariant
                pv == names_view(source_paths@),
                work@ == cleared_paths(old(self)@, pv.take(i as int)),
        {
            proof {
                assert(pv.take(i + 1).drop_last() =~= pv.take(i as int));
            }
            work.clear_source(source_paths[i].as_str());
        }
        assert(pv.take(source_paths.len() as int) =~= pv);
        let stats = work.insert_all(result)?;
        *self = work;
        Ok(stats)
    }

    /// Import one more source in its own transaction, replacing its earlier data.
    pub fn add_source(&mut self, source_path: &String, result: &ParseResult) -> (r: Result<ImportStats, String>)
        ensures
            r is Ok <==> imported(old(self)@, seq![source_path@], conversations_view(result.conversations@)) is Some
                && total_media(conversations_view(result.conversations@)) <= usize::MAX,
            r is Ok ==> ({
                let st = r->Ok_0;
                &&& final(self)@ == imported(old(self)@, seq![source_path@], conversations_view(result.conversations@))->Some_0
                &&& st.conversations == result.conversations@.len()
                &&& st.media == total_media(conversations_view(result.conversations@))
                &&& st.senders == final(self)@.senders.len()
            }),
            r is Err ==> final(self)@ == old(self)@,
            well_formed(old(self)@) ==> well_formed(final(self)@),
    {
        let paths = vec![source_path.clone()];
        assert(names_view(paths@) =~= seq![source_path@]);
        self.import(&paths, result)
    }

    /// Remove one source and the senders nothing refers to any more.
    pub fn remove_source(&mut self, source_path: &str)
        ensures
            final(self)@ == cleared(old(self)@, source_path@),
            well_formed(old(self)@) ==> well_formed(final(self)@),
    {
        self.clear_source(source_path);
    }

    /// Delete every row.
    pub fn clear_all(&mut self)
        ensures
            final(self)@.conversations.len() == 0,
            final(self)@.senders.len() == 0,
            final(self)@.participants.len() == 0,
            final(self)@.media.len() == 0,
            final(self)@.context_messages.len() == 0,
            final(self)@.next_conversation_id == 1 && final(self)@.next_sender_id == 1,
            final(self)@.next_media_id == 1 && final(self)@.next_context_id == 1,
            well_formed(final(self)@),
    {
        *self = Store::new();
    }
}

proof fn lemma_filter_membership<A>(s: Seq<A>, pred: spec_fn(A) -> bool, i: int)
    requires
        0 <= i < s.len(),
    ensures
        s.filter(pred).contains(s[i]) <==> pred(s[i]),
{
    s.filter_lemma(pred);
    if s.filter(pred).contains(s[i]) {
        let j = choose|j: int| 0 <= j < s.filter(pred).len() && s.filter(pred)[j] == s[i];
        assert(pred(s.filter(pred)[j]));
    }
}

/// Removing a source is scoped to it. A conversation row stays exactly when it
/// belongs to another source; a participant link or media row stays exactly
/// when its conversation does; a context message stays exactly when its media
/// row does; a sender stays exactly when a remaining media row, participant
/// link or context message refers to it.
pub proof fn lemma_remove_source_scoped(s: StoreView, p: Seq<char>)
    requires
        well_formed(s),
    ensures
        forall|k: int| 0 <= k < s.conversations.len() ==> (cleared(s, p).conversations.contains(
            #[trigger] s.conversations[k],
        ) <==> s.conversations[k].source_path != p),
        forall|k: int, c: int|
            0 <= k < s.media.len() && 0 <= c < s.conversations.len() && s.conversations[c].id == s.media[k].conversation_id
                ==> (cleared(s, p).media.contains(#[trigger] s.media[k]) <==> #[trigger] s.conversations[c].source_path != p),
        forall|k: int, c: int|
            0 <= k < s.participants.len() && 0 <= c < s.conversations.len() && s.conversations[c].id
                == s.participants[k].conversation_id ==> (cleared(s, p).participants.contains(#[trigger] s.participants[k])
                <==> #[trigger] s.conversations[c].source_path != p),
        forall|k: int, q: int, c: int|
            #![trigger s.context_messages[k], s.media[q], s.conversations[c]]
            0 <= k < s.context_messages.len() && 0 <= q < s.media.len() && 0 <= c < s.conversations.len()
                && s.media[q].id == s.context_messages[k].media_id && s.conversations[c].id == s.media[q].conversation_id
                ==> (cleared(s, p).context_messages.contains(s.context_messages[k]) <==> s.conversations[c].source_path != p),
        forall|k: int| 0 <= k < s.senders.len() ==> (cleared(s, p).senders.contains(#[trigger] s.senders[k])
            <==> sender_referenced(cleared(s, p), s.senders[k].id)),
{
    let t = cleared(s, p);
    let w = without_source_rows(s, p);
    assert forall|k: int| 0 <= k < s.conversations.len() implies (t.conversations.contains(
        #[trigger] s.conversations[k],
    ) <==> s.conversations[k].source_path != p) by {
        lemma_filter_membership(s.conversations, |c: ConversationRowView| c.source_path != p, k);
    }
    assert forall|cid: i64, c: int|
        #![trigger conversation_removed(s, p, cid), s.conversations[c]]
        0 <= c < s.conversations.len() && s.conversations[c].id == cid implies (conversation_removed(s, p, cid)
        <==> s.conversations[c].source_path == p) by {
        if conversation_removed(s, p, cid) {
            let c2 = choose|c2: int| 0 <= c2 < s.conversations.len() && s.conversations[c2].id == cid && s.conversations[c2].source_path == p;
            if c2 != c {
                assert(conversation_ids(s)[c] == conversation_ids(s)[c2]);
            }
        }
    }
    assert forall|k: int, c: int|
        0 <= k < s.media.len() && 0 <= c < s.conversations.len() && s.conversations[c].id == s.media[k].conversation_id
            implies (t.media.contains(#[trigger] s.media[k]) <==> #[trigger] s.conversations[c].source_path != p) by {
        lemma_filter_membership(s.media, |m: MediaRowView| !conversation_removed(s, p, m.conversation_id), k);
    }
    assert forall|k: int, c: int|
        0 <= k < s.participants.len() && 0 <= c < s.conversations.len() && s.conversations[c].id
            == s.participants[k].conversation_id implies (t.participants.contains(#[trigger] s.participants[k])
            <==> #[trigger] s.conversations[c].source_path != p) by {
        lemma_filter_membership(s.participants, |l: ParticipantRow| !conversation_removed(s, p, l.conversation_id), k);
    }
    assert forall|k: int, q: int, c: int|
        #![trigger s.context_messages[k], s.media[q], s.conversations[c]]
        0 <= k < s.context_messages.len() && 0 <= q < s.media.len() && 0 <= c < s.conversations.len()
            && s.media[q].id == s.context_messages[k].media_id && s.conversations[c].id == s.media[q].conversation_id
            implies (t.context_messages.contains(s.context_messages[k]) <==> s.conversations[c].source_path != p) by {
        lemma_filter_membership(s.context_messages, |x: ContextRowView| !media_removed(s, p, x.media_id), k);
        let mid = s.media[q].id;
        if media_removed(s, p, mid) {
            let q2 = choose|q2: int| 0 <= q2 < s.media.len() && s.media[q2].id == mid && conversation_removed(s, p, s.media[q2].conversation_id);
            if q2 != q {
                assert(media_ids(s)[q] == media_ids(s)[q2]);
            }
        }
    }
    assert forall|k: int| 0 <= k < s.senders.len() implies (t.senders.contains(#[trigger] s.senders[k])
        <==> sender_referenced(t, s.senders[k].id)) by {
        lemma_filter_membership(w.senders, |x: SenderRowView| sender_referenced(w, x.id), k);
        assert(t.media == w.media && t.participants == w.participants && t.context_messages == w.context_messages);
        assert(sender_referenced(t, s.senders[k].id) == sender_referenced(w, s.senders[k].id));
    }
}

/// In a well-formed store a conversation is a direct message exactly when it
/// has at most two participants.
pub proof fn lemma_stored_chat_type(s: StoreView, k: int)
    requires
        well_formed(s),
        0 <= k < s.conversations.len(),
    ensures
        s.conversations[k].chat_type == "dm"@ <==> s.conversations[k].participant_count <= 2,
{
    crate::parser::lemma_chat_type_dm_iff(s.conversations[k].participant_count as int);
}

/// The context list stored for media `mid` is appended in order: item `k`
/// gets position `base + k`, its content and time, and media id `mid`.
pub proof fn lemma_with_contexts_rows(s: StoreView, mid: i64, ctxs: Seq<ContextView>, base: int)
    requires
        with_contexts(s, mid, ctxs, base) is Some,
    ensures
        ({
            let t = with_contexts(s, mid, ctxs, base)->Some_0;
            &&& t.context_messages.len() == s.context_messages.len() + ctxs.len()
            &&& t.context_messages.take(s.context_messages.len() as int) == s.context_messages
            &&& forall|k: int| 0 <= k < ctxs.len() ==> {
                let row = #[trigger] t.context_messages[s.context_messages.len() + k];
                &&& row.position == (base + k) as i64
                &&& row.media_id == mid
                &&& row.content == ctxs[k].content
                &&& row.timestamp_ms == ctxs[k].timestamp_ms
            }
        }),
    decreases ctxs.len(),
{
    if ctxs.len() > 0 {
        lemma_with_contexts_rows(s, mid, ctxs.drop_last(), base);
        let t1 = with_contexts(s, mid, ctxs.drop_last(), base)->Some_0;
        let t2 = sender_step(t1, ctxs.last().sender_name)->Some_0.0;
        let t = with_contexts(s, mid, ctxs, base)->Some_0;
        assert(t2.context_messages == t1.context_messages);
        assert(t.context_messages.take(s.context_messages.len() as int) =~= t1.context_messages.take(s.context_messages.len() as int));
        assert forall|k: int| 0 <= k < ctxs.len() implies {
            let row = #[trigger] t.context_messages[s.context_messages.len() + k];
            &&& row.position == (base + k) as i64
            &&& row.media_id == mid
            &&& row.content == ctxs[k].content
            &&& row.timestamp_ms == ctxs[k].timestamp_ms
        } by {
            if k < ctxs.len() - 1 {
                assert(t.context_messages[s.context_messages.len() + k] == t1.context_messages[s.context_messages.len() + k]);
                assert(ctxs.drop_last()[k] == ctxs[k]);
            }
        }
    }
}

/// Storing one media item appends its row, then its context messages: first
/// the `n` messages before it at positions `-n` up to `-1`, then the messages
/// after it at positions 1 upward, each with its content and time.
pub proof fn lemma_media_item_context_positions(s: StoreView, cid: i64, m: MediaView)
    requires
        with_media_item(s, cid, m) is Some,
    ensures
        ({
            let t = with_media_item(s, cid, m)->Some_0;
            let base = s.context_messages.len() as int;
            let n = m.context_before.len() as int;
            let mid = t.media[t.media.len() - 1].id;
            &&& t.media.len() == s.media.len() + 1
            &&& t.context_messages.len() == base + n + m.context_after.len()
            &&& forall|k: int| 0 <= k < n ==> {
                let row = #[trigger] t.context_messages[base + k];
                &&& row.position == before_position(n, k)
                &&& row.media_id == mid
                &&& row.content == m.context_before[k].content
            }
            &&& forall|k: int| 0 <= k < m.context_after.len() ==> {
                let row = #[trigger] t.context_messages[base + n + k];
                &&& row.position == after_position(k)
                &&& row.media_id == mid
                &&& row.content == m.context_after[k].content
            }
        }),
{
    let (s1, sid) = sender_step(s, m.sender_name)->Some_0;
    let mid = s1.next_media_id;
    let s2 = StoreView {
        media: s1.media.push(
            MediaRowView {
                id: mid,
                conversation_id: cid,
                sender_id: sid,
                file_path: m.file_path,
                relative_uri: m.relative_uri,
                file_type: m.file_type,
                timestamp_ms: m.timestamp_ms,
                creation_timestamp: m.creation_timestamp,
                message_content: m.message_content,
            },
        ),
        next_media_id: (mid + 1) as i64,
        ..s1
    };
    let n = m.context_before.len() as int;
    lemma_with_contexts_rows(s2, mid, m.context_before, before_position(n, 0));
    let s3 = with_contexts(s2, mid, m.context_before, before_position(n, 0))->Some_0;
    lemma_with_contexts_rows(s3, mid, m.context_after, after_position(0));
    lemma_with_contexts_media(s2, mid, m.context_before, before_position(n, 0));
    lemma_with_contexts_media(s3, mid, m.context_after, after_position(0));
    let t = with_contexts(s3, mid, m.context_after, after_position(0))->Some_0;
    let base = s.context_messages.len() as int;
    assert(s1.context_messages == s.context_messages);
    assert forall|k: int| 0 <= k < n implies {
        let row = #[trigger] t.context_messages[base + k];
        &&& row.position == before_position(n, k)
        &&& row.media_id == mid
        &&& row.content == m.context_before[k].content
    } by {
        assert(t.context_messages[base + k] == t.context_messages.take(s3.context_messages.len() as int)[base + k]);
        assert(s3.context_messages[base + k].position == (before_position(n, 0) + k) as i64);
    }
    assert forall|k: int| 0 <= k < m.context_after.len() implies {
        let row = #[trigger] t.context_messages[base + n + k];
        &&& row.position == after_position(k)
        &&& row.media_id == mid
        &&& row.content == m.context_after[k].content
    } by {
        assert(t.context_messages[s3.context_messages.len() + k].position == (after_position(0) + k) as i64);
    }
}

proof fn lemma_with_contexts_media(s: StoreView, mid: i64, ctxs: Seq<ContextView>, base: int)
    requires
        with_contexts(s, mid, ctxs, base) is Some,
    ensures
        with_contexts(s, mid, ctxs, base)->Some_0.media == s.media,
    decreases ctxs.len(),
{
    if ctxs.len() > 0 {
        lemma_with_contexts_media(s, mid, ctxs.drop_last(), base);
    }
}

} // verus!
