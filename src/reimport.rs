use vstd::prelude::*;
use crate::extract::{ContextView, MediaView};
use crate::parser::ConversationView;
use crate::store::{cleared, cleared_paths, imported, without_source_rows, well_formed, sender_referenced, conversation_removed, media_removed, has_conversation, has_media, has_sender, conversation_ids, media_ids, next_id_after, lemma_next_id_bounds, StoreView, SenderRowView, ContextRowView, ParticipantRow, MediaRowView, ConversationRowView, sender_step, find_sender, with_link, with_participants, with_contexts, with_media_item, with_media_items, with_conversation, with_conversations, before_position, after_position};

verus! {

/// `t` is `c` with rows appended that all belong to source `p`: new
/// conversations of that source, and new links, media and context messages
/// that hang off the new conversations; new ids are at least `c`'s next ids.
pub open spec fn appends_source(c: StoreView, t: StoreView, p: Seq<char>) -> bool {
    &&& t.conversations.len() >= c.conversations.len() && t.conversations.take(c.conversations.len() as int) == c.conversations
    &&& t.senders.len() >= c.senders.len() && t.senders.take(c.senders.len() as int) == c.senders
    &&& t.participants.len() >= c.participants.len() && t.participants.take(c.participants.len() as int) == c.participants
    &&& t.media.len() >= c.media.len() && t.media.take(c.media.len() as int) == c.media
    &&& t.context_messages.len() >= c.context_messages.len() && t.context_messages.take(c.context_messages.len() as int)
        == c.context_messages
    &&& t.next_conversation_id >= c.next_conversation_id && t.next_sender_id >= c.next_sender_id
    &&& t.next_media_id >= c.next_media_id && t.next_context_id >= c.next_context_id
    &&& forall|k: int| c.conversations.len() <= k < t.conversations.len() ==> (#[trigger] t.conversations[k]).source_path == p
        && c.next_conversation_id <= t.conversations[k].id < t.next_conversation_id
    &&& forall|k: int| c.senders.len() <= k < t.senders.len() ==> c.next_sender_id <= (#[trigger] t.senders[k]).id
    &&& forall|k: int| c.participants.len() <= k < t.participants.len() ==> new_conversation(c, t, (#[trigger] t.participants[k]).conversation_id)
    &&& forall|k: int| c.media.len() <= k < t.media.len() ==> new_conversation(c, t, (#[trigger] t.media[k]).conversation_id)
        && c.next_media_id <= t.media[k].id < t.next_media_id
    &&& forall|k: int| c.context_messages.len() <= k < t.context_messages.len() ==> new_media(c, t, (#[trigger] t.context_messages[k]).media_id)
}

/// A conversation appended after `c` has id `cid`.
pub open spec fn new_conversation(c: StoreView, t: StoreView, cid: i64) -> bool {
    exists|j: int| c.conversations.len() <= j < t.conversations.len() && #[trigger] t.conversations[j].id == cid
}

/// A media row appended after `c` has id `mid`.
pub open spec fn new_media(c: StoreView, t: StoreView, mid: i64) -> bool {
    exists|j: int| c.media.len() <= j < t.media.len() && #[trigger] t.media[j].id == mid
}

proof fn lemma_appends_refl(c: StoreView, p: Seq<char>)
    ensures
        appends_source(c, c, p),
{
    assert(c.conversations.take(c.conversations.len() as int) =~= c.conversations);
    assert(c.senders.take(c.senders.len() as int) =~= c.senders);
    assert(c.participants.take(c.participants.len() as int) =~= c.participants);
    assert(c.media.take(c.media.len() as int) =~= c.media);
    assert(c.context_messages.take(c.context_messages.len() as int) =~= c.context_messages);
}

proof fn lemma_sender_step(c: StoreView, t: StoreView, p: Seq<char>, name: Seq<char>)
    requires
        appends_source(c, t, p),
        sender_step(t, name) is Some,
    ensures
        appends_source(c, sender_step(t, name)->Some_0.0, p),
        sender_step(t, name)->Some_0.0.conversations == t.conversations,
        sender_step(t, name)->Some_0.0.media == t.media,
        sender_step(t, name)->Some_0.0.participants == t.participants,
        sender_step(t, name)->Some_0.0.context_messages == t.context_messages,
{
    let k = find_sender(t.senders, name);
    if k < 0 {
        let t2 = sender_step(t, name)->Some_0.0;
        assert(t2.senders.take(c.senders.len() as int) =~= c.senders) by {
            assert(t2.senders.take(c.senders.len() as int) =~= t.senders.take(c.senders.len() as int));
        }
    }
}

proof fn lemma_with_link(c: StoreView, t: StoreView, p: Seq<char>, link: ParticipantRow)
    requires
        appends_source(c, t, p),
        new_conversation(c, t, link.conversation_id),
    ensures
        appends_source(c, with_link(t, link), p),
{
    if !t.participants.contains(link) {
        let t2 = with_link(t, link);
        assert(t2.participants.take(c.participants.len() as int) =~= t.participants.take(c.participants.len() as int));
    }
}

proof fn lemma_with_participants(c: StoreView, t: StoreView, p: Seq<char>, cid: i64, names: Seq<Seq<char>>)
    requires
        appends_source(c, t, p),
        new_conversation(c, t, cid),
        with_participants(t, cid, names) is Some,
    ensures
        appends_source(c, with_participants(t, cid, names)->Some_0, p),
        new_conversation(c, with_participants(t, cid, names)->Some_0, cid),
    decreases names.len(),
{
    if names.len() > 0 {
        lemma_with_participants(c, t, p, cid, names.drop_last());
        let t1 = with_participants(t, cid, names.drop_last())->Some_0;
        lemma_sender_step(c, t1, p, names.last());
        let (t2, sid) = sender_step(t1, names.last())->Some_0;
        assert(t2.conversations == t1.conversations);
        lemma_with_link(c, t2, p, ParticipantRow { conversation_id: cid, sender_id: sid });
    }
}

proof fn lemma_with_contexts(c: StoreView, t: StoreView, p: Seq<char>, mid: i64, ctxs: Seq<ContextView>, base: int)
    requires
        appends_source(c, t, p),
        new_media(c, t, mid),
        with_contexts(t, mid, ctxs, base) is Some,
    ensures
        appends_source(c, with_contexts(t, mid, ctxs, base)->Some_0, p),
        new_media(c, with_contexts(t, mid, ctxs, base)->Some_0, mid),
        with_contexts(t, mid, ctxs, base)->Some_0.conversations == t.conversations,
        with_contexts(t, mid, ctxs, base)->Some_0.media == t.media,
    decreases ctxs.len(),
{
    if ctxs.len() > 0 {
        lemma_with_contexts(c, t, p, mid, ctxs.drop_last(), base);
        let t1 = with_contexts(t, mid, ctxs.drop_last(), base)->Some_0;
        lemma_sender_step(c, t1, p, ctxs.last().sender_name);
        let (t2, sid) = sender_step(t1, ctxs.last().sender_name)->Some_0;
        let t3 = with_contexts(t, mid, ctxs, base)->Some_0;
        assert(t3.context_messages.take(c.context_messages.len() as int) =~= t2.context_messages.take(c.context_messages.len() as int));
        assert(t2.media == t1.media);
        assert(t3.media == t1.media);
        assert(t3.conversations == t2.conversations && t3.senders == t2.senders && t3.participants == t2.participants);
        assert(t3.next_context_id >= c.next_context_id && t3.next_media_id == t2.next_media_id);
        assert(t3.next_conversation_id == t2.next_conversation_id && t3.next_sender_id == t2.next_sender_id);
        assert forall|k: int| c.context_messages.len() <= k < t3.context_messages.len() implies new_media(c, t3, (#[trigger] t3.context_messages[k]).media_id) by {
            if k < t2.context_messages.len() {
                assert(t3.context_messages[k] == t2.context_messages[k]);
                let j = choose|j: int| c.media.len() <= j < t2.media.len() && #[trigger] t2.media[j].id == t2.context_messages[k].media_id;
                assert(t3.media[j] == t2.media[j]);
            } else {
                let j = choose|j: int| c.media.len() <= j < t1.media.len() && #[trigger] t1.media[j].id == mid;
                assert(t3.media[j].id == mid);
            }
        }
    }
}

proof fn lemma_with_media_item(c: StoreView, t: StoreView, p: Seq<char>, cid: i64, m: MediaView)
    requires
        appends_source(c, t, p),
        new_conversation(c, t, cid),
        with_media_item(t, cid, m) is Some,
    ensures
        appends_source(c, with_media_item(t, cid, m)->Some_0, p),
        new_conversation(c, with_media_item(t, cid, m)->Some_0, cid),
{
    lemma_sender_step(c, t, p, m.sender_name);
    let (t1, sid) = sender_step(t, m.sender_name)->Some_0;
    let mid = t1.next_media_id;
    let t2 = StoreView {
        media: t1.media.push(
            MediaRowView {
                id: mid,
                conversation_id: cid,
                sender_id: sid,
                file_path: m.file_path,
                relative_uri: m.relative_uri,
                file_type: m.file_type,
                timestamp_ms: m.timestamp_ms,
                creation_timestamp: m.creation_timestamp,
                message_content: m.message_content,
            },
        ),
        next_media_id: (mid + 1) as i64,
        ..t1
    };
    assert(t2.media.take(c.media.len() as int) =~= t1.media.take(c.media.len() as int));
    assert(t1.conversations == t.conversations);
    assert(t2.conversations == t.conversations);
    assert forall|k: int| c.media.len() <= k < t2.media.len() implies new_conversation(c, t2, (#[trigger] t2.media[k]).conversation_id)
        && c.next_media_id <= t2.media[k].id < t2.next_media_id by {
        if k < t1.media.len() {
            assert(t2.media[k] == t1.media[k]);
        }
    }
    assert forall|k: int| c.context_messages.len() <= k < t2.context_messages.len() implies new_media(c, t2, (#[trigger] t2.context_messages[k]).media_id) by {
        let j = choose|j: int| c.media.len() <= j < t1.media.len() && #[trigger] t1.media[j].id == t1.context_messages[k].media_id;
        assert(t2.media[j] == t1.media[j]);
    }
    assert(appends_source(c, t2, p));
    assert(t2.media[t1.media.len() as int].id == mid);
    assert(new_media(c, t2, mid));
    lemma_with_contexts(c, t2, p, mid, m.context_before, before_position(m.context_before.len() as int, 0));
    let t3 = with_contexts(t2, mid, m.context_before, before_position(m.context_before.len() as int, 0))->Some_0;
    lemma_with_contexts(c, t3, p, mid, m.context_after, after_position(0));
}

proof fn lemma_with_media_items(c: StoreView, t: StoreView, p: Seq<char>, cid: i64, ms: Seq<MediaView>)
    requires
        appends_source(c, t, p),
        new_conversation(c, t, cid),
        with_media_items(t, cid, ms) is Some,
    ensures
        appends_source(c, with_media_items(t, cid, ms)->Some_0, p),
        new_conversation(c, with_media_items(t, cid, ms)->Some_0, cid),
    decreases ms.len(),
{
    if ms.len() > 0 {
        lemma_with_media_items(c, t, p, cid, ms.drop_last());
        let t1 = with_media_items(t, cid, ms.drop_last())->Some_0;
        lemma_with_media_item(c, t1, p, cid, ms.last());
    }
}

proof fn lemma_with_conversation(c: StoreView, t: StoreView, p: Seq<char>, conv: ConversationView)
    requires
        appends_source(c, t, p),
        conv.source_path == p,
        with_conversation(t, conv) is Some,
    ensures
        appends_source(c, with_conversation(t, conv)->Some_0, p),
{
    let cid = t.next_conversation_id;
    let t1 = StoreView {
        conversations: t.conversations.push(
            ConversationRowView {
                id: cid,
                folder_name: conv.folder_name,
                title: conv.title,
                chat_type: crate::parser::chat_type_of(conv.participants.len() as int),
                participant_count: conv.participants.len() as i64,
                thread_path: conv.thread_path,
                source_type: conv.source_type,
                source_path: conv.source_path,
            },
        ),
        next_conversation_id: (cid + 1) as i64,
        ..t
    };
    assert(t1.conversations.take(c.conversations.len() as int) =~= t.conversations.take(c.conversations.len() as int));
    assert(t1.conversations[t.conversations.len() as int].id == cid);
    assert(new_conversation(c, t1, cid));
    assert forall|k: int| c.participants.len() <= k < t1.participants.len() implies new_conversation(c, t1, (#[trigger] t1.participants[k]).conversation_id) by {
        let j = choose|j: int| c.conversations.len() <= j < t.conversations.len() && #[trigger] t.conversations[j].id == t.participants[k].conversation_id;
        assert(t1.conversations[j] == t.conversations[j]);
    }
    assert forall|k: int| c.media.len() <= k < t1.media.len() implies new_conversation(c, t1, (#[trigger] t1.media[k]).conversation_id) by {
        let j = choose|j: int| c.conversations.len() <= j < t.conversations.len() && #[trigger] t.conversations[j].id == t.media[k].conversation_id;
        assert(t1.conversations[j] == t.conversations[j]);
    }
    assert(appends_source(c, t1, p));
    lemma_with_participants(c, t1, p, cid, conv.participants);
    let t2 = with_participants(t1, cid, conv.participants)->Some_0;
    lemma_with_media_items(c, t2, p, cid, conv.media);
}

proof fn lemma_with_conversations(c: StoreView, t: StoreView, p: Seq<char>, cs: Seq<ConversationView>)
    requires
        appends_source(c, t, p),
        forall|i: int| 0 <= i < cs.len() ==> (#[trigger] cs[i]).source_path == p,
        with_conversations(t, cs) is Some,
    ensures
        appends_source(c, with_conversations(t, cs)->Some_0, p),
    decreases cs.len(),
{
    if cs.len() > 0 {
        lemma_with_conversations(c, t, p, cs.drop_last());
        let t1 = with_conversations(t, cs.drop_last())->Some_0;
        lemma_with_conversation(c, t1, p, cs.last());
    }
}

proof fn lemma_filter_all<A>(s: Seq<A>, f: spec_fn(A) -> bool)
    requires
        forall|i: int| 0 <= i < s.len() ==> f(#[trigger] s[i]),
    ensures
        s.filter(f) == s,
    decreases s.len(),
{
    reveal(Seq::filter);
    if s.len() > 0 {
        lemma_filter_all(s.drop_last(), f);
        assert(s.drop_last().push(s.last()) =~= s);
    }
}

proof fn lemma_filter_none<A>(s: Seq<A>, f: spec_fn(A) -> bool)
    requires
        forall|i: int| 0 <= i < s.len() ==> !f(#[trigger] s[i]),
    ensures
        s.filter(f) == Seq::<A>::empty(),
    decreases s.len(),
{
    reveal(Seq::filter);
    if s.len() > 0 {
        lemma_filter_none(s.drop_last(), f);
    }
}

/// Filters `t`, which is `c` followed by more items, keeping all of `c` and
/// none of the rest.
proof fn lemma_filter_prefix<A>(c: Seq<A>, t: Seq<A>, f: spec_fn(A) -> bool)
    requires
        t.len() >= c.len(),
        t.take(c.len() as int) == c,
        forall|i: int| 0 <= i < c.len() ==> f(#[trigger] t[i]),
        forall|i: int| c.len() <= i < t.len() ==> !f(#[trigger] t[i]),
    ensures
        t.filter(f) == c,
{
    let rest = t.skip(c.len() as int);
    assert(t =~= c + rest);
    Seq::filter_distributes_over_add(c, rest, f);
    assert forall|i: int| 0 <= i < c.len() implies f(#[trigger] c[i]) by {
        assert(c[i] == t[i]);
    }
    lemma_filter_all(c, f);
    assert forall|i: int| 0 <= i < rest.len() implies !f(#[trigger] rest[i]) by {
        assert(rest[i] == t[i + c.len()]);
    }
    lemma_filter_none(rest, f);
    assert(c + Seq::<A>::empty() =~= c);
}

proof fn lemma_in_filter<A>(s: Seq<A>, f: spec_fn(A) -> bool, i: int)
    requires
        0 <= i < s.filter(f).len(),
    ensures
        f(s.filter(f)[i]),
        s.contains(s.filter(f)[i]),
{
    s.filter_lemma(f);
    s.lemma_filter_contains_rev(f, s.filter(f)[i]);
}

/// What clearing source `p` leaves, for a well-formed store: no row of `p`,
/// every reference pointing at a kept row, ids below the next ids, and every
/// sender referred to.
pub(crate) proof fn lemma_cleared_facts(s: StoreView, p: Seq<char>)
    requires
        well_formed(s),
    ensures
        ({
            let c = cleared(s, p);
            &&& forall|k: int| 0 <= k < c.conversations.len() ==> (#[trigger] c.conversations[k]).source_path != p
            &&& forall|k: int| 0 <= k < c.conversations.len() ==> (#[trigger] c.conversations[k]).id < c.next_conversation_id
            &&& forall|k: int| 0 <= k < c.media.len() ==> (#[trigger] c.media[k]).id < c.next_media_id
            &&& forall|k: int| 0 <= k < c.senders.len() ==> (#[trigger] c.senders[k]).id < c.next_sender_id
            &&& forall|k: int| 0 <= k < c.media.len() ==> has_conversation(c, (#[trigger] c.media[k]).conversation_id)
                && has_sender(c, c.media[k].sender_id)
            &&& forall|k: int| 0 <= k < c.participants.len() ==> has_conversation(c, (#[trigger] c.participants[k]).conversation_id)
                && has_sender(c, c.participants[k].sender_id)
            &&& forall|k: int| 0 <= k < c.context_messages.len() ==> has_media(c, (#[trigger] c.context_messages[k]).media_id)
                && has_sender(c, c.context_messages[k].sender_id)
            &&& forall|k: int| 0 <= k < c.senders.len() ==> sender_referenced(c, (#[trigger] c.senders[k]).id)
        }),
{
    let c = cleared(s, p);
    let w = without_source_rows(s, p);
    let keep_conv = |r: ConversationRowView| r.source_path != p;
    let keep_media = |m: MediaRowView| !conversation_removed(s, p, m.conversation_id);
    let keep_link = |l: ParticipantRow| !conversation_removed(s, p, l.conversation_id);
    let keep_ctx = |x: ContextRowView| !media_removed(s, p, x.media_id);
    let keep_sender = |x: SenderRowView| sender_referenced(w, x.id);
    assert(c.conversations == s.conversations.filter(keep_conv));
    assert(c.media == s.media.filter(keep_media));
    assert(c.participants == s.participants.filter(keep_link));
    assert(c.context_messages == s.context_messages.filter(keep_ctx));
    assert(c.senders == s.senders.filter(keep_sender));
    s.conversations.filter_lemma(keep_conv);
    s.media.filter_lemma(keep_media);
    s.participants.filter_lemma(keep_link);
    s.context_messages.filter_lemma(keep_ctx);
    s.senders.filter_lemma(keep_sender);
    // a kept conversation of the original store is found in the cleared one
    assert forall|cid: i64| #[trigger] has_conversation(s, cid) && !conversation_removed(s, p, cid) implies has_conversation(c, cid) by {
        let j = choose|j: int| 0 <= j < s.conversations.len() && s.conversations[j].id == cid;
        assert(keep_conv(s.conversations[j]));
        assert(c.conversations.contains(s.conversations[j]));
        let q = choose|q: int| 0 <= q < c.conversations.len() && c.conversations[q] == s.conversations[j];
        assert(c.conversations[q].id == cid);
    }
    assert forall|sid: i64| #[trigger] has_sender(s, sid) && sender_referenced(c, sid) implies has_sender(c, sid) by {
        let j = choose|j: int| 0 <= j < s.senders.len() && s.senders[j].id == sid;
        assert(w.media == c.media && w.participants == c.participants && w.context_messages == c.context_messages);
        assert(keep_sender(s.senders[j]));
        assert(c.senders.contains(s.senders[j]));
        let q = choose|q: int| 0 <= q < c.senders.len() && c.senders[q] == s.senders[j];
        assert(c.senders[q].id == sid);
    }
    assert forall|k: int| 0 <= k < c.conversations.len() implies (#[trigger] c.conversations[k]).source_path != p by {
        lemma_in_filter(s.conversations, keep_conv, k);
    }
    assert forall|k: int| 0 <= k < c.media.len() implies has_conversation(c, (#[trigger] c.media[k]).conversation_id)
        && has_sender(c, c.media[k].sender_id) by {
        lemma_in_filter(s.media, keep_media, k);
        let j = choose|j: int| 0 <= j < s.media.len() && s.media[j] == c.media[k];
        assert(has_conversation(s, s.media[j].conversation_id));
        assert(has_sender(s, s.media[j].sender_id));
        assert(sender_referenced(c, c.media[k].sender_id));
    }
    assert forall|k: int| 0 <= k < c.participants.len() implies has_conversation(c, (#[trigger] c.participants[k]).conversation_id)
        && has_sender(c, c.participants[k].sender_id) by {
        lemma_in_filter(s.participants, keep_link, k);
        let j = choose|j: int| 0 <= j < s.participants.len() && s.participants[j] == c.participants[k];
        assert(has_conversation(s, s.participants[j].conversation_id));
        assert(has_sender(s, s.participants[j].sender_id));
        assert(sender_referenced(c, c.participants[k].sender_id));
    }
    assert forall|k: int| 0 <= k < c.context_messages.len() implies has_media(c, (#[trigger] c.context_messages[k]).media_id)
        && has_sender(c, c.context_messages[k].sender_id) by {
        lemma_in_filter(s.context_messages, keep_ctx, k);
        let j = choose|j: int| 0 <= j < s.context_messages.len() && s.context_messages[j] == c.context_messages[k];
        assert(has_media(s, s.context_messages[j].media_id));
        let mid = s.context_messages[j].media_id;
        let q = choose|q: int| 0 <= q < s.media.len() && s.media[q].id == mid;
        if conversation_removed(s, p, s.media[q].conversation_id) {
            assert(media_removed(s, p, mid));
        }
        assert(keep_media(s.media[q]));
        assert(c.media.contains(s.media[q]));
        let q2 = choose|q2: int| 0 <= q2 < c.media.len() && c.media[q2] == s.media[q];
        assert(c.media[q2].id == mid);
        assert(has_sender(s, s.context_messages[j].sender_id));
        assert(sender_referenced(c, c.context_messages[k].sender_id));
    }
    assert forall|k: int| 0 <= k < c.senders.len() implies sender_referenced(c, (#[trigger] c.senders[k]).id) by {
        lemma_in_filter(s.senders, keep_sender, k);
        assert(w.media == c.media && w.participants == c.participants && w.context_messages == c.context_messages);
    }
    // ids are below the next ids
    assert forall|k: int| 0 <= k < conversation_ids(c).len() implies conversation_ids(c)[k] < i64::MAX by {
        lemma_in_filter(s.conversations, keep_conv, k);
        let j = choose|j: int| 0 <= j < s.conversations.len() && s.conversations[j] == c.conversations[k];
        assert(conversation_ids(s)[j] < s.next_conversation_id);
    }
    lemma_next_id_bounds(conversation_ids(c));
    assert forall|k: int| 0 <= k < c.conversations.len() implies (#[trigger] c.conversations[k]).id < c.next_conversation_id by {
        assert(conversation_ids(c)[k] == c.conversations[k].id);
        assert(conversation_ids(w) == conversation_ids(c));
    }
    assert forall|k: int| 0 <= k < media_ids(c).len() implies media_ids(c)[k] < i64::MAX by {
        lemma_in_filter(s.media, keep_media, k);
        let j = choose|j: int| 0 <= j < s.media.len() && s.media[j] == c.media[k];
        assert(media_ids(s)[j] < s.next_media_id);
    }
    lemma_next_id_bounds(media_ids(c));
    assert forall|k: int| 0 <= k < c.media.len() implies (#[trigger] c.media[k]).id < c.next_media_id by {
        assert(media_ids(c)[k] == c.media[k].id);
        assert(media_ids(w) == media_ids(c));
    }
    let sids = c.senders.map_values(|r: SenderRowView| r.id);
    assert forall|k: int| 0 <= k < sids.len() implies sids[k] < i64::MAX by {
        lemma_in_filter(s.senders, keep_sender, k);
        let j = choose|j: int| 0 <= j < s.senders.len() && s.senders[j] == c.senders[k];
        assert(crate::store::sender_ids(s)[j] < s.next_sender_id);
    }
    lemma_next_id_bounds(sids);
    assert forall|k: int| 0 <= k < c.senders.len() implies (#[trigger] c.senders[k]).id < c.next_sender_id by {
        assert(sids[k] == c.senders[k].id);
    }
}

/// Clearing source `p` from a store that is `c` plus rows of `p` gives back
/// `c`, when `c` holds no row of `p`, its references point at its own rows,
/// its ids lie below its next ids, its senders are all referred to, and its
/// next ids are one past its largest ids.
proof fn lemma_clear_appended(c: StoreView, t: StoreView, p: Seq<char>)
    requires
        appends_source(c, t, p),
        forall|k: int| 0 <= k < c.conversations.len() ==> (#[trigger] c.conversations[k]).source_path != p,
        forall|k: int| 0 <= k < c.conversations.len() ==> (#[trigger] c.conversations[k]).id < c.next_conversation_id,
        forall|k: int| 0 <= k < c.media.len() ==> (#[trigger] c.media[k]).id < c.next_media_id,
        forall|k: int| 0 <= k < c.senders.len() ==> (#[trigger] c.senders[k]).id < c.next_sender_id,
        forall|k: int| 0 <= k < c.media.len() ==> has_conversation(c, (#[trigger] c.media[k]).conversation_id)
            && has_sender(c, c.media[k].sender_id),
        forall|k: int| 0 <= k < c.participants.len() ==> has_conversation(c, (#[trigger] c.participants[k]).conversation_id)
            && has_sender(c, c.participants[k].sender_id),
        forall|k: int| 0 <= k < c.context_messages.len() ==> has_media(c, (#[trigger] c.context_messages[k]).media_id)
            && has_sender(c, c.context_messages[k].sender_id),
        forall|k: int| 0 <= k < c.senders.len() ==> sender_referenced(c, (#[trigger] c.senders[k]).id),
        c.next_conversation_id == next_id_after(conversation_ids(c)),
        c.next_media_id == next_id_after(media_ids(c)),
        c.next_sender_id == next_id_after(c.senders.map_values(|r: SenderRowView| r.id)),
        c.next_context_id == next_id_after(crate::store::context_ids(c)),
    ensures
        cleared(t, p) == c,
{
    let w = without_source_rows(t, p);
    assert forall|cid: i64| #[trigger] has_conversation(c, cid) implies !conversation_removed(t, p, cid) by {
        let i = choose|i: int| 0 <= i < c.conversations.len() && c.conversations[i].id == cid;
        if conversation_removed(t, p, cid) {
            let j = choose|j: int| 0 <= j < t.conversations.len() && t.conversations[j].id == cid && t.conversations[j].source_path == p;
            if j < c.conversations.len() {
                assert(t.conversations[j] == t.conversations.take(c.conversations.len() as int)[j]);
            }
        }
    }
    assert forall|cid: i64| #[trigger] new_conversation(c, t, cid) implies conversation_removed(t, p, cid) by {
        let j = choose|j: int| c.conversations.len() <= j < t.conversations.len() && #[trigger] t.conversations[j].id == cid;
        assert(t.conversations[j].source_path == p);
    }
    assert forall|mid: i64| #[trigger] has_media(c, mid) implies !media_removed(t, p, mid) by {
        let i = choose|i: int| 0 <= i < c.media.len() && c.media[i].id == mid;
        if media_removed(t, p, mid) {
            let q = choose|q: int| 0 <= q < t.media.len() && t.media[q].id == mid && conversation_removed(t, p, t.media[q].conversation_id);
            if q < c.media.len() {
                assert(t.media[q] == t.media.take(c.media.len() as int)[q]);
                assert(has_conversation(c, c.media[q].conversation_id));
            }
        }
    }
    assert forall|mid: i64| #[trigger] new_media(c, t, mid) implies media_removed(t, p, mid) by {
        let j = choose|j: int| c.media.len() <= j < t.media.len() && #[trigger] t.media[j].id == mid;
        assert(new_conversation(c, t, t.media[j].conversation_id));
    }
    assert forall|k: int| 0 <= k < c.conversations.len() implies (#[trigger] t.conversations[k]).source_path != p by {
        assert(t.conversations[k] == t.conversations.take(c.conversations.len() as int)[k]);
    }
    lemma_filter_prefix(c.conversations, t.conversations, |r: ConversationRowView| r.source_path != p);
    assert forall|k: int| 0 <= k < c.media.len() implies !conversation_removed(t, p, (#[trigger] t.media[k]).conversation_id) by {
        assert(t.media[k] == t.media.take(c.media.len() as int)[k]);
        assert(has_conversation(c, c.media[k].conversation_id));
    }
    lemma_filter_prefix(c.media, t.media, |m: MediaRowView| !conversation_removed(t, p, m.conversation_id));
    assert forall|k: int| 0 <= k < c.participants.len() implies !conversation_removed(t, p, (#[trigger] t.participants[k]).conversation_id) by {
        assert(t.participants[k] == t.participants.take(c.participants.len() as int)[k]);
        assert(has_conversation(c, c.participants[k].conversation_id));
    }
    lemma_filter_prefix(c.participants, t.participants, |l: ParticipantRow| !conversation_removed(t, p, l.conversation_id));
    assert forall|k: int| 0 <= k < c.context_messages.len() implies !media_removed(t, p, (#[trigger] t.context_messages[k]).media_id) by {
        assert(t.context_messages[k] == t.context_messages.take(c.context_messages.len() as int)[k]);
        assert(has_media(c, c.context_messages[k].media_id));
    }
    lemma_filter_prefix(c.context_messages, t.context_messages, |x: ContextRowView| !media_removed(t, p, x.media_id));
    assert(w.conversations == c.conversations && w.media == c.media && w.participants == c.participants
        && w.context_messages == c.context_messages);
    assert forall|k: int| 0 <= k < c.senders.len() implies sender_referenced(w, (#[trigger] t.senders[k]).id) by {
        assert(t.senders[k] == t.senders.take(c.senders.len() as int)[k]);
        assert(sender_referenced(c, c.senders[k].id));
    }
    assert forall|k: int| c.senders.len() <= k < t.senders.len() implies !sender_referenced(w, (#[trigger] t.senders[k]).id) by {
        let sid = t.senders[k].id;
        if sender_referenced(c, sid) {
            if exists|q: int| 0 <= q < c.media.len() && c.media[q].sender_id == sid {
                let q = choose|q: int| 0 <= q < c.media.len() && c.media[q].sender_id == sid;
                assert(has_sender(c, c.media[q].sender_id));
            } else if exists|q: int| 0 <= q < c.participants.len() && c.participants[q].sender_id == sid {
                let q = choose|q: int| 0 <= q < c.participants.len() && c.participants[q].sender_id == sid;
                assert(has_sender(c, c.participants[q].sender_id));
            } else {
                let q = choose|q: int| 0 <= q < c.context_messages.len() && c.context_messages[q].sender_id == sid;
                assert(has_sender(c, c.context_messages[q].sender_id));
            }
            let i = choose|i: int| 0 <= i < c.senders.len() && c.senders[i].id == sid;
            assert(c.senders[i].id < c.next_sender_id);
        }
    }
    lemma_filter_prefix(c.senders, t.senders, |x: SenderRowView| sender_referenced(w, x.id));
    assert(conversation_ids(w) == conversation_ids(c));
    assert(media_ids(w) == media_ids(c));
    assert(crate::store::context_ids(w) == crate::store::context_ids(c));
    let r = cleared(t, p);
    assert(r.senders == c.senders);
    assert(r.conversations == c.conversations);
    assert(r.next_conversation_id == c.next_conversation_id);
    assert(r.next_media_id == c.next_media_id);
    assert(r.next_sender_id == c.next_sender_id);
    assert(r.next_context_id == c.next_context_id);
}

proof fn lemma_next_id_range(ids: Seq<i64>)
    ensures
        1 <= next_id_after(ids) <= i64::MAX,
    decreases ids.len(),
{
    if ids.len() > 0 {
        lemma_next_id_range(ids.drop_last());
    }
}

/// Importing the same source again, with the same parsed conversations (all
/// of that source), leaves the store exactly as the first import left it: in
/// particular every table keeps its row count.
pub proof fn lemma_reimport_idempotent(s: StoreView, p: Seq<char>, cs: Seq<ConversationView>)
    requires
        well_formed(s),
        forall|i: int| 0 <= i < cs.len() ==> (#[trigger] cs[i]).source_path == p,
        imported(s, seq![p], cs) is Some,
    ensures
        imported(imported(s, seq![p], cs)->Some_0, seq![p], cs) == imported(s, seq![p], cs),
{
    let s1 = imported(s, seq![p], cs)->Some_0;
    assert(seq![p].drop_last() =~= Seq::<Seq<char>>::empty());
    assert(seq![p].len() == 1 && seq![p].last() == p);
    assert(cleared_paths(s, Seq::<Seq<char>>::empty()) == s);
    assert(cleared_paths(s1, Seq::<Seq<char>>::empty()) == s1);
    assert(cleared_paths(s, seq![p]) == cleared(s, p));
    assert(cleared_paths(s1, seq![p]) == cleared(s1, p));
    let c = cleared(s, p);
    lemma_cleared_facts(s, p);
    lemma_appends_refl(c, p);
    lemma_with_conversations(c, c, p, cs);
    let w = without_source_rows(s, p);
    assert(conversation_ids(w) == conversation_ids(c));
    assert(media_ids(w) == media_ids(c));
    assert(crate::store::context_ids(w) == crate::store::context_ids(c));
    lemma_next_id_range(conversation_ids(c));
    lemma_next_id_range(media_ids(c));
    lemma_next_id_range(crate::store::context_ids(c));
    lemma_next_id_range(c.senders.map_values(|r: SenderRowView| r.id));
    lemma_clear_appended(c, s1, p);
}

} // verus!
