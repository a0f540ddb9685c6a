use vstd::prelude::*;
use crate::extract::{ContextView, MediaView};
use crate::parser::ConversationView;
use crate::store::{
    StoreView, ParticipantRow, MediaRowView, ConversationRowView, SenderRowView, ContextRowView, well_formed, all_distinct,
    all_below, conversation_ids, sender_ids, media_ids, context_ids, has_conversation, has_sender, has_media, find_sender,
    sender_step, with_link, with_participants, with_contexts, with_media_item, with_media_items, with_conversation,
    with_conversations, before_position, after_position, cleared, cleared_paths, without_source_rows, sender_referenced,
    conversation_removed, media_removed,
};
use crate::reimport::lemma_cleared_facts;

verus! {

/// Every table of `u` starts with the rows of `t`.
pub open spec fn grows(t: StoreView, u: StoreView) -> bool {
    &&& u.conversations.len() >= t.conversations.len() && u.conversations.take(t.conversations.len() as int) == t.conversations
    &&& u.senders.len() >= t.senders.len() && u.senders.take(t.senders.len() as int) == t.senders
    &&& u.participants.len() >= t.participants.len() && u.participants.take(t.participants.len() as int) == t.participants
    &&& u.media.len() >= t.media.len() && u.media.take(t.media.len() as int) == t.media
    &&& u.context_messages.len() >= t.context_messages.len() && u.context_messages.take(t.context_messages.len() as int)
        == t.context_messages
}

proof fn lemma_grows_refl(t: StoreView)
    ensures
        grows(t, t),
{
    assert(t.conversations.take(t.conversations.len() as int) =~= t.conversations);
    assert(t.senders.take(t.senders.len() as int) =~= t.senders);
    assert(t.participants.take(t.participants.len() as int) =~= t.participants);
    assert(t.media.take(t.media.len() as int) =~= t.media);
    assert(t.context_messages.take(t.context_messages.len() as int) =~= t.context_messages);
}

proof fn lemma_grows_trans(t: StoreView, u: StoreView, v: StoreView)
    requires
        grows(t, u),
        grows(u, v),
    ensures
        grows(t, v),
{
    assert(v.conversations.take(t.conversations.len() as int) =~= u.conversations.take(t.conversations.len() as int));
    assert(v.senders.take(t.senders.len() as int) =~= u.senders.take(t.senders.len() as int));
    assert(v.participants.take(t.participants.len() as int) =~= u.participants.take(t.participants.len() as int));
    assert(v.media.take(t.media.len() as int) =~= u.media.take(t.media.len() as int));
    assert(v.context_messages.take(t.context_messages.len() as int) =~= u.context_messages.take(
        t.context_messages.len() as int,
    ));
}

proof fn lemma_grows_keeps(t: StoreView, u: StoreView)
    requires
        grows(t, u),
    ensures
        forall|id: i64| has_conversation(t, id) ==> #[trigger] has_conversation(u, id),
        forall|id: i64| has_sender(t, id) ==> #[trigger] has_sender(u, id),
        forall|id: i64| has_media(t, id) ==> #[trigger] has_media(u, id),
{
    assert forall|id: i64| has_conversation(t, id) implies #[trigger] has_conversation(u, id) by {
        let k = choose|k: int| 0 <= k < t.conversations.len() && t.conversations[k].id == id;
        assert(u.conversations[k] == u.conversations.take(t.conversations.len() as int)[k]);
    }
    assert forall|id: i64| has_sender(t, id) implies #[trigger] has_sender(u, id) by {
        let k = choose|k: int| 0 <= k < t.senders.len() && t.senders[k].id == id;
        assert(u.senders[k] == u.senders.take(t.senders.len() as int)[k]);
    }
    assert forall|id: i64| has_media(t, id) implies #[trigger] has_media(u, id) by {
        let k = choose|k: int| 0 <= k < t.media.len() && t.media[k].id == id;
        assert(u.media[k] == u.media.take(t.media.len() as int)[k]);
    }
}

proof fn lemma_distinct_push(ids: Seq<i64>, id: i64)
    requires
        all_distinct(ids),
        all_below(ids, id),
        id < i64::MAX,
    ensures
        all_distinct(ids.push(id)),
        all_below(ids.push(id), (id + 1) as i64),
{
}

/// The references of `t`'s rows still resolve in `u` when `u` only adds rows.
proof fn lemma_refs_kept(t: StoreView, u: StoreView)
    requires
        well_formed(t),
        grows(t, u),
    ensures
        forall|q: int| 0 <= q < t.participants.len() ==> has_conversation(u, #[trigger] t.participants[q].conversation_id)
            && has_sender(u, t.participants[q].sender_id),
        forall|q: int| 0 <= q < t.media.len() ==> has_conversation(u, #[trigger] t.media[q].conversation_id)
            && has_sender(u, t.media[q].sender_id),
        forall|q: int| 0 <= q < t.context_messages.len() ==> has_media(u, #[trigger] t.context_messages[q].media_id)
            && has_sender(u, t.context_messages[q].sender_id),
{
    lemma_grows_keeps(t, u);
    assert forall|q: int| 0 <= q < t.participants.len() implies has_conversation(u, #[trigger] t.participants[q].conversation_id)
        && has_sender(u, t.participants[q].sender_id) by {
        assert(has_conversation(t, t.participants[q].conversation_id));
    }
    assert forall|q: int| 0 <= q < t.media.len() implies has_conversation(u, #[trigger] t.media[q].conversation_id)
        && has_sender(u, t.media[q].sender_id) by {
        assert(has_conversation(t, t.media[q].conversation_id));
    }
    assert forall|q: int| 0 <= q < t.context_messages.len() implies has_media(u, #[trigger] t.context_messages[q].media_id)
        && has_sender(u, t.context_messages[q].sender_id) by {
        assert(has_media(t, t.context_messages[q].media_id));
    }
}

proof fn lemma_find_sender_bounds(senders: Seq<SenderRowView>, name: Seq<char>)
    ensures
        find_sender(senders, name) < senders.len(),
    decreases senders.len(),
{
    if senders.len() > 0 {
        lemma_find_sender_bounds(senders.drop_last(), name);
    }
}

proof fn lemma_sender_step_wf(t: StoreView, name: Seq<char>)
    requires
        well_formed(t),
        sender_step(t, name) is Some,
    ensures
        well_formed(sender_step(t, name)->Some_0.0),
        grows(t, sender_step(t, name)->Some_0.0),
        has_sender(sender_step(t, name)->Some_0.0, sender_step(t, name)->Some_0.1),
{
    lemma_find_sender_bounds(t.senders, name);
    lemma_grows_refl(t);
    let k = find_sender(t.senders, name);
    if k < 0 {
        let t2 = sender_step(t, name)->Some_0.0;
        let id = t.next_sender_id;
        assert(t2.senders.take(t.senders.len() as int) =~= t.senders);
        assert(sender_ids(t2) =~= sender_ids(t).push(id));
        assert(t2.senders[t.senders.len() as int].id == id);
        assert(t2.conversations.take(t.conversations.len() as int) =~= t.conversations);
        assert(t2.participants.take(t.participants.len() as int) =~= t.participants);
        assert(t2.media.take(t.media.len() as int) =~= t.media);
        assert(t2.context_messages.take(t.context_messages.len() as int) =~= t.context_messages);
        assert(grows(t, t2));
        lemma_refs_kept(t, t2);
        lemma_distinct_push(sender_ids(t), id);
    } else {
        assert(t.senders[k].id == sender_step(t, name)->Some_0.1);
    }
}

proof fn lemma_link_wf(t: StoreView, link: ParticipantRow)
    requires
        well_formed(t),
        has_conversation(t, link.conversation_id),
        has_sender(t, link.sender_id),
    ensures
        well_formed(with_link(t, link)),
        grows(t, with_link(t, link)),
{
    lemma_grows_refl(t);
    if !t.participants.contains(link) {
        let t2 = with_link(t, link);
        assert(t2.participants.take(t.participants.len() as int) =~= t.participants);
        assert(t2.conversations == t.conversations && t2.senders == t.senders && t2.media == t.media);
        assert(t2.context_messages == t.context_messages);
        assert(grows(t, t2));
        assert(forall|id: i64| has_conversation(t2, id) == has_conversation(t, id));
        assert(forall|id: i64| has_sender(t2, id) == has_sender(t, id));
        assert(forall|id: i64| has_media(t2, id) == has_media(t, id));
        assert forall|q: int| 0 <= q < t2.participants.len() implies has_conversation(t2, #[trigger] t2.participants[q].conversation_id)
            && has_sender(t2, t2.participants[q].sender_id) by {
            if q < t.participants.len() {
                assert(t2.participants[q] == t.participants[q]);
                assert(has_conversation(t, t.participants[q].conversation_id));
            }
        }
        assert forall|q: int| 0 <= q < t2.media.len() implies has_conversation(t2, #[trigger] t2.media[q].conversation_id)
            && has_sender(t2, t2.media[q].sender_id) by {
            assert(has_conversation(t, t.media[q].conversation_id));
        }
        assert forall|q: int| 0 <= q < t2.context_messages.len() implies has_media(t2, #[trigger] t2.context_messages[q].media_id)
            && has_sender(t2, t2.context_messages[q].sender_id) by {
            assert(has_media(t, t.context_messages[q].media_id));
        }
        assert(conversation_ids(t2) == conversation_ids(t) && sender_ids(t2) == sender_ids(t));
        assert(media_ids(t2) == media_ids(t) && context_ids(t2) == context_ids(t));
    }
}

proof fn lemma_participants_wf(t: StoreView, cid: i64, names: Seq<Seq<char>>)
    requires
        well_formed(t),
        has_conversation(t, cid),
        with_participants(t, cid, names) is Some,
    ensures
        well_formed(with_participants(t, cid, names)->Some_0),
        grows(t, with_participants(t, cid, names)->Some_0),
    decreases names.len(),
{
    if names.len() == 0 {
        lemma_grows_refl(t);
    } else {
        lemma_participants_wf(t, cid, names.drop_last());
        let t1 = with_participants(t, cid, names.drop_last())->Some_0;
        lemma_grows_keeps(t, t1);
        lemma_sender_step_wf(t1, names.last());
        let (t2, sid) = sender_step(t1, names.last())->Some_0;
        lemma_grows_keeps(t1, t2);
        lemma_link_wf(t2, ParticipantRow { conversation_id: cid, sender_id: sid });
        lemma_grows_trans(t, t1, t2);
        lemma_grows_trans(t, t2, with_link(t2, ParticipantRow { conversation_id: cid, sender_id: sid }));
    }
}

proof fn lemma_contexts_wf(t: StoreView, mid: i64, ctxs: Seq<ContextView>, base: int)
    requires
        well_formed(t),
        has_media(t, mid),
        with_contexts(t, mid, ctxs, base) is Some,
    ensures
        well_formed(with_contexts(t, mid, ctxs, base)->Some_0),
        grows(t, with_contexts(t, mid, ctxs, base)->Some_0),
    decreases ctxs.len(),
{
    if ctxs.len() == 0 {
        lemma_grows_refl(t);
    } else {
        lemma_contexts_wf(t, mid, ctxs.drop_last(), base);
        let t1 = with_contexts(t, mid, ctxs.drop_last(), base)->Some_0;
        lemma_grows_keeps(t, t1);
        lemma_sender_step_wf(t1, ctxs.last().sender_name);
        let (t2, sid) = sender_step(t1, ctxs.last().sender_name)->Some_0;
        lemma_grows_keeps(t1, t2);
        let t3 = with_contexts(t, mid, ctxs, base)->Some_0;
        let id = t2.next_context_id;
        assert(t3.context_messages =~= t2.context_messages.push(t3.context_messages.last()));
        assert(t3.context_messages.take(t2.context_messages.len() as int) =~= t2.context_messages);
        assert(context_ids(t3) =~= context_ids(t2).push(id));
        assert(t3.conversations == t2.conversations && t3.senders == t2.senders && t3.media == t2.media);
        assert(t3.participants == t2.participants);
        lemma_grows_refl(t2);
        assert(t3.conversations.take(t2.conversations.len() as int) =~= t2.conversations);
        assert(t3.senders.take(t2.senders.len() as int) =~= t2.senders);
        assert(t3.participants.take(t2.participants.len() as int) =~= t2.participants);
        assert(t3.media.take(t2.media.len() as int) =~= t2.media);
        assert(grows(t2, t3));
        lemma_refs_kept(t2, t3);
        lemma_distinct_push(context_ids(t2), id);
        assert(has_media(t2, mid));
        assert forall|q: int| 0 <= q < t3.context_messages.len() implies has_media(t3, #[trigger] t3.context_messages[q].media_id)
            && has_sender(t3, t3.context_messages[q].sender_id) by {
            if q < t2.context_messages.len() {
                assert(t3.context_messages[q] == t2.context_messages[q]);
            }
        }
        assert(well_formed(t3));
        lemma_grows_trans(t, t1, t2);
        lemma_grows_trans(t, t2, t3);
    }
}

proof fn lemma_media_item_wf(t: StoreView, cid: i64, m: MediaView)
    requires
        well_formed(t),
        has_conversation(t, cid),
        with_media_item(t, cid, m) is Some,
    ensures
        well_formed(with_media_item(t, cid, m)->Some_0),
        grows(t, with_media_item(t, cid, m)->Some_0),
{
    lemma_sender_step_wf(t, m.sender_name);
    let (t1, sid) = sender_step(t, m.sender_name)->Some_0;
    lemma_grows_keeps(t, t1);
    let mid = t1.next_media_id;
    let t2 = StoreView {
        media: t1.media.push(
            MediaRowView {
                id: mid,
                conversation_id: cid,
                sender_id: sid,
                file_path: m.file_path,
                relative_uri: m.relative_uri,
                file_type: m.file_type,
                timestamp_ms: m.timestamp_ms,
                creation_timestamp: m.creation_timestamp,
                message_content: m.message_content,
            },
        ),
        next_media_id: (mid + 1) as i64,
        ..t1
    };
    assert(t2.media.take(t1.media.len() as int) =~= t1.media);
    assert(media_ids(t2) =~= media_ids(t1).push(mid));
    assert(t2.conversations.take(t1.conversations.len() as int) =~= t1.conversations);
    assert(t2.senders.take(t1.senders.len() as int) =~= t1.senders);
    assert(t2.participants.take(t1.participants.len() as int) =~= t1.participants);
    assert(t2.context_messages.take(t1.context_messages.len() as int) =~= t1.context_messages);
    assert(grows(t1, t2));
    lemma_grows_keeps(t1, t2);
    lemma_refs_kept(t1, t2);
    lemma_distinct_push(media_ids(t1), mid);
    assert(t2.media[t1.media.len() as int].id == mid);
    assert(has_media(t2, mid));
    assert forall|q: int| 0 <= q < t2.media.len() implies has_conversation(t2, #[trigger] t2.media[q].conversation_id)
        && has_sender(t2, t2.media[q].sender_id) by {
        if q < t1.media.len() {
            assert(t2.media[q] == t1.media[q]);
        }
    }
    assert(well_formed(t2));
    lemma_contexts_wf(t2, mid, m.context_before, before_position(m.context_before.len() as int, 0));
    let t3 = with_contexts(t2, mid, m.context_before, before_position(m.context_before.len() as int, 0))->Some_0;
    lemma_grows_keeps(t2, t3);
    lemma_contexts_wf(t3, mid, m.context_after, after_position(0));
    lemma_grows_trans(t, t1, t2);
    lemma_grows_trans(t, t2, t3);
    lemma_grows_trans(t, t3, with_contexts(t3, mid, m.context_after, after_position(0))->Some_0);
}

proof fn lemma_media_items_wf(t: StoreView, cid: i64, ms: Seq<MediaView>)
    requires
        well_formed(t),
        has_conversation(t, cid),
        with_media_items(t, cid, ms) is Some,
    ensures
        well_formed(with_media_items(t, cid, ms)->Some_0),
        grows(t, with_media_items(t, cid, ms)->Some_0),
    decreases ms.len(),
{
    if ms.len() == 0 {
        lemma_grows_refl(t);
    } else {
        lemma_media_items_wf(t, cid, ms.drop_last());
        let t1 = with_media_items(t, cid, ms.drop_last())->Some_0;
        lemma_grows_keeps(t, t1);
        lemma_media_item_wf(t1, cid, ms.last());
        lemma_grows_trans(t, t1, with_media_item(t1, cid, ms.last())->Some_0);
    }
}

proof fn lemma_conversation_wf(t: StoreView, conv: ConversationView)
    requires
        well_formed(t),
        with_conversation(t, conv) is Some,
    ensures
        well_formed(with_conversation(t, conv)->Some_0),
{
    let cid = t.next_conversation_id;
    let t1 = StoreView {
        conversations: t.conversations.push(
            ConversationRowView {
                id: cid,
                folder_name: conv.folder_name,
                title: conv.title,
                chat_type: crate::parser::chat_type_of(conv.participants.len() as int),
                participant_count: conv.participants.len() as i64,
                thread_path: conv.thread_path,
                source_type: conv.source_type,
                source_path: conv.source_path,
            },
        ),
        next_conversation_id: (cid + 1) as i64,
        ..t
    };
    assert(t1.conversations.take(t.conversations.len() as int) =~= t.conversations);
    assert(conversation_ids(t1) =~= conversation_ids(t).push(cid));
    assert(t1.senders.take(t.senders.len() as int) =~= t.senders);
    assert(t1.participants.take(t.participants.len() as int) =~= t.participants);
    assert(t1.media.take(t.media.len() as int) =~= t.media);
    assert(t1.context_messages.take(t.context_messages.len() as int) =~= t.context_messages);
    assert(grows(t, t1));
    lemma_grows_keeps(t, t1);
    lemma_refs_kept(t, t1);
    lemma_distinct_push(conversation_ids(t), cid);
    assert(t1.conversations[t.conversations.len() as int].id == cid);
    assert(has_conversation(t1, cid));
    assert(well_formed(t1));
    lemma_participants_wf(t1, cid, conv.participants);
    let t2 = with_participants(t1, cid, conv.participants)->Some_0;
    lemma_grows_keeps(t1, t2);
    lemma_media_items_wf(t2, cid, conv.media);
}

/// Storing parsed conversations keeps a store well formed.
pub proof fn lemma_conversations_wf(t: StoreView, cs: Seq<ConversationView>)
    requires
        well_formed(t),
        with_conversations(t, cs) is Some,
    ensures
        well_formed(with_conversations(t, cs)->Some_0),
    decreases cs.len(),
{
    if cs.len() > 0 {
        lemma_conversations_wf(t, cs.drop_last());
        lemma_conversation_wf(with_conversations(t, cs.drop_last())->Some_0, cs.last());
    }
}

proof fn lemma_filter_keys_distinct<A, K>(s: Seq<A>, f: spec_fn(A) -> bool, key: spec_fn(A) -> K)
    requires
        forall|i: int, j: int| 0 <= i < j < s.len() ==> key(s[i]) != key(s[j]),
    ensures
        forall|i: int, j: int| 0 <= i < j < s.filter(f).len() ==> key(s.filter(f)[i]) != key(s.filter(f)[j]),
    decreases s.len(),
{
    reveal(Seq::filter);
    if s.len() > 0 {
        let d = s.drop_last();
        lemma_filter_keys_distinct(d, f, key);
        let r = d.filter(f);
        if f(s.last()) {
            assert(s.filter(f) == r.push(s.last()));
            assert forall|i: int| 0 <= i < r.len() implies key(r[i]) != key(s.last()) by {
                d.filter_lemma(f);
                d.lemma_filter_contains_rev(f, r[i]);
                let k = choose|k: int| 0 <= k < d.len() && d[k] == r[i];
                assert(d[k] == s[k]);
            }
        }
    }
}

/// Removing a source keeps a store well formed.
pub proof fn lemma_cleared_wf(s: StoreView, p: Seq<char>)
    requires
        well_formed(s),
    ensures
        well_formed(cleared(s, p)),
{
    let c = cleared(s, p);
    let w = without_source_rows(s, p);
    lemma_cleared_facts(s, p);
    assert forall|i: int, j: int| 0 <= i < j < s.conversations.len() implies s.conversations[i].id != s.conversations[j].id by {
        assert(conversation_ids(s)[i] == s.conversations[i].id && conversation_ids(s)[j] == s.conversations[j].id);
    }
    assert forall|i: int, j: int| 0 <= i < j < s.media.len() implies s.media[i].id != s.media[j].id by {
        assert(media_ids(s)[i] == s.media[i].id && media_ids(s)[j] == s.media[j].id);
    }
    assert forall|i: int, j: int| 0 <= i < j < s.context_messages.len() implies s.context_messages[i].id != s.context_messages[j].id by {
        assert(context_ids(s)[i] == s.context_messages[i].id && context_ids(s)[j] == s.context_messages[j].id);
    }
    assert forall|i: int, j: int| 0 <= i < j < s.senders.len() implies s.senders[i].id != s.senders[j].id by {
        assert(sender_ids(s)[i] == s.senders[i].id && sender_ids(s)[j] == s.senders[j].id);
    }
    lemma_filter_keys_distinct(s.conversations, |r: ConversationRowView| r.source_path != p, |r: ConversationRowView| r.id);
    lemma_filter_keys_distinct(s.media, |m: MediaRowView| !conversation_removed(s, p, m.conversation_id), |m: MediaRowView| m.id);
    lemma_filter_keys_distinct(s.context_messages, |x: ContextRowView| !media_removed(s, p, x.media_id), |x: ContextRowView| x.id);
    lemma_filter_keys_distinct(s.senders, |x: SenderRowView| sender_referenced(w, x.id), |x: SenderRowView| x.id);
    assert forall|i: int, j: int| 0 <= i < j < s.conversations.len() implies (|r: ConversationRowView| (r.source_path, r.folder_name))(
        s.conversations[i],
    ) != (|r: ConversationRowView| (r.source_path, r.folder_name))(s.conversations[j]) by {
        assert(!(s.conversations[i].source_path == s.conversations[j].source_path
            && s.conversations[i].folder_name == s.conversations[j].folder_name));
    }
    lemma_filter_keys_distinct(
        s.conversations,
        |r: ConversationRowView| r.source_path != p,
        |r: ConversationRowView| (r.source_path, r.folder_name),
    );
    assert(c.conversations == s.conversations.filter(|r: ConversationRowView| r.source_path != p));
    assert forall|i: int, j: int| 0 <= i < j < c.conversations.len() implies !(#[trigger] c.conversations[i].source_path
        == #[trigger] c.conversations[j].source_path && c.conversations[i].folder_name == c.conversations[j].folder_name) by {
        assert((|r: ConversationRowView| (r.source_path, r.folder_name))(c.conversations[i]) != (|r: ConversationRowView| (
        r.source_path, r.folder_name))(c.conversations[j]));
    }
    assert forall|k: int| 0 <= k < c.conversations.len() implies (#[trigger] c.conversations[k]).chat_type
        == crate::parser::chat_type_of(c.conversations[k].participant_count as int) by {
        s.conversations.filter_lemma(|r: ConversationRowView| r.source_path != p);
        s.conversations.lemma_filter_contains_rev(|r: ConversationRowView| r.source_path != p, c.conversations[k]);
        let j = choose|j: int| 0 <= j < s.conversations.len() && s.conversations[j] == c.conversations[k];
        assert(s.conversations[j].chat_type == crate::parser::chat_type_of(s.conversations[j].participant_count as int));
    }
    assert(all_distinct(conversation_ids(c)));
    assert(all_distinct(media_ids(c)));
    assert(all_distinct(sender_ids(c)));
    assert(all_below(conversation_ids(c), c.next_conversation_id));
    assert(all_below(media_ids(c), c.next_media_id));
    assert(all_below(sender_ids(c), c.next_sender_id));
    assert forall|k: int| 0 <= k < context_ids(c).len() implies context_ids(c)[k] < i64::MAX by {
        c.context_messages.lemma_filter_contains_rev(|x: ContextRowView| true, c.context_messages[k]);
        s.context_messages.filter_lemma(|x: ContextRowView| !media_removed(s, p, x.media_id));
        s.context_messages.lemma_filter_contains_rev(|x: ContextRowView| !media_removed(s, p, x.media_id), c.context_messages[k]);
        let j = choose|j: int| 0 <= j < s.context_messages.len() && s.context_messages[j] == c.context_messages[k];
        assert(context_ids(s)[j] < s.next_context_id);
    }
    crate::store::lemma_next_id_bounds(context_ids(c));
    assert(context_ids(w) == context_ids(c));
    assert(all_distinct(context_ids(c)));
    assert(all_below(context_ids(c), c.next_context_id));
}

/// Removing several sources in turn keeps a store well formed.
pub proof fn lemma_cleared_paths_wf(s: StoreView, paths: Seq<Seq<char>>)
    requires
        well_formed(s),
    ensures
        well_formed(cleared_paths(s, paths)),
    decreases paths.len(),
{
    if paths.len() > 0 {
        lemma_cleared_paths_wf(s, paths.drop_last());
        lemma_cleared_wf(cleared_paths(s, paths.drop_last()), paths.last());
    }
}

} // verus!
