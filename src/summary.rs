use vstd::prelude::*;
use crate::store::{Store, StoreView};
use crate::queries::{name_lt, name_less, conversation_index, find_conversation_index};
use crate::mojibake::chars_of;

verus! {

/// Whether the store holds data, with its media and conversation counts.
pub struct ImportStatus {
    pub has_data: bool,
    pub media_count: i64,
    pub conversation_count: i64,
}

/// A conversation with its media count.
pub struct ConversationInfo {
    pub id: i64,
    pub title: String,
    pub chat_type: String,
    pub media_count: i64,
}

/// A sender with its media count.
pub struct SenderInfo {
    pub id: i64,
    pub name: String,
    pub media_count: i64,
}

/// One imported source with its conversation and media counts.
pub struct SourceInfo {
    pub source_type: String,
    pub source_path: String,
    pub conversations: i64,
    pub media_count: i64,
}

/// The store's import status: it has data exactly when it holds media.
pub fn get_import_status(store: &Store) -> (r: Result<ImportStatus, String>)
    ensures
        r is Err <==> store@.media.len() > i64::MAX || store@.conversations.len() > i64::MAX,
        r is Ok ==> r->Ok_0.media_count == store@.media.len() && r->Ok_0.conversation_count == store@.conversations.len()
            && r->Ok_0.has_data == (store@.media.len() > 0),
{
    let media = store.media.len();
    let conversations = store.conversations.len();
    if media as u64 > i64::MAX as u64 || conversations as u64 > i64::MAX as u64 {
        return Err("too many rows".to_string());
    }
    let media_count = media as i64;
    Ok(ImportStatus { has_data: media_count > 0, media_count, conversation_count: conversations as i64 })
}

/// Index of the first of `order` whose key `k` sorts after, or `order.len()`.
pub open spec fn key_slot(keys: Seq<Seq<char>>, order: Seq<int>, k: int) -> int
    decreases order.len(),
{
    if order.len() == 0 {
        0
    } else if name_lt(keys[k], keys[order[0]]) {
        0
    } else {
        1 + key_slot(keys, order.drop_first(), k)
    }
}

/// The indices `0..n` ordered by key; equal keys keep their order.
pub open spec fn key_order(keys: Seq<Seq<char>>, n: int) -> Seq<int>
    decreases n,
{
    if n <= 0 {
        Seq::empty()
    } else {
        let r = key_order(keys, n - 1);
        r.insert(key_slot(keys, r, n - 1), n - 1)
    }
}

proof fn lemma_key_slot_at(keys: Seq<Seq<char>>, order: Seq<int>, k: int, j: int)
    requires
        0 <= j <= order.len(),
        forall|q: int| 0 <= q < j ==> !name_lt(keys[k], keys[#[trigger] order[q]]),
        j == order.len() || name_lt(keys[k], keys[order[j]]),
    ensures
        key_slot(keys, order, k) == j,
    decreases j,
{
    if j > 0 {
        assert forall|q: int| 0 <= q < j - 1 implies !name_lt(keys[k], keys[#[trigger] order.drop_first()[q]]) by {
            assert(order.drop_first()[q] == order[q + 1]);
        }
        lemma_key_slot_at(keys, order.drop_first(), k, j - 1);
    }
}

proof fn lemma_key_order_range(keys: Seq<Seq<char>>, n: int)
    requires
        n >= 0,
    ensures
        key_order(keys, n).len() == n,
        forall|q: int| 0 <= q < n ==> 0 <= #[trigger] key_order(keys, n)[q] < n,
    decreases n,
{
    if n > 0 {
        lemma_key_order_range(keys, n - 1);
        let r = key_order(keys, n - 1);
        let j = key_slot(keys, r, n - 1);
        lemma_key_slot_bounds(keys, r, n - 1);
        assert forall|q: int| 0 <= q < n implies 0 <= #[trigger] key_order(keys, n)[q] < n by {
            if q < j {
                assert(key_order(keys, n)[q] == r[q]);
            } else if q > j {
                assert(key_order(keys, n)[q] == r[q - 1]);
            }
        }
    }
}

proof fn lemma_key_slot_bounds(keys: Seq<Seq<char>>, order: Seq<int>, k: int)
    ensures
        0 <= key_slot(keys, order, k) <= order.len(),
    decreases order.len(),
{
    if order.len() > 0 {
        lemma_key_slot_bounds(keys, order.drop_first(), k);
    }
}

/// Stable ordering of indices by their keys.
fn order_by_keys(keys: &Vec<Vec<char>>) -> (r: Vec<usize>)
    ensures
        r@.map_values(|i: usize| i as int) == key_order(keys@.map_values(|k: Vec<char>| k@), keys.len() as int),
        forall|q: int| 0 <= q < r@.len() ==> (#[trigger] r@[q]) < keys.len(),
        r@.len() == keys.len(),
{
    let ghost kv = keys@.map_values(|k: Vec<char>| k@);
    let mut order: Vec<usize> = Vec::new();
    for n in 0..keys.len()
        invariant
            kv == keys@.map_values(|k: Vec<char>| k@),
            order@.map_values(|i: usize| i as int) == key_order(kv, n as int),
            forall|q: int| 0 <= q < order@.len() ==> (#[trigger] order@[q]) < n,
            order@.len() == n,
    {
        let ghost ov = order@.map_values(|i: usize| i as int);
        proof {
            lemma_key_order_range(kv, n as int);
        }
        let mut j: usize = 0;
        while j < order.len() && !name_less(&keys[n], &keys[order[j]])
            invariant
                j <= order.len(),
                ov == order@.map_values(|i: usize| i as int),
                kv == keys@.map_values(|k: Vec<char>| k@),
                n < keys.len(),
                forall|q: int| 0 <= q < order@.len() ==> (#[trigger] order@[q]) < n,
                forall|q: int| 0 <= q < j ==> !name_lt(kv[n as int], kv[#[trigger] ov[q]]),
            decreases order.len() - j,
        {
            j = j + 1;
        }
        proof {
            lemma_key_slot_at(kv, ov, n as int, j as int);
        }
        order.insert(j, n);
        assert(order@.map_values(|i: usize| i as int) =~= ov.insert(j as int, n as int));
    }
    order
}

/// Number of media rows of conversation `cid`.
pub open spec fn media_of_conversation(s: StoreView, cid: i64, j: int) -> int
    decreases j,
{
    if j <= 0 {
        0
    } else {
        media_of_conversation(s, cid, j - 1) + if s.media[j - 1].conversation_id == cid { 1int } else { 0int }
    }
}

/// Number of media rows of sender `sid`.
pub open spec fn media_of_sender(s: StoreView, sid: i64, j: int) -> int
    decreases j,
{
    if j <= 0 {
        0
    } else {
        media_of_sender(s, sid, j - 1) + if s.media[j - 1].sender_id == sid { 1int } else { 0int }
    }
}

fn count_conversation_media(store: &Store, cid: i64) -> (r: i64)
    requires
        store@.media.len() <= i64::MAX,
    ensures
        r == media_of_conversation(store@, cid, store@.media.len() as int),
{
    let mut count: i64 = 0;
    for j in 0..store.media.len()
        invariant
            store@.media.len() <= i64::MAX,
            count == media_of_conversation(store@, cid, j as int),
            0 <= count <= j,
    {
        if store.media[j].conversation_id == cid {
            count = count + 1;
        }
    }
    count
}

fn count_sender_media(store: &Store, sid: i64) -> (r: i64)
    requires
        store@.media.len() <= i64::MAX,
    ensures
        r == media_of_sender(store@, sid, store@.media.len() as int),
{
    let mut count: i64 = 0;
    for j in 0..store.media.len()
        invariant
            store@.media.len() <= i64::MAX,
            count == media_of_sender(store@, sid, j as int),
            0 <= count <= j,
    {
        if store.media[j].sender_id == sid {
            count = count + 1;
        }
    }
    count
}

pub open spec fn conversation_titles(s: StoreView) -> Seq<Seq<char>> {
    s.conversations.map_values(|c: crate::store::ConversationRowView| c.title)
}

/// Conversations ordered by title, each with its media count.
pub fn get_conversations(store: &Store) -> (r: Result<Vec<ConversationInfo>, String>)
    ensures
        r is Err <==> store@.media.len() > i64::MAX,
        r is Ok ==> ({
            let order = key_order(conversation_titles(store@), store@.conversations.len() as int);
            &&& r->Ok_0@.len() == order.len()
            &&& forall|q: int| 0 <= q < order.len() ==> {
                let c = store@.conversations[order[q]];
                &&& (#[trigger] r->Ok_0@[q]).id == c.id
                &&& r->Ok_0@[q].title@ == c.title
                &&& r->Ok_0@[q].chat_type@ == c.chat_type
                &&& r->Ok_0@[q].media_count == media_of_conversation(store@, c.id, store@.media.len() as int)
            }
        }),
{
    if store.media.len() as u64 > i64::MAX as u64 {
        return Err("too many media items".to_string());
    }
    let mut titles: Vec<Vec<char>> = Vec::new();
    for i in 0..store.conversations.len()
        invariant
            titles.len() == i,
            forall|q: int| 0 <= q < i ==> (#[trigger] titles@[q])@ == store@.conversations[q].title,
    {
        titles.push(chars_of(store.conversations[i].title.as_str()));
    }
    assert(titles@.map_values(|k: Vec<char>| k@) =~= conversation_titles(store@));
    let order = order_by_keys(&titles);
    let ghost ko = key_order(conversation_titles(store@), store@.conversations.len() as int);
    let mut out: Vec<ConversationInfo> = Vec::new();
    for q in 0..order.len()
        invariant
            store@.media.len() <= i64::MAX,
            order@.map_values(|i: usize| i as int) == ko,
            forall|k: int| 0 <= k < order@.len() ==> (#[trigger] order@[k]) < store.conversations.len(),
            out.len() == q,
            forall|k: int| 0 <= k < q ==> {
                let c = store@.conversations[ko[k]];
                &&& (#[trigger] out@[k]).id == c.id
                &&& out@[k].title@ == c.title
                &&& out@[k].chat_type@ == c.chat_type
                &&& out@[k].media_count == media_of_conversation(store@, c.id, store@.media.len() as int)
            },
    {
        let c = &store.conversations[order[q]];
        assert(ko[q as int] == order@[q as int] as int);
        out.push(ConversationInfo {
            id: c.id,
            title: c.title.clone(),
            chat_type: c.chat_type.clone(),
            media_count: count_conversation_media(store, c.id),
        });
    }
    Ok(out)
}

pub open spec fn sender_names(s: StoreView) -> Seq<Seq<char>> {
    s.senders.map_values(|x: crate::store::SenderRowView| x.name)
}

/// Senders that have media, ordered by name, each with its media count.
pub fn get_senders(store: &Store) -> (r: Result<Vec<SenderInfo>, String>)
    ensures
        r is Err <==> store@.media.len() > i64::MAX,
        r is Ok ==> ({
            let order = key_order(sender_names(store@), store@.senders.len() as int).filter(
                |i: int| media_of_sender(store@, store@.senders[i].id, store@.media.len() as int) > 0,
            );
            &&& r->Ok_0@.len() == order.len()
            &&& forall|q: int| 0 <= q < order.len() ==> {
                let x = store@.senders[order[q]];
                &&& (#[trigger] r->Ok_0@[q]).id == x.id
                &&& r->Ok_0@[q].name@ == x.name
                &&& r->Ok_0@[q].media_count == media_of_sender(store@, x.id, store@.media.len() as int)
            }
        }),
{
    if store.media.len() as u64 > i64::MAX as u64 {
        return Err("too many media items".to_string());
    }
    let mut names: Vec<Vec<char>> = Vec::new();
    for i in 0..store.senders.len()
        invariant
            names.len() == i,
            forall|q: int| 0 <= q < i ==> (#[trigger] names@[q])@ == store@.senders[q].name,
    {
        names.push(chars_of(store.senders[i].name.as_str()));
    }
    assert(names@.map_values(|k: Vec<char>| k@) =~= sender_names(store@));
    let order = order_by_keys(&names);
    let ghost ko = key_order(sender_names(store@), store@.senders.len() as int);
    let ghost has = |i: int| media_of_sender(store@, store@.senders[i].id, store@.media.len() as int) > 0;
    let mut out: Vec<SenderInfo> = Vec::new();
    for q in 0..order.len()
        invariant
            store@.media.len() <= i64::MAX,
            order@.map_values(|i: usize| i as int) == ko,
            forall|k: int| 0 <= k < order@.len() ==> (#[trigger] order@[k]) < store.senders.len(),
            forall|i: int| #[trigger] has(i) == (media_of_sender(store@, store@.senders[i].id, store@.media.len() as int) > 0),
            out.len() == ko.take(q as int).filter(has).len(),
            forall|k: int| 0 <= k < out.len() ==> {
                let x = store@.senders[ko.take(q as int).filter(has)[k]];
                &&& (#[trigger] out@[k]).id == x.id
                &&& out@[k].name@ == x.name
                &&& out@[k].media_count == media_of_sender(store@, x.id, store@.media.len() as int)
            },
    {
        let x = &store.senders[order[q]];
        assert(ko[q as int] == order@[q as int] as int);
        let count = count_sender_media(store, x.id);
        proof {
            crate::store::lemma_filter_step(ko, has, q as int);
        }
        if count > 0 {
            out.push(SenderInfo { id: x.id, name: x.name.clone(), media_count: count });
        }
    }
    assert(ko.take(order.len() as int) =~= ko);
    assert(has =~= |i: int| media_of_sender(store@, store@.senders[i].id, store@.media.len() as int) > 0);
    Ok(out)
}

/// The (source type, source path) of conversation `k`.
pub open spec fn source_of(s: StoreView, k: int) -> (Seq<char>, Seq<char>) {
    (s.conversations[k].source_type, s.conversations[k].source_path)
}

/// Index of `g` in `groups`, or -1.
pub open spec fn group_index(groups: Seq<(Seq<char>, Seq<char>)>, g: (Seq<char>, Seq<char>)) -> int
    decreases groups.len(),
{
    if groups.len() == 0 {
        -1
    } else {
        let k = group_index(groups.drop_last(), g);
        if k >= 0 {
            k
        } else if groups.last() == g {
            groups.len() - 1
        } else {
            -1
        }
    }
}

/// The distinct sources of the first `j` conversations, in order of first
/// appearance.
pub open spec fn sources_upto(s: StoreView, j: int) -> Seq<(Seq<char>, Seq<char>)>
    decreases j,
{
    if j <= 0 {
        Seq::empty()
    } else {
        let r = sources_upto(s, j - 1);
        if group_index(r, source_of(s, j - 1)) >= 0 {
            r
        } else {
            r.push(source_of(s, j - 1))
        }
    }
}

/// Number of the first `j` conversations that belong to source `g`.
pub open spec fn source_conversations(s: StoreView, g: (Seq<char>, Seq<char>), j: int) -> int
    decreases j,
{
    if j <= 0 {
        0
    } else {
        source_conversations(s, g, j - 1) + if source_of(s, j - 1) == g { 1int } else { 0int }
    }
}

/// Number of the first `j` media rows whose conversation belongs to source `g`.
pub open spec fn source_media(s: StoreView, g: (Seq<char>, Seq<char>), j: int) -> int
    decreases j,
{
    if j <= 0 {
        0
    } else {
        let ci = conversation_index(s.conversations, s.media[j - 1].conversation_id);
        source_media(s, g, j - 1) + if ci >= 0 && source_of(s, ci) == g { 1int } else { 0int }
    }
}

proof fn lemma_group_index_absent(groups: Seq<(Seq<char>, Seq<char>)>, g: (Seq<char>, Seq<char>))
    requires
        forall|q: int| 0 <= q < groups.len() ==> groups[q] != g,
    ensures
        group_index(groups, g) == -1,
    decreases groups.len(),
{
    if groups.len() > 0 {
        lemma_group_index_absent(groups.drop_last(), g);
    }
}

proof fn lemma_group_index_at(groups: Seq<(Seq<char>, Seq<char>)>, g: (Seq<char>, Seq<char>), j: int)
    requires
        0 <= j < groups.len(),
        groups[j] == g,
        forall|q: int| 0 <= q < j ==> groups[q] != g,
    ensures
        group_index(groups, g) == j,
    decreases groups.len(),
{
    if j < groups.len() - 1 {
        lemma_group_index_at(groups.drop_last(), g, j);
    } else {
        lemma_group_index_absent(groups.drop_last(), g);
    }
}

fn find_group(types: &Vec<String>, paths: &Vec<String>, t: &String, p: &String) -> (r: Option<usize>)
    requires
        types.len() == paths.len(),
    ensures
        ({
            let gs = Seq::new(types@.len(), |q: int| (types@[q]@, paths@[q]@));
            &&& r is Some <==> group_index(gs, (t@, p@)) >= 0
            &&& r is Some ==> r->Some_0 == group_index(gs, (t@, p@)) && r->Some_0 < types.len()
        }),
{
    let ghost gs = Seq::new(types@.len(), |q: int| (types@[q]@, paths@[q]@));
    for i in 0..types.len()
        invariant
            types.len() == paths.len(),
            gs == Seq::new(types@.len(), |q: int| (types@[q]@, paths@[q]@)),
            forall|q: int| 0 <= q < i ==> gs[q] != (t@, p@),
    {
        if types[i] == *t && paths[i] == *p {
            proof {
                lemma_group_index_at(gs, (t@, p@), i as int);
            }
            return Some(i);
        }
    }
    proof {
        lemma_group_index_absent(gs, (t@, p@));
    }
    None
}

/// Sources ordered by path, each with its number of conversations and media.
pub fn get_sources(store: &Store) -> (r: Result<Vec<SourceInfo>, String>)
    ensures
        r is Err <==> store@.media.len() > i64::MAX || store@.conversations.len() > i64::MAX,
        r is Ok ==> ({
            let groups = sources_upto(store@, store@.conversations.len() as int);
            let order = key_order(groups.map_values(|g: (Seq<char>, Seq<char>)| g.1), groups.len() as int);
            &&& r->Ok_0@.len() == order.len()
            &&& forall|q: int| 0 <= q < order.len() ==> {
                let g = groups[order[q]];
                &&& (#[trigger] r->Ok_0@[q]).source_type@ == g.0
                &&& r->Ok_0@[q].source_path@ == g.1
                &&& r->Ok_0@[q].conversations == source_conversations(store@, g, store@.conversations.len() as int)
                &&& r->Ok_0@[q].media_count == source_media(store@, g, store@.media.len() as int)
            }
        }),
{
    if store.media.len() as u64 > i64::MAX as u64 || store.conversations.len() as u64 > i64::MAX as u64 {
        return Err("too many rows".to_string());
    }
    let ghost s = store@;
    let mut types: Vec<String> = Vec::new();
    let mut paths: Vec<String> = Vec::new();
    let mut convs: Vec<i64> = Vec::new();
    for j in 0..store.conversations.len()
        invariant
            s == store@,
            s.conversations.len() <= i64::MAX,
            types.len() == paths.len() && paths.len() == convs.len(),
            Seq::new(types@.len(), |q: int| (types@[q]@, paths@[q]@)) == sources_upto(s, j as int),
            forall|q: int| 0 <= q < convs.len() ==> #[trigger] convs@[q] == source_conversations(s, (types@[q]@, paths@[q]@), j as int)
                && 0 <= convs@[q] <= j,
    {
        let c = &store.conversations[j];
        let ghost gs = sources_upto(s, j as int);
        let ghost g = source_of(s, j as int);
        match find_group(&types, &paths, &c.source_type, &c.source_path) {
            Some(k) => {
                let n = convs[k];
                convs.set(k, n + 1);
                proof {
                    lemma_group_index_found(gs, g);
                }
                assert forall|q: int| 0 <= q < convs.len() implies #[trigger] convs@[q] == source_conversations(s, (types@[q]@, paths@[q]@), j + 1)
                    && 0 <= convs@[q] <= j + 1 by {
                    if q < k {
                        lemma_sources_distinct(s, j as int, q, k as int);
                    } else if q > k {
                        lemma_sources_distinct(s, j as int, k as int, q);
                    }
                }
            },
            None => {
                proof {
                    assert forall|q: int| 0 <= q < convs.len() implies gs[q] != g by {
                        if gs[q] == g {
                            lemma_group_index_nonneg_of(gs, g, q);
                        }
                    }
                    lemma_source_conversations_zero(s, g, j as int);
                }
                types.push(c.source_type.clone());
                paths.push(c.source_path.clone());
                convs.push(1);
                assert(Seq::new(types@.len(), |q: int| (types@[q]@, paths@[q]@)) =~= gs.push(g));
                assert forall|q: int| 0 <= q < convs.len() implies #[trigger] convs@[q] == source_conversations(s, (types@[q]@, paths@[q]@), j + 1)
                    && 0 <= convs@[q] <= j + 1 by {
                    if q < convs.len() - 1 {
                        assert(gs[q] != g);
                    }
                }
            },
        }
    }
    let ghost groups = sources_upto(s, s.conversations.len() as int);
    let mut media: Vec<i64> = vec![0; types.len()];
    for j in 0..store.media.len()
        invariant
            s == store@,
            s.media.len() <= i64::MAX,
            groups == sources_upto(s, s.conversations.len() as int),
            types.len() == paths.len() && paths.len() == media.len(),
            Seq::new(types@.len(), |q: int| (types@[q]@, paths@[q]@)) == groups,
            forall|q: int| 0 <= q < media.len() ==> #[trigger] media@[q] == source_media(s, groups[q], j as int) && 0 <= media@[q] <= j,
    {
        let m = &store.media[j];
        match find_conversation_index(store, m.conversation_id) {
            Some(ci) => {
                let c = &store.conversations[ci];
                match find_group(&types, &paths, &c.source_type, &c.source_path) {
                    Some(k) => {
                        let n = media[k];
                        media.set(k, n + 1);
                        proof {
                            lemma_group_index_found(groups, source_of(s, ci as int));
                        }
                        assert forall|q: int| 0 <= q < media.len() implies #[trigger] media@[q] == source_media(s, groups[q], j + 1)
                            && 0 <= media@[q] <= j + 1 by {
                            if q < k {
                                lemma_sources_distinct(s, s.conversations.len() as int, q, k as int);
                            } else if q > k {
                                lemma_sources_distinct(s, s.conversations.len() as int, k as int, q);
                            }
                        }
                    },
                    None => {
                        proof {
                            lemma_sources_cover(s, s.conversations.len() as int, ci as int);
                            let q0 = choose|q0: int| 0 <= q0 < groups.len() && groups[q0] == source_of(s, ci as int);
                            lemma_group_index_nonneg_of(groups, source_of(s, ci as int), q0);
                        }
                    },
                }
            },
            None => {},
        }
    }
    let mut keys: Vec<Vec<char>> = Vec::new();
    for i in 0..paths.len()
        invariant
            keys.len() == i,
            forall|q: int| 0 <= q < i ==> (#[trigger] keys@[q])@ == paths@[q]@,
    {
        keys.push(chars_of(paths[i].as_str()));
    }
    assert(keys@.map_values(|k: Vec<char>| k@) =~= groups.map_values(|g: (Seq<char>, Seq<char>)| g.1));
    let order = order_by_keys(&keys);
    let ghost ko = key_order(groups.map_values(|g: (Seq<char>, Seq<char>)| g.1), groups.len() as int);
    let mut out: Vec<SourceInfo> = Vec::new();
    for q in 0..order.len()
        invariant
            order@.map_values(|i: usize| i as int) == ko,
            forall|k: int| 0 <= k < order@.len() ==> (#[trigger] order@[k]) < types.len(),
            types.len() == paths.len() && paths.len() == media.len() && media.len() == convs.len(),
            Seq::new(types@.len(), |q: int| (types@[q]@, paths@[q]@)) == groups,
            forall|k: int| 0 <= k < media.len() ==> #[trigger] media@[k] == source_media(s, groups[k], s.media.len() as int),
            forall|k: int| 0 <= k < convs.len() ==> #[trigger] convs@[k] == source_conversations(s, groups[k], s.conversations.len() as int),
            out.len() == q,
            forall|k: int| 0 <= k < q ==> {
                let g = groups[ko[k]];
                &&& (#[trigger] out@[k]).source_type@ == g.0
                &&& out@[k].source_path@ == g.1
                &&& out@[k].conversations == source_conversations(s, g, s.conversations.len() as int)
                &&& out@[k].media_count == source_media(s, g, s.media.len() as int)
            },
    {
        let i = order[q];
        assert(ko[q as int] == i as int);
        assert(groups[i as int] == (types@[i as int]@, paths@[i as int]@));
        out.push(SourceInfo {
            source_type: types[i].clone(),
            source_path: paths[i].clone(),
            conversations: convs[i],
            media_count: media[i],
        });
    }
    Ok(out)
}

proof fn lemma_group_index_nonneg_of(groups: Seq<(Seq<char>, Seq<char>)>, g: (Seq<char>, Seq<char>), q: int)
    requires
        0 <= q < groups.len(),
        groups[q] == g,
    ensures
        group_index(groups, g) >= 0,
    decreases groups.len(),
{
    if q < groups.len() - 1 {
        lemma_group_index_nonneg_of(groups.drop_last(), g, q);
    }
}

proof fn lemma_source_conversations_zero(s: StoreView, g: (Seq<char>, Seq<char>), j: int)
    requires
        0 <= j,
        group_index(sources_upto(s, j), g) < 0,
    ensures
        source_conversations(s, g, j) == 0,
    decreases j,
{
    if j > 0 {
        let r = sources_upto(s, j - 1);
        if group_index(r, source_of(s, j - 1)) >= 0 {
            lemma_source_conversations_zero(s, g, j - 1);
            if source_of(s, j - 1) == g {
                assert(group_index(sources_upto(s, j), g) >= 0);
            }
        } else {
            assert(sources_upto(s, j) == r.push(source_of(s, j - 1)));
            if source_of(s, j - 1) == g {
                lemma_group_index_nonneg_of(r.push(g), g, r.len() as int);
            }
            assert(r.push(source_of(s, j - 1)).drop_last() =~= r);
            if group_index(r, g) >= 0 {
                assert(group_index(r.push(source_of(s, j - 1)), g) >= 0);
            }
            lemma_source_conversations_zero(s, g, j - 1);
        }
    }
}

proof fn lemma_sources_distinct(s: StoreView, j: int, a: int, b: int)
    requires
        0 <= j,
        0 <= a < b < sources_upto(s, j).len(),
    ensures
        sources_upto(s, j)[a] != sources_upto(s, j)[b],
    decreases j,
{
    if j > 0 {
        let r = sources_upto(s, j - 1);
        if group_index(r, source_of(s, j - 1)) >= 0 {
            lemma_sources_distinct(s, j - 1, a, b);
        } else {
            if b < r.len() {
                lemma_sources_distinct(s, j - 1, a, b);
            } else if r[a] == source_of(s, j - 1) {
                lemma_group_index_nonneg_of(r, source_of(s, j - 1), a);
            }
        }
    }
}

proof fn lemma_sources_cover(s: StoreView, j: int, k: int)
    requires
        0 <= k < j,
    ensures
        exists|q: int| 0 <= q < sources_upto(s, j).len() && sources_upto(s, j)[q] == source_of(s, k),
    decreases j,
{
    let r = sources_upto(s, j - 1);
    if k < j - 1 {
        lemma_sources_cover(s, j - 1, k);
        let q = choose|q: int| 0 <= q < r.len() && r[q] == source_of(s, k);
        if group_index(r, source_of(s, j - 1)) < 0 {
            assert(sources_upto(s, j)[q] == r[q]);
        }
        assert(0 <= q < sources_upto(s, j).len() && sources_upto(s, j)[q] == source_of(s, k));
    } else {
        if group_index(r, source_of(s, j - 1)) >= 0 {
            lemma_group_index_found(r, source_of(s, j - 1));
            let q = group_index(r, source_of(s, j - 1));
            assert(0 <= q < sources_upto(s, j).len() && sources_upto(s, j)[q] == source_of(s, k));
        } else {
            let q = r.len() as int;
            assert(0 <= q < sources_upto(s, j).len() && sources_upto(s, j)[q] == source_of(s, k));
        }
    }
}

proof fn lemma_group_index_found(groups: Seq<(Seq<char>, Seq<char>)>, g: (Seq<char>, Seq<char>))
    requires
        group_index(groups, g) >= 0,
    ensures
        group_index(groups, g) < groups.len(),
        groups[group_index(groups, g)] == g,
    decreases groups.len(),
{
    if groups.len() > 0 {
        if group_index(groups.drop_last(), g) >= 0 {
            lemma_group_index_found(groups.drop_last(), g);
        }
    }
}

} // verus!
