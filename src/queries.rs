use vstd::prelude::*;
use crate::calendar::{month_key, month_key_of};
use crate::facebook::opt_string_view;
use crate::mojibake::chars_of;
use crate::search::{contains_ci, contains_ignoring_case, word_match, matches_whole_word};
use crate::store::{Store, StoreView, SenderRowView, ConversationRowView, MediaRowView, ContextRowView, lemma_filter_step};

verus! {

/// A media item joined with its sender and conversation.
pub struct MediaItem {
    pub id: i64,
    pub file_path: String,
    pub sender_name: String,
    pub timestamp_ms: i64,
    pub conversation_title: String,
    pub chat_type: String,
    pub file_type: String,
    pub conversation_id: i64,
    pub sender_id: i64,
}

pub struct MediaItemView {
    pub id: i64,
    pub file_path: Seq<char>,
    pub sender_name: Seq<char>,
    pub timestamp_ms: i64,
    pub conversation_title: Seq<char>,
    pub chat_type: Seq<char>,
    pub file_type: Seq<char>,
    pub conversation_id: i64,
    pub sender_id: i64,
}

impl View for MediaItem {
    type V = MediaItemView;

    open spec fn view(&self) -> MediaItemView {
        MediaItemView {
            id: self.id,
            file_path: self.file_path@,
            sender_name: self.sender_name@,
            timestamp_ms: self.timestamp_ms,
            conversation_title: self.conversation_title@,
            chat_type: self.chat_type@,
            file_type: self.file_type@,
            conversation_id: self.conversation_id,
            sender_id: self.sender_id,
        }
    }
}

pub open spec fn items_view(v: Seq<MediaItem>) -> Seq<MediaItemView> {
    v.map_values(|m: MediaItem| m@)
}

/// Filters, sort order and page of a media listing.
pub struct MediaFilters {
    pub conversation_id: Option<i64>,
    pub sender_id: Option<i64>,
    pub file_type: Option<String>,
    pub month: Option<String>,
    pub search: Option<String>,
    pub sort: String,
    pub limit: Option<i64>,
    pub offset: Option<i64>,
}

/// Index of the first sender with id `id`, or -1.
pub open spec fn sender_index(senders: Seq<SenderRowView>, id: i64) -> int
    decreases senders.len(),
{
    if senders.len() == 0 {
        -1
    } else {
        let k = sender_index(senders.drop_last(), id);
        if k >= 0 {
            k
        } else if senders.last().id == id {
            senders.len() - 1
        } else {
            -1
        }
    }
}

/// Index of the first conversation with id `id`, or -1.
pub open spec fn conversation_index(convs: Seq<ConversationRowView>, id: i64) -> int
    decreases convs.len(),
{
    if convs.len() == 0 {
        -1
    } else {
        let k = conversation_index(convs.drop_last(), id);
        if k >= 0 {
            k
        } else if convs.last().id == id {
            convs.len() - 1
        } else {
            -1
        }
    }
}

/// A media row joined with its sender and conversation; none when either is
/// missing.
pub open spec fn joined_item(s: StoreView, m: MediaRowView) -> Option<MediaItemView> {
    let si = sender_index(s.senders, m.sender_id);
    let ci = conversation_index(s.conversations, m.conversation_id);
    if si >= 0 && ci >= 0 {
        Some(
            MediaItemView {
                id: m.id,
                file_path: m.file_path,
                sender_name: s.senders[si].name,
                timestamp_ms: m.timestamp_ms,
                conversation_title: s.conversations[ci].title,
                chat_type: s.conversations[ci].chat_type,
                file_type: m.file_type,
                conversation_id: m.conversation_id,
                sender_id: m.sender_id,
            },
        )
    } else {
        None
    }
}

proof fn lemma_sender_index_absent(senders: Seq<SenderRowView>, id: i64)
    requires
        forall|q: int| 0 <= q < senders.len() ==> senders[q].id != id,
    ensures
        sender_index(senders, id) == -1,
    decreases senders.len(),
{
    if senders.len() > 0 {
        lemma_sender_index_absent(senders.drop_last(), id);
    }
}

proof fn lemma_sender_index_at(senders: Seq<SenderRowView>, id: i64, j: int)
    requires
        0 <= j < senders.len(),
        senders[j].id == id,
        forall|q: int| 0 <= q < j ==> senders[q].id != id,
    ensures
        sender_index(senders, id) == j,
    decreases senders.len(),
{
    if j < senders.len() - 1 {
        lemma_sender_index_at(senders.drop_last(), id, j);
    } else {
        lemma_sender_index_absent(senders.drop_last(), id);
    }
}

proof fn lemma_conversation_index_absent(convs: Seq<ConversationRowView>, id: i64)
    requires
        forall|q: int| 0 <= q < convs.len() ==> convs[q].id != id,
    ensures
        conversation_index(convs, id) == -1,
    decreases convs.len(),
{
    if convs.len() > 0 {
        lemma_conversation_index_absent(convs.drop_last(), id);
    }
}

proof fn lemma_conversation_index_at(convs: Seq<ConversationRowView>, id: i64, j: int)
    requires
        0 <= j < convs.len(),
        convs[j].id == id,
        forall|q: int| 0 <= q < j ==> convs[q].id != id,
    ensures
        conversation_index(convs, id) == j,
    decreases convs.len(),
{
    if j < convs.len() - 1 {
        lemma_conversation_index_at(convs.drop_last(), id, j);
    } else {
        lemma_conversation_index_absent(convs.drop_last(), id);
    }
}

/// Position of the sender with id `id` in the store, as `sender_index` gives it.
fn find_sender_index(store: &Store, id: i64) -> (r: Option<usize>)
    ensures
        r is Some <==> sender_index(store@.senders, id) >= 0,
        r is Some ==> r->Some_0 == sender_index(store@.senders, id) && r->Some_0 < store.senders.len(),
{
    for i in 0..store.senders.len()
        invariant
            forall|q: int| 0 <= q < i ==> store@.senders[q].id != id,
    {
        if store.senders[i].id == id {
            proof {
                lemma_sender_index_at(store@.senders, id, i as int);
            }
            return Some(i);
        }
    }
    proof {
        lemma_sender_index_absent(store@.senders, id);
    }
    None
}

/// Position of the conversation with id `id`, as `conversation_index` gives it.
pub(crate) fn find_conversation_index(store: &Store, id: i64) -> (r: Option<usize>)
    ensures
        r is Some <==> conversation_index(store@.conversations, id) >= 0,
        r is Some ==> r->Some_0 == conversation_index(store@.conversations, id) && r->Some_0 < store.conversations.len(),
{
    for i in 0..store.conversations.len()
        invariant
            forall|q: int| 0 <= q < i ==> store@.conversations[q].id != id,
    {
        if store.conversations[i].id == id {
            proof {
                lemma_conversation_index_at(store@.conversations, id, i as int);
            }
            return Some(i);
        }
    }
    proof {
        lemma_conversation_index_absent(store@.conversations, id);
    }
    None
}

/// The joined view of one media row.
fn join_media(store: &Store, m: &crate::store::MediaRow) -> (r: Option<MediaItem>)
    ensures
        r is Some <==> joined_item(store@, m@) is Some,
        r is Some ==> r->Some_0@ == joined_item(store@, m@)->Some_0,
{
    let si = find_sender_index(store, m.sender_id);
    let ci = find_conversation_index(store, m.conversation_id);
    match (si, ci) {
        (Some(si), Some(ci)) => {
            let sender = &store.senders[si];
            let conv = &store.conversations[ci];
            Some(MediaItem {
                id: m.id,
                file_path: m.file_path.clone(),
                sender_name: sender.name.clone(),
                timestamp_ms: m.timestamp_ms,
                conversation_title: conv.title.clone(),
                chat_type: conv.chat_type.clone(),
                file_type: m.file_type.clone(),
                conversation_id: m.conversation_id,
                sender_id: m.sender_id,
            })
        },
        _ => None,
    }
}

/// The filters as plain values.
pub struct FiltersView {
    pub conversation_id: Option<i64>,
    pub sender_id: Option<i64>,
    pub file_type: Option<Seq<char>>,
    pub month: Option<Seq<char>>,
    pub search: Option<Seq<char>>,
    pub sort: Seq<char>,
    pub limit: Option<i64>,
    pub offset: Option<i64>,
}

impl View for MediaFilters {
    type V = FiltersView;

    open spec fn view(&self) -> FiltersView {
        FiltersView {
            conversation_id: self.conversation_id,
            sender_id: self.sender_id,
            file_type: opt_string_view(self.file_type),
            month: opt_string_view(self.month),
            search: opt_string_view(self.search),
            sort: self.sort@,
            limit: self.limit,
            offset: self.offset,
        }
    }
}

/// Context message `q` belongs to media `mid` and matches the term: its
/// content as a whole word, or its (existing) sender's name as a substring.
pub open spec fn context_row_matches(s: StoreView, q: int, mid: i64, term: Seq<char>) -> bool {
    let row = s.context_messages[q];
    let si = sender_index(s.senders, row.sender_id);
    &&& row.media_id == mid
    &&& si >= 0
    &&& (word_match(row.content, term) || contains_ci(s.senders[si].name, term))
}

/// Some context message of media `mid` matches the term.
pub open spec fn context_matches(s: StoreView, mid: i64, term: Seq<char>) -> bool {
    exists|q: int| 0 <= q < s.context_messages.len() && #[trigger] context_row_matches(s, q, mid, term)
}

/// The search rule: sender name or conversation title contains the term, or
/// the message content or a context message matches it.
pub open spec fn search_matches(s: StoreView, m: MediaRowView, item: MediaItemView, term: Seq<char>) -> bool {
    ||| contains_ci(item.sender_name, term)
    ||| contains_ci(item.conversation_title, term)
    ||| (m.message_content is Some && word_match(m.message_content->Some_0, term))
    ||| context_matches(s, m.id, term)
}

/// Every filter that is present holds of the item.
pub open spec fn passes(s: StoreView, f: FiltersView, m: MediaRowView, item: MediaItemView) -> bool {
    &&& (f.conversation_id is Some ==> m.conversation_id == f.conversation_id->Some_0)
    &&& (f.sender_id is Some ==> m.sender_id == f.sender_id->Some_0)
    &&& (f.file_type is Some ==> m.file_type == f.file_type->Some_0)
    &&& (f.month is Some ==> month_key_of(m.timestamp_ms as int) == Some(f.month->Some_0))
    &&& (f.search is Some && f.search->Some_0.len() > 0 ==> search_matches(s, m, item, f.search->Some_0))
}

/// The joined items of the first `j` media rows that pass the filters, in
/// store order.
pub open spec fn matching_upto(s: StoreView, f: FiltersView, j: int) -> Seq<MediaItemView>
    decreases j,
{
    if j <= 0 {
        Seq::empty()
    } else {
        let rest = matching_upto(s, f, j - 1);
        let m = s.media[j - 1];
        match joined_item(s, m) {
            Some(item) => if passes(s, f, m, item) {
                rest.push(item)
            } else {
                rest
            },
            None => rest,
        }
    }
}

pub open spec fn matching(s: StoreView, f: FiltersView) -> Seq<MediaItemView> {
    matching_upto(s, f, s.media.len() as int)
}

fn context_search(store: &Store, mid: i64, term: &str) -> (r: bool)
    ensures
        r == context_matches(store@, mid, term@),
{
    let term_chars = chars_of(term);
    for k in 0..store.context_messages.len()
        invariant
            term_chars@ == term@,
            forall|q: int| 0 <= q < k ==> !#[trigger] context_row_matches(store@, q, mid, term@),
    {
        let row = &store.context_messages[k];
        if row.media_id == mid {
            match find_sender_index(store, row.sender_id) {
                Some(si) => {
                    if matches_whole_word(row.content.as_str(), term) {
                        assert(context_row_matches(store@, k as int, mid, term@));
                        return true;
                    }
                    let name = chars_of(store.senders[si].name.as_str());
                    if contains_ignoring_case(&name, &term_chars) {
                        assert(context_row_matches(store@, k as int, mid, term@));
                        return true;
                    }
                },
                None => {},
            }
        }
    }
    false
}

fn item_passes(store: &Store, filters: &MediaFilters, m: &crate::store::MediaRow, item: &MediaItem) -> (r: bool)
    requires
        joined_item(store@, m@) == Some(item@),
    ensures
        r == passes(store@, filters@, m@, item@),
{
    if let Some(cid) = filters.conversation_id {
        if m.conversation_id != cid {
            return false;
        }
    }
    if let Some(sid) = filters.sender_id {
        if m.sender_id != sid {
            return false;
        }
    }
    if let Some(ft) = &filters.file_type {
        if m.file_type != *ft {
            return false;
        }
    }
    if let Some(month) = &filters.month {
        match month_key(m.timestamp_ms) {
            Some(key) => {
                if key != *month {
                    return false;
                }
            },
            None => {
                return false;
            },
        }
    }
    if let Some(term) = &filters.search {
        if !term.as_str().is_empty() {
            let term_chars = chars_of(term.as_str());
            let name = chars_of(item.sender_name.as_str());
            if contains_ignoring_case(&name, &term_chars) {
                return true;
            }
            let title = chars_of(item.conversation_title.as_str());
            if contains_ignoring_case(&title, &term_chars) {
                return true;
            }
            if let Some(content) = &m.message_content {
                if matches_whole_word(content.as_str(), term.as_str()) {
                    return true;
                }
            }
            return context_search(store, m.id, term.as_str());
        }
    }
    true
}

/// The joined media items that pass the filters, in store order.
fn matching_items(store: &Store, filters: &MediaFilters) -> (r: Vec<MediaItem>)
    ensures
        items_view(r@) == matching(store@, filters@),
{
    let mut out: Vec<MediaItem> = Vec::new();
    for j in 0..store.media.len()
        invariant
            items_view(out@) == matching_upto(store@, filters@, j as int),
    {
        let m = &store.media[j];
        match join_media(store, m) {
            Some(item) => {
                if item_passes(store, filters, m, &item) {
                    let ghost prev = items_view(out@);
                    out.push(item);
                    assert(items_view(out@) =~= prev.push(item@));
                }
            },
            None => {},
        }
    }
    out
}

/// Code-point order on names (the order of their UTF-8 bytes).
pub open spec fn name_lt(a: Seq<char>, b: Seq<char>) -> bool
    decreases a.len(),
{
    if a.len() == 0 {
        b.len() > 0
    } else if b.len() == 0 {
        false
    } else if a[0] != b[0] {
        (a[0] as u32) < (b[0] as u32)
    } else {
        name_lt(a.drop_first(), b.drop_first())
    }
}

/// The listing order: `date-asc` by time, `sender` by sender name then newest
/// first, anything else newest first.
pub open spec fn sorts_before(a: MediaItemView, b: MediaItemView, sort: Seq<char>) -> bool {
    if sort == "date-asc"@ {
        a.timestamp_ms < b.timestamp_ms
    } else if sort == "sender"@ {
        name_lt(a.sender_name, b.sender_name) || (a.sender_name == b.sender_name && a.timestamp_ms > b.timestamp_ms)
    } else {
        a.timestamp_ms > b.timestamp_ms
    }
}

/// Index of the first item that `x` sorts before, or `s.len()`.
pub open spec fn insert_pos(s: Seq<MediaItemView>, x: MediaItemView, sort: Seq<char>) -> int
    decreases s.len(),
{
    if s.len() == 0 {
        0
    } else if sorts_before(x, s[0], sort) {
        0
    } else {
        1 + insert_pos(s.drop_first(), x, sort)
    }
}

/// The items in listing order; items that tie keep their order.
pub open spec fn ordered(s: Seq<MediaItemView>, sort: Seq<char>) -> Seq<MediaItemView>
    decreases s.len(),
{
    if s.len() == 0 {
        s
    } else {
        let r = ordered(s.drop_last(), sort);
        r.insert(insert_pos(r, s.last(), sort), s.last())
    }
}

/// Rows kept by `LIMIT` and `OFFSET`: limit 500 and offset 0 when absent, a
/// negative offset counts as 0 and a negative limit as no limit.
pub open spec fn page(s: Seq<MediaItemView>, offset: Option<i64>, limit: Option<i64>) -> Seq<MediaItemView> {
    let off: int = match offset {
        Some(o) => if o > 0 { o as int } else { 0 },
        None => 0,
    };
    let lim: int = match limit {
        Some(l) => l as int,
        None => 500,
    };
    let rest = if off < s.len() { s.skip(off) } else { Seq::empty() };
    if lim < 0 || lim >= rest.len() {
        rest
    } else {
        rest.take(lim)
    }
}

/// What a media listing returns.
pub open spec fn listing(s: StoreView, f: FiltersView) -> Seq<MediaItemView> {
    page(ordered(matching(s, f), f.sort), f.offset, f.limit)
}

proof fn lemma_name_lt_skip(a: Seq<char>, b: Seq<char>, i: int)
    requires
        0 <= i <= a.len(),
        i <= b.len(),
        forall|k: int| 0 <= k < i ==> a[k] == b[k],
    ensures
        name_lt(a, b) == name_lt(a.skip(i), b.skip(i)),
    decreases i,
{
    if i > 0 {
        lemma_name_lt_skip(a.drop_first(), b.drop_first(), i - 1);
        assert(a.drop_first().skip(i - 1) =~= a.skip(i));
        assert(b.drop_first().skip(i - 1) =~= b.skip(i));
    } else {
        assert(a.skip(0) =~= a);
        assert(b.skip(0) =~= b);
    }
}

pub(crate) fn name_less(a: &Vec<char>, b: &Vec<char>) -> (r: bool)
    ensures
        r == name_lt(a@, b@),
{
    let mut i: usize = 0;
    while i < a.len() && i < b.len() && a[i] == b[i]
        invariant
            i <= a.len() && i <= b.len(),
            forall|k: int| 0 <= k < i ==> a@[k] == b@[k],
        decreases a.len() - i,
    {
        i = i + 1;
    }
    proof {
        lemma_name_lt_skip(a@, b@, i as int);
    }
    if i == a.len() {
        i < b.len()
    } else if i == b.len() {
        false
    } else {
        assert(a@.skip(i as int)[0] == a@[i as int]);
        assert(b@.skip(i as int)[0] == b@[i as int]);
        (a[i] as u32) < (b[i] as u32)
    }
}

/// 0 for `date-asc`, 1 for `sender`, 2 for anything else.
fn sort_mode(sort: &String) -> (r: u8)
    ensures
        r == 0 <==> sort@ == "date-asc"@,
        r == 1 <==> sort@ != "date-asc"@ && sort@ == "sender"@,
        r == 2 <==> sort@ != "date-asc"@ && sort@ != "sender"@,
{
    if *sort == "date-asc".to_string() {
        0
    } else if *sort == "sender".to_string() {
        1
    } else {
        2
    }
}

fn item_before(a: &MediaItem, a_name: &Vec<char>, b: &MediaItem, b_name: &Vec<char>, mode: u8, sort: Ghost<Seq<char>>) -> (r: bool)
    requires
        a_name@ == a.sender_name@,
        b_name@ == b.sender_name@,
        mode == 0 <==> sort@ == "date-asc"@,
        mode == 1 <==> sort@ != "date-asc"@ && sort@ == "sender"@,
        mode == 2 <==> sort@ != "date-asc"@ && sort@ != "sender"@,
    ensures
        r == sorts_before(a@, b@, sort@),
{
    if mode == 0 {
        a.timestamp_ms < b.timestamp_ms
    } else if mode == 1 {
        if name_less(a_name, b_name) {
            true
        } else {
            a.sender_name == b.sender_name && a.timestamp_ms > b.timestamp_ms
        }
    } else {
        a.timestamp_ms > b.timestamp_ms
    }
}

proof fn lemma_insert_pos_at(s: Seq<MediaItemView>, x: MediaItemView, sort: Seq<char>, j: int)
    requires
        0 <= j <= s.len(),
        forall|k: int| 0 <= k < j ==> !sorts_before(x, #[trigger] s[k], sort),
        j == s.len() || sorts_before(x, s[j], sort),
    ensures
        insert_pos(s, x, sort) == j,
    decreases j,
{
    if j > 0 {
        assert forall|k: int| 0 <= k < j - 1 implies !sorts_before(x, #[trigger] s.drop_first()[k], sort) by {
            assert(s.drop_first()[k] == s[k + 1]);
        }
        lemma_insert_pos_at(s.drop_first(), x, sort, j - 1);
    }
}

/// Sorts items into listing order, keeping the order of ties.
fn order_items(items: Vec<MediaItem>, sort: &String) -> (r: Vec<MediaItem>)
    ensures
        items_view(r@) == ordered(items_view(items@), sort@),
{
    let ghost input = items_view(items@);
    let mode = sort_mode(sort);
    let mut rest = items;
    let mut pending: Vec<MediaItem> = Vec::new();
    while rest.len() > 0
        invariant
            input.len() == rest.len() + pending.len(),
            forall|k: int| 0 <= k < rest.len() ==> rest@[k]@ == input[k],
            forall|k: int| 0 <= k < pending.len() ==> pending@[k]@ == input[input.len() - 1 - k],
        decreases rest.len(),
    {
        let m = rest.pop().unwrap();
        pending.push(m);
    }
    let mut out: Vec<MediaItem> = Vec::new();
    let mut names: Vec<Vec<char>> = Vec::new();
    assert(items_view(out@) =~= ordered(input.take(0), sort@));
    while pending.len() > 0
        invariant
            input.len() >= pending.len(),
            forall|k: int| 0 <= k < pending.len() ==> pending@[k]@ == input[input.len() - 1 - k],
            items_view(out@) == ordered(input.take(input.len() - pending.len()), sort@),
            names.len() == out.len(),
            forall|k: int| 0 <= k < names.len() ==> (#[trigger] names@[k])@ == out@[k].sender_name@,
            mode == 0 <==> sort@ == "date-asc"@,
            mode == 1 <==> sort@ != "date-asc"@ && sort@ == "sender"@,
            mode == 2 <==> sort@ != "date-asc"@ && sort@ != "sender"@,
        decreases pending.len(),
    {
        let ghost done = input.len() - pending.len();
        let m = pending.pop().unwrap();
        let m_name = chars_of(m.sender_name.as_str());
        let mut j: usize = 0;
        while j < out.len() && !item_before(&m, &m_name, &out[j], &names[j], mode, Ghost(sort@))
            invariant
                j <= out.len(),
                names.len() == out.len(),
                forall|k: int| 0 <= k < names.len() ==> (#[trigger] names@[k])@ == out@[k].sender_name@,
                m_name@ == m.sender_name@,
                mode == 0 <==> sort@ == "date-asc"@,
                mode == 1 <==> sort@ != "date-asc"@ && sort@ == "sender"@,
                mode == 2 <==> sort@ != "date-asc"@ && sort@ != "sender"@,
                forall|k: int| 0 <= k < j ==> !sorts_before(m@, #[trigger] items_view(out@)[k], sort@),
            decreases out.len() - j,
        {
            j = j + 1;
        }
        let ghost before = items_view(out@);
        let ghost old_names = names@;
        let ghost old_out = out@;
        proof {
            lemma_insert_pos_at(before, m@, sort@, j as int);
            assert(input.take(done + 1).drop_last() =~= input.take(done));
        }
        out.insert(j, m);
        names.insert(j, m_name);
        assert(items_view(out@) =~= before.insert(j as int, m@));
        assert forall|k: int| 0 <= k < names.len() implies (#[trigger] names@[k])@ == out@[k].sender_name@ by {
            if k < j {
                assert(names@[k] == old_names[k] && out@[k] == old_out[k]);
            } else if k > j {
                assert(names@[k] == old_names[k - 1] && out@[k] == old_out[k - 1]);
            }
        }
    }
    assert(input.take(input.len() as int) =~= input);
    out
}

proof fn lemma_name_lt_transitive(a: Seq<char>, b: Seq<char>, c: Seq<char>)
    requires
        name_lt(a, b),
        name_lt(b, c),
    ensures
        name_lt(a, c),
    decreases a.len(),
{
    if a.len() > 0 && b.len() > 0 && c.len() > 0 && a[0] == b[0] && b[0] == c[0] {
        lemma_name_lt_transitive(a.drop_first(), b.drop_first(), c.drop_first());
    }
}

proof fn lemma_name_lt_irreflexive(a: Seq<char>)
    ensures
        !name_lt(a, a),
    decreases a.len(),
{
    if a.len() > 0 {
        lemma_name_lt_irreflexive(a.drop_first());
    }
}

proof fn lemma_sorts_before_irreflexive(a: MediaItemView, sort: Seq<char>)
    ensures
        !sorts_before(a, a, sort),
{
    lemma_name_lt_irreflexive(a.sender_name);
}

proof fn lemma_sorts_before_transitive(a: MediaItemView, b: MediaItemView, c: MediaItemView, sort: Seq<char>)
    requires
        sorts_before(a, b, sort),
        sorts_before(b, c, sort),
    ensures
        sorts_before(a, c, sort),
{
    if sort != "date-asc"@ && sort == "sender"@ {
        if name_lt(a.sender_name, b.sender_name) && name_lt(b.sender_name, c.sender_name) {
            lemma_name_lt_transitive(a.sender_name, b.sender_name, c.sender_name);
        }
    }
}

/// No item of `s` sorts before an item that comes earlier.
pub open spec fn in_listing_order(s: Seq<MediaItemView>, sort: Seq<char>) -> bool {
    forall|i: int, j: int| 0 <= i < j < s.len() ==> !sorts_before(#[trigger] s[j], #[trigger] s[i], sort)
}

proof fn lemma_insert_pos_props(s: Seq<MediaItemView>, x: MediaItemView, sort: Seq<char>)
    ensures
        0 <= insert_pos(s, x, sort) <= s.len(),
        forall|k: int| 0 <= k < insert_pos(s, x, sort) ==> !sorts_before(x, #[trigger] s[k], sort),
        insert_pos(s, x, sort) < s.len() ==> sorts_before(x, s[insert_pos(s, x, sort)], sort),
    decreases s.len(),
{
    if s.len() > 0 && !sorts_before(x, s[0], sort) {
        lemma_insert_pos_props(s.drop_first(), x, sort);
        assert forall|k: int| 0 <= k < insert_pos(s, x, sort) implies !sorts_before(x, #[trigger] s[k], sort) by {
            if k > 0 {
                assert(s[k] == s.drop_first()[k - 1]);
            }
        }
    }
}

/// The listing order is an order: no item sorts before one listed earlier,
/// and the ordered list has as many items as the input.
pub proof fn lemma_ordered_in_order(s: Seq<MediaItemView>, sort: Seq<char>)
    ensures
        in_listing_order(ordered(s, sort), sort),
        ordered(s, sort).len() == s.len(),
    decreases s.len(),
{
    if s.len() > 0 {
        let r = ordered(s.drop_last(), sort);
        lemma_ordered_in_order(s.drop_last(), sort);
        let x = s.last();
        lemma_insert_pos_props(r, x, sort);
        let p = insert_pos(r, x, sort);
        let q = r.insert(p, x);
        assert forall|i: int, j: int| 0 <= i < j < q.len() implies !sorts_before(#[trigger] q[j], #[trigger] q[i], sort) by {
            if j < p {
                assert(q[i] == r[i] && q[j] == r[j]);
            } else if j == p {
                assert(q[i] == r[i]);
            } else if i < p {
                assert(q[i] == r[i] && q[j] == r[j - 1]);
            } else if i == p {
                assert(q[j] == r[j - 1]);
                if sorts_before(r[j - 1], x, sort) {
                    lemma_sorts_before_transitive(r[j - 1], x, r[p], sort);
                    if j - 1 > p {
                        assert(!sorts_before(r[j - 1], r[p], sort));
                    } else {
                        lemma_sorts_before_irreflexive(r[p], sort);
                    }
                }
            } else {
                assert(q[i] == r[i - 1] && q[j] == r[j - 1]);
            }
        }
    }
}

/// A search for "cat" keeps a media item whose message is "I have a cat.",
/// and drops one whose message is "concatenate" when nothing else about it
/// (sender, title, context) mentions "cat".
pub proof fn lemma_search_cat(s: StoreView, f: FiltersView, m: MediaRowView, item: MediaItemView)
    requires
        f.conversation_id is None && f.sender_id is None && f.file_type is None && f.month is None,
        f.search == Some("cat"@),
    ensures
        m.message_content == Some("I have a cat."@) ==> passes(s, f, m, item),
        m.message_content == Some("concatenate"@) && !contains_ci(item.sender_name, "cat"@) && !contains_ci(
            item.conversation_title,
            "cat"@,
        ) && !context_matches(s, m.id, "cat"@) ==> !passes(s, f, m, item),
{
    crate::search::lemma_whole_word_cat();
    reveal_strlit("cat");
}

/// Applies `OFFSET` and `LIMIT` to an ordered list.
fn paginate(items: Vec<MediaItem>, offset: Option<i64>, limit: Option<i64>) -> (r: Vec<MediaItem>)
    ensures
        items_view(r@) == page(items_view(items@), offset, limit),
{
    let off: i64 = match offset {
        Some(o) => if o > 0 { o } else { 0 },
        None => 0,
    };
    let lim: i64 = match limit {
        Some(l) => l,
        None => 500,
    };
    let ghost v = items_view(items@);
    let mut items = items;
    if (off as u64) >= (items.len() as u64) {
        let out: Vec<MediaItem> = Vec::new();
        assert(items_view(out@) =~= page(v, offset, limit));
        return out;
    }
    let start = off as usize;
    let end: usize = if lim < 0 || (lim as u64) >= ((items.len() - start) as u64) { items.len() } else { start + lim as usize };
    let mut tail = items.split_off(start);
    let keep = end - start;
    tail.truncate(keep);
    assert(items_view(tail@) =~= page(v, offset, limit));
    tail
}

/// List media items: joined with sender and conversation, filtered, ordered
/// and paged as `listing` describes.
pub fn get_media(store: &Store, filters: &MediaFilters) -> (r: Result<Vec<MediaItem>, String>)
    ensures
        r is Ok,
        items_view(r->Ok_0@) == listing(store@, filters@),
{
    let items = matching_items(store, filters);
    let ordered_items = order_items(items, &filters.sort);
    Ok(paginate(ordered_items, filters.offset, filters.limit))
}

/// Without a limit or offset a listing holds at most 500 items, the first
/// ones in order; with limit 1 and offset 1 it holds exactly the second item
/// of the ordered list, where there is one.
pub proof fn lemma_listing_pages(s: StoreView, f: FiltersView)
    ensures
        ({
            let all = ordered(matching(s, f), f.sort);
            &&& f.limit is None && f.offset is None ==> listing(s, f).len() <= 500
                && listing(s, f) == all.take(listing(s, f).len() as int)
            &&& f.limit == Some(1i64) && f.offset == Some(1i64) && all.len() >= 2 ==> listing(s, f) == seq![all[1]]
        }),
{
    let all = ordered(matching(s, f), f.sort);
    if f.limit is None && f.offset is None {
        assert(all.skip(0) =~= all);
        if all.len() > 500 {
            assert(listing(s, f) =~= all.take(500));
        } else {
            assert(listing(s, f) =~= all.take(all.len() as int));
        }
    }
    if f.limit == Some(1i64) && f.offset == Some(1i64) && all.len() >= 2 {
        if all.len() > 2 {
            assert(listing(s, f) =~= seq![all[1]]);
        } else {
            assert(listing(s, f) =~= seq![all[1]]);
        }
    }
}

/// A context message as shown beside a media item.
pub struct ContextMessage {
    pub sender_name: String,
    pub content: String,
    pub timestamp_ms: i64,
}

pub struct ContextMessageView {
    pub sender_name: Seq<char>,
    pub content: Seq<char>,
    pub timestamp_ms: i64,
}

impl View for ContextMessage {
    type V = ContextMessageView;

    open spec fn view(&self) -> ContextMessageView {
        ContextMessageView { sender_name: self.sender_name@, content: self.content@, timestamp_ms: self.timestamp_ms }
    }
}

pub open spec fn context_messages_view(v: Seq<ContextMessage>) -> Seq<ContextMessageView> {
    v.map_values(|c: ContextMessage| c@)
}

/// A media item with the context messages before and after it.
pub struct MediaContext {
    pub media: MediaItem,
    pub context_before: Vec<ContextMessage>,
    pub context_after: Vec<ContextMessage>,
}

/// Index of the first media row with id `id`, or -1.
pub open spec fn media_index(media: Seq<MediaRowView>, id: i64) -> int
    decreases media.len(),
{
    if media.len() == 0 {
        -1
    } else {
        let k = media_index(media.drop_last(), id);
        if k >= 0 {
            k
        } else if media.last().id == id {
            media.len() - 1
        } else {
            -1
        }
    }
}

/// (position, row index) of the context rows of media `mid` whose sender
/// exists, among the first `j` rows, in store order.
pub open spec fn context_entries_upto(s: StoreView, mid: i64, j: int) -> Seq<(i64, int)>
    decreases j,
{
    if j <= 0 {
        Seq::empty()
    } else {
        let rest = context_entries_upto(s, mid, j - 1);
        let row = s.context_messages[j - 1];
        if row.media_id == mid && sender_index(s.senders, row.sender_id) >= 0 {
            rest.push((row.position, j - 1))
        } else {
            rest
        }
    }
}

/// Index of the first entry with a larger position than `x`, or `s.len()`.
pub open spec fn position_slot(s: Seq<(i64, int)>, x: (i64, int)) -> int
    decreases s.len(),
{
    if s.len() == 0 {
        0
    } else if x.0 < s[0].0 {
        0
    } else {
        1 + position_slot(s.drop_first(), x)
    }
}

/// Entries ordered by position; equal positions keep their order.
pub open spec fn by_position(s: Seq<(i64, int)>) -> Seq<(i64, int)>
    decreases s.len(),
{
    if s.len() == 0 {
        s
    } else {
        let r = by_position(s.drop_last());
        r.insert(position_slot(r, s.last()), s.last())
    }
}

pub open spec fn context_message_of(s: StoreView, q: int) -> ContextMessageView {
    let row = s.context_messages[q];
    ContextMessageView {
        sender_name: s.senders[sender_index(s.senders, row.sender_id)].name,
        content: row.content,
        timestamp_ms: row.timestamp_ms,
    }
}

/// The context before media `mid` (negative positions) in position order.
pub open spec fn context_before_list(s: StoreView, mid: i64) -> Seq<ContextMessageView> {
    by_position(context_entries_upto(s, mid, s.context_messages.len() as int)).filter(|e: (i64, int)| e.0 < 0).map_values(
        |e: (i64, int)| context_message_of(s, e.1),
    )
}

/// The context after media `mid` (other positions) in position order.
pub open spec fn context_after_list(s: StoreView, mid: i64) -> Seq<ContextMessageView> {
    by_position(context_entries_upto(s, mid, s.context_messages.len() as int)).filter(|e: (i64, int)| e.0 >= 0).map_values(
        |e: (i64, int)| context_message_of(s, e.1),
    )
}

proof fn lemma_position_slot_props(s: Seq<(i64, int)>, x: (i64, int))
    ensures
        0 <= position_slot(s, x) <= s.len(),
        forall|k: int| 0 <= k < position_slot(s, x) ==> (#[trigger] s[k]).0 <= x.0,
        position_slot(s, x) < s.len() ==> x.0 < s[position_slot(s, x)].0,
    decreases s.len(),
{
    if s.len() > 0 && !(x.0 < s[0].0) {
        lemma_position_slot_props(s.drop_first(), x);
        assert forall|k: int| 0 <= k < position_slot(s, x) implies (#[trigger] s[k]).0 <= x.0 by {
            if k > 0 {
                assert(s[k] == s.drop_first()[k - 1]);
            }
        }
    }
}

/// Ordering by position yields positions in ascending order, with as many
/// entries as given.
pub proof fn lemma_by_position_ascending(s: Seq<(i64, int)>)
    ensures
        forall|i: int, j: int| 0 <= i < j < by_position(s).len() ==> (#[trigger] by_position(s)[i]).0 <= (
        #[trigger] by_position(s)[j]).0,
        by_position(s).len() == s.len(),
    decreases s.len(),
{
    if s.len() > 0 {
        let r = by_position(s.drop_last());
        lemma_by_position_ascending(s.drop_last());
        let x = s.last();
        lemma_position_slot_props(r, x);
        let p = position_slot(r, x);
        let q = r.insert(p, x);
        assert forall|i: int, j: int| 0 <= i < j < q.len() implies (#[trigger] q[i]).0 <= (#[trigger] q[j]).0 by {
            if j < p {
                assert(q[i] == r[i] && q[j] == r[j]);
            } else if j == p {
                assert(q[i] == r[i]);
            } else if i < p {
                assert(q[i] == r[i] && q[j] == r[j - 1]);
                assert(r[i].0 <= r[p].0);
            } else if i == p {
                assert(q[j] == r[j - 1]);
                assert(r[p].0 <= r[j - 1].0);
            } else {
                assert(q[i] == r[i - 1] && q[j] == r[j - 1]);
            }
        }
    }
}

proof fn lemma_position_slot_at(s: Seq<(i64, int)>, x: (i64, int), j: int)
    requires
        0 <= j <= s.len(),
        forall|k: int| 0 <= k < j ==> !(x.0 < #[trigger] s[k].0),
        j == s.len() || x.0 < s[j].0,
    ensures
        position_slot(s, x) == j,
    decreases j,
{
    if j > 0 {
        assert forall|k: int| 0 <= k < j - 1 implies !(x.0 < #[trigger] s.drop_first()[k].0) by {
            assert(s.drop_first()[k] == s[k + 1]);
        }
        lemma_position_slot_at(s.drop_first(), x, j - 1);
    }
}

proof fn lemma_media_index_absent(media: Seq<MediaRowView>, id: i64)
    requires
        forall|q: int| 0 <= q < media.len() ==> media[q].id != id,
    ensures
        media_index(media, id) == -1,
    decreases media.len(),
{
    if media.len() > 0 {
        lemma_media_index_absent(media.drop_last(), id);
    }
}

proof fn lemma_media_index_at(media: Seq<MediaRowView>, id: i64, j: int)
    requires
        0 <= j < media.len(),
        media[j].id == id,
        forall|q: int| 0 <= q < j ==> media[q].id != id,
    ensures
        media_index(media, id) == j,
    decreases media.len(),
{
    if j < media.len() - 1 {
        lemma_media_index_at(media.drop_last(), id, j);
    } else {
        lemma_media_index_absent(media.drop_last(), id);
    }
}

/// The context entries of media `mid`, ordered by position.
fn ordered_context_entries(store: &Store, mid: i64) -> (r: Vec<(i64, usize)>)
    ensures
        r@.map_values(|e: (i64, usize)| (e.0, e.1 as int)) == by_position(
            context_entries_upto(store@, mid, store@.context_messages.len() as int),
        ),
        forall|k: int| 0 <= k < r@.len() ==> (#[trigger] r@[k]).1 < store.context_messages.len()
            && sender_index(store@.senders, store@.context_messages[r@[k].1 as int].sender_id) >= 0,
{
    let ghost s = store@;
    let mut entries: Vec<(i64, usize)> = Vec::new();
    for j in 0..store.context_messages.len()
        invariant
            s == store@,
            entries@.map_values(|e: (i64, usize)| (e.0, e.1 as int)) == context_entries_upto(s, mid, j as int),
            forall|k: int| 0 <= k < entries@.len() ==> (#[trigger] entries@[k]).1 < j
                && sender_index(s.senders, s.context_messages[entries@[k].1 as int].sender_id) >= 0,
    {
        let row = &store.context_messages[j];
        if row.media_id == mid {
            if find_sender_index(store, row.sender_id).is_some() {
                let ghost prev = entries@;
                entries.push((row.position, j));
                assert(entries@.map_values(|e: (i64, usize)| (e.0, e.1 as int)) =~= prev.map_values(
                    |e: (i64, usize)| (e.0, e.1 as int),
                ).push((row.position, j as int)));
            }
        }
    }
    let ghost input = entries@.map_values(|e: (i64, usize)| (e.0, e.1 as int));
    let n = entries.len();
    let mut out: Vec<(i64, usize)> = Vec::new();
    for i in 0..n
        invariant
            n == entries.len(),
            input == entries@.map_values(|e: (i64, usize)| (e.0, e.1 as int)),
            out@.map_values(|e: (i64, usize)| (e.0, e.1 as int)) == by_position(input.take(i as int)),
            forall|k: int| 0 <= k < entries@.len() ==> (#[trigger] entries@[k]).1 < store.context_messages.len()
                && sender_index(store@.senders, store@.context_messages[entries@[k].1 as int].sender_id) >= 0,
            forall|k: int| 0 <= k < out@.len() ==> (#[trigger] out@[k]).1 < store.context_messages.len()
                && sender_index(store@.senders, store@.context_messages[out@[k].1 as int].sender_id) >= 0,
    {
        let e = entries[i];
        let ghost ov = out@.map_values(|e: (i64, usize)| (e.0, e.1 as int));
        let mut p: usize = 0;
        while p < out.len() && !(e.0 < out[p].0)
            invariant
                p <= out.len(),
                ov == out@.map_values(|e: (i64, usize)| (e.0, e.1 as int)),
                forall|k: int| 0 <= k < p ==> !(e.0 < #[trigger] ov[k].0),
            decreases out.len() - p,
        {
            p = p + 1;
        }
        proof {
            lemma_position_slot_at(ov, (e.0, e.1 as int), p as int);
            assert(input.take(i + 1).drop_last() =~= input.take(i as int));
        }
        out.insert(p, e);
        assert(out@.map_values(|e: (i64, usize)| (e.0, e.1 as int)) =~= ov.insert(p as int, (e.0, e.1 as int)));
    }
    assert(input.take(n as int) =~= input);
    out
}

fn context_message_at(store: &Store, q: usize) -> (r: ContextMessage)
    requires
        q < store.context_messages.len(),
        sender_index(store@.senders, store@.context_messages[q as int].sender_id) >= 0,
    ensures
        r@ == context_message_of(store@, q as int),
{
    let row = &store.context_messages[q];
    let si = find_sender_index(store, row.sender_id).unwrap();
    ContextMessage { sender_name: store.senders[si].name.clone(), content: row.content.clone(), timestamp_ms: row.timestamp_ms }
}

/// The media item with id `media_id` and its context, before (negative
/// positions) and after, each in position order. Fails when there is no such
/// media item (or its sender or conversation is missing).
pub fn get_context(store: &Store, media_id: i64) -> (r: Result<MediaContext, String>)
    ensures
        r is Ok <==> media_index(store@.media, media_id) >= 0 && joined_item(
            store@,
            store@.media[media_index(store@.media, media_id)],
        ) is Some,
        r is Ok ==> ({
            let c = r->Ok_0;
            &&& c.media@ == joined_item(store@, store@.media[media_index(store@.media, media_id)])->Some_0
            &&& context_messages_view(c.context_before@) == context_before_list(store@, media_id)
            &&& context_messages_view(c.context_after@) == context_after_list(store@, media_id)
        }),
{
    let ghost s = store@;
    let mut found: Option<usize> = None;
    for i in 0..store.media.len()
        invariant
            found is None ==> forall|q: int| 0 <= q < i ==> s.media[q].id != media_id,
            found is Some ==> found->Some_0 == media_index(s.media, media_id) && found->Some_0 < s.media.len(),
            s == store@,
    {
        if found.is_none() && store.media[i].id == media_id {
            proof {
                lemma_media_index_at(s.media, media_id, i as int);
            }
            found = Some(i);
        }
    }
    let mi = match found {
        Some(mi) => mi,
        None => {
            proof {
                lemma_media_index_absent(s.media, media_id);
            }
            return Err("Media not found".to_string());
        },
    };
    let media = match join_media(store, &store.media[mi]) {
        Some(item) => item,
        None => {
            return Err("Media not found".to_string());
        },
    };
    let entries = ordered_context_entries(store, media_id);
    let ghost ev = entries@.map_values(|e: (i64, usize)| (e.0, e.1 as int));
    let ghost neg = |e: (i64, int)| e.0 < 0;
    let ghost nonneg = |e: (i64, int)| e.0 >= 0;
    let ghost show = |e: (i64, int)| context_message_of(s, e.1);
    let mut context_before: Vec<ContextMessage> = Vec::new();
    let mut context_after: Vec<ContextMessage> = Vec::new();
    for k in 0..entries.len()
        invariant
            s == store@,
            ev == entries@.map_values(|e: (i64, usize)| (e.0, e.1 as int)),
            forall|q: int| 0 <= q < entries@.len() ==> (#[trigger] entries@[q]).1 < store.context_messages.len()
                && sender_index(store@.senders, store@.context_messages[entries@[q].1 as int].sender_id) >= 0,
            forall|e: (i64, int)| #[trigger] neg(e) == (e.0 < 0),
            forall|e: (i64, int)| #[trigger] nonneg(e) == (e.0 >= 0),
            forall|e: (i64, int)| #[trigger] show(e) == context_message_of(s, e.1),
            context_messages_view(context_before@) == ev.take(k as int).filter(neg).map_values(show),
            context_messages_view(context_after@) == ev.take(k as int).filter(nonneg).map_values(show),
    {
        let e = entries[k];
        let msg = context_message_at(store, e.1);
        proof {
            lemma_filter_step(ev, neg, k as int);
            lemma_filter_step(ev, nonneg, k as int);
        }
        if e.0 < 0 {
            let ghost prev = context_messages_view(context_before@);
            let ghost f = ev.take(k as int).filter(neg);
            context_before.push(msg);
            assert(context_messages_view(context_before@) =~= prev.push(msg@));
            assert(f.push(ev[k as int]).map_values(show) =~= f.map_values(show).push(show(ev[k as int])));
        } else {
            let ghost prev = context_messages_view(context_after@);
            let ghost f = ev.take(k as int).filter(nonneg);
            context_after.push(msg);
            assert(context_messages_view(context_after@) =~= prev.push(msg@));
            assert(f.push(ev[k as int]).map_values(show) =~= f.map_values(show).push(show(ev[k as int])));
        }
    }
    assert(ev.take(entries.len() as int) =~= ev);
    assert(neg =~= |e: (i64, int)| e.0 < 0);
    assert(nonneg =~= |e: (i64, int)| e.0 >= 0);
    assert(show =~= |e: (i64, int)| context_message_of(s, e.1));
    Ok(MediaContext { media, context_before, context_after })
}

} // verus!
