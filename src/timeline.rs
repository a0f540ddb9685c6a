use vstd::prelude::*;
use vstd::string::{StrSliceExecFns, StringExecFns};
use crate::calendar::{year_month, year_month_of, month_key_text, string_from_chars, digit_char};
use crate::mojibake::chars_of;
use crate::store::{Store, StoreView};

verus! {

/// Number of media per month.
pub struct TimelineEntry {
    pub label: String,
    pub month_key: String,
    pub count: i64,
}

/// The abbreviation of a two-digit month `01` to `12`.
pub open spec fn month_name(mm: Seq<char>) -> Option<Seq<char>> {
    if mm == "01"@ {
        Some("Jan"@)
    } else if mm == "02"@ {
        Some("Feb"@)
    } else if mm == "03"@ {
        Some("Mar"@)
    } else if mm == "04"@ {
        Some("Apr"@)
    } else if mm == "05"@ {
        Some("May"@)
    } else if mm == "06"@ {
        Some("Jun"@)
    } else if mm == "07"@ {
        Some("Jul"@)
    } else if mm == "08"@ {
        Some("Aug"@)
    } else if mm == "09"@ {
        Some("Sep"@)
    } else if mm == "10"@ {
        Some("Oct"@)
    } else if mm == "11"@ {
        Some("Nov"@)
    } else if mm == "12"@ {
        Some("Dec"@)
    } else {
        None
    }
}

/// Number of `-` in `s`.
pub open spec fn dash_count(s: Seq<char>) -> int
    decreases s.len(),
{
    if s.len() == 0 {
        0
    } else {
        dash_count(s.drop_last()) + if s.last() == '-' { 1int } else { 0int }
    }
}

/// Index of the first `-` in `s`, or `s.len()`.
pub open spec fn dash_index(s: Seq<char>) -> int
    decreases s.len(),
{
    if s.len() == 0 {
        0
    } else if s[0] == '-' {
        0
    } else {
        1 + dash_index(s.drop_first())
    }
}

/// All characters are ASCII digits, and there is at least one.
pub open spec fn is_digits(s: Seq<char>) -> bool {
    s.len() > 0 && forall|k: int| 0 <= k < s.len() ==> '0' <= #[trigger] s[k] && s[k] <= '9'
}

/// The display label of a `YYYY-MM` key: month abbreviation, space, year. A
/// key that is not a digit year, one `-` and a month `01` to `12` stays as it
/// is.
pub open spec fn month_label(key: Seq<char>) -> Seq<char> {
    let p = dash_index(key);
    if dash_count(key) == 1 && is_digits(key.take(p)) && month_name(key.skip(p + 1)) is Some {
        month_name(key.skip(p + 1))->Some_0 + " "@ + key.take(p)
    } else {
        key
    }
}

proof fn lemma_dash_index_at(s: Seq<char>, j: int)
    requires
        0 <= j <= s.len(),
        forall|k: int| 0 <= k < j ==> s[k] != '-',
        j == s.len() || s[j] == '-',
    ensures
        dash_index(s) == j,
    decreases j,
{
    if j > 0 {
        lemma_dash_index_at(s.drop_first(), j - 1);
    }
}

fn month_name_of(mm: &str) -> (r: Option<String>)
    ensures
        r is Some <==> month_name(mm@) is Some,
        r is Some ==> r->Some_0@ == month_name(mm@)->Some_0,
{
    let m = mm.to_string();
    if m == "01".to_string() {
        Some("Jan".to_string())
    } else if m == "02".to_string() {
        Some("Feb".to_string())
    } else if m == "03".to_string() {
        Some("Mar".to_string())
    } else if m == "04".to_string() {
        Some("Apr".to_string())
    } else if m == "05".to_string() {
        Some("May".to_string())
    } else if m == "06".to_string() {
        Some("Jun".to_string())
    } else if m == "07".to_string() {
        Some("Jul".to_string())
    } else if m == "08".to_string() {
        Some("Aug".to_string())
    } else if m == "09".to_string() {
        Some("Sep".to_string())
    } else if m == "10".to_string() {
        Some("Oct".to_string())
    } else if m == "11".to_string() {
        Some("Nov".to_string())
    } else if m == "12".to_string() {
        Some("Dec".to_string())
    } else {
        None
    }
}

/// Convert a `YYYY-MM` key such as `2024-03` to a label such as `Mar 2024`.
pub fn format_month_label(month_key: &str) -> (r: String)
    ensures
        r@ == month_label(month_key@),
{
    let chars = chars_of(month_key);
    let n = chars.len();
    let mut dashes: usize = 0;
    let mut first: usize = n;
    for i in 0..n
        invariant
            n == chars.len(),
            chars@ == month_key@,
            dashes == dash_count(chars@.take(i as int)),
            dashes <= i,
            first <= n,
            first == n ==> forall|k: int| 0 <= k < i ==> chars@[k] != '-',
            first < n ==> first < i && chars@[first as int] == '-' && forall|k: int| 0 <= k < first ==> chars@[k] != '-',
    {
        proof {
            assert(chars@.take(i + 1).drop_last() =~= chars@.take(i as int));
        }
        if chars[i] == '-' {
            dashes = dashes + 1;
            if first == n {
                first = i;
            }
        }
    }
    assert(chars@.take(n as int) =~= chars@);
    if dashes != 1 {
        return month_key.to_string();
    }
    proof {
        if first == n {
            assert(dash_count(chars@) == 0) by {
                lemma_no_dash(chars@);
            }
        }
        lemma_dash_index_at(chars@, first as int);
    }
    if first == 0 {
        assert(dash_index(month_key@) == 0);
        assert(month_key@.take(0).len() == 0);
        return month_key.to_string();
    }
    let mut k: usize = 0;
    while k < first
        invariant
            first < n,
            n == chars.len(),
            chars@ == month_key@,
            dash_index(month_key@) == first,
            k <= first,
            forall|q: int| 0 <= q < k ==> '0' <= #[trigger] chars@[q] && chars@[q] <= '9',
        decreases first - k,
    {
        if chars[k] < '0' || chars[k] > '9' {
            assert(!is_digits(chars@.take(first as int))) by {
                assert(chars@.take(first as int)[k as int] == chars@[k as int]);
            }
            return month_key.to_string();
        }
        k = k + 1;
    }
    assert(is_digits(chars@.take(first as int))) by {
        assert forall|q: int| 0 <= q < first implies '0' <= #[trigger] chars@.take(first as int)[q] && chars@.take(first as int)[q] <= '9' by {
            assert(chars@.take(first as int)[q] == chars@[q]);
        }
    }
    let year = month_key.substring_char(0, first);
    let mm = month_key.substring_char(first + 1, n);
    assert(year@ =~= month_key@.take(first as int));
    assert(mm@ =~= month_key@.skip(first + 1));
    match month_name_of(mm) {
        Some(name) => {
            let mut label = name;
            label.append(" ");
            label.append(year);
            label
        },
        None => month_key.to_string(),
    }
}

proof fn lemma_no_dash(s: Seq<char>)
    requires
        forall|k: int| 0 <= k < s.len() ==> s[k] != '-',
    ensures
        dash_count(s) == 0,
    decreases s.len(),
{
    if s.len() > 0 {
        lemma_no_dash(s.drop_last());
    }
}

/// Number of the first `j` media rows whose timestamp falls in month `ym`.
pub open spec fn bucket_count(s: StoreView, ym: (int, int), j: int) -> int
    decreases j,
{
    if j <= 0 {
        0
    } else {
        bucket_count(s, ym, j - 1) + if year_month_of(s.media[j - 1].timestamp_ms as int) == ym { 1int } else { 0int }
    }
}

/// Month `a` is later than month `b`.
pub open spec fn later_month(a: (int, int), b: (int, int)) -> bool {
    a.0 > b.0 || (a.0 == b.0 && a.1 > b.1)
}

/// Some media row has a timestamp outside the years 0000 to 9999.
pub open spec fn has_unkeyed_media(s: StoreView) -> bool {
    exists|q: int| 0 <= q < s.media.len() && !(0 <= #[trigger] year_month_of(s.media[q].timestamp_ms as int).0 <= 9999)
}

/// `es` is the timeline of `s` over the months `yms`: one entry per month that
/// holds media, newest first, with its key, label and count.
pub open spec fn is_timeline(s: StoreView, es: Seq<TimelineEntry>, yms: Seq<(int, int)>) -> bool {
    &&& es.len() == yms.len()
    &&& forall|i: int| 0 <= i < es.len() ==> {
        &&& (#[trigger] es[i]).month_key@ == month_key_text(yms[i].0, yms[i].1)
        &&& es[i].label@ == month_label(es[i].month_key@)
        &&& es[i].count == bucket_count(s, yms[i], s.media.len() as int)
        &&& es[i].count > 0
    }
    &&& forall|i: int, j: int| 0 <= i < j < yms.len() ==> later_month(yms[i], yms[j])
    &&& forall|q: int| 0 <= q < s.media.len() ==> yms.contains(#[trigger] year_month_of(s.media[q].timestamp_ms as int))
}

/// Month `ym` is among `months`.
pub open spec fn month_listed(months: Seq<(i64, i64)>, ym: (int, int)) -> bool {
    exists|i: int| 0 <= i < months.len() && #[trigger] months[i].0 == ym.0 && months[i].1 == ym.1
}

proof fn lemma_bucket_count_nonneg(s: StoreView, x: (int, int), j: int)
    ensures
        bucket_count(s, x, j) >= 0,
    decreases j,
{
    if j > 0 {
        lemma_bucket_count_nonneg(s, x, j - 1);
    }
}

proof fn lemma_bucket_count_positive(s: StoreView, x: (int, int), j: int)
    requires
        bucket_count(s, x, j) > 0,
    ensures
        exists|q: int| 0 <= q < j && year_month_of(#[trigger] s.media[q].timestamp_ms as int) == x,
    decreases j,
{
    if j > 0 {
        if year_month_of(s.media[j - 1].timestamp_ms as int) != x {
            lemma_bucket_count_positive(s, x, j - 1);
            let q = choose|q: int| 0 <= q < j - 1 && year_month_of(#[trigger] s.media[q].timestamp_ms as int) == x;
            assert(0 <= q < j && year_month_of(s.media[q].timestamp_ms as int) == x);
        }
    }
}

fn month_key_string(y: i64, m: i64) -> (r: String)
    requires
        0 <= y <= 9999,
        0 <= m <= 99,
    ensures
        r@ == month_key_text(y as int, m as int),
{
    let chars = vec![
        digit(y / 1000),
        digit((y / 100) % 10),
        digit((y / 10) % 10),
        digit(y % 10),
        '-',
        digit(m / 10),
        digit(m % 10),
    ];
    assert(chars@ =~= month_key_text(y as int, m as int));
    string_from_chars(chars)
}

fn digit(n: i64) -> (c: char)
    requires
        0 <= n <= 9,
    ensures
        c == digit_char(n as int),
{
    ((48 + n) as u8) as char
}

/// Count media per month, newest month first, with display labels. Fails
/// when a timestamp lies outside the years 0000 to 9999.
pub fn get_timeline(store: &Store) -> (r: Result<Vec<TimelineEntry>, String>)
    ensures
        r is Err <==> has_unkeyed_media(store@) || store@.media.len() > i64::MAX,
        r is Ok ==> exists|yms: Seq<(int, int)>| #[trigger] is_timeline(store@, r->Ok_0@, yms),
{
    let ghost s = store@;
    let n = store.media.len();
    let mut months: Vec<(i64, i64)> = Vec::new();
    let mut counts: Vec<usize> = Vec::new();
    for j in 0..n
        invariant
            s == store@,
            n == s.media.len(),
            months.len() == counts.len(),
            forall|q: int| 0 <= q < j ==> 0 <= #[trigger] year_month_of(s.media[q].timestamp_ms as int).0 <= 9999,
            forall|i: int| 0 <= i < months.len() ==> counts@[i] == bucket_count(s, (months@[i].0 as int, months@[i].1 as int), j as int)
                && counts@[i] > 0 && counts@[i] <= j,
            forall|i: int, k: int| 0 <= i < k < months.len() ==> later_month(
                (months@[i].0 as int, months@[i].1 as int),
                (months@[k].0 as int, months@[k].1 as int),
            ),
            forall|q: int| 0 <= q < j ==> month_listed(months@, year_month_of(#[trigger] s.media[q].timestamp_ms as int)),
            forall|i: int| 0 <= i < months.len() ==> 0 <= #[trigger] months@[i].0 <= 9999 && 0 <= months@[i].1 <= 99,
    {
        let (y, m) = year_month(store.media[j].timestamp_ms);
        if y < 0 || y > 9999 || m < 0 || m > 99 {
            assert(!(0 <= year_month_of(s.media[j as int].timestamp_ms as int).0 <= 9999)) by {
                assert(0 <= m <= 99);
            }
            return Err("a media timestamp has no month key".to_string());
        }
        let ghost ym = (y as int, m as int);
        let mut p: usize = 0;
        while p < months.len() && (months[p].0 > y || (months[p].0 == y && months[p].1 > m))
            invariant
                p <= months.len(),
                ym == (y as int, m as int),
                forall|i: int| 0 <= i < p ==> later_month((months@[i].0 as int, months@[i].1 as int), ym),
            decreases months.len() - p,
        {
            p = p + 1;
        }
        let ghost old_months = months@;
        let ghost old_counts = counts@;
        assert(year_month_of(s.media[j as int].timestamp_ms as int) == ym);
        assert forall|x: (int, int)| x != ym implies bucket_count(s, x, j + 1) == bucket_count(s, x, j as int) by {}
        assert(bucket_count(s, ym, j + 1) == bucket_count(s, ym, j as int) + 1);
        if p < months.len() && months[p].0 == y && months[p].1 == m {
            let c = counts[p];
            counts.set(p, c + 1);
            assert forall|i: int| 0 <= i < months.len() implies counts@[i] == bucket_count(s, (months@[i].0 as int, months@[i].1 as int), j + 1)
                && counts@[i] > 0 && counts@[i] <= j + 1 by {
                if i != p {
                    assert(counts@[i] == old_counts[i]);
                    if i < p {
                        assert(later_month((months@[i].0 as int, months@[i].1 as int), (months@[p as int].0 as int, months@[p as int].1 as int)));
                    } else {
                        assert(later_month((months@[p as int].0 as int, months@[p as int].1 as int), (months@[i].0 as int, months@[i].1 as int)));
                    }
                    assert((months@[i].0 as int, months@[i].1 as int) != ym);
                } else {
                    assert(months@[i] == old_months[i]);
                    assert(counts@[i] == old_counts[i] + 1);
                    assert((months@[i].0 as int, months@[i].1 as int) == ym);
                    assert(old_counts[i] == bucket_count(s, ym, j as int));
                }
            }
        } else {
            proof {
                assert forall|i: int| 0 <= i < old_months.len() implies (old_months[i].0 as int, old_months[i].1 as int) != ym by {
                    if i < p {
                    } else {
                        assert(!later_month((old_months[p as int].0 as int, old_months[p as int].1 as int), ym));
                        if i > p {
                            assert(later_month(
                                (old_months[p as int].0 as int, old_months[p as int].1 as int),
                                (old_months[i].0 as int, old_months[i].1 as int),
                            ));
                        }
                    }
                }
                lemma_bucket_count_nonneg(s, ym, j as int);
                if bucket_count(s, ym, j as int) > 0 {
                    lemma_bucket_count_positive(s, ym, j as int);
                    let q = choose|q: int| 0 <= q < j && year_month_of(#[trigger] s.media[q].timestamp_ms as int) == ym;
                    assert(month_listed(old_months, ym));
                    let i0 = choose|i: int| 0 <= i < old_months.len() && #[trigger] old_months[i].0 == ym.0 && old_months[i].1 == ym.1;
                    assert((old_months[i0].0 as int, old_months[i0].1 as int) != ym);
                }
                assert(bucket_count(s, ym, j as int) == 0);
            }
            months.insert(p, (y, m));
            counts.insert(p, 1);
            assert forall|i: int| 0 <= i < months.len() implies counts@[i] == bucket_count(s, (months@[i].0 as int, months@[i].1 as int), j + 1)
                && counts@[i] > 0 && counts@[i] <= j + 1 by {
                if i < p {
                    assert(counts@[i] == old_counts[i] && months@[i] == old_months[i]);
                    assert((months@[i].0 as int, months@[i].1 as int) != ym);
                } else if i > p {
                    assert(counts@[i] == old_counts[i - 1] && months@[i] == old_months[i - 1]);
                    assert((months@[i].0 as int, months@[i].1 as int) != ym);
                } else {
                    assert(counts@[i] == 1 && months@[i] == (y, m));
                    assert(bucket_count(s, ym, j as int) == 0);
                }
            }
        }
        assert forall|i: int, k: int| 0 <= i < k < months.len() implies later_month(
            (months@[i].0 as int, months@[i].1 as int),
            (months@[k].0 as int, months@[k].1 as int),
        ) by {
            if months.len() > old_months.len() {
                if k < p {
                } else if k == p {
                    assert(months@[i] == old_months[i]);
                } else if i == p {
                    assert(months@[k] == old_months[k - 1]);
                    if k - 1 > p {
                        assert(later_month(
                            (old_months[p as int].0 as int, old_months[p as int].1 as int),
                            (old_months[k - 1].0 as int, old_months[k - 1].1 as int),
                        ));
                    }
                } else if i > p {
                    assert(months@[i] == old_months[i - 1] && months@[k] == old_months[k - 1]);
                } else {
                    assert(months@[i] == old_months[i] && months@[k] == old_months[k - 1]);
                }
            }
        }
        assert forall|q: int| 0 <= q < j + 1 implies month_listed(months@, year_month_of(#[trigger] s.media[q].timestamp_ms as int)) by {
            let x = year_month_of(s.media[q].timestamp_ms as int);
            if q == j {
                assert(months@[p as int] == (y, m));
                assert(months@[p as int].0 == x.0 && months@[p as int].1 == x.1);
            } else {
                assert(month_listed(old_months, x));
                let i0 = choose|i: int| 0 <= i < old_months.len() && #[trigger] old_months[i].0 == x.0 && old_months[i].1 == x.1;
                if months.len() > old_months.len() && i0 >= p {
                    assert(months@[i0 + 1] == old_months[i0]);
                    assert(months@[i0 + 1].0 == x.0 && months@[i0 + 1].1 == x.1);
                } else {
                    assert(months@[i0] == old_months[i0]);
                    assert(months@[i0].0 == x.0 && months@[i0].1 == x.1);
                }
            }
        }
    }
    if n as u64 > i64::MAX as u64 {
        return Err("too many media items".to_string());
    }
    let mut entries: Vec<TimelineEntry> = Vec::new();
    for i in 0..months.len()
        invariant
            n == s.media.len(),
            n <= i64::MAX,
            months.len() == counts.len(),
            forall|k: int| 0 <= k < months.len() ==> counts@[k] == bucket_count(s, (months@[k].0 as int, months@[k].1 as int), n as int)
                && counts@[k] > 0 && counts@[k] <= n,
            forall|k: int| 0 <= k < months.len() ==> 0 <= #[trigger] months@[k].0 <= 9999 && 0 <= months@[k].1 <= 99,
            entries.len() == i,
            forall|k: int| 0 <= k < i ==> {
                &&& (#[trigger] entries@[k]).month_key@ == month_key_text(months@[k].0 as int, months@[k].1 as int)
                &&& entries@[k].label@ == month_label(entries@[k].month_key@)
                &&& entries@[k].count == bucket_count(s, (months@[k].0 as int, months@[k].1 as int), n as int)
                &&& entries@[k].count > 0
            },
    {
        let (y, m) = months[i];
        let key = month_key_string(y, m);
        let label = format_month_label(key.as_str());
        entries.push(TimelineEntry { label, month_key: key, count: counts[i] as i64 });
    }
    let ghost yms = months@.map_values(|x: (i64, i64)| (x.0 as int, x.1 as int));
    assert(is_timeline(s, entries@, yms)) by {
        assert forall|q: int| 0 <= q < s.media.len() implies yms.contains(#[trigger] year_month_of(s.media[q].timestamp_ms as int)) by {
            let x = year_month_of(s.media[q].timestamp_ms as int);
            assert(month_listed(months@, x));
            let i0 = choose|i: int| 0 <= i < months.len() && #[trigger] months@[i].0 == x.0 && months@[i].1 == x.1;
            assert(yms[i0] == x);
        }
    }
    assert(is_timeline(store@, entries@, yms));
    assert(exists|w: Seq<(int, int)>| #[trigger] is_timeline(store@, entries@, w));
    let r: Result<Vec<TimelineEntry>, String> = Ok(entries);
    assert(r->Ok_0@ == entries@);
    r
}

} // verus!
