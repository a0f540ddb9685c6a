use vstd::prelude::*;
use crate::mojibake::chars_of;

verus! {

/// ASCII letters folded to lowercase; other characters unchanged.
pub open spec fn fold_char(c: char) -> char {
    if 'A' <= c && c <= 'Z' {
        (((c as u32) + 32) as u8) as char
    } else {
        c
    }
}

fn fold_char_exec(c: char) -> (r: char)
    ensures
        r == fold_char(c),
{
    if 'A' <= c && c <= 'Z' {
        (((c as u32) + 32) as u8) as char
    } else {
        c
    }
}

/// `needle` occurs in `hay` at index `i`, ignoring ASCII case.
pub open spec fn occurs_at(hay: Seq<char>, needle: Seq<char>, i: int) -> bool {
    0 <= i && i + needle.len() <= hay.len() && forall|k: int| 0 <= k < needle.len() ==> fold_char(#[trigger] hay[i + k]) == fold_char(needle[k])
}

/// `needle` occurs somewhere in `hay`, ignoring ASCII case (a `LIKE '%needle%'`).
pub open spec fn contains_ci(hay: Seq<char>, needle: Seq<char>) -> bool {
    exists|i: int| occurs_at(hay, needle, i)
}

/// Substring search ignoring ASCII case.
pub fn contains_ignoring_case(hay: &Vec<char>, needle: &Vec<char>) -> (r: bool)
    ensures
        r == contains_ci(hay@, needle@),
{
    if needle.len() > hay.len() {
        return false;
    }
    let last = hay.len() - needle.len();
    let mut i: usize = 0;
    while i <= last
        invariant
            last == hay.len() - needle.len(),
            needle.len() <= hay.len(),
            forall|q: int| 0 <= q < i ==> !occurs_at(hay@, needle@, q),
        decreases last + 1 - i,
    {
        let mut k: usize = 0;
        while k < needle.len() && fold_char_exec(hay[i + k]) == fold_char_exec(needle[k])
            invariant
                i <= last,
                last == hay.len() - needle.len(),
                k <= needle.len(),
                forall|q: int| 0 <= q < k ==> fold_char(hay@[i + q]) == fold_char(needle@[q]),
            decreases needle.len() - k,
        {
            k = k + 1;
        }
        if k == needle.len() {
            assert(occurs_at(hay@, needle@, i as int));
            return true;
        }
        assert(!occurs_at(hay@, needle@, i as int)) by {
            assert(fold_char(hay@[i + k]) != fold_char(needle@[k as int]));
        }
        i = i + 1;
    }
    assert forall|q: int| !occurs_at(hay@, needle@, q) by {
        if 0 <= q < i {
        } else if q > last {
        }
    }
    false
}

/// The punctuation that whole-word search treats as a space.
pub open spec fn is_word_break(c: char) -> bool {
    c == ',' || c == '.' || c == '!' || c == '?' || c == '"' || c == '\''
}

/// Content with punctuation turned into spaces and a space added at each end.
pub open spec fn padded_words(content: Seq<char>) -> Seq<char> {
    seq![' '] + content.map_values(|c: char| if is_word_break(c) { ' ' } else { c }) + seq![' ']
}

/// The term with a space added at each end.
pub open spec fn padded_term(term: Seq<char>) -> Seq<char> {
    seq![' '] + term + seq![' ']
}

/// Whole-word match: the space-padded term occurs in the punctuation-normalized,
/// space-padded content, ignoring ASCII case.
pub open spec fn word_match(content: Seq<char>, term: Seq<char>) -> bool {
    contains_ci(padded_words(content), padded_term(term))
}

/// The characters of `term` with a space added at each end.
pub fn padded_term_chars(term: &str) -> (r: Vec<char>)
    ensures
        r@ == padded_term(term@),
{
    let chars = chars_of(term);
    let mut out: Vec<char> = Vec::new();
    out.push(' ');
    for i in 0..chars.len()
        invariant
            chars@ == term@,
            out@ == seq![' '] + chars@.take(i as int),
    {
        out.push(chars[i]);
        assert(out@ =~= seq![' '] + chars@.take(i + 1));
    }
    out.push(' ');
    assert(out@ =~= padded_term(term@));
    out
}

/// The content normalized for whole-word search.
pub fn padded_word_chars(content: &str) -> (r: Vec<char>)
    ensures
        r@ == padded_words(content@),
{
    let chars = chars_of(content);
    let mut out: Vec<char> = Vec::new();
    out.push(' ');
    for i in 0..chars.len()
        invariant
            chars@ == content@,
            out@ == seq![' '] + chars@.take(i as int).map_values(|c: char| if is_word_break(c) { ' ' } else { c }),
    {
        let c = chars[i];
        let d = if c == ',' || c == '.' || c == '!' || c == '?' || c == '"' || c == '\'' { ' ' } else { c };
        out.push(d);
        assert(out@ =~= seq![' '] + chars@.take(i + 1).map_values(|c: char| if is_word_break(c) { ' ' } else { c }));
    }
    out.push(' ');
    assert(chars@.take(chars.len() as int) =~= chars@);
    assert(out@ =~= padded_words(content@));
    out
}

/// Whether `content` contains `term` as a whole word.
pub fn matches_whole_word(content: &str, term: &str) -> (r: bool)
    ensures
        r == word_match(content@, term@),
{
    let hay = padded_word_chars(content);
    let needle = padded_term_chars(term);
    contains_ignoring_case(&hay, &needle)
}

/// Whole-word search finds "cat" in "I have a cat." (the full stop counts as
/// a space) but not in "concatenate".
pub proof fn lemma_whole_word_cat()
    ensures
        word_match("I have a cat."@, "cat"@),
        !word_match("concatenate"@, "cat"@),
{
    reveal_strlit("I have a cat.");
    reveal_strlit("concatenate");
    reveal_strlit("cat");
    let hay = padded_words("I have a cat."@);
    let needle = padded_term("cat"@);
    assert(hay =~= seq![' ', 'I', ' ', 'h', 'a', 'v', 'e', ' ', 'a', ' ', 'c', 'a', 't', ' ', ' ']);
    assert(needle =~= seq![' ', 'c', 'a', 't', ' ']);
    assert(occurs_at(hay, needle, 9));
    let hay2 = padded_words("concatenate"@);
    assert(hay2 =~= seq![' ', 'c', 'o', 'n', 'c', 'a', 't', 'e', 'n', 'a', 't', 'e', ' ']);
    assert forall|i: int| !occurs_at(hay2, needle, i) by {
        if occurs_at(hay2, needle, i) {
            if i == 0 {
                assert(fold_char(hay2[i + 2]) == fold_char(needle[2]));
            } else {
                assert(fold_char(hay2[i + 0]) == fold_char(needle[0]));
                assert(hay2[i] != ' ');
            }
        }
    }
}

} // verus!
