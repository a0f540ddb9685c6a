use vstd::prelude::*;
use vstd::utf8::*;

verus! {

/// The characters of a string, in order.
pub fn chars_of(s: &str) -> (r: Vec<char>)
    ensures
        r@ == s@,
{
    let mut out: Vec<char> = Vec::new();
    for c in it: s.chars()
        invariant
            out@ == it.seq().take(it.index() as int),
            it.seq() == s@,
    {
        out.push(c);
    }
    out
}

/// Every character of `s` has a code point in 0x00..=0xFF.
pub open spec fn all_single_byte(s: Seq<char>) -> bool {
    forall|i: int| 0 <= i < s.len() ==> (s[i] as u32) <= 0xFF
}

/// The bytes obtained by reading each character's code point as one byte.
pub open spec fn latin1_bytes(s: Seq<char>) -> Seq<u8> {
    Seq::new(s.len(), |i: int| (s[i] as u32) as u8)
}

/// What the text repair yields: the UTF-8 reading of the single-byte code
/// points where that reading exists and differs from the input, else the input.
pub open spec fn repaired(s: Seq<char>) -> Seq<char> {
    if all_single_byte(s) && valid_utf8(latin1_bytes(s)) && decode_utf8(latin1_bytes(s)) != s {
        decode_utf8(latin1_bytes(s))
    } else {
        s
    }
}

/// The text `t` after its UTF-8 bytes were each read as one character.
pub open spec fn mis_encoded(t: Seq<char>) -> Seq<char> {
    encode_utf8(t).map_values(|b: u8| b as char)
}

/// Relies on `String::from_utf8`: `Ok` exactly when the bytes are valid
/// UTF-8, holding the characters they encode.
#[verifier::external_body]
fn string_from_utf8(bytes: Vec<u8>) -> (r: Option<String>)
    ensures
        r is Some <==> valid_utf8(bytes@),
        r is Some ==> r->Some_0@ == decode_utf8(bytes@),
{
    String::from_utf8(bytes).ok()
}

/// Repairs text whose UTF-8 bytes were read one byte per character.
pub fn fix_mojibake(input: &str) -> (r: String)
    ensures
        r@ == repaired(input@),
{
    let chars = chars_of(input);
    let mut bytes: Vec<u8> = Vec::new();
    let mut i: usize = 0;
    while i < chars.len()
        invariant
            chars@ == input@,
            i <= chars.len(),
            bytes@ == latin1_bytes(chars@.take(i as int)),
            all_single_byte(chars@.take(i as int)),
        decreases chars.len() - i,
    {
        let code = chars[i] as u32;
        if code > 0xFF {
            assert(!all_single_byte(input@));
            return input.to_string();
        }
        bytes.push(code as u8);
        i = i + 1;
        assert(chars@.take(i as int) =~= chars@.take(i - 1).push(chars@[i - 1]));
        assert(bytes@ =~= latin1_bytes(chars@.take(i as int)));
    }
    assert(chars@.take(i as int) =~= input@);
    match string_from_utf8(bytes) {
        Some(fixed) => {
            let original = input.to_string();
            if fixed == original {
                original
            } else {
                fixed
            }
        },
        None => input.to_string(),
    }
}

/// Repair is stable: where it leaves a text as it is, a second repair does too.
pub proof fn lemma_repair_fixed_point(x: Seq<char>)
    requires
        repaired(x) == x,
    ensures
        repaired(repaired(x)) == repaired(x),
{
}

/// Repair undoes a byte-per-character mis-reading of any text that repair
/// itself leaves unchanged, and repairing the result again changes nothing.
pub proof fn lemma_repair_mis_encoded(t: Seq<char>)
    requires
        repaired(t) == t,
    ensures
        repaired(mis_encoded(t)) == t,
        repaired(repaired(mis_encoded(t))) == repaired(mis_encoded(t)),
{
    let x = mis_encoded(t);
    let b = encode_utf8(t);
    assert forall|i: int| 0 <= i < x.len() implies (x[i] as u32) <= 0xFF by {
        assert(x[i] == b[i] as char);
    }
    assert(latin1_bytes(x) =~= b) by {
        assert forall|i: int| 0 <= i < b.len() implies latin1_bytes(x)[i] == b[i] by {
            assert(x[i] == b[i] as char);
        }
    }
    encode_utf8_valid_utf8(t);
    encode_utf8_decode_utf8(t);
}

} // verus!
