//! JSON text framed from strings that serde_json encodes.
use vstd::prelude::*;
use crate::keyed::pairs_view;

verus! {

#[verifier::external_type_specification]
#[verifier::external_body]
pub struct ExJsonError(serde_json::Error);

/// A lowercase hexadecimal digit.
pub open spec fn hex_digit(d: nat) -> char {
    if d < 10 {
        (('0' as u32) + d) as char
    } else {
        (('a' as u32) + (d - 10)) as char
    }
}

/// How a JSON string literal writes one character: quote and backslash
/// escaped, the short escapes for backspace, tab, line feed, form feed and
/// carriage return, other control characters as `\u00xx`, the rest as is.
pub open spec fn json_char_escape(c: char) -> Seq<char> {
    if c == '"' {
        seq!['\\', '"']
    } else if c == '\\' {
        seq!['\\', '\\']
    } else if c == '\u{8}' {
        seq!['\\', 'b']
    } else if c == '\t' {
        seq!['\\', 't']
    } else if c == '\n' {
        seq!['\\', 'n']
    } else if c == '\u{c}' {
        seq!['\\', 'f']
    } else if c == '\r' {
        seq!['\\', 'r']
    } else if (c as u32) < 0x20 {
        seq!['\\', 'u', '0', '0', hex_digit((c as u32 / 16) as nat), hex_digit((c as u32 % 16) as nat)]
    } else {
        seq![c]
    }
}

/// The characters of a text, each written as a JSON string literal writes it.
pub open spec fn json_escaped(s: Seq<char>) -> Seq<char>
    decreases s.len(),
{
    if s.len() == 0 {
        Seq::empty()
    } else {
        json_escaped(s.drop_last()) + json_char_escape(s.last())
    }
}

/// The JSON string literal of a text: the escaped text between quotes.
pub open spec fn json_string_of(s: Seq<char>) -> Seq<char> {
    seq!['"'] + json_escaped(s) + seq!['"']
}

/// Relies on serde_json::to_string applied to a `str`: it writes the JSON
/// string literal of the text into a `Vec`, which cannot fail, escaping each
/// character by serde_json's escape table and `write_char_escape`.
#[verifier::external_body]
fn json_string(s: &str) -> (r: Result<String, serde_json::Error>)
    ensures
        r is Ok,
        r matches Ok(j) ==> j@ == json_string_of(s@),
{
    serde_json::to_string(s)
}

/// One member of a JSON object: an encoded key, a colon and an encoded value.
pub open spec fn json_member(m: (Seq<char>, Seq<char>)) -> Seq<char> {
    m.0 + seq![':'] + m.1
}

/// The members of a JSON object, in order, separated by commas.
pub open spec fn json_members(s: Seq<(Seq<char>, Seq<char>)>) -> Seq<char>
    decreases s.len(),
{
    if s.len() == 0 {
        Seq::empty()
    } else if s.len() == 1 {
        json_member(s[0])
    } else {
        json_members(s.drop_last()) + seq![','] + json_member(s.last())
    }
}

/// A JSON object of already encoded keys and values.
pub open spec fn json_object_of(s: Seq<(Seq<char>, Seq<char>)>) -> Seq<char> {
    seq!['{'] + json_members(s) + seq!['}']
}

/// Each key and value replaced by its JSON string literal.
pub open spec fn encoded_pairs(s: Seq<(Seq<char>, Seq<char>)>) -> Seq<(Seq<char>, Seq<char>)> {
    s.map_values(|p: (Seq<char>, Seq<char>)| (json_string_of(p.0), json_string_of(p.1)))
}

/// Frames members whose keys and values are already JSON text into an object.
pub fn json_object(members: &Vec<(String, String)>) -> (r: String)
    ensures
        r@ == json_object_of(pairs_view(members@)),
{
    proof {
        reveal_strlit("{");
    }
    let ghost all = pairs_view(members@);
    let mut s = String::from_str("{");
    let mut i: usize = 0;
    while i < members.len()
        invariant
            i <= members.len(),
            all == pairs_view(members@),
            s@ == seq!['{'] + json_members(all.subrange(0, i as int)),
        decreases members.len() - i,
    {
        proof {
            reveal_strlit(",");
            reveal_strlit(":");
        }
        let ghost prev = all.subrange(0, i as int);
        let ghost next = all.subrange(0, i + 1);
        assert(next.drop_last() =~= prev);
        assert(next.last() == all[i as int]);
        let ghost m = json_member(all[i as int]);
        if i > 0 {
            s.append(",");
        }
        let ghost sep = s@;
        let key = members[i].0.as_str();
        let value = members[i].1.as_str();
        assert(key@ == all[i as int].0 && value@ == all[i as int].1);
        s.append(key);
        s.append(":");
        s.append(value);
        assert(s@ =~= sep + m);
        proof {
            if i == 0 {
                assert(s@ =~= seq!['{'] + json_members(next));
            } else {
                assert(json_members(next) == json_members(prev) + seq![','] + m);
                assert(s@ =~= seq!['{'] + json_members(next));
            }
        }
        i = i + 1;
    }
    assert(all.subrange(0, i as int) =~= all);
    proof {
        reveal_strlit("}");
    }
    s.append("}");
    s
}

/// Encodes a text as a JSON string literal.
pub fn encode_str(s: &str) -> (r: String)
    ensures
        r@ == json_string_of(s@),
{
    match json_string(s) {
        Ok(j) => j,
        Err(_) => String::new(),
    }
}

/// Encodes each key and value of a list of pairs as a JSON string literal.
pub fn encode_pairs(pairs: &Vec<(String, String)>) -> (r: Vec<(String, String)>)
    ensures
        pairs_view(r@) == encoded_pairs(pairs_view(pairs@)),
{
    let mut out: Vec<(String, String)> = Vec::new();
    let mut i: usize = 0;
    while i < pairs.len()
        invariant
            i <= pairs.len(),
            pairs_view(out@) == encoded_pairs(pairs_view(pairs@.subrange(0, i as int))),
        decreases pairs.len() - i,
    {
        let k = encode_str(pairs[i].0.as_str());
        let v = encode_str(pairs[i].1.as_str());
        let ghost prev = pairs_view(pairs@.subrange(0, i as int));
        let ghost next = pairs_view(pairs@.subrange(0, i + 1));
        assert(next =~= prev.push((pairs@[i as int].0@, pairs@[i as int].1@)));
        assert(encoded_pairs(next) =~= encoded_pairs(prev).push((k@, v@)));
        out.push((k, v));
        assert(pairs_view(out@) =~= encoded_pairs(next));
        i = i + 1;
    }
    assert(pairs@.subrange(0, i as int) =~= pairs@);
    out
}

} // verus!
