//! Which files of a project are looked at: those with one of the wanted
//! extensions whose path holds none of the ignored texts.

use crate::text::{lemma_encoding_is_injective, lemma_encoding_of_concat, same_text};
use vstd::prelude::*;
use vstd::string::StringSliceAdditionalSpecFns;
use vstd::utf8::{
    decode_utf8, decode_utf8_encode_utf8, encode_utf8, encode_utf8_valid_utf8, is_char_boundary,
    is_char_boundary_iff_not_is_continuation_byte, partial_valid_partial_invalid_utf8,
    valid_utf8, valid_utf8_split,
};

verus! {

/// Whether `part` stands in `whole` at the place `k`.
pub open spec fn stands_at<T>(whole: Seq<T>, part: Seq<T>, k: int) -> bool {
    0 <= k && k + part.len() <= whole.len() && whole.subrange(k, k + part.len()) == part
}

/// Whether `part` stands somewhere in `whole`. The empty text stands in
/// every text.
pub open spec fn holds_part<T>(whole: Seq<T>, part: Seq<T>) -> bool {
    exists|k: int| stands_at(whole, part, k)
}

/// A text holds another exactly when its encoding holds the encoding of the
/// other.
pub proof fn lemma_part_of_encoding(whole: Seq<char>, part: Seq<char>)
    ensures
        holds_part(whole, part) <==> holds_part(encode_utf8(whole), encode_utf8(part)),
{
    let bytes = encode_utf8(whole);
    let wanted = encode_utf8(part);
    encode_utf8_valid_utf8(whole);
    encode_utf8_valid_utf8(part);
    if holds_part(whole, part) {
        let k = choose|k: int| stands_at(whole, part, k);
        let front = whole.subrange(0, k);
        let back = whole.subrange(k + part.len(), whole.len() as int);
        assert(whole =~= front + part + back);
        lemma_encoding_of_concat(front, part);
        lemma_encoding_of_concat(front + part, back);
        let at = encode_utf8(front).len() as int;
        assert(bytes.subrange(at, at + wanted.len()) =~= wanted);
        assert(stands_at(bytes, wanted, at));
    }
    if holds_part(bytes, wanted) {
        if part.len() == 0 {
            assert(whole.subrange(0, 0) =~= part);
            assert(stands_at(whole, part, 0));
        } else {
            let at = choose|at: int| stands_at(bytes, wanted, at);
            if wanted.len() == 0 {
                assert(wanted =~= encode_utf8(Seq::<char>::empty()));
                lemma_encoding_is_injective(part, Seq::empty());
            }
            is_char_boundary_iff_not_is_continuation_byte(wanted, 0);
            assert(bytes[at] == bytes.subrange(at, at + wanted.len())[0]);
            is_char_boundary_iff_not_is_continuation_byte(bytes, at);
            valid_utf8_split(bytes, at);
            let head = bytes.subrange(0, at);
            let rest = bytes.subrange(at, bytes.len() as int);
            let tail = rest.subrange(wanted.len() as int, rest.len() as int);
            assert(rest.subrange(0, wanted.len() as int) =~= wanted);
            if !valid_utf8(tail) {
                partial_valid_partial_invalid_utf8(rest, wanted.len() as int);
            }
            let front = decode_utf8(head);
            let back = decode_utf8(tail);
            decode_utf8_encode_utf8(head);
            decode_utf8_encode_utf8(tail);
            lemma_encoding_of_concat(front, part);
            lemma_encoding_of_concat(front + part, back);
            assert(bytes =~= head + wanted + tail);
            lemma_encoding_is_injective(whole, front + part + back);
            assert((front + part + back).subrange(
                front.len() as int,
                (front.len() + part.len()) as int,
            ) =~= part);
            assert(stands_at(whole, part, front.len() as int));
        }
    }
}

/// Whether `part` stands in `whole` at the place `at`.
fn bytes_stand_at(whole: &[u8], part: &[u8], at: usize) -> (found: bool)
    requires
        at + part.len() <= whole.len(),
    ensures
        found == stands_at(whole@, part@, at as int),
{
    let mut i: usize = 0;
    while i < part.len()
        invariant
            i <= part.len(),
            at + part.len() <= whole.len(),
            forall|j: int| 0 <= j < i ==> whole@[at + j] == part@[j],
        decreases part.len() - i,
    {
        if whole[at + i] != part[i] {
            assert(whole@.subrange(at as int, at + part@.len())[i as int] != part@[i as int]);
            return false;
        }
        i = i + 1;
    }
    assert(whole@.subrange(at as int, at + part@.len()) =~= part@);
    true
}

/// Whether `part` stands somewhere in `text`.
pub fn contains(text: &str, part: &str) -> (found: bool)
    ensures
        found == holds_part(text@, part@),
{
    proof {
        lemma_part_of_encoding(text@, part@);
    }
    let whole = text.as_bytes();
    let wanted = part.as_bytes();
    if wanted.len() > whole.len() {
        return false;
    }
    let last: usize = whole.len() - wanted.len();
    let mut at: usize = 0;
    loop
        invariant
            at <= last,
            last == whole.len() - wanted.len(),
            wanted.len() <= whole.len(),
            whole@ == encode_utf8(text@),
            wanted@ == encode_utf8(part@),
            holds_part(text@, part@) <==> holds_part(whole@, wanted@),
            forall|k: int| 0 <= k < at ==> !stands_at(whole@, wanted@, k),
        decreases last - at,
    {
        if bytes_stand_at(whole, wanted, at) {
            assert(holds_part(whole@, wanted@));
            return true;
        }
        if at == last {
            return false;
        }
        at = at + 1;
    }
}

/// Whether some text of `parts` stands in `text`.
pub open spec fn holds_any(text: Seq<char>, parts: Seq<String>) -> bool {
    exists|i: int| 0 <= i < parts.len() && holds_part(text, (#[trigger] parts[i])@)
}

/// Whether `extension` is one of `suffixes`.
pub open spec fn is_among(extension: Seq<char>, suffixes: Seq<String>) -> bool {
    exists|i: int| 0 <= i < suffixes.len() && (#[trigger] suffixes[i])@ == extension
}

/// Whether the file at `path`, with the extension `extension` if it has
/// one, is looked at: its extension is one of `suffixes`, and none of
/// `ignore` stands in its path.
pub open spec fn is_wanted(
    path: Seq<char>,
    extension: Option<Seq<char>>,
    suffixes: Seq<String>,
    ignore: Seq<String>,
) -> bool {
    &&& !holds_any(path, ignore)
    &&& extension matches Some(e) && is_among(e, suffixes)
}

/// Whether the file at `path` is looked at.
pub fn wanted(path: &str, extension: Option<&str>, suffixes: &Vec<String>, ignore: &Vec<String>) -> (out:
    bool)
    ensures
        out == is_wanted(
            path@,
            match extension {
                Some(e) => Some(e@),
                None => None,
            },
            suffixes@,
            ignore@,
        ),
{
    let mut i: usize = 0;
    while i < ignore.len()
        invariant
            i <= ignore.len(),
            forall|j: int| 0 <= j < i ==> !holds_part(path@, (#[trigger] ignore@[j])@),
        decreases ignore.len() - i,
    {
        if contains(path, ignore[i].as_str()) {
            return false;
        }
        i = i + 1;
    }
    assert(!holds_any(path@, ignore@));
    match extension {
        Some(e) => {
            let mut s: usize = 0;
            while s < suffixes.len()
                invariant
                    s <= suffixes.len(),
                    extension == Some(e),
                    !holds_any(path@, ignore@),
                    forall|j: int| 0 <= j < s ==> (#[trigger] suffixes@[j])@ != e@,
                decreases suffixes.len() - s,
            {
                if same_text(suffixes[s].as_str(), e) {
                    assert(is_among(e@, suffixes@));
                    return true;
                }
                s = s + 1;
            }
            false
        },
        None => false,
    }
}

} // verus!
