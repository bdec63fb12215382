//! Texts and their beginnings. A text is compared by its bytes; that this
//! says the same of its characters is proved here.

use vstd::prelude::*;
use vstd::string::{StrSliceExecFns, StringExecFns, StringSliceAdditionalSpecFns};
use vstd::utf8::{
    decode_utf8, decode_utf8_encode_utf8, encode_scalar, encode_utf8, encode_utf8_decode_utf8,
    encode_utf8_first_scalar, encode_utf8_valid_utf8, is_char_boundary,
    partial_valid_partial_invalid_utf8, pop_first_scalar, valid_utf8,
};

verus! {

/// The encoding of two texts, one behind the other, is the encoding of the
/// first followed by the encoding of the second.
pub proof fn lemma_encoding_of_concat(a: Seq<char>, b: Seq<char>)
    ensures
        encode_utf8(a + b) == encode_utf8(a) + encode_utf8(b),
    decreases a.len(),
{
    if a.len() == 0 {
        assert(a + b =~= b);
        assert(encode_utf8(a) + encode_utf8(b) =~= encode_utf8(b));
    } else {
        lemma_encoding_of_concat(a.drop_first(), b);
        assert((a + b).drop_first() =~= a.drop_first() + b);
        assert((a + b)[0] == a[0]);
        assert(encode_utf8(a + b) =~= encode_utf8(a) + encode_utf8(b));
    }
}

/// Two texts with the same encoding are the same text.
pub proof fn lemma_encoding_is_injective(a: Seq<char>, b: Seq<char>)
    requires
        encode_utf8(a) == encode_utf8(b),
    ensures
        a == b,
{
    encode_utf8_decode_utf8(a);
    encode_utf8_decode_utf8(b);
}

/// In the encoding of two texts, one behind the other, a character starts
/// where the encoding of the first ends.
pub proof fn lemma_boundary_behind(front: Seq<char>, back: Seq<char>)
    ensures
        is_char_boundary(encode_utf8(front + back), encode_utf8(front).len() as int),
    decreases front.len(),
{
    let all = front + back;
    let bytes = encode_utf8(all);
    encode_utf8_valid_utf8(all);
    if front.len() > 0 {
        encode_utf8_first_scalar(all);
        assert(all[0] == front[0]);
        assert(all.drop_first() =~= front.drop_first() + back);
        assert(pop_first_scalar(bytes) =~= encode_utf8(all.drop_first()));
        lemma_boundary_behind(front.drop_first(), back);
        assert(encode_utf8(front).len() == encode_scalar(front[0] as u32).len() + encode_utf8(
            front.drop_first(),
        ).len());
        lemma_encoding_of_concat(front, back);
    }
}

/// One text starts with another exactly when its encoding starts with the
/// encoding of the other.
pub proof fn lemma_prefix_of_encoding(name: Seq<char>, root: Seq<char>)
    ensures
        root.is_prefix_of(name) <==> encode_utf8(root).is_prefix_of(encode_utf8(name)),
{
    let bytes = encode_utf8(name);
    let front = encode_utf8(root);
    if root.is_prefix_of(name) {
        let rest = name.skip(root.len() as int);
        assert(name =~= root + rest);
        lemma_encoding_of_concat(root, rest);
        assert((front + encode_utf8(rest)).subrange(0, front.len() as int) =~= front);
    }
    if front.is_prefix_of(bytes) {
        let k = front.len() as int;
        let back = bytes.subrange(k, bytes.len() as int);
        encode_utf8_valid_utf8(name);
        encode_utf8_valid_utf8(root);
        if !valid_utf8(back) {
            partial_valid_partial_invalid_utf8(bytes, k);
        }
        let rest = decode_utf8(back);
        decode_utf8_encode_utf8(back);
        lemma_encoding_of_concat(root, rest);
        assert(bytes =~= front + back);
        lemma_encoding_is_injective(name, root + rest);
        assert((root + rest).subrange(0, root.len() as int) =~= root);
    }
}

/// Whether `a` starts with `b`.
fn bytes_start_with(a: &[u8], b: &[u8]) -> (found: bool)
    ensures
        found == b@.is_prefix_of(a@),
{
    if b.len() > a.len() {
        return false;
    }
    let mut i: usize = 0;
    while i < b.len()
        invariant
            i <= b.len() <= a.len(),
            forall|j: int| 0 <= j < i ==> a@[j] == b@[j],
        decreases b.len() - i,
    {
        if a[i] != b[i] {
            assert(a@.subrange(0, b@.len() as int)[i as int] != b@[i as int]);
            return false;
        }
        i = i + 1;
    }
    assert(a@.subrange(0, b@.len() as int) =~= b@);
    true
}

/// Whether `s` starts with `prefix`.
pub fn starts_with(s: &str, prefix: &str) -> (found: bool)
    ensures
        found == prefix@.is_prefix_of(s@),
{
    proof {
        lemma_prefix_of_encoding(s@, prefix@);
    }
    bytes_start_with(s.as_bytes(), prefix.as_bytes())
}

/// Whether two texts are the same.
pub fn same_text(a: &str, b: &str) -> (same: bool)
    ensures
        same == (a@ == b@),
{
    let x = a.as_bytes();
    let y = b.as_bytes();
    let same = x.len() == y.len() && bytes_start_with(x, y);
    proof {
        if same {
            assert(x@.subrange(0, y@.len() as int) =~= x@);
            lemma_encoding_is_injective(a@, b@);
        }
        if a@ == b@ {
            assert(x@.subrange(0, y@.len() as int) =~= y@);
        }
    }
    same
}

/// What is left of `name` behind `front`, where `name` starts with `front`.
pub open spec fn behind(name: Seq<char>, front: Seq<char>) -> Option<Seq<char>> {
    if front.is_prefix_of(name) {
        Some(name.skip(front.len() as int))
    } else {
        None
    }
}

/// The rest of `name` behind `front`, where `name` starts with `front`.
pub fn strip_front(name: &str, front: &str) -> (out: Option<String>)
    ensures
        match out {
            Some(rest) => behind(name@, front@) == Some(rest@),
            None => behind(name@, front@) is None,
        },
{
    proof {
        lemma_prefix_of_encoding(name@, front@);
    }
    let bytes = front.as_bytes();
    if !bytes_start_with(name.as_bytes(), bytes) {
        return None;
    }
    let ghost tail = name@.skip(front@.len() as int);
    proof {
        assert(name@ =~= front@ + tail);
        lemma_boundary_behind(front@, tail);
        lemma_encoding_of_concat(front@, tail);
    }
    let (_, rest) = name.split_at(bytes.len());
    proof {
        assert(rest.spec_bytes() =~= encode_utf8(tail)) by {
            assert((encode_utf8(front@) + encode_utf8(tail)).subrange(
                encode_utf8(front@).len() as int,
                (encode_utf8(front@) + encode_utf8(tail)).len() as int,
            ) =~= encode_utf8(tail));
        }
        lemma_encoding_is_injective(rest@, tail);
    }
    Some(rest.to_owned())
}

/// The name of a root as the front of every name under it: the name with
/// the separator `/` behind it, unless it ends in the separator already.
pub open spec fn directory(root: Seq<char>) -> Seq<char> {
    if root.len() > 0 && root.last() == '/' {
        root
    } else {
        root.push('/')
    }
}

/// Whether `name` lies under `root`: it is the name of the root, the
/// separator, and whatever follows. A name that merely starts with the text
/// of the root, as `/px/y` starts with `/p`, does not lie under it.
pub open spec fn lies_under(name: Seq<char>, root: Seq<char>) -> bool {
    directory(root).is_prefix_of(name)
}

/// The name of `name` relative to `root`: what follows the root and the
/// separator, where `name` lies under `root`.
pub open spec fn relative_to(name: Seq<char>, root: Seq<char>) -> Option<Seq<char>> {
    behind(name, directory(root))
}

/// The name of a root as the front of every name under it.
pub fn directory_of(root: &str) -> (out: String)
    ensures
        out@ == directory(root@),
{
    let count = root.unicode_len();
    let mut out = root.to_owned();
    if count == 0 || root.get_char(count - 1) != '/' {
        proof {
            reveal_strlit("/");
            assert("/"@ =~= seq!['/']);
        }
        out.append("/");
        assert(out@ =~= root@.push('/'));
    }
    out
}

/// The name of `name` relative to `root`, where `name` lies under `root`.
pub fn strip_root(name: &str, root: &str) -> (out: Option<String>)
    ensures
        match out {
            Some(rest) => relative_to(name@, root@) == Some(rest@),
            None => relative_to(name@, root@) is None,
        },
{
    let front = directory_of(root);
    strip_front(name, front.as_str())
}

/// Whether `name` lies under `root`.
pub fn is_under(name: &str, root: &str) -> (under: bool)
    ensures
        under == lies_under(name@, root@),
{
    let front = directory_of(root);
    starts_with(name, front.as_str())
}

/// Two names under one root that have the same relative name are the same
/// name.
pub proof fn lemma_relative_is_injective(a: Seq<char>, b: Seq<char>, root: Seq<char>)
    requires
        relative_to(a, root) is Some,
        relative_to(a, root) == relative_to(b, root),
    ensures
        a == b,
{
    let n = directory(root).len() as int;
    assert(a =~= a.subrange(0, n) + a.skip(n));
    assert(b =~= b.subrange(0, n) + b.skip(n));
}

/// A relative name does not start at the separator: the separator between
/// the root and the rest belongs to neither.
pub proof fn lemma_relative_drops_separator(root: Seq<char>, rest: Seq<char>)
    requires
        root.len() == 0 || root.last() != '/',
    ensures
        relative_to(root + seq!['/'] + rest, root) == Some(rest),
        rest.len() > 0 && rest[0] != '/' ==> relative_to(root + rest, root) is None,
{
    let front = directory(root);
    assert(front =~= root + seq!['/']);
    let name = root + seq!['/'] + rest;
    assert(name.subrange(0, front.len() as int) =~= front);
    assert(name.skip(front.len() as int) =~= rest);
    if rest.len() > 0 && rest[0] != '/' {
        let other = root + rest;
        if front.is_prefix_of(other) {
            assert(other.subrange(0, front.len() as int)[root.len() as int] == '/');
            assert(other[root.len() as int] == rest[0]);
        }
    }
}

} // verus!
