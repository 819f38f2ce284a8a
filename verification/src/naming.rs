//! Names of synthesized types, derived from the field key under which a
//! nested value was found.

use vstd::prelude::*;
use crate::text::ascii_upper;

verus! {

/// The characters at which a field key is split into pieces.
pub open spec fn is_separator(c: char) -> bool {
    c == '-' || c == '_'
}

/// The pieces of `key` between separators, each with its first character
/// upper-cased, joined without the separators.
///
/// Character by character: a separator is dropped; a character that opens a
/// piece (the first of the key, or one right after a separator) is
/// upper-cased; every other character is kept.
pub open spec fn pascal_case(key: Seq<char>) -> Seq<char>
    decreases key.len(),
{
    if key.len() == 0 {
        Seq::empty()
    } else {
        let head = pascal_case(key.drop_last());
        let c = key.last();
        if is_separator(c) {
            head
        } else if key.len() == 1 || is_separator(key[key.len() - 2]) {
            head.push(ascii_upper(c))
        } else {
            head.push(c)
        }
    }
}

/// The suffix that marks a synthesized type name.
pub open spec fn name_suffix() -> Seq<char> {
    seq!['D', 'a', 't', 'a']
}

/// The name of the type synthesized for values found under `key`.
pub open spec fn derived_name(key: Seq<char>) -> Seq<char> {
    pascal_case(key) + name_suffix()
}

/// Splits `s` on `-` and `_`, upper-cases the first character of each piece
/// and joins the pieces.
pub fn to_kebab_case(s: &str) -> (out: String)
    ensures
        out@ == pascal_case(s@),
{
    let mut out = String::new();
    let mut piece_start = true;
    for c in it: s.chars()
        invariant
            it.seq() == s@,
            out@ == pascal_case(s@.take(it.index() as int)),
            piece_start == (it.index() == 0 || is_separator(it.seq()[it.index() - 1])),
    {
        let ghost i = it.index() as int;
        assert(it.seq().take(i + 1).drop_last() == it.seq().take(i));
        if c == '-' || c == '_' {
            piece_start = true;
        } else if piece_start {
            out.push(c.to_ascii_uppercase());
            piece_start = false;
        } else {
            out.push(c);
        }
    }
    assert(s@.take(s@.len() as int) == s@);
    out
}

/// The name under which the type synthesized for `key` is registered: the
/// pieces of the key in Pascal case, followed by `Data`.
pub fn derive_name(key: &str) -> (name: String)
    ensures
        name@ == derived_name(key@),
{
    let mut name = to_kebab_case(key);
    proof {
        reveal_strlit("Data");
        assert("Data"@ == name_suffix());
    }
    name.append("Data");
    name
}

/// A piece without separators comes out with its first character
/// upper-cased and the others as they are.
pub proof fn lemma_pascal_piece(piece: Seq<char>)
    requires
        piece.len() > 0,
        forall|i: int| 0 <= i < piece.len() ==> !is_separator(piece[i]),
    ensures
        pascal_case(piece) == seq![ascii_upper(piece[0])] + piece.subrange(1, piece.len() as int),
    decreases piece.len(),
{
    let n = piece.len() as int;
    if n == 1 {
        assert(pascal_case(piece.drop_last()) =~= Seq::<char>::empty());
        assert(pascal_case(piece) =~= seq![ascii_upper(piece[0])] + piece.subrange(1, n));
    } else {
        let head = piece.drop_last();
        lemma_pascal_piece(head);
        assert(!is_separator(piece[n - 2]));
        assert(pascal_case(piece) == pascal_case(head).push(piece[n - 1]));
        assert(pascal_case(piece) =~= seq![ascii_upper(piece[0])] + piece.subrange(1, n));
    }
}

/// A separator splits a key: what stands before it and what stands after it
/// come out one after the other, without the separator.
pub proof fn lemma_pascal_split(before: Seq<char>, separator: char, after: Seq<char>)
    requires
        is_separator(separator),
    ensures
        pascal_case(before.push(separator) + after) == pascal_case(before) + pascal_case(after),
    decreases after.len(),
{
    let key = before.push(separator) + after;
    if after.len() == 0 {
        assert(key =~= before.push(separator));
        assert(key.drop_last() =~= before);
        assert(pascal_case(before) + pascal_case(after) =~= pascal_case(before));
    } else {
        assert(key.drop_last() =~= before.push(separator) + after.drop_last());
        lemma_pascal_split(before, separator, after.drop_last());
        assert(key.last() == after.last());
        if after.len() == 1 {
            assert(key[key.len() - 2] == separator);
        } else {
            assert(key[key.len() - 2] == after[after.len() - 2]);
        }
        assert(pascal_case(key) =~= pascal_case(before) + pascal_case(after));
    }
}

} // verus!
