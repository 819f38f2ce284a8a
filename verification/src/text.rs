//! Text helpers shared by the rest of the crate: characters of a string,
//! ASCII upper-casing and the alphabetical order on texts.

use vstd::prelude::*;

verus! {

/// `String::push` appends exactly one character at the end of the string.
pub assume_specification[ std::string::String::push ](s: &mut std::string::String, c: char)
    ensures
        final(s)@ == old(s)@.push(c),
;

/// The upper-case form of an ASCII lower-case letter; any other character
/// is left as it is.
pub open spec fn ascii_upper(c: char) -> char {
    if 'a' <= c && c <= 'z' {
        ((c as u32) - 32) as char
    } else {
        c
    }
}

/// `char::to_ascii_uppercase` maps `a..=z` to `A..=Z` and changes nothing else.
pub assume_specification[ char::to_ascii_uppercase ](c: &char) -> (r: char)
    ensures
        r == ascii_upper(*c),
;

/// The characters of `s`, in order.
pub fn chars_of(s: &str) -> (out: Vec<char>)
    ensures
        out@ == s@,
{
    let mut out: Vec<char> = Vec::new();
    for c in it: s.chars()
        invariant
            out@ == it.seq().take(it.index() as int),
    {
        out.push(c);
    }
    out
}

/// The longest run of digits that a text may hold to be read as JSON.
pub const MAX_DIGIT_RUN: usize = 32767;

/// Whether `c` is one of the digits `0` to `9`.
pub open spec fn is_digit(c: char) -> bool {
    '0' <= c && c <= '9'
}

/// The number of digits that stand in a row right before position `i`.
pub open spec fn digit_run(text: Seq<char>, i: int) -> nat
    decreases i,
{
    if i <= 0 || i > text.len() || !is_digit(text[i - 1]) {
        0
    } else {
        1 + digit_run(text, i - 1)
    }
}

/// Whether no more than [`MAX_DIGIT_RUN`] digits stand in a row anywhere in
/// `text`.
pub open spec fn short_digit_runs(text: Seq<char>) -> bool {
    forall|i: int| 0 <= i <= text.len() ==> #[trigger] digit_run(text, i) <= MAX_DIGIT_RUN
}

/// Whether no more than [`MAX_DIGIT_RUN`] digits stand in a row anywhere in
/// `text`.
pub fn digit_runs_are_short(text: &str) -> (short: bool)
    ensures
        short == short_digit_runs(text@),
{
    let chars = chars_of(text);
    let mut run: usize = 0;
    let mut i: usize = 0;
    while i < chars.len()
        invariant
            i <= chars.len(),
            chars@ == text@,
            run == digit_run(text@, i as int),
            run <= MAX_DIGIT_RUN,
            forall|k: int| 0 <= k <= i ==> #[trigger] digit_run(text@, k) <= MAX_DIGIT_RUN,
        decreases chars.len() - i,
    {
        let c = chars[i];
        if '0' <= c && c <= '9' {
            run = run + 1;
            assert(digit_run(text@, i + 1) == run);
            if run > MAX_DIGIT_RUN {
                return false;
            }
        } else {
            run = 0;
        }
        i = i + 1;
    }
    true
}

/// Alphabetical order from position `i` on: at the first position at or
/// after `i` where the two texts differ, `a` has the smaller character, or
/// `a` ends there and `b` goes on.
pub open spec fn lex_less_from(a: Seq<char>, b: Seq<char>, i: int) -> bool
    decreases a.len() - i,
{
    if i < 0 || i >= b.len() {
        false
    } else if i >= a.len() {
        true
    } else if a[i] != b[i] {
        a[i] < b[i]
    } else {
        lex_less_from(a, b, i + 1)
    }
}

/// Whether `a` comes strictly before `b` in alphabetical order (character by
/// character, by code point; a proper prefix comes first).
pub open spec fn lex_less(a: Seq<char>, b: Seq<char>) -> bool {
    lex_less_from(a, b, 0)
}

/// How one text stands to another in alphabetical order.
#[derive(Clone, Copy, Debug)]
pub enum Place {
    Before,
    Same,
    After,
}

/// Compares two texts alphabetically.
pub fn compare_texts(a: &Vec<char>, b: &Vec<char>) -> (place: Place)
    ensures
        place is Before <==> lex_less(a@, b@),
        place is Same <==> a@ == b@,
        place is After <==> lex_less(b@, a@),
{
    let mut i: usize = 0;
    while i < a.len() && i < b.len()
        invariant
            i <= a.len(),
            i <= b.len(),
            forall|k: int| 0 <= k < i ==> a@[k] == b@[k],
            lex_less(a@, b@) == lex_less_from(a@, b@, i as int),
            lex_less(b@, a@) == lex_less_from(b@, a@, i as int),
        decreases a.len() - i,
    {
        if a[i] != b[i] {
            if a[i] < b[i] {
                return Place::Before;
            } else {
                return Place::After;
            }
        }
        i = i + 1;
    }
    if i < b.len() {
        Place::Before
    } else if i < a.len() {
        Place::After
    } else {
        assert(a@ =~= b@);
        Place::Same
    }
}

/// No text comes before itself.
pub proof fn lemma_lex_irreflexive(a: Seq<char>)
    ensures
        !lex_less(a, a),
{
    lemma_lex_irreflexive_from(a, 0);
}

proof fn lemma_lex_irreflexive_from(a: Seq<char>, i: int)
    requires
        0 <= i,
    ensures
        !lex_less_from(a, a, i),
    decreases a.len() - i,
{
    if i < a.len() {
        lemma_lex_irreflexive_from(a, i + 1);
    }
}

/// Of two different texts exactly one comes before the other.
pub proof fn lemma_lex_total(a: Seq<char>, b: Seq<char>)
    ensures
        a == b || lex_less(a, b) || lex_less(b, a),
        !(lex_less(a, b) && lex_less(b, a)),
{
    lemma_lex_total_from(a, b, 0);
    if !lex_less(a, b) && !lex_less(b, a) {
        assert(a =~= b);
    }
}

proof fn lemma_lex_total_from(a: Seq<char>, b: Seq<char>, i: int)
    requires
        0 <= i <= a.len(),
        i <= b.len(),
    ensures
        !(lex_less_from(a, b, i) && lex_less_from(b, a, i)),
        !lex_less_from(a, b, i) && !lex_less_from(b, a, i) ==> a.len() == b.len() && forall|k: int|
            i <= k < a.len() ==> a[k] == b[k],
    decreases a.len() - i,
{
    if i < a.len() && i < b.len() && a[i] == b[i] {
        lemma_lex_total_from(a, b, i + 1);
    }
}

/// Alphabetical order is transitive.
pub proof fn lemma_lex_transitive(a: Seq<char>, b: Seq<char>, c: Seq<char>)
    requires
        lex_less(a, b),
        lex_less(b, c),
    ensures
        lex_less(a, c),
{
    lemma_lex_transitive_from(a, b, c, 0);
}

proof fn lemma_lex_transitive_from(a: Seq<char>, b: Seq<char>, c: Seq<char>, i: int)
    requires
        0 <= i,
        lex_less_from(a, b, i),
        lex_less_from(b, c, i),
    ensures
        lex_less_from(a, c, i),
    decreases a.len() - i,
{
    if i < a.len() && a[i] == b[i] && b[i] == c[i] {
        lemma_lex_transitive_from(a, b, c, i + 1);
    }
}

} // verus!
