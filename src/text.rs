//! Character classes, string comparison and display names.

use vstd::prelude::*;

verus! {

/// What `char::to_uppercase` yields for `c`.
pub uninterp spec fn upper_of(c: char) -> Seq<char>;

pub open spec fn is_ascii_upper(c: char) -> bool {
    'A' <= c <= 'Z'
}

pub open spec fn is_ascii_lower(c: char) -> bool {
    'a' <= c <= 'z'
}

pub open spec fn is_ascii_digit(c: char) -> bool {
    '0' <= c <= '9'
}

pub open spec fn is_ascii_alnum(c: char) -> bool {
    is_ascii_upper(c) || is_ascii_lower(c) || is_ascii_digit(c)
}

/// What `regex_syntax::is_word_character` answers for `c`.
pub uninterp spec fn unicode_word(c: char) -> bool;

/// A word character (`\w`): in ASCII a letter, a digit or `_`; beyond
/// ASCII a Unicode word character.
pub open spec fn is_word_char(c: char) -> bool {
    if (c as u32) < 128 {
        is_ascii_alnum(c) || c == '_'
    } else {
        unicode_word(c)
    }
}

/// A character of a section token: a word character or a hyphen.
pub open spec fn is_token_char(c: char) -> bool {
    is_word_char(c) || c == '-'
}

/// Relies on `regex_syntax::is_word_character` (with the crate's default
/// Unicode tables, so it does not panic): whether `c` is a Unicode word
/// character, which in ASCII are the letters, the digits and `_`.
#[verifier::external_body]
fn word_character(c: char) -> (r: bool)
    ensures
        r == is_word_char(c),
        (c as u32) >= 128 ==> r == unicode_word(c),
{
    regex_syntax::is_word_character(c)
}

/// Whether `c` may stand in a section token.
pub fn is_token(c: char) -> (r: bool)
    ensures
        r == is_token_char(c),
{
    c == '-' || word_character(c)
}

/// Strict lexicographic order of two strings, comparing characters by
/// their scalar values (the order of `String`'s `Ord`).
pub open spec fn lex_lt(a: Seq<char>, b: Seq<char>) -> bool
    decreases a.len(),
{
    if b.len() == 0 {
        false
    } else if a.len() == 0 {
        true
    } else if a[0] != b[0] {
        (a[0] as u32) < (b[0] as u32)
    } else {
        lex_lt(a.drop_first(), b.drop_first())
    }
}

pub proof fn lemma_lex_lt_irreflexive(a: Seq<char>)
    ensures
        !lex_lt(a, a),
    decreases a.len(),
{
    if a.len() > 0 {
        lemma_lex_lt_irreflexive(a.drop_first());
    }
}

pub proof fn lemma_lex_lt_transitive(a: Seq<char>, b: Seq<char>, c: Seq<char>)
    requires
        lex_lt(a, b),
        lex_lt(b, c),
    ensures
        lex_lt(a, c),
    decreases a.len(),
{
    if a.len() > 0 && b.len() > 0 && c.len() > 0 && a[0] == b[0] && b[0] == c[0] {
        lemma_lex_lt_transitive(a.drop_first(), b.drop_first(), c.drop_first());
    }
}

/// The display name of a hyphenated token, character by character: a
/// hyphen becomes a space, the first character of each segment is
/// upper-cased, and every other character is kept.
pub open spec fn display_name(t: Seq<char>) -> Seq<char>
    decreases t.len(),
{
    if t.len() == 0 {
        Seq::empty()
    } else {
        display_name(t.drop_last()) + display_char(t.drop_last(), t.last())
    }
}

/// What the character `c` becomes when it follows `before` in a token.
pub open spec fn display_char(before: Seq<char>, c: char) -> Seq<char> {
    if c == '-' {
        seq![' ']
    } else if before.len() == 0 || before.last() == '-' {
        capitalized(c)
    } else {
        seq![c]
    }
}

/// The capital letter of an ASCII lower-case letter.
pub open spec fn ascii_capital(c: char) -> char
    recommends
        is_ascii_lower(c),
{
    ((c as u32) - 32) as char
}

/// The upper-case mapping of `c`: for ASCII, lower-case letters become
/// capitals and every other character stays.
pub open spec fn capitalized(c: char) -> Seq<char> {
    if is_ascii_lower(c) {
        seq![ascii_capital(c)]
    } else if (c as u32) < 128 {
        seq![c]
    } else {
        upper_of(c)
    }
}

/// Relies on `char::to_uppercase`: the upper-case mapping of `c`, one or
/// more characters; for ASCII, the lower-case letters map to their capitals
/// and every other character to itself.
#[verifier::external_body]
fn to_upper(c: char) -> (r: String)
    ensures
        r@ == capitalized(c),
        (c as u32) >= 128 ==> r@ == upper_of(c),
{
    c.to_uppercase().collect::<String>()
}

/// Relies on `String::push`: appends `c`.
#[verifier::external_body]
pub(crate) fn push_char(s: &mut String, c: char)
    ensures
        final(s)@ == old(s)@.push(c),
{
    s.push(c)
}

/// Whether `a` sorts strictly before `b`.
pub fn name_lt(a: &str, b: &str) -> (r: bool)
    ensures
        r == lex_lt(a@, b@),
{
    let x = chars_of(a);
    let y = chars_of(b);
    let mut i: usize = 0;
    assert(a@.skip(0) =~= a@);
    assert(b@.skip(0) =~= b@);
    while i < x.len() && i < y.len() && x[i] == y[i]
        invariant
            x@ == a@,
            y@ == b@,
            i <= x.len(),
            i <= y.len(),
            x@.take(i as int) == y@.take(i as int),
            lex_lt(a@, b@) == lex_lt(a@.skip(i as int), b@.skip(i as int)),
        decreases x.len() - i,
    {
        assert(a@.skip(i as int).drop_first() =~= a@.skip(i + 1));
        assert(b@.skip(i as int).drop_first() =~= b@.skip(i + 1));
        assert(x@.take(i + 1) =~= x@.take(i as int).push(x@[i as int]));
        assert(y@.take(i + 1) =~= y@.take(i as int).push(y@[i as int]));
        i = i + 1;
    }
    if i == y.len() {
        false
    } else if i == x.len() {
        true
    } else {
        (x[i] as u32) < (y[i] as u32)
    }
}

/// The characters of `s`, in order.
pub fn chars_of(s: &str) -> (r: Vec<char>)
    ensures
        r@ == s@,
{
    let mut r: Vec<char> = Vec::new();
    for c in it: s.chars()
        invariant
            r@ == it.seq().take(it.index() as int),
            it.seq() == s@,
    {
        r.push(c);
    }
    assert(r@ =~= s@);
    r
}

/// The display name of a hyphenated token: `section-a` becomes `Section A`.
pub fn format_name(token: &str) -> (r: String)
    ensures
        r@ == display_name(token@),
{
    let t = chars_of(token);
    let mut r = String::new();
    let mut i: usize = 0;
    while i < t.len()
        invariant
            t@ == token@,
            i <= t.len(),
            r@ == display_name(t@.take(i as int)),
        decreases t.len() - i,
    {
        let c = t[i];
        assert(t@.take(i + 1).drop_last() =~= t@.take(i as int));
        if c == '-' {
            push_char(&mut r, ' ');
        } else if i == 0 || t[i - 1] == '-' {
            let up = to_upper(c);
            r.append(up.as_str());
        } else {
            push_char(&mut r, c);
        }
        i = i + 1;
    }
    assert(t@.take(t.len() as int) =~= t@);
    r
}

} // verus!
