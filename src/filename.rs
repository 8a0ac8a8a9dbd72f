//! The file-name convention of mockup images:
//! two capital letters, `-[`, a section token, `]-`, an ordering number
//! and `.png`, as in `XY-[section-a]-0.png`.

use vstd::prelude::*;
use crate::text::{chars_of, is_ascii_digit, is_ascii_upper, is_token, is_token_char};

verus! {

pub open spec fn all_token_chars(s: Seq<char>) -> bool {
    forall|i: int| 0 <= i < s.len() ==> is_token_char(#[trigger] s[i])
}

pub open spec fn all_digits(s: Seq<char>) -> bool {
    forall|i: int| 0 <= i < s.len() ==> is_ascii_digit(#[trigger] s[i])
}

/// `name` is an image file name whose section token is `token` and whose
/// ordering number is written `digits`.
pub open spec fn image_name_parts(name: Seq<char>, token: Seq<char>, digits: Seq<char>) -> bool {
    &&& name.len() >= 2
    &&& is_ascii_upper(name[0])
    &&& is_ascii_upper(name[1])
    &&& token.len() > 0
    &&& all_token_chars(token)
    &&& digits.len() > 0
    &&& all_digits(digits)
    &&& name == seq![name[0], name[1], '-', '['] + token + seq![']', '-'] + digits + seq![
        '.',
        'p',
        'n',
        'g',
    ]
}

/// `name` follows the image file-name convention.
pub open spec fn is_image_name(name: Seq<char>) -> bool {
    exists|token: Seq<char>, digits: Seq<char>| image_name_parts(name, token, digits)
}

/// The value of a string of decimal digits.
pub open spec fn digits_value(d: Seq<char>) -> nat
    decreases d.len(),
{
    if d.len() == 0 {
        0
    } else {
        digits_value(d.drop_last()) * 10 + (d.last() as u32 - '0' as u32) as nat
    }
}

/// The character positions that the convention fixes.
proof fn lemma_parts_layout(name: Seq<char>, token: Seq<char>, digits: Seq<char>)
    requires
        image_name_parts(name, token, digits),
    ensures
        name.len() == token.len() + digits.len() + 10,
        name[2] == '-',
        name[3] == '[',
        forall|j: int| 0 <= j < token.len() ==> name[4 + j] == token[j],
        name[4 + token.len() as int] == ']',
        name[5 + token.len() as int] == '-',
        forall|j: int| 0 <= j < digits.len() ==> name[6 + token.len() as int + j] == digits[j],
        name[name.len() - 4] == '.',
        name[name.len() - 3] == 'p',
        name[name.len() - 2] == 'n',
        name[name.len() - 1] == 'g',
        token == name.subrange(4, 4 + token.len() as int),
        digits == name.subrange(6 + token.len() as int, name.len() - 4),
{
    let t = token.len() as int;
    let d = digits.len() as int;
    assert(name.len() == t + d + 10);
    assert forall|j: int| 0 <= j < t implies name[4 + j] == token[j] by {
        assert(name[4 + j] == (seq![name[0], name[1], '-', '['] + token)[4 + j]);
    }
    assert forall|j: int| 0 <= j < d implies name[6 + t + j] == digits[j] by {
        assert(name[6 + t + j] == (seq![name[0], name[1], '-', '['] + token + seq![']', '-']
            + digits)[6 + t + j]);
    }
    assert(name[4 + t] == (seq![name[0], name[1], '-', '['] + token + seq![']', '-'])[4 + t]);
    assert(name[5 + t] == (seq![name[0], name[1], '-', '['] + token + seq![']', '-'])[5 + t]);
    assert(token =~= name.subrange(4, 4 + t));
    assert(digits =~= name.subrange(6 + t, name.len() - 4));
}

/// A name follows the convention in at most one way.
pub proof fn lemma_parts_unique(
    name: Seq<char>,
    t1: Seq<char>,
    d1: Seq<char>,
    t2: Seq<char>,
    d2: Seq<char>,
)
    requires
        image_name_parts(name, t1, d1),
        image_name_parts(name, t2, d2),
    ensures
        t1 == t2,
        d1 == d2,
{
    lemma_parts_layout(name, t1, d1);
    lemma_parts_layout(name, t2, d2);
    if t1.len() < t2.len() {
        assert(t2[t1.len() as int] == name[4 + t1.len() as int]);
        assert(is_token_char(t2[t1.len() as int]));
    } else if t2.len() < t1.len() {
        assert(t1[t2.len() as int] == name[4 + t2.len() as int]);
        assert(is_token_char(t1[t2.len() as int]));
    }
}

/// Splits an image file name into its section token and the digits of its
/// ordering number; `None` where the name does not follow the convention.
pub fn match_image_name(name: &str) -> (r: Option<(String, String)>)
    ensures
        match r {
            Some((token, digits)) => image_name_parts(name@, token@, digits@),
            None => !is_image_name(name@),
        },
{
    let c = chars_of(name);
    let n = c.len();
    if n < 10 || !('A' <= c[0] && c[0] <= 'Z') || !('A' <= c[1] && c[1] <= 'Z') || c[2] != '-'
        || c[3] != '[' {
        proof {
            assert forall|t: Seq<char>, d: Seq<char>| !image_name_parts(name@, t, d) by {
                if image_name_parts(name@, t, d) {
                    lemma_parts_layout(name@, t, d);
                }
            }
        }
        return None;
    }
    let mut k: usize = 4;
    while k < n && is_token(c[k])
        invariant
            c@ == name@,
            n == c.len(),
            4 <= k <= n,
            forall|j: int| 4 <= j < k ==> is_token_char(#[trigger] c@[j]),
        decreases n - k,
    {
        k = k + 1;
    }
    // Any decomposition puts its closing bracket exactly at `k`.
    proof {
        assert forall|t: Seq<char>, d: Seq<char>| image_name_parts(name@, t, d) implies 4
            + t.len() == k by {
            lemma_parts_layout(name@, t, d);
            if 4 + t.len() < k {
                assert(is_token_char(c@[4 + t.len() as int]));
            }
            if k < 4 + t.len() {
                assert(c@[k as int] == t[k - 4]);
            }
        }
    }
    if k == 4 || k > n - 7 || c[k] != ']' || c[k + 1] != '-' || c[n - 4] != '.' || c[n - 3] != 'p'
        || c[n - 2] != 'n' || c[n - 1] != 'g' {
        proof {
            assert forall|t: Seq<char>, d: Seq<char>| !image_name_parts(name@, t, d) by {
                if image_name_parts(name@, t, d) {
                    lemma_parts_layout(name@, t, d);
                }
            }
        }
        return None;
    }
    let mut j: usize = k + 2;
    while j < n - 4 && '0' <= c[j] && c[j] <= '9'
        invariant
            c@ == name@,
            n == c.len(),
            k + 7 <= n,
            k + 2 <= j <= n - 4,
            forall|i: int| k + 2 <= i < j ==> is_ascii_digit(#[trigger] c@[i]),
        decreases n - j,
    {
        j = j + 1;
    }
    if j < n - 4 {
        proof {
            assert forall|t: Seq<char>, d: Seq<char>| !image_name_parts(name@, t, d) by {
                if image_name_parts(name@, t, d) {
                    lemma_parts_layout(name@, t, d);
                    assert(c@[j as int] == d[j - k - 2]);
                }
            }
        }
        return None;
    }
    let token = name.substring_char(4, k).to_owned();
    let digits = name.substring_char(k + 2, n - 4).to_owned();
    proof {
        let t = token@;
        let d = digits@;
        assert forall|i: int| 0 <= i < t.len() implies is_token_char(#[trigger] t[i]) by {
            assert(t[i] == c@[4 + i]);
        }
        assert forall|i: int| 0 <= i < d.len() implies is_ascii_digit(#[trigger] d[i]) by {
            assert(d[i] == c@[k + 2 + i]);
        }
        assert(name@ =~= seq![name@[0], name@[1], '-', '['] + t + seq![']', '-'] + d + seq![
            '.',
            'p',
            'n',
            'g',
        ]);
    }
    Some((token, digits))
}

proof fn lemma_digits_value_prefix(d: Seq<char>, i: int, j: int)
    requires
        0 <= i <= j <= d.len(),
        all_digits(d),
    ensures
        digits_value(d.take(i)) <= digits_value(d.take(j)),
    decreases j - i,
{
    if i < j {
        lemma_digits_value_prefix(d, i, j - 1);
        assert(d.take(j).drop_last() =~= d.take(j - 1));
        assert(is_ascii_digit(d[j - 1]));
    }
}

/// The ordering number written by `digits`: `None` where it is empty, holds
/// a character other than a decimal digit, or names a value above 255.
pub fn parse_order_number(digits: &str) -> (r: Option<u8>)
    ensures
        r == (if digits@.len() > 0 && all_digits(digits@) && digits_value(digits@) <= 255 {
            Some(digits_value(digits@) as u8)
        } else {
            None::<u8>
        }),
{
    let d = chars_of(digits);
    if d.len() == 0 {
        return None;
    }
    let mut i: usize = 0;
    while i < d.len()
        invariant
            d@ == digits@,
            i <= d.len(),
            forall|j: int| 0 <= j < i ==> is_ascii_digit(#[trigger] d@[j]),
        decreases d.len() - i,
    {
        if !('0' <= d[i] && d[i] <= '9') {
            return None;
        }
        i = i + 1;
    }
    let mut value: u16 = 0;
    i = 0;
    while i < d.len()
        invariant
            d@ == digits@,
            all_digits(d@),
            i <= d.len(),
            value as nat == digits_value(d@.take(i as int)),
            value <= 255,
        decreases d.len() - i,
    {
        assert(d@.take(i + 1).drop_last() =~= d@.take(i as int));
        let digit = (d[i] as u32 - '0' as u32) as u16;
        value = value * 10 + digit;
        if value > 255 {
            proof {
                lemma_digits_value_prefix(d@, i + 1, d@.len() as int);
                assert(d@.take(d@.len() as int) =~= d@);
            }
            return None;
        }
        i = i + 1;
    }
    assert(d@.take(d@.len() as int) =~= d@);
    Some(value as u8)
}

} // verus!
