//! The mathematical model of string keys: digit characters, well-formed keys,
//! strict lexicographic order, and the zero-padded common prefix used by the
//! midpoint generator.

use vstd::prelude::*;
use vstd::string::StrSliceExecFns;

verus! {

/// A character of the digit alphabet, `'0'` through `'9'`.
pub open spec fn is_digit(c: char) -> bool {
    ('0' as u32) <= (c as u32) && (c as u32) <= ('9' as u32)
}

/// Position of a digit character within the digit alphabet.
pub open spec fn digit_val(c: char) -> int {
    (c as u32) - ('0' as u32)
}

pub open spec fn all_digits(s: Seq<char>) -> bool {
    forall|i: int| 0 <= i < s.len() ==> is_digit(s[i])
}

/// A well-formed string key: a nonempty digit string with no trailing `'0'`.
/// A trailing zero is forbidden because under the zero-padded prefix rule such
/// a key would be indistinguishable from its own truncation.
pub open spec fn valid_key(s: Seq<char>) -> bool {
    &&& s.len() > 0
    &&& all_digits(s)
    &&& s[s.len() - 1] != '0'
}

/// Strict lexicographic order on character sequences: the order in which the
/// string backend's keys compare.
pub open spec fn lex_lt(a: Seq<char>, b: Seq<char>) -> bool
    decreases b.len(),
{
    if b.len() == 0 {
        false
    } else if a.len() == 0 {
        true
    } else if a[0] != b[0] {
        (a[0] as u32) < (b[0] as u32)
    } else {
        lex_lt(a.skip(1), b.skip(1))
    }
}

/// The character of `a` at position `j`, reading positions past the end of `a`
/// as an implicit `'0'` (a key is conceptually followed by infinitely many
/// zero digits).
pub open spec fn pad_char(a: Seq<char>, j: int) -> char {
    if 0 <= j < a.len() {
        a[j]
    } else {
        '0'
    }
}

/// Length of the common prefix of `a` and `b`, where positions missing from
/// `a` count as `'0'`. Never exceeds `b.len()`.
pub open spec fn pad(a: Seq<char>, b: Seq<char>) -> nat
    decreases b.len(),
{
    if b.len() == 0 {
        0
    } else if pad_char(a, 0) == b[0] {
        1 + pad(seq_tail(a), b.skip(1))
    } else {
        0
    }
}

/// `a` without its first character; the empty sequence stays empty.
pub open spec fn seq_tail(a: Seq<char>) -> Seq<char> {
    if a.len() > 0 {
        a.skip(1)
    } else {
        a
    }
}

/// The digit character at alphabet position `i`.
pub open spec fn digit_char(i: int) -> char {
    ((('0' as u32) + i) as u32) as char
}

/// A digit character is the digit character of its own alphabet position.
pub proof fn lemma_digit_char_of_val(c: char)
    requires
        is_digit(c),
    ensures
        digit_char(digit_val(c)) == c,
{
    vstd::utf8::char_u32_cast(c, c as u32);
}

/// Characters with equal scalar values are equal.
pub proof fn lemma_char_inj(c: char, d: char)
    requires
        (c as u32) == (d as u32),
    ensures
        c == d,
{
    vstd::utf8::char_u32_cast(c, c as u32);
    vstd::utf8::char_u32_cast(d, d as u32);
}

/// Prepending a common prefix to both sides does not change their order.
pub proof fn lemma_lex_common_prefix(p: Seq<char>, a: Seq<char>, b: Seq<char>)
    ensures
        lex_lt(p + a, p + b) == lex_lt(a, b),
    decreases p.len(),
{
    if p.len() == 0 {
        assert(p + a =~= a);
        assert(p + b =~= b);
    } else {
        assert((p + a).len() > 0);
        assert((p + b).len() > 0);
        assert((p + a)[0] == p[0]);
        assert((p + b)[0] == p[0]);
        assert((p + a).skip(1) =~= p.skip(1) + a);
        assert((p + b).skip(1) =~= p.skip(1) + b);
        lemma_lex_common_prefix(p.skip(1), a, b);
    }
}

/// A proper prefix is strictly below any of its extensions.
pub proof fn lemma_lex_proper_prefix(p: Seq<char>, b: Seq<char>)
    requires
        b.len() > 0,
    ensures
        lex_lt(p, p + b),
{
    lemma_lex_common_prefix(p, Seq::<char>::empty(), b);
    assert(p + Seq::<char>::empty() =~= p);
}

/// Two nonempty sequences whose first characters differ are ordered by them.
pub proof fn lemma_lex_first_char(a: Seq<char>, b: Seq<char>)
    requires
        a.len() > 0,
        b.len() > 0,
        (a[0] as u32) < (b[0] as u32),
    ensures
        lex_lt(a, b),
{
}

/// Lexicographic order is transitive.
pub proof fn lemma_lex_trans(a: Seq<char>, b: Seq<char>, c: Seq<char>)
    requires
        lex_lt(a, b),
        lex_lt(b, c),
    ensures
        lex_lt(a, c),
    decreases a.len(),
{
    if a.len() == 0 {
        assert(c.len() > 0);
    } else {
        assert(b.len() > 0);
        assert(c.len() > 0);
        if a[0] == b[0] {
            if b[0] == c[0] {
                lemma_lex_trans(a.skip(1), b.skip(1), c.skip(1));
            }
        } else {
            assert((a[0] as u32) < (b[0] as u32));
            if b[0] == c[0] {
            } else {
                assert((b[0] as u32) < (c[0] as u32));
            }
        }
    }
}

/// Nothing is strictly below one of its own prefixes.
pub proof fn lemma_lex_not_below_prefix(a: Seq<char>, k: int)
    requires
        0 <= k <= a.len(),
    ensures
        !lex_lt(a, a.take(k)),
    decreases k,
{
    if k > 0 {
        assert(a.take(k)[0] == a[0]);
        assert(a.take(k).skip(1) =~= a.skip(1).take(k - 1));
        lemma_lex_not_below_prefix(a.skip(1), k - 1);
    }
}

/// Skipping an agreed-upon prefix of both sides does not change their order.
pub proof fn lemma_lex_skip(a: Seq<char>, b: Seq<char>, i: int)
    requires
        0 <= i <= a.len(),
        i <= b.len(),
        forall|j: int| 0 <= j < i ==> a[j] == b[j],
    ensures
        lex_lt(a, b) == lex_lt(a.skip(i), b.skip(i)),
{
    assert(a.take(i) =~= b.take(i));
    lemma_lex_common_prefix(a.take(i), a.skip(i), b.skip(i));
    assert(a.take(i) + a.skip(i) =~= a);
    assert(a.take(i) + b.skip(i) =~= b);
}

/// What `pad` computes: it is the first position at which `b` differs from the
/// zero-padded `a`, and it never exceeds `b`'s length.
pub proof fn lemma_pad_props(a: Seq<char>, b: Seq<char>)
    ensures
        pad(a, b) <= b.len(),
        forall|j: int| 0 <= j < pad(a, b) ==> pad_char(a, j) == b[j],
        pad(a, b) < b.len() ==> pad_char(a, pad(a, b) as int) != b[pad(a, b) as int],
    decreases b.len(),
{
    if b.len() > 0 && pad_char(a, 0) == b[0] {
        lemma_pad_props(seq_tail(a), b.skip(1));
        assert forall|j: int| 0 <= j < pad(a, b) implies pad_char(a, j) == b[j] by {
            if j > 0 {
                assert(pad_char(seq_tail(a), j - 1) == pad_char(a, j));
                assert(b.skip(1)[j - 1] == b[j]);
            }
        }
        let n = pad(a, b) as int;
        if n < b.len() {
            assert(pad_char(seq_tail(a), n - 1) == pad_char(a, n));
            assert(b.skip(1)[n - 1] == b[n]);
        }
    }
}

/// A position `n` at which `b` first differs from the zero-padded `a` is
/// exactly what `pad` computes.
pub proof fn lemma_pad_unique(a: Seq<char>, b: Seq<char>, n: int)
    requires
        0 <= n <= b.len(),
        forall|j: int| 0 <= j < n ==> pad_char(a, j) == b[j],
        n == b.len() || pad_char(a, n) != b[n],
    ensures
        n == pad(a, b),
{
    lemma_pad_props(a, b);
    let p = pad(a, b) as int;
    if n < p {
        assert(pad_char(a, n) == b[n]);
    } else if p < n {
        assert(pad_char(a, p) == b[p]);
    }
}

/// Decides [`lex_lt`] on string slices.
pub fn str_lex_lt(a: &str, b: &str) -> (r: bool)
    ensures
        r == lex_lt(a@, b@),
{
    let la = a.unicode_len();
    let lb = b.unicode_len();
    let mut i: usize = 0;
    loop
        invariant
            i <= la,
            i <= lb,
            la == a@.len(),
            lb == b@.len(),
            forall|j: int| 0 <= j < i ==> a@[j] == b@[j],
        decreases lb - i,
    {
        if i == lb {
            proof {
                lemma_lex_skip(a@, b@, i as int);
            }
            return false;
        }
        if i == la {
            proof {
                lemma_lex_skip(a@, b@, i as int);
                assert(b@.skip(i as int).len() > 0);
            }
            return true;
        }
        let ca = a.get_char(i);
        let cb = b.get_char(i);
        if ca != cb {
            proof {
                lemma_lex_skip(a@, b@, i as int);
                assert(a@.skip(i as int)[0] == a@[i as int]);
                assert(b@.skip(i as int)[0] == b@[i as int]);
            }
            return (ca as u32) < (cb as u32);
        }
        i = i + 1;
    }
}

/// When `a` is strictly below `b` and `b` carries no trailing zero, the padded
/// common prefix stops strictly short of `b`'s end.
pub proof fn lemma_pad_short(a: Seq<char>, b: Seq<char>)
    requires
        lex_lt(a, b),
        b.len() > 0,
        b[b.len() - 1] != '0',
    ensures
        pad(a, b) < b.len(),
{
    lemma_pad_props(a, b);
    if pad(a, b) == b.len() {
        if b.len() <= a.len() {
            assert(b =~= a.take(b.len() as int));
            lemma_lex_not_below_prefix(a, b.len() as int);
        } else {
            assert(pad_char(a, b.len() - 1) == b[b.len() - 1]);
            assert(pad_char(a, b.len() - 1) == '0');
        }
    }
}

} // verus!
