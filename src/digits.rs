//! Decimal digits and the unsigned numbers written with them.
use vstd::prelude::*;
use vstd::string::StrSliceExecFns;

verus! {

/// The value of a decimal digit character.
pub open spec fn digit_val(c: char) -> int {
    c as int - '0' as int
}

pub open spec fn is_digit(c: char) -> bool {
    '0' <= c && c <= '9'
}

/// The character of a digit value `d < 10`.
pub open spec fn digit_char(d: int) -> char {
    if d == 0 { '0' }
    else if d == 1 { '1' }
    else if d == 2 { '2' }
    else if d == 3 { '3' }
    else if d == 4 { '4' }
    else if d == 5 { '5' }
    else if d == 6 { '6' }
    else if d == 7 { '7' }
    else if d == 8 { '8' }
    else { '9' }
}

pub proof fn lemma_digit_char_val(c: char)
    requires
        is_digit(c),
    ensures
        digit_char(digit_val(c)) == c,
{
}

/// Checks a character and gives its digit value.
pub fn digit_value(c: char) -> (r: Option<u32>)
    ensures
        match r {
            Some(d) => is_digit(c) && d as int == digit_val(c),
            None => !is_digit(c),
        },
{
    if '0' <= c && c <= '9' {
        Some(c as u32 - '0' as u32)
    } else {
        None
    }
}


pub open spec fn all_digits(t: Seq<char>) -> bool {
    forall|i: int| 0 <= i < t.len() ==> #[trigger] is_digit(t[i])
}

/// The number that a string of digits spells in base ten.
pub open spec fn digits_value(t: Seq<char>) -> int
    decreases t.len(),
{
    if t.len() == 0 {
        0
    } else {
        10 * digits_value(t.drop_last()) + digit_val(t.last())
    }
}

/// A field without its leading `+` sign, if it has one.
pub open spec fn unsigned_digits(f: Seq<char>) -> Seq<char> {
    if f.len() > 0 && f[0] == '+' {
        f.drop_first()
    } else {
        f
    }
}

/// The number that a text field holds when read as an unsigned 32-bit integer:
/// an optional `+` sign and then one or more digits, with a value that fits.
pub open spec fn bound_value(f: Seq<char>) -> Option<u32> {
    let t = unsigned_digits(f);
    if t.len() > 0 && all_digits(t) && digits_value(t) <= u32::MAX {
        Some(digits_value(t) as u32)
    } else {
        None
    }
}

pub proof fn lemma_digits_value_nonneg(t: Seq<char>)
    requires
        all_digits(t),
    ensures
        digits_value(t) >= 0,
    decreases t.len(),
{
    if t.len() > 0 {
        assert(is_digit(t[t.len() - 1]));
        lemma_digits_value_nonneg(t.drop_last());
    }
}

/// Adding digits never makes the value smaller.
pub proof fn lemma_digits_value_prefix(t: Seq<char>, k: int)
    requires
        all_digits(t),
        0 <= k <= t.len(),
    ensures
        digits_value(t.take(k)) <= digits_value(t),
    decreases t.len(),
{
    if k < t.len() {
        let u = t.drop_last();
        assert(is_digit(t[t.len() - 1]));
        lemma_digits_value_prefix(u, k);
        lemma_digits_value_nonneg(u);
        assert(u.take(k) =~= t.take(k));
    } else {
        assert(t.take(k) =~= t);
    }
}

/// Reads a field as an unsigned 32-bit integer.
pub fn parse_u32(s: &str) -> (r: Option<u32>)
    ensures
        r == bound_value(s@),
{
    let n = s.unicode_len();
    let mut i: usize = 0;
    if n > 0 && s.get_char(0) == '+' {
        i = 1;
    }
    let start = i;
    let ghost t = unsigned_digits(s@);
    assert(t =~= s@.subrange(start as int, n as int));
    if i == n {
        return None;
    }
    let mut v: u32 = 0;
    while i < n
        invariant
            start <= i <= n,
            n == s@.len(),
            t == unsigned_digits(s@),
            t =~= s@.subrange(start as int, n as int),
            t.take(i - start) =~= s@.subrange(start as int, i as int),
            all_digits(s@.subrange(start as int, i as int)),
            v == digits_value(s@.subrange(start as int, i as int)),
        decreases n - i,
    {
        let c = s.get_char(i);
        let ghost before = s@.subrange(start as int, i as int);
        let ghost after = s@.subrange(start as int, i + 1);
        assert(after.drop_last() =~= before);
        assert(t[i - start] == c);
        match digit_value(c) {
            None => {
                assert(!is_digit(t[i - start]));
                return None;
            },
            Some(d) => {
                let w: u64 = v as u64 * 10 + d as u64;
                assert(after.last() == c);
                assert(digits_value(after) == w);
                assert(all_digits(after)) by {
                    assert forall|j: int| 0 <= j < after.len() implies #[trigger] is_digit(after[j]) by {
                        if j < before.len() {
                            assert(after[j] == before[j]);
                        }
                    }
                }
                if w > u32::MAX as u64 {
                    proof {
                        if all_digits(t) {
                            assert(t.take(i + 1 - start) =~= after);
                            lemma_digits_value_prefix(t, i + 1 - start);
                        }
                    }
                    return None;
                }
                v = w as u32;
            },
        }
        i += 1;
    }
    assert(s@.subrange(start as int, n as int) =~= t);
    Some(v)
}

} // verus!
