//! IPv4 addresses: the dotted-quad text form and the 32-bit big-endian value.
use vstd::prelude::*;
use vstd::string::StrSliceExecFns;
use vstd::string::StringExecFns;
use crate::digits::{all_digits, digit_char, digit_val, digit_value, digits_value, is_digit, lemma_digit_char_val};

verus! {

/// Why a lookup could not be answered.
#[derive(Debug, Clone, Copy, PartialEq, Eq)]
pub enum LookupError {
    /// The range data could not be read.
    Source,
    /// A row of the range data is malformed.
    Data,
    /// The address is not a dotted quad.
    Parse,
}

/// The decimal text of an octet, without leading zeros.
pub open spec fn octet_text(n: int) -> Seq<char> {
    if n < 10 {
        seq![digit_char(n)]
    } else if n < 100 {
        seq![digit_char(n / 10), digit_char(n % 10)]
    } else {
        seq![digit_char(n / 100), digit_char(n / 10 % 10), digit_char(n % 10)]
    }
}

/// Octets packed big-endian: `a << 24 | b << 16 | c << 8 | d`.
pub open spec fn pack(a: u32, b: u32, c: u32, d: u32) -> u32 {
    a << 24u32 | b << 16u32 | c << 8u32 | d
}

/// Octet `i` of an address, counting from the most significant.
pub open spec fn octet_of(v: u32, i: int) -> int {
    if i == 0 {
        (v >> 24u32) as int
    } else if i == 1 {
        ((v >> 16u32) & 0xffu32) as int
    } else if i == 2 {
        ((v >> 8u32) & 0xffu32) as int
    } else {
        (v & 0xffu32) as int
    }
}

/// The dotted-quad text of an address.
pub open spec fn dotted_of(v: u32) -> Seq<char> {
    octet_text(octet_of(v, 0)) + seq!['.'] + octet_text(octet_of(v, 1)) + seq!['.']
        + octet_text(octet_of(v, 2)) + seq!['.'] + octet_text(octet_of(v, 3))
}

/// `s` holds the text of octet `v` at `pos`, and no further digit follows it.
pub open spec fn octet_at(s: Seq<char>, pos: int, v: int) -> bool {
    let e = pos + octet_text(v).len();
    &&& 0 <= pos
    &&& e <= s.len()
    &&& s.subrange(pos, e) == octet_text(v)
    &&& (e == s.len() || !is_digit(s[e]))
}

proof fn lemma_digit_char(d: int)
    requires
        0 <= d < 10,
    ensures
        is_digit(digit_char(d)),
        digit_val(digit_char(d)) == d,
{
}

proof fn lemma_octet_text(n: int)
    requires
        0 <= n < 256,
    ensures
        1 <= octet_text(n).len() <= 3,
        all_digits(octet_text(n)),
        octet_text(n).len() > 1 ==> octet_text(n)[0] != '0',
        digits_value(octet_text(n)) == n,
{
    let t = octet_text(n);
    reveal_with_fuel(digits_value, 4);
    if n < 10 {
        lemma_digit_char(n);
        assert(t.drop_last() =~= Seq::<char>::empty());
    } else if n < 100 {
        lemma_digit_char(n / 10);
        lemma_digit_char(n % 10);
        assert(t.drop_last() =~= seq![digit_char(n / 10)]);
        assert(t.drop_last().drop_last() =~= Seq::<char>::empty());
    } else {
        lemma_digit_char(n / 100);
        lemma_digit_char(n / 10 % 10);
        lemma_digit_char(n % 10);
        assert(t.drop_last() =~= seq![digit_char(n / 100), digit_char(n / 10 % 10)]);
        assert(t.drop_last().drop_last() =~= seq![digit_char(n / 100)]);
        assert(t.drop_last().drop_last().drop_last() =~= Seq::<char>::empty());
    }
}

proof fn lemma_text_of_octet(t: Seq<char>)
    requires
        1 <= t.len() <= 3,
        all_digits(t),
        t.len() > 1 ==> t[0] != '0',
        digits_value(t) < 256,
    ensures
        octet_text(digits_value(t)) =~= t,
{
    reveal_with_fuel(digits_value, 4);
    assert(is_digit(t[0]));
    lemma_digit_char_val(t[0]);
    if t.len() >= 2 {
        assert(is_digit(t[1]));
        lemma_digit_char_val(t[1]);
    }
    if t.len() == 3 {
        assert(is_digit(t[2]));
        lemma_digit_char_val(t[2]);
    }
    if t.len() == 1 {
        assert(t.drop_last() =~= Seq::<char>::empty());
    } else if t.len() == 2 {
        assert(t.drop_last() =~= seq![t[0]]);
        assert(t.drop_last().drop_last() =~= Seq::<char>::empty());
    } else {
        assert(t.drop_last() =~= seq![t[0], t[1]]);
        assert(t.drop_last().drop_last() =~= seq![t[0]]);
        assert(t.drop_last().drop_last().drop_last() =~= Seq::<char>::empty());
    }
}

/// An octet text that starts inside a run of `k` digits covers the run, and
/// where the run ends there, it is the run.
proof fn lemma_octet_in_run(s: Seq<char>, pos: int, k: int, v: int)
    requires
        0 <= v < 256,
        octet_at(s, pos, v),
        0 <= k,
        pos + k <= s.len(),
        all_digits(s.subrange(pos, pos + k)),
    ensures
        k <= octet_text(v).len(),
        (pos + k == s.len() || !is_digit(s[pos + k])) ==> s.subrange(pos, pos + k) == octet_text(v),
{
    let t = octet_text(v);
    let l = t.len() as int;
    lemma_octet_text(v);
    if l < k {
        assert(s[pos + l] == s.subrange(pos, pos + k)[l]);
        assert(is_digit(s.subrange(pos, pos + k)[l]));
    }
    if pos + k == s.len() || !is_digit(s[pos + k]) {
        if k < l {
            assert(s[pos + k] == t[k]);
            assert(is_digit(t[k]));
        }
    }
}

proof fn lemma_octet_at_unique(s: Seq<char>, pos: int, v: int, w: int)
    requires
        0 <= v < 256,
        0 <= w < 256,
        octet_at(s, pos, v),
        octet_at(s, pos, w),
    ensures
        v == w,
{
    lemma_octet_text(v);
    lemma_octet_text(w);
    let k = octet_text(v).len() as int;
    lemma_octet_in_run(s, pos, k, w);
}

/// Reads the octet at `pos`: its value and the position after it.
fn parse_octet_at(s: &str, n: usize, pos: usize) -> (r: Option<(u32, usize)>)
    requires
        n == s@.len(),
        pos <= n,
    ensures
        match r {
            Some((v, e)) => v < 256 && e == pos + octet_text(v as int).len() && octet_at(
                s@,
                pos as int,
                v as int,
            ),
            None => forall|v: int| 0 <= v < 256 ==> !#[trigger] octet_at(s@, pos as int, v),
        },
{
    let mut k: usize = 0;
    let mut val: u32 = 0;
    let mut more = true;
    while more && k < 4 && pos + k < n
        invariant
            n == s@.len(),
            k <= 4,
            pos + k <= n,
            all_digits(s@.subrange(pos as int, pos + k)),
            val == digits_value(s@.subrange(pos as int, pos + k)),
            val < 10000,
            k <= 3 ==> val < 1000,
            k <= 2 ==> val < 100,
            k <= 1 ==> val < 10,
            k == 0 ==> val == 0,
            !more ==> pos + k < n && !is_digit(s@[pos + k]),
        decreases 4 - k + (if more { 1int } else { 0 }),
    {
        let c = s.get_char(pos + k);
        match digit_value(c) {
            None => {
                more = false;
            },
            Some(d) => {
                let ghost before = s@.subrange(pos as int, pos + k);
                let ghost after = s@.subrange(pos as int, pos + k + 1);
                assert(after.drop_last() =~= before);
                assert(after.last() == c);
                assert(all_digits(after)) by {
                    assert forall|j: int| 0 <= j < after.len() implies #[trigger] is_digit(after[j]) by {
                        if j < before.len() {
                            assert(after[j] == before[j]);
                        }
                    }
                }
                val = val * 10 + d;
                k += 1;
            },
        }
    }
    let ghost run = s@.subrange(pos as int, pos + k);
    if k == 0 || k == 4 {
        proof {
            assert forall|v: int| 0 <= v < 256 implies !#[trigger] octet_at(s@, pos as int, v) by {
                if octet_at(s@, pos as int, v) {
                    lemma_octet_text(v);
                    lemma_octet_in_run(s@, pos as int, k as int, v);
                }
            }
        }
        return None;
    }
    if (k > 1 && s.get_char(pos) == '0') || val > 255 {
        proof {
            assert(run[0] == s@[pos as int]);
            assert forall|v: int| 0 <= v < 256 implies !#[trigger] octet_at(s@, pos as int, v) by {
                if octet_at(s@, pos as int, v) {
                    lemma_octet_text(v);
                    lemma_octet_in_run(s@, pos as int, k as int, v);
                }
            }
        }
        return None;
    }
    proof {
        assert(run[0] == s@[pos as int]);
        lemma_text_of_octet(run);
    }
    Some((val, pos + k))
}

proof fn lemma_octets_bounded(v: u32)
    ensures
        0 <= octet_of(v, 0) < 256,
        0 <= octet_of(v, 1) < 256,
        0 <= octet_of(v, 2) < 256,
        0 <= octet_of(v, 3) < 256,
{
    assert(v >> 24u32 < 256) by (bit_vector);
    assert((v >> 16u32) & 0xffu32 < 256) by (bit_vector);
    assert((v >> 8u32) & 0xffu32 < 256) by (bit_vector);
    assert(v & 0xffu32 < 256) by (bit_vector);
}

proof fn lemma_pack_octets(a: u32, b: u32, c: u32, d: u32)
    requires
        a < 256,
        b < 256,
        c < 256,
        d < 256,
    ensures
        octet_of(pack(a, b, c, d), 0) == a,
        octet_of(pack(a, b, c, d), 1) == b,
        octet_of(pack(a, b, c, d), 2) == c,
        octet_of(pack(a, b, c, d), 3) == d,
{
    assert((a << 24u32 | b << 16u32 | c << 8u32 | d) >> 24u32 == a) by (bit_vector)
        requires a < 256, b < 256, c < 256, d < 256;
    assert(((a << 24u32 | b << 16u32 | c << 8u32 | d) >> 16u32) & 0xffu32 == b) by (bit_vector)
        requires a < 256, b < 256, c < 256, d < 256;
    assert(((a << 24u32 | b << 16u32 | c << 8u32 | d) >> 8u32) & 0xffu32 == c) by (bit_vector)
        requires a < 256, b < 256, c < 256, d < 256;
    assert((a << 24u32 | b << 16u32 | c << 8u32 | d) & 0xffu32 == d) by (bit_vector)
        requires a < 256, b < 256, c < 256, d < 256;
}

proof fn lemma_octets_pack(v: u32)
    ensures
        pack(
            octet_of(v, 0) as u32,
            octet_of(v, 1) as u32,
            octet_of(v, 2) as u32,
            octet_of(v, 3) as u32,
        ) == v,
{
    assert((v >> 24u32) << 24u32 | ((v >> 16u32) & 0xffu32) << 16u32 | ((v >> 8u32) & 0xffu32)
        << 8u32 | (v & 0xffu32) == v) by (bit_vector);
}

/// `s` holds the text of octet `v` at `pos`, followed by a dot, or by the end
/// of `s` where `last` holds.
pub open spec fn field_at(s: Seq<char>, pos: int, v: int, last: bool) -> bool {
    let e = pos + octet_text(v).len();
    &&& octet_at(s, pos, v)
    &&& if last {
        e == s.len()
    } else {
        e < s.len() && s[e] == '.'
    }
}

/// Where the field after the octet `v` at `pos` starts.
pub open spec fn after_field(pos: int, v: int) -> int {
    pos + octet_text(v).len() + 1
}

proof fn lemma_field_at_unique(s: Seq<char>, pos: int, v: int, w: int, last: bool)
    requires
        0 <= v < 256,
        0 <= w < 256,
        field_at(s, pos, v, last),
        octet_at(s, pos, w),
    ensures
        v == w,
        field_at(s, pos, w, last),
{
    lemma_octet_at_unique(s, pos, v, w);
}

/// The four fields of an address's text.
proof fn lemma_dotted_fields(w: u32)
    ensures
        ({
            let s = dotted_of(w);
            let at1 = after_field(0, octet_of(w, 0));
            let at2 = after_field(at1, octet_of(w, 1));
            let at3 = after_field(at2, octet_of(w, 2));
            &&& field_at(s, 0, octet_of(w, 0), false)
            &&& field_at(s, at1, octet_of(w, 1), false)
            &&& field_at(s, at2, octet_of(w, 2), false)
            &&& field_at(s, at3, octet_of(w, 3), true)
        }),
        0 <= octet_of(w, 0) < 256,
        0 <= octet_of(w, 1) < 256,
        0 <= octet_of(w, 2) < 256,
        0 <= octet_of(w, 3) < 256,
{
    let s = dotted_of(w);
    lemma_octets_bounded(w);
    let t0 = octet_text(octet_of(w, 0));
    let t1 = octet_text(octet_of(w, 1));
    let t2 = octet_text(octet_of(w, 2));
    let t3 = octet_text(octet_of(w, 3));
    lemma_octet_text(octet_of(w, 0));
    lemma_octet_text(octet_of(w, 1));
    lemma_octet_text(octet_of(w, 2));
    lemma_octet_text(octet_of(w, 3));
    let l0 = t0.len() as int;
    let l1 = t1.len() as int;
    let l2 = t2.len() as int;
    let l3 = t3.len() as int;
    assert(s.subrange(0, l0) =~= t0);
    assert(s.subrange(l0 + 1, l0 + 1 + l1) =~= t1);
    assert(s.subrange(l0 + l1 + 2, l0 + l1 + 2 + l2) =~= t2);
    assert(s.subrange(l0 + l1 + l2 + 3, l0 + l1 + l2 + 3 + l3) =~= t3);
}

/// Four fields read in turn make up the text of the address they pack to.
proof fn lemma_fields_dotted(s: Seq<char>, a: u32, b: u32, c: u32, d: u32)
    requires
        a < 256,
        b < 256,
        c < 256,
        d < 256,
        field_at(s, 0, a as int, false),
        field_at(s, after_field(0, a as int), b as int, false),
        field_at(s, after_field(after_field(0, a as int), b as int), c as int, false),
        field_at(
            s,
            after_field(after_field(after_field(0, a as int), b as int), c as int),
            d as int,
            true,
        ),
    ensures
        s == dotted_of(pack(a, b, c, d)),
{
    lemma_pack_octets(a, b, c, d);
    let at1 = after_field(0, a as int);
    let at2 = after_field(at1, b as int);
    let at3 = after_field(at2, c as int);
    assert(s =~= s.subrange(0, at1 - 1) + seq!['.'] + s.subrange(at1, at2 - 1) + seq!['.']
        + s.subrange(at2, at3 - 1) + seq!['.'] + s.subrange(at3, s.len() as int));
}

/// No address has text that lacks the field that `s` lacks at the start.
proof fn lemma_not_dotted(s: Seq<char>, a: int, b: int, c: int, k: int)
    requires
        0 <= k < 4,
        0 <= a < 256,
        0 <= b < 256,
        0 <= c < 256,
        k > 0 ==> field_at(s, 0, a, false),
        k > 1 ==> field_at(s, after_field(0, a), b, false),
        k > 2 ==> field_at(s, after_field(after_field(0, a), b), c, false),
        k == 0 ==> forall|v: int| 0 <= v < 256 ==> !#[trigger] field_at(s, 0, v, false),
        k == 1 ==> forall|v: int|
            0 <= v < 256 ==> !#[trigger] field_at(s, after_field(0, a), v, false),
        k == 2 ==> forall|v: int|
            0 <= v < 256 ==> !#[trigger] field_at(s, after_field(after_field(0, a), b), v, false),
        k == 3 ==> forall|v: int|
            0 <= v < 256 ==> !#[trigger] field_at(
                s,
                after_field(after_field(after_field(0, a), b), c),
                v,
                true,
            ),
    ensures
        forall|w: u32| s != #[trigger] dotted_of(w),
{
    assert forall|w: u32| s != #[trigger] dotted_of(w) by {
        if s == dotted_of(w) {
            lemma_dotted_fields(w);
            if k > 0 {
                lemma_field_at_unique(s, 0, a, octet_of(w, 0), false);
            }
            if k > 1 {
                lemma_field_at_unique(s, after_field(0, a), b, octet_of(w, 1), false);
            }
            if k > 2 {
                lemma_field_at_unique(
                    s,
                    after_field(after_field(0, a), b),
                    c,
                    octet_of(w, 2),
                    false,
                );
            }
        }
    }
}

/// Reads the octet at `pos` and the dot after it, or the end of `s` where
/// `last` holds; gives the octet and where the next field starts.
fn parse_field(s: &str, n: usize, pos: usize, last: bool) -> (r: Option<(u32, usize)>)
    requires
        n == s@.len(),
        pos <= n,
    ensures
        match r {
            Some((v, next)) => v < 256 && (!last ==> next == after_field(pos as int, v as int))
                && next <= n && field_at(s@, pos as int, v as int, last),
            None => forall|v: int| 0 <= v < 256 ==> !#[trigger] field_at(s@, pos as int, v, last),
        },
{
    match parse_octet_at(s, n, pos) {
        None => None,
        Some((v, e)) => {
            let ok = if last {
                e == n
            } else {
                e < n && s.get_char(e) == '.'
            };
            if ok {
                Some((v, if last { e } else { e + 1 }))
            } else {
                proof {
                    assert forall|w: int| 0 <= w < 256 implies !#[trigger] field_at(
                        s@,
                        pos as int,
                        w,
                        last,
                    ) by {
                        if field_at(s@, pos as int, w, last) {
                            lemma_octet_at_unique(s@, pos as int, v as int, w);
                        }
                    }
                }
                None
            }
        },
    }
}

/// Reads a dotted-quad address (four octets `0` to `255` in decimal, without
/// leading zeros, joined by dots) as its 32-bit value.
pub fn ip_string_to_decimal(ip: &str) -> (r: Result<u32, LookupError>)
    ensures
        match r {
            Ok(v) => ip@ == dotted_of(v),
            Err(e) => e == LookupError::Parse && forall|w: u32| ip@ != #[trigger] dotted_of(w),
        },
{
    let n = ip.unicode_len();
    let (a, at1) = match parse_field(ip, n, 0, false) {
        Some(x) => x,
        None => {
            proof {
                lemma_not_dotted(ip@, 0, 0, 0, 0);
            }
            return Err(LookupError::Parse);
        },
    };
    let (b, at2) = match parse_field(ip, n, at1, false) {
        Some(x) => x,
        None => {
            proof {
                lemma_not_dotted(ip@, a as int, 0, 0, 1);
            }
            return Err(LookupError::Parse);
        },
    };
    let (c, at3) = match parse_field(ip, n, at2, false) {
        Some(x) => x,
        None => {
            proof {
                lemma_not_dotted(ip@, a as int, b as int, 0, 2);
            }
            return Err(LookupError::Parse);
        },
    };
    let (d, _) = match parse_field(ip, n, at3, true) {
        Some(x) => x,
        None => {
            proof {
                lemma_not_dotted(ip@, a as int, b as int, c as int, 3);
            }
            return Err(LookupError::Parse);
        },
    };
    proof {
        lemma_fields_dotted(ip@, a, b, c, d);
    }
    Ok(pack_octets(a, b, c, d))
}

fn pack_octets(a: u32, b: u32, c: u32, d: u32) -> (r: u32)
    ensures
        r == pack(a, b, c, d),
{
    a << 24 | b << 16 | c << 8 | d
}

/// The 32-bit value of an address given by its four octets, most significant first.
pub fn ip_to_decimal(octets: &[u8; 4]) -> (r: u32)
    ensures
        r == pack(octets@[0] as u32, octets@[1] as u32, octets@[2] as u32, octets@[3] as u32),
{
    pack_octets(octets[0] as u32, octets[1] as u32, octets[2] as u32, octets[3] as u32)
}

fn digit_str(d: u32) -> (r: &'static str)
    requires
        d < 10,
    ensures
        r@ == seq![digit_char(d as int)],
{
    proof {
        reveal_strlit("0");
        reveal_strlit("1");
        reveal_strlit("2");
        reveal_strlit("3");
        reveal_strlit("4");
        reveal_strlit("5");
        reveal_strlit("6");
        reveal_strlit("7");
        reveal_strlit("8");
        reveal_strlit("9");
    }
    if d == 0 {
        "0"
    } else if d == 1 {
        "1"
    } else if d == 2 {
        "2"
    } else if d == 3 {
        "3"
    } else if d == 4 {
        "4"
    } else if d == 5 {
        "5"
    } else if d == 6 {
        "6"
    } else if d == 7 {
        "7"
    } else if d == 8 {
        "8"
    } else {
        "9"
    }
}

fn push_octet(s: &mut String, n: u32)
    requires
        n < 256,
    ensures
        final(s)@ == old(s)@ + octet_text(n as int),
{
    let ghost start = s@;
    if n >= 100 {
        s.append(digit_str(n / 100));
    }
    if n >= 10 {
        s.append(digit_str(n / 10 % 10));
    }
    s.append(digit_str(n % 10));
    assert(s@ =~= start + octet_text(n as int));
}

/// The dotted-quad text of a 32-bit address value.
pub fn decimal_to_dotted(v: u32) -> (r: String)
    ensures
        r@ == dotted_of(v),
{
    proof {
        reveal_strlit(".");
        lemma_octets_bounded(v);
    }
    let mut s = String::new();
    push_octet(&mut s, v >> 24);
    s.append(".");
    push_octet(&mut s, (v >> 16) & 0xff);
    s.append(".");
    push_octet(&mut s, (v >> 8) & 0xff);
    s.append(".");
    push_octet(&mut s, v & 0xff);
    assert(s@ =~= dotted_of(v));
    s
}

/// Distinct addresses have distinct texts. So the value that
/// `ip_string_to_decimal` reads from the text of an address is that address,
/// and `decimal_to_dotted` of it gives the text back.
pub proof fn lemma_dotted_round_trip(v: u32, w: u32)
    ensures
        dotted_of(v) == dotted_of(w) <==> v == w,
{
    if dotted_of(v) == dotted_of(w) {
        let s = dotted_of(v);
        lemma_dotted_fields(v);
        lemma_dotted_fields(w);
        lemma_field_at_unique(s, 0, octet_of(v, 0), octet_of(w, 0), false);
        let at1 = after_field(0, octet_of(v, 0));
        lemma_field_at_unique(s, at1, octet_of(v, 1), octet_of(w, 1), false);
        let at2 = after_field(at1, octet_of(v, 1));
        lemma_field_at_unique(s, at2, octet_of(v, 2), octet_of(w, 2), false);
        let at3 = after_field(at2, octet_of(v, 2));
        lemma_field_at_unique(s, at3, octet_of(v, 3), octet_of(w, 3), true);
        lemma_octets_pack(v);
        lemma_octets_pack(w);
    }
}

} // verus!
