//! Decimal text for 32-bit integers.
//!
//! A table's file name is built from its key range, and on restart the
//! name is the authoritative source of that range, so rendering and
//! parsing must be exact inverses: `parse_i32` accepts precisely the
//! canonical spellings `i32_to_string` produces.

use vstd::prelude::*;

verus! {

/// The character for one decimal digit.
pub open spec fn digit_char(d: int) -> char {
    if d == 0 {
        '0'
    } else if d == 1 {
        '1'
    } else if d == 2 {
        '2'
    } else if d == 3 {
        '3'
    } else if d == 4 {
        '4'
    } else if d == 5 {
        '5'
    } else if d == 6 {
        '6'
    } else if d == 7 {
        '7'
    } else if d == 8 {
        '8'
    } else {
        '9'
    }
}

/// The value of one digit character; 10 marks a non-digit.
pub open spec fn digit_val(c: char) -> int {
    if c == '0' {
        0
    } else if c == '1' {
        1
    } else if c == '2' {
        2
    } else if c == '3' {
        3
    } else if c == '4' {
        4
    } else if c == '5' {
        5
    } else if c == '6' {
        6
    } else if c == '7' {
        7
    } else if c == '8' {
        8
    } else if c == '9' {
        9
    } else {
        10
    }
}

/// The canonical digit string of a nonnegative number: no sign, no
/// leading zero except for zero itself.
pub open spec fn dec_digits(n: nat) -> Seq<char>
    decreases n,
{
    if n < 10 {
        seq![digit_char(n as int)]
    } else {
        dec_digits(n / 10).push(digit_char((n % 10) as int))
    }
}

/// The canonical spelling of a 32-bit integer.
pub open spec fn i32_dec(x: i32) -> Seq<char> {
    if x < 0 {
        seq!['-'] + dec_digits((-(x as int)) as nat)
    } else {
        dec_digits(x as nat)
    }
}

/// Every character is a digit.
pub open spec fn all_digits(s: Seq<char>) -> bool {
    forall|i: int| 0 <= i < s.len() ==> digit_val(s[i]) < 10
}

/// A nonempty digit run with no leading zero (except "0" itself).
pub open spec fn canonical_digits(s: Seq<char>) -> bool {
    &&& s.len() >= 1
    &&& all_digits(s)
    &&& (s.len() > 1 ==> s[0] != '0')
}

/// The number a digit run denotes.
pub open spec fn digits_value(s: Seq<char>) -> int
    decreases s.len(),
{
    if s.len() == 0 {
        0
    } else {
        digits_value(s.drop_last()) * 10 + digit_val(s.last())
    }
}

/// What a string of characters denotes as a 32-bit integer, if it is the
/// canonical spelling of one.
pub open spec fn spec_parse_i32(s: Seq<char>) -> Option<i32> {
    if s.len() >= 1 && s[0] == '-' {
        let d = s.skip(1);
        if canonical_digits(d) && 0 < digits_value(d) <= 0x8000_0000 {
            Some((-digits_value(d)) as i32)
        } else {
            None
        }
    } else if canonical_digits(s) && digits_value(s) <= 0x7fff_ffff {
        Some(digits_value(s) as i32)
    } else {
        None
    }
}

/// The canonical digit string denotes its number, is made of digits, and
/// starts with '0' only for zero.
pub proof fn lemma_dec_digits_value(n: nat)
    ensures
        canonical_digits(dec_digits(n)),
        digits_value(dec_digits(n)) == n,
        (dec_digits(n)[0] == '0') == (n == 0),
        dec_digits(n)[0] != '-',
    decreases n,
{
    if n < 10 {
        let s = dec_digits(n);
        assert(s =~= seq![digit_char(n as int)]);
        assert(s.drop_last() =~= Seq::<char>::empty());
        assert(digits_value(Seq::<char>::empty()) == 0);
        assert(s.last() == s[0] == digit_char(n as int));
        assert(digit_val(digit_char(n as int)) == n);
        assert(digits_value(s) == digits_value(s.drop_last()) * 10 + digit_val(s.last()));
    } else {
        lemma_dec_digits_value(n / 10);
        let p = dec_digits(n / 10);
        let s = dec_digits(n);
        assert(s == p.push(digit_char((n % 10) as int)));
        assert(s.drop_last() =~= p);
        assert(s.last() == digit_char((n % 10) as int));
        assert(digit_val(digit_char((n % 10) as int)) == n % 10);
        assert(digits_value(s) == (n / 10) * 10 + n % 10);
        assert((n / 10) * 10 + n % 10 == n) by (nonlinear_arith);
        assert(s[0] == p[0]);
        assert(forall|i: int| 0 <= i < s.len() ==> digit_val(s[i]) < 10) by {
            assert(forall|i: int| 0 <= i < p.len() ==> s[i] == p[i]);
        }
    }
}

/// A digit run that does not start with '0' denotes a positive number.
proof fn lemma_digits_value_pos(s: Seq<char>)
    requires
        canonical_digits(s),
        s[0] != '0',
    ensures
        digits_value(s) >= 1,
    decreases s.len(),
{
    if s.len() == 1 {
        assert(s.drop_last() =~= Seq::<char>::empty());
        assert(digits_value(Seq::<char>::empty()) == 0);
        assert(s.last() == s[0]);
        assert(digit_val(s[0]) >= 1);
    } else {
        let p = s.drop_last();
        assert(p[0] == s[0]);
        assert(forall|i: int| 0 <= i < p.len() ==> p[i] == s[i]);
        lemma_digits_value_pos(p);
        assert(digits_value(p) * 10 >= 10) by (nonlinear_arith)
            requires
                digits_value(p) >= 1,
        ;
        assert(digit_val(s.last()) >= 0);
    }
}

/// Digit runs denote nonnegative numbers.
proof fn lemma_digits_value_nonneg(s: Seq<char>)
    requires
        all_digits(s),
    ensures
        digits_value(s) >= 0,
    decreases s.len(),
{
    if s.len() > 0 {
        let p = s.drop_last();
        assert(forall|i: int| 0 <= i < p.len() ==> p[i] == s[i]);
        lemma_digits_value_nonneg(p);
        assert(digits_value(p) * 10 >= 0) by (nonlinear_arith)
            requires
                digits_value(p) >= 0,
        ;
    }
}

/// A canonical digit run is the canonical spelling of its number:
/// rendering is injective.
pub proof fn lemma_digits_canonical(s: Seq<char>)
    requires
        canonical_digits(s),
    ensures
        dec_digits(digits_value(s) as nat) == s,
    decreases s.len(),
{
    lemma_digits_value_nonneg(s);
    if s.len() == 1 {
        assert(s.drop_last() =~= Seq::<char>::empty());
        assert(digits_value(Seq::<char>::empty()) == 0);
        assert(s.last() == s[0]);
        assert(digits_value(s) == digits_value(s.drop_last()) * 10 + digit_val(s.last()));
        assert(digits_value(s) == digit_val(s[0]));
        assert(digit_char(digit_val(s[0])) == s[0]);
        assert(dec_digits(digit_val(s[0]) as nat) =~= s);
    } else {
        let p = s.drop_last();
        assert(p[0] == s[0]);
        assert(forall|i: int| 0 <= i < p.len() ==> p[i] == s[i]);
        lemma_digits_value_pos(p);
        lemma_digits_value_nonneg(p);
        lemma_digits_canonical(p);
        let d = digit_val(s.last());
        let v = digits_value(s);
        assert(v == digits_value(p) * 10 + d);
        assert(v / 10 == digits_value(p) && v % 10 == d) by (nonlinear_arith)
            requires
                v == digits_value(p) * 10 + d,
                0 <= d < 10,
                digits_value(p) >= 0,
        ;
        assert(v >= 10) by (nonlinear_arith)
            requires
                v == digits_value(p) * 10 + d,
                digits_value(p) >= 1,
                d >= 0,
        ;
        assert(dec_digits(v as nat) == dec_digits((v as nat) / 10).push(
            digit_char(((v as nat) % 10) as int),
        ));
        assert(digit_char(d) == s.last());
        assert(dec_digits(v as nat) =~= p.push(s.last()));
        assert(p.push(s.last()) =~= s);
    }
}

/// Parsing inverts rendering: the canonical spelling of `x` parses back
/// to exactly `x`.
pub proof fn lemma_parse_render(x: i32)
    ensures
        spec_parse_i32(i32_dec(x)) == Some(x),
{
    if x < 0 {
        let n = (-(x as int)) as nat;
        lemma_dec_digits_value(n);
        let s = i32_dec(x);
        assert(s[0] == '-');
        assert(s.skip(1) =~= dec_digits(n));
    } else {
        lemma_dec_digits_value(x as nat);
        let s = i32_dec(x);
        assert(s[0] != '-');
    }
}

/// Rendering inverts parsing: only the canonical spelling of `v` parses
/// to `v`.
pub proof fn lemma_render_parse(s: Seq<char>, v: i32)
    requires
        spec_parse_i32(s) == Some(v),
    ensures
        s == i32_dec(v),
{
    if s.len() >= 1 && s[0] == '-' {
        let d = s.skip(1);
        lemma_digits_canonical(d);
        assert(v == (-digits_value(d)) as i32);
        assert(v < 0);
        assert(-(v as int) == digits_value(d));
        assert(i32_dec(v) =~= seq!['-'] + dec_digits(digits_value(d) as nat));
        assert(s =~= seq!['-'] + d);
    } else {
        lemma_digits_canonical(s);
        lemma_digits_value_nonneg(s);
        assert(v == digits_value(s) as i32);
        assert(v >= 0);
        lemma_dec_digits_value(digits_value(s) as nat);
    }
}

/// A rendered integer holds only digits, after a possible leading '-'.
pub proof fn lemma_i32_dec_chars(x: i32)
    ensures
        forall|i: int|
            0 <= i < i32_dec(x).len() ==> digit_val(#[trigger] i32_dec(x)[i]) < 10 || (i == 0
                && i32_dec(x)[0] == '-'),
{
    if x < 0 {
        lemma_dec_digit_chars((-(x as int)) as nat);
    } else {
        lemma_dec_digit_chars(x as nat);
    }
}

proof fn lemma_dec_digit_chars(n: nat)
    ensures
        forall|i: int| 0 <= i < dec_digits(n).len() ==> digit_val(#[trigger] dec_digits(n)[i]) < 10,
    decreases n,
{
    if n < 10 {
        assert(dec_digits(n) =~= seq![digit_char(n as int)]);
        assert(digit_val(digit_char(n as int)) == n);
    } else {
        lemma_dec_digit_chars(n / 10);
        let p = dec_digits(n / 10);
        let s = dec_digits(n);
        assert(s == p.push(digit_char((n % 10) as int)));
        assert(digit_val(digit_char((n % 10) as int)) == n % 10);
        assert forall|i: int| 0 <= i < s.len() implies digit_val(#[trigger] s[i]) < 10 by {
            if i < p.len() {
                assert(s[i] == p[i]);
            } else {
                assert(s[i] == digit_char((n % 10) as int));
            }
        }
    }
}

/// The text of one digit.
fn digit_str(d: u32) -> (r: &'static str)
    requires
        d < 10,
    ensures
        r@ == seq![digit_char(d as int)],
{
    proof {
        reveal_strlit("0");
        reveal_strlit("1");
        reveal_strlit("2");
        reveal_strlit("3");
        reveal_strlit("4");
        reveal_strlit("5");
        reveal_strlit("6");
        reveal_strlit("7");
        reveal_strlit("8");
        reveal_strlit("9");
    }
    let r = if d == 0 {
        "0"
    } else if d == 1 {
        "1"
    } else if d == 2 {
        "2"
    } else if d == 3 {
        "3"
    } else if d == 4 {
        "4"
    } else if d == 5 {
        "5"
    } else if d == 6 {
        "6"
    } else if d == 7 {
        "7"
    } else if d == 8 {
        "8"
    } else {
        "9"
    };
    proof {
        assert(r@ =~= seq![digit_char(d as int)]);
    }
    r
}

/// Appends the canonical digits of `n`.
fn push_dec_u32(s: &mut String, n: u32)
    ensures
        final(s)@ == old(s)@ + dec_digits(n as nat),
    decreases n,
{
    if n >= 10 {
        push_dec_u32(s, n / 10);
    }
    let ghost mid = s@;
    s.append(digit_str(n % 10));
    proof {
        if n >= 10 {
            assert(final(s)@ =~= old(s)@ + dec_digits((n / 10) as nat).push(
                digit_char((n % 10) as int),
            ));
        } else {
            assert(final(s)@ =~= old(s)@ + seq![digit_char(n as int)]);
        }
    }
}

/// The canonical decimal spelling of `x`.
pub fn i32_to_string(x: i32) -> (r: String)
    ensures
        r@ == i32_dec(x),
{
    let mut s = String::new();
    if x < 0 {
        proof {
            reveal_strlit("-");
        }
        s.append("-");
        let mag64: i64 = -(x as i64);
        let mag: u32 = mag64 as u32;
        push_dec_u32(&mut s, mag);
        proof {
            assert("-"@ =~= seq!['-']);
            assert(s@ =~= seq!['-'] + dec_digits((-(x as int)) as nat));
        }
    } else {
        push_dec_u32(&mut s, x as u32);
        proof {
            assert(s@ =~= dec_digits(x as nat));
        }
    }
    s
}

/// Reads a 32-bit integer from its canonical decimal spelling; any other
/// text is refused.
pub fn parse_i32(s: &str) -> (r: Option<i32>)
    ensures
        r == spec_parse_i32(s@),
{
    let len = s.unicode_len();
    if len == 0 {
        return None;
    }
    let neg = s.get_char(0) == '-';
    let start: usize = if neg { 1 } else { 0 };
    if len - start == 0 {
        return None;
    }
    let ghost d = s@.skip(start as int);
    proof {
        if start == 0 {
            assert(d =~= s@);
        }
        assert(d[0] == s@[start as int]);
    }
    // leading zero only allowed for the single digit "0"
    let first = s.get_char(start);
    let mut i: usize = start;
    let mut acc: u64 = 0;
    while i < len
        invariant
            start <= i <= len,
            len == s@.len(),
            len >= 1,
            neg == (s@[0] == '-'),
            start == if neg { 1int } else { 0int },
            len - start >= 1,
            d == s@.skip(start as int),
            acc == digits_value(d.take(i - start)),
            acc <= 0x8000_0000u64,
            all_digits(d.take(i - start)),
        decreases len - i,
    {
        let c = s.get_char(i);
        let dv: u64 = if c == '0' {
            0
        } else if c == '1' {
            1
        } else if c == '2' {
            2
        } else if c == '3' {
            3
        } else if c == '4' {
            4
        } else if c == '5' {
            5
        } else if c == '6' {
            6
        } else if c == '7' {
            7
        } else if c == '8' {
            8
        } else if c == '9' {
            9
        } else {
            proof {
                assert(d[i - start] == s@[i as int]);
                assert(digit_val(d[i - start]) == 10);
                assert(!all_digits(d));
                assert(!canonical_digits(d));
                if neg {
                    assert(spec_parse_i32(s@) is None);
                } else {
                    assert(d == s@);
                    assert(!canonical_digits(s@));
                    assert(spec_parse_i32(s@) is None);
                }
            }
            return None;
        };
        let ghost k = i - start;
        proof {
            assert(d[k as int] == s@[i as int]);
            assert(d.take(k + 1).drop_last() =~= d.take(k as int));
            assert(d.take(k + 1).last() == d[k as int]);
            assert(digit_val(s@[i as int]) == dv);
            assert(digits_value(d.take(k + 1)) == digits_value(d.take(k as int)) * 10 + dv);
        }
        acc = acc * 10 + dv;
        i = i + 1;
        if acc > 0x8000_0000 {
            // the run already denotes more than any 32-bit integer
            proof {
                assert(acc == digits_value(d.take(i - start)));
                lemma_digits_grow(d, i - start, d.len() as int, 0x8000_0000);
                assert(d.take(d.len() as int) =~= d);
                assert(digits_value(d) > 0x8000_0000);
                if !neg {
                    assert(d =~= s@);
                }
            }
            return None;
        }
    }
    proof {
        assert(d.take(len - start) =~= d);
    }
    if neg {
        if first == '0' {
            proof {
                if d.len() == 1 {
                    assert(d.drop_last() =~= Seq::<char>::empty());
                    assert(digits_value(Seq::<char>::empty()) == 0);
                    assert(d.last() == d[0]);
                    assert(digits_value(d) == 0);
                }
            }
            return None;
        }
        if acc == 0 {
            return None;
        }
        let v64: i64 = -(acc as i64);
        Some(#[verifier::truncate] (v64 as i32))
    } else {
        if first == '0' && len - start > 1 {
            return None;
        }
        if acc > 0x7fff_ffffu64 {
            return None;
        }
        Some(acc as i32)
    }
}

/// Extending a digit run on the right cannot shrink a value already over
/// a positive bound.
proof fn lemma_digits_grow(d: Seq<char>, k: int, j: int, bound: int)
    requires
        0 <= k <= j <= d.len(),
        bound >= 0,
        digits_value(d.take(k)) > bound,
    ensures
        digits_value(d.take(j)) > bound,
    decreases j - k,
{
    if j > k {
        lemma_digits_grow(d, k, j - 1, bound);
        assert(d.take(j).drop_last() =~= d.take(j - 1));
        let p = digits_value(d.take(j - 1));
        assert(digits_value(d.take(j)) == p * 10 + digit_val(d.take(j).last()));
        assert(p * 10 > bound) by (nonlinear_arith)
            requires
                p > bound >= 0,
        ;
        assert(digit_val(d.take(j).last()) >= 0);
    }
}

} // verus!
