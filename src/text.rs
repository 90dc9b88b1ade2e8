//! Character-level helpers on strings: decimal rendering and parsing of
//! integers, lexicographic order, substring search and ASCII keywords.
use vstd::prelude::*;

verus! {

/// The character of a decimal digit.
pub open spec fn digit_char(d: nat) -> char {
    if d == 0 {
        '0'
    } else if d == 1 {
        '1'
    } else if d == 2 {
        '2'
    } else if d == 3 {
        '3'
    } else if d == 4 {
        '4'
    } else if d == 5 {
        '5'
    } else if d == 6 {
        '6'
    } else if d == 7 {
        '7'
    } else if d == 8 {
        '8'
    } else {
        '9'
    }
}

pub open spec fn is_digit(c: char) -> bool {
    '0' <= c && c <= '9'
}

/// The value of a decimal digit character.
pub open spec fn digit_value(c: char) -> nat {
    (c as u32 - '0' as u32) as nat
}

/// The decimal digits of a natural number, most significant first.
pub open spec fn nat_text(n: nat) -> Seq<char>
    decreases n,
{
    if n < 10 {
        seq![digit_char(n)]
    } else {
        nat_text(n / 10).push(digit_char(n % 10))
    }
}

/// The decimal rendering of an integer, with a leading `-` when negative.
pub open spec fn int_text(i: int) -> Seq<char> {
    if i < 0 {
        seq!['-'] + nat_text((-i) as nat)
    } else {
        nat_text(i as nat)
    }
}

pub open spec fn all_digits(s: Seq<char>) -> bool {
    forall|j: int| 0 <= j < s.len() ==> is_digit(#[trigger] s[j])
}

/// The number that a sequence of decimal digits denotes.
pub open spec fn digits_value(s: Seq<char>) -> nat
    decreases s.len(),
{
    if s.len() == 0 {
        0
    } else {
        digits_value(s.drop_last()) * 10 + digit_value(s.last())
    }
}

/// The integer that a text denotes in the syntax of a signed 64-bit integer:
/// an optional `+` or `-`, then one or more decimal digits, within range.
pub open spec fn i64_of_text(s: Seq<char>) -> Option<i64> {
    let neg = s.len() > 0 && s[0] == '-';
    let signed = s.len() > 0 && (s[0] == '-' || s[0] == '+');
    let digits = if signed {
        s.drop_first()
    } else {
        s
    };
    let v: int = if neg {
        -(digits_value(digits) as int)
    } else {
        digits_value(digits) as int
    };
    if digits.len() > 0 && all_digits(digits) && i64::MIN <= v <= i64::MAX {
        Some(v as i64)
    } else {
        None
    }
}

/// Strict lexicographic order on character sequences, by code point.
pub open spec fn seq_lt(a: Seq<char>, b: Seq<char>) -> bool {
    exists|k: int|
        #![trigger a.subrange(0, k)]
        0 <= k <= a.len() && k <= b.len() && a.subrange(0, k) == b.subrange(0, k) && ((k
            == a.len() && k < b.len()) || (k < a.len() && k < b.len() && (a[k] as u32) < (
        b[k] as u32)))
}

/// Whether `b` occurs in `a` as a contiguous piece.
pub open spec fn seq_contains(a: Seq<char>, b: Seq<char>) -> bool {
    exists|i: int| 0 <= i && i + b.len() <= a.len() && #[trigger] a.subrange(i, i + b.len()) == b
}

/// `c` is the ASCII letter `k`, in either case (`k` upper case or not a letter).
pub open spec fn char_eq_ignore_case(c: char, k: char) -> bool {
    c == k || ('A' <= k && k <= 'Z' && c as u32 == k as u32 + 32)
}

proof fn lemma_digits_value_bound(s: Seq<char>, t: Seq<char>)
    requires
        all_digits(s + t),
    ensures
        digits_value(s + t) >= digits_value(s),
    decreases t.len(),
{
    if t.len() > 0 {
        let st = s + t;
        assert(st.drop_last() == s + t.drop_last());
        assert(all_digits(s + t.drop_last())) by {
            assert forall|j: int| 0 <= j < (s + t.drop_last()).len() implies is_digit(
                #[trigger] (s + t.drop_last())[j],
            ) by {
                assert((s + t.drop_last())[j] == st[j]);
            }
        }
        lemma_digits_value_bound(s, t.drop_last());
    }
}

fn digit_str(d: u64) -> (s: &'static str)
    requires
        d < 10,
    ensures
        s@ == seq![digit_char(d as nat)],
{
    if d == 0 {
        proof {
            reveal_strlit("0");
        }
        "0"
    } else if d == 1 {
        proof {
            reveal_strlit("1");
        }
        "1"
    } else if d == 2 {
        proof {
            reveal_strlit("2");
        }
        "2"
    } else if d == 3 {
        proof {
            reveal_strlit("3");
        }
        "3"
    } else if d == 4 {
        proof {
            reveal_strlit("4");
        }
        "4"
    } else if d == 5 {
        proof {
            reveal_strlit("5");
        }
        "5"
    } else if d == 6 {
        proof {
            reveal_strlit("6");
        }
        "6"
    } else if d == 7 {
        proof {
            reveal_strlit("7");
        }
        "7"
    } else if d == 8 {
        proof {
            reveal_strlit("8");
        }
        "8"
    } else {
        proof {
            reveal_strlit("9");
        }
        "9"
    }
}

/// The decimal rendering of an unsigned integer.
pub fn u64_text(n: u64) -> (r: String)
    ensures
        r@ == nat_text(n as nat),
{
    let mut rest: u64 = n / 10;
    let mut out = String::from_str(digit_str(n % 10));
    proof {
        assert(out@ == seq![digit_char((n % 10) as nat)]);
    }
    while rest > 0
        invariant
            rest <= n,
            nat_text(n as nat) == (if rest == 0 {
                Seq::<char>::empty()
            } else {
                nat_text(rest as nat)
            }) + out@,
            rest == 0 ==> out@ == nat_text(n as nat),
        decreases rest,
    {
        let d = rest % 10;
        let head = String::from_str(digit_str(d));
        proof {
            let r = rest as nat;
            if r >= 10 {
                assert(nat_text(r) == nat_text(r / 10).push(digit_char(r % 10)));
            }
        }
        let old_out = out;
        out = head.concat(old_out.as_str());
        rest = rest / 10;
        proof {
            let r = (rest * 10 + d) as nat;
            if rest == 0 {
                assert(nat_text(r) == seq![digit_char(d as nat)]);
                assert(nat_text(n as nat) == out@);
            } else {
                assert(nat_text(r) == nat_text(rest as nat).push(digit_char(d as nat)));
                assert(nat_text(r) + old_out@ == nat_text(rest as nat) + out@);
            }
        }
    }
    if n < 10 {
        proof {
            assert(nat_text(n as nat) == seq![digit_char(n as nat)]);
        }
    }
    out
}

/// The decimal rendering of a signed integer.
pub fn i64_text(i: i64) -> (r: String)
    ensures
        r@ == int_text(i as int),
{
    if i < 0 {
        let mag: u64 = (0i128 - i as i128) as u64;
        let digits = u64_text(mag);
        proof {
            reveal_strlit("-");
        }
        String::from_str("-").concat(digits.as_str())
    } else {
        u64_text(i as u64)
    }
}

/// Whether two strings hold the same characters.
pub fn text_eq(a: &str, b: &str) -> (r: bool)
    ensures
        r == (a@ == b@),
{
    String::from_str(a) == String::from_str(b)
}

/// The characters of a string, one per element.
pub fn chars_of(s: &str) -> (r: Vec<char>)
    ensures
        r@ == s@,
{
    let n = s.unicode_len();
    let mut r: Vec<char> = Vec::new();
    let mut i: usize = 0;
    while i < n
        invariant
            n == s@.len(),
            i <= n,
            r@ == s@.subrange(0, i as int),
        decreases n - i,
    {
        r.push(s.get_char(i));
        i = i + 1;
        proof {
            assert(s@.subrange(0, i as int) == s@.subrange(0, i - 1).push(s@[i - 1]));
        }
    }
    proof {
        assert(s@.subrange(0, n as int) == s@);
    }
    r
}

/// Reads a signed 64-bit integer written in decimal, as `str::parse::<i64>` does.
pub fn parse_i64(s: &str) -> (r: Option<i64>)
    ensures
        r == i64_of_text(s@),
{
    let cs = chars_of(s);
    let n = cs.len();
    if n == 0 {
        return None;
    }
    let neg = cs[0] == '-';
    let start: usize = if cs[0] == '-' || cs[0] == '+' {
        1
    } else {
        0
    };
    let ghost digits = if start == 1 {
        s@.drop_first()
    } else {
        s@
    };
    if start == n {
        return None;
    }
    // Magnitudes up to 2^63 are tracked exactly; past that the text is out of range.
    let limit: u64 = 9223372036854775808;
    let mut acc: u64 = 0;
    let mut too_big = false;
    let mut i: usize = start;
    while i < n
        invariant
            cs@ == s@,
            n == cs@.len(),
            n > 0,
            start <= 1,
            start == 1 <==> (s@[0] == '-' || s@[0] == '+'),
            neg == (s@[0] == '-'),
            limit == 9223372036854775808u64,
            start <= i <= n,
            digits == s@.subrange(start as int, n as int),
            all_digits(s@.subrange(start as int, i as int)),
            !too_big ==> acc as nat == digits_value(s@.subrange(start as int, i as int)),
            !too_big ==> acc <= limit,
            too_big ==> digits_value(s@.subrange(start as int, i as int)) > limit,
        decreases n - i,
    {
        let c = cs[i];
        let ghost prefix = s@.subrange(start as int, i as int);
        proof {
            assert(s@.subrange(start as int, i + 1) == prefix.push(c));
            assert(prefix.push(c).drop_last() == prefix);
        }
        if !('0' <= c && c <= '9') {
            proof {
                let k = i - start;
                assert(c == s@[i as int]);
                assert(digits[k] == s@[i as int]);
                assert(!is_digit(digits[k]));
            }
            return None;
        }
        let d: u64 = (c as u32 - '0' as u32) as u64;
        assert(d < 10);
        proof {
            assert(all_digits(prefix.push(c))) by {
                assert forall|j: int| 0 <= j < prefix.push(c).len() implies is_digit(
                    #[trigger] prefix.push(c)[j],
                ) by {
                    if j < prefix.len() {
                        assert(prefix.push(c)[j] == prefix[j]);
                    }
                }
            }
        }
        if !too_big {
            if acc > (limit - d) / 10 {
                too_big = true;
                proof {
                    assert(digits_value(prefix.push(c)) == acc * 10 + d);
                    assert(acc * 10 + d > limit) by (nonlinear_arith)
                        requires
                            acc > (limit - d) / 10,
                            d < 10,
                    ;
                }
            } else {
                proof {
                    assert(acc * 10 + d <= limit) by (nonlinear_arith)
                        requires
                            acc <= (limit - d) / 10,
                            d < 10,
                    ;
                }
                acc = acc * 10 + d;
            }
        } else {
            proof {
                lemma_digits_value_bound(prefix, seq![c]);
            }
        }
        i = i + 1;
    }
    proof {
        assert(s@.subrange(start as int, n as int) == digits);
        if start == 1 {
            assert(digits == s@.subrange(1, s@.len() as int));
        } else {
            assert(digits == s@.subrange(0, s@.len() as int));
        }
    }
    if too_big {
        return None;
    }
    if neg {
        let v: i128 = 0i128 - acc as i128;
        Some(v as i64)
    } else if acc <= 9223372036854775807 {
        Some(acc as i64)
    } else {
        None
    }
}

/// Whether `a` comes strictly before `b` in lexicographic order.
pub fn text_lt(a: &str, b: &str) -> (r: bool)
    ensures
        r == seq_lt(a@, b@),
{
    let ca = chars_of(a);
    let cb = chars_of(b);
    let mut i: usize = 0;
    while i < ca.len() && i < cb.len() && ca[i] == cb[i]
        invariant
            ca@ == a@,
            cb@ == b@,
            i <= ca.len(),
            i <= cb.len(),
            a@.subrange(0, i as int) == b@.subrange(0, i as int),
        decreases ca.len() - i,
    {
        proof {
            assert(a@.subrange(0, i + 1) == a@.subrange(0, i as int).push(a@[i as int]));
            assert(b@.subrange(0, i + 1) == b@.subrange(0, i as int).push(b@[i as int]));
        }
        i = i + 1;
    }
    let r = if i == ca.len() || i == cb.len() {
        i == ca.len() && i < cb.len()
    } else {
        (ca[i] as u32) < (cb[i] as u32)
    };
    proof {
        if !r {
            assert forall|k: int|
                0 <= k <= a@.len() && k <= b@.len() && a@.subrange(0, k) == b@.subrange(
                    0,
                    k,
                ) implies !((k == a@.len() && k < b@.len()) || (k < a@.len() && k < b@.len()
                && (a@[k] as u32) < (b@[k] as u32))) by {
                if k > i {
                    assert(a@.subrange(0, k)[i as int] == b@.subrange(0, k)[i as int]);
                } else if k < i {
                    assert(a@.subrange(0, i as int)[k] == b@.subrange(0, i as int)[k]);
                }
            }
        }
    }
    r
}

/// Whether `b` occurs in `a` as a contiguous piece.
pub fn text_contains(a: &str, b: &str) -> (r: bool)
    ensures
        r == seq_contains(a@, b@),
{
    let ca = chars_of(a);
    let cb = chars_of(b);
    if cb.len() > ca.len() {
        return false;
    }
    let last = ca.len() - cb.len();
    let mut i: usize = 0;
    while i <= last
        invariant
            ca@ == a@,
            cb@ == b@,
            last == ca.len() - cb.len(),
            cb.len() <= ca.len(),
            forall|p: int| 0 <= p < i ==> #[trigger] a@.subrange(p, p + b@.len()) != b@,
        decreases last + 1 - i,
    {
        let mut j: usize = 0;
        while j < cb.len() && ca[i + j] == cb[j]
            invariant
                ca@ == a@,
                cb@ == b@,
                i <= last,
                last == ca.len() - cb.len(),
                j <= cb.len(),
                forall|q: int| 0 <= q < j ==> a@[i + q] == b@[q],
            decreases cb.len() - j,
        {
            j = j + 1;
        }
        if j == cb.len() {
            proof {
                assert(a@.subrange(i as int, i + b@.len()) == b@);
            }
            return true;
        }
        proof {
            assert(a@.subrange(i as int, i + b@.len())[j as int] != b@[j as int]);
        }
        i = i + 1;
    }
    false
}

} // verus!
