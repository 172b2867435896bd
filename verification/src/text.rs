//! Byte-level text rules shared by the image formats: splitting a line at
//! whitespace, and the syntax of unsigned integer and floating-point literals
//! as Rust's standard parsers accept them.

use vstd::prelude::*;

verus! {

/// The contents of each byte line of a list of lines.
pub open spec fn line_views(lines: Seq<Vec<u8>>) -> Seq<Seq<u8>> {
    lines.map_values(|l: Vec<u8>| l@)
}

// ------------------------------------------------------------------
// Whitespace and tokens
// ------------------------------------------------------------------

/// The byte length of the Unicode whitespace character whose UTF-8 encoding
/// starts at position `i` of `s`, or 0 when none starts there. The characters
/// are those of Unicode's `White_Space` property: U+0009..U+000D, U+0020,
/// U+0085, U+00A0, U+1680, U+2000..U+200A, U+2028, U+2029, U+202F, U+205F and
/// U+3000.
pub open spec fn space_len(s: Seq<u8>, i: int) -> nat {
    if 0 <= i < s.len() {
        let b = s[i];
        if b == 9 || b == 10 || b == 11 || b == 12 || b == 13 || b == 32 {
            1
        } else if b == 0xC2 && i + 1 < s.len() && (s[i + 1] == 0x85 || s[i + 1] == 0xA0) {
            2
        } else if b == 0xE1 && i + 2 < s.len() && s[i + 1] == 0x9A && s[i + 2] == 0x80 {
            3
        } else if b == 0xE2 && i + 2 < s.len() && ((s[i + 1] == 0x80 && ((0x80 <= s[i + 2]
            && s[i + 2] <= 0x8A) || s[i + 2] == 0xA8 || s[i + 2] == 0xA9 || s[i + 2] == 0xAF)) || (
        s[i + 1] == 0x81 && s[i + 2] == 0x9F)) {
            3
        } else if b == 0xE3 && i + 2 < s.len() && s[i + 1] == 0x80 && s[i + 2] == 0x80 {
            3
        } else {
            0
        }
    } else {
        0
    }
}

/// The tokens of `s` from position `i` on, where `pending` holds the bytes of
/// the token that is open at `i`: the maximal runs of bytes that no whitespace
/// character interrupts.
pub open spec fn tokens_from(s: Seq<u8>, i: int, pending: Seq<u8>) -> Seq<Seq<u8>>
    decreases s.len() - i,
{
    if i < 0 || i >= s.len() {
        if pending.len() > 0 {
            seq![pending]
        } else {
            Seq::<Seq<u8>>::empty()
        }
    } else if space_len(s, i) > 0 {
        let rest = tokens_from(s, i + space_len(s, i), Seq::<u8>::empty());
        if pending.len() > 0 {
            seq![pending] + rest
        } else {
            rest
        }
    } else {
        tokens_from(s, i + 1, pending.push(s[i]))
    }
}

/// The non-empty pieces of `s` between whitespace characters, in order.
pub open spec fn whitespace_tokens(s: Seq<u8>) -> Seq<Seq<u8>> {
    tokens_from(s, 0, Seq::<u8>::empty())
}

/// The byte length of the whitespace character that starts at `i`, or 0.
fn space_len_at(s: &Vec<u8>, i: usize) -> (n: usize)
    requires
        i < s.len(),
    ensures
        n == space_len(s@, i as int),
{
    let b = s[i];
    let len = s.len();
    if b == 9 || b == 10 || b == 11 || b == 12 || b == 13 || b == 32 {
        1
    } else if b == 0xC2 && len - i > 1 && (s[i + 1] == 0x85 || s[i + 1] == 0xA0) {
        2
    } else if b == 0xE1 && len - i > 2 && s[i + 1] == 0x9A && s[i + 2] == 0x80 {
        3
    } else if b == 0xE2 && len - i > 2 && ((s[i + 1] == 0x80 && ((0x80 <= s[i + 2] && s[i + 2]
        <= 0x8A) || s[i + 2] == 0xA8 || s[i + 2] == 0xA9 || s[i + 2] == 0xAF)) || (s[i + 1]
        == 0x81 && s[i + 2] == 0x9F)) {
        3
    } else if b == 0xE3 && len - i > 2 && s[i + 1] == 0x80 && s[i + 2] == 0x80 {
        3
    } else {
        0
    }
}

/// Splits a line at whitespace, as `str::split_whitespace` does on its UTF-8
/// text: the result holds the non-empty pieces between whitespace characters.
pub fn split_whitespace(s: &Vec<u8>) -> (tokens: Vec<Vec<u8>>)
    ensures
        line_views(tokens@) == whitespace_tokens(s@),
{
    let mut out: Vec<Vec<u8>> = Vec::new();
    let mut cur: Vec<u8> = Vec::new();
    let mut i: usize = 0;
    while i < s.len()
        invariant
            i <= s.len(),
            line_views(out@) + tokens_from(s@, i as int, cur@) == whitespace_tokens(s@),
        decreases s.len() - i,
    {
        let n = space_len_at(s, i);
        let ghost before_tokens = tokens_from(s@, i as int, cur@);
        if n > 0 {
            assert(before_tokens == (if cur@.len() > 0 {
                seq![cur@] + tokens_from(s@, i + n, Seq::<u8>::empty())
            } else {
                tokens_from(s@, i + n, Seq::<u8>::empty())
            }));
            if cur.len() > 0 {
                let ghost before = line_views(out@);
                let ghost c = cur@;
                out.push(cur);
                cur = Vec::new();
                proof {
                    assert(line_views(out@) =~= before.push(c));
                    assert(before + (seq![c] + tokens_from(s@, i + n, Seq::<u8>::empty()))
                        =~= line_views(out@) + tokens_from(s@, i + n, cur@));
                }
            } else {
                assert(cur@ =~= Seq::<u8>::empty());
            }
            i = i + n;
        } else {
            let ghost c = cur@;
            cur.push(s[i]);
            proof {
                assert(before_tokens == tokens_from(s@, i + 1, c.push(s@[i as int])));
                assert(cur@ =~= c.push(s@[i as int]));
            }
            i = i + 1;
        }
    }
    if cur.len() > 0 {
        let ghost before = line_views(out@);
        let ghost c = cur@;
        out.push(cur);
        proof {
            assert(line_views(out@) =~= before.push(c));
            assert(before + seq![c] =~= line_views(out@));
        }
    } else {
        proof {
            assert(line_views(out@) + Seq::<Seq<u8>>::empty() =~= line_views(out@));
        }
    }
    out
}

// ------------------------------------------------------------------
// Unsigned integer literals
// ------------------------------------------------------------------

/// An ASCII decimal digit.
pub open spec fn is_digit(b: u8) -> bool {
    48 <= b <= 57
}

/// Every byte of `s` is a decimal digit.
pub open spec fn all_digits(s: Seq<u8>) -> bool {
    forall|i: int| 0 <= i < s.len() ==> is_digit(#[trigger] s[i])
}

/// The number that a string of decimal digits denotes.
pub open spec fn digits_value(s: Seq<u8>) -> nat
    decreases s.len(),
{
    if s.len() == 0 {
        0
    } else {
        digits_value(s.drop_last()) * 10 + (s.last() - 48) as nat
    }
}

/// The digits of an unsigned literal: the text after an optional leading `+`.
pub open spec fn unsigned_digits(s: Seq<u8>) -> Seq<u8> {
    if s.len() > 0 && s[0] == 43 {
        s.drop_first()
    } else {
        s
    }
}

/// The value of an unsigned decimal literal as Rust's integer parsers read it
/// (an optional `+`, then one or more decimal digits), or `None` when `s` is
/// no such literal.
pub open spec fn unsigned_literal(s: Seq<u8>) -> Option<nat> {
    let d = unsigned_digits(s);
    if d.len() > 0 && all_digits(d) {
        Some(digits_value(d))
    } else {
        None
    }
}

/// The result of reading `s` as an unsigned integer no greater than `limit`.
pub open spec fn bounded_unsigned(s: Seq<u8>, limit: nat) -> Option<nat> {
    match unsigned_literal(s) {
        Some(v) => if v <= limit {
            Some(v)
        } else {
            None
        },
        None => None,
    }
}

/// Reads `s` as an unsigned decimal integer that may not exceed `limit`, as
/// `u32::from_str` (with `limit == u32::MAX`) or `usize::from_str` (with
/// `limit == usize::MAX`) do: `None` for text that is no such literal or whose
/// value is above `limit`.
pub fn parse_unsigned(s: &Vec<u8>, limit: u64) -> (r: Option<u64>)
    ensures
        r is Some <==> bounded_unsigned(s@, limit as nat) is Some,
        r is Some ==> r->0 as nat == bounded_unsigned(s@, limit as nat)->0,
{
    let n = s.len();
    let start: usize = if n > 0 && s[0] == 43 { 1 } else { 0 };
    proof {
        assert(unsigned_digits(s@) =~= s@.subrange(start as int, n as int));
    }
    if start == n {
        return None;
    }
    let mut val: u64 = 0;
    let mut over = false;
    let mut i: usize = start;
    while i < n
        invariant
            n == s.len(),
            start <= i <= n,
            start < n,
            unsigned_digits(s@) == s@.subrange(start as int, n as int),
            all_digits(s@.subrange(start as int, i as int)),
            !over ==> val as nat == digits_value(s@.subrange(start as int, i as int)),
            !over ==> val <= limit,
            over ==> digits_value(s@.subrange(start as int, i as int)) > limit,
        decreases n - i,
    {
        let b = s[i];
        if b < 48 || b > 57 {
            proof {
                let d = s@.subrange(start as int, n as int);
                assert(d[i - start] == b);
                assert(!is_digit(d[i - start]));
            }
            return None;
        }
        let dg: u64 = (b - 48) as u64;
        let ghost prev = s@.subrange(start as int, i as int);
        let ghost next = s@.subrange(start as int, i + 1);
        proof {
            assert(next.drop_last() =~= prev);
            assert(next.last() == b);
            assert(digits_value(next) == digits_value(prev) * 10 + dg);
        }
        if !over {
            if dg > limit || val > (limit - dg) / 10 {
                over = true;
                proof {
                    if dg <= limit {
                        assert(val * 10 + dg > limit) by (nonlinear_arith)
                            requires
                                val > (limit - dg) / 10,
                                dg <= limit,
                        ;
                    }
                }
            } else {
                proof {
                    assert(val * 10 + dg <= limit) by (nonlinear_arith)
                        requires
                            val <= (limit - dg) / 10,
                            dg <= limit,
                    ;
                }
                val = val * 10 + dg;
            }
        }
        i = i + 1;
        proof {
            assert forall|k: int| 0 <= k < next.len() implies is_digit(#[trigger] next[k]) by {
                if k < prev.len() {
                    assert(next[k] == prev[k]);
                }
            }
        }
    }
    if over {
        None
    } else {
        Some(val)
    }
}

// ------------------------------------------------------------------
// Floating-point literals
// ------------------------------------------------------------------

/// An ASCII letter in lower case; other bytes unchanged.
pub open spec fn ascii_lower(b: u8) -> u8 {
    if 65 <= b <= 90 {
        (b + 32) as u8
    } else {
        b
    }
}

/// `s` with its ASCII letters in lower case.
pub open spec fn lowered(s: Seq<u8>) -> Seq<u8> {
    Seq::new(s.len(), |i: int| ascii_lower(s[i]))
}

/// `s` without one leading `+` or `-`.
pub open spec fn without_sign(s: Seq<u8>) -> Seq<u8> {
    if s.len() > 0 && (s[0] == 43 || s[0] == 45) {
        s.drop_first()
    } else {
        s
    }
}

/// Digits with at most one `.` among them, and at least one digit: the forms
/// `1`, `1.`, `1.5` and `.5`.
pub open spec fn is_mantissa(m: Seq<u8>) -> bool {
    &&& forall|i: int| 0 <= i < m.len() ==> is_digit(#[trigger] m[i]) || m[i] == 46
    &&& forall|i: int, j: int|
        0 <= i < j < m.len() ==> !(#[trigger] m[i] == 46 && #[trigger] m[j] == 46)
    &&& exists|i: int| 0 <= i < m.len() && is_digit(#[trigger] m[i])
}

/// The part of an exponent after its `e`: an optional sign, then digits.
pub open spec fn is_exponent_tail(x: Seq<u8>) -> bool {
    let d = without_sign(x);
    d.len() > 0 && all_digits(d)
}

/// A decimal number in lower case: a mantissa, optionally followed by `e` and
/// an exponent.
pub open spec fn is_decimal_number(t: Seq<u8>) -> bool {
    ||| is_mantissa(t)
    ||| exists|k: int|
        0 <= k < t.len() && t[k] == 101 && #[trigger] is_mantissa(t.take(k)) && is_exponent_tail(
            t.skip(k + 1),
        )
}

/// The text `inf`.
pub open spec fn inf_word() -> Seq<u8> {
    seq![105u8, 110u8, 102u8]
}

/// The text `infinity`.
pub open spec fn infinity_word() -> Seq<u8> {
    seq![105u8, 110u8, 102u8, 105u8, 110u8, 105u8, 116u8, 121u8]
}

/// The text `nan`.
pub open spec fn nan_word() -> Seq<u8> {
    seq![110u8, 97u8, 110u8]
}

/// Text that Rust's `f64::from_str` accepts: an optional sign followed by
/// `inf`, `infinity`, `nan` or a decimal number, where letters may be in
/// either case.
pub open spec fn is_float_literal(s: Seq<u8>) -> bool {
    let t = lowered(without_sign(s));
    ||| t == inf_word()
    ||| t == infinity_word()
    ||| t == nan_word()
    ||| is_decimal_number(t)
}

/// `without_sign(s)` with its letters in lower case.
fn lowered_without_sign(s: &Vec<u8>) -> (t: Vec<u8>)
    ensures
        t@ == lowered(without_sign(s@)),
{
    let start: usize = if s.len() > 0 && (s[0] == 43 || s[0] == 45) { 1 } else { 0 };
    let ghost body = without_sign(s@);
    proof {
        assert(body =~= s@.skip(start as int));
    }
    let mut t: Vec<u8> = Vec::new();
    let mut i: usize = start;
    while i < s.len()
        invariant
            start <= i <= s.len(),
            body == s@.skip(start as int),
            t@ =~= lowered(body).take(i - start),
        decreases s.len() - i,
    {
        let b = s[i];
        let l: u8 = if 65 <= b && b <= 90 { b + 32 } else { b };
        t.push(l);
        i = i + 1;
        proof {
            assert(t@ =~= lowered(body).take(i - start));
        }
    }
    proof {
        assert(lowered(body).take(i - start) =~= lowered(body));
    }
    t
}

/// Whether the first `end` bytes of `t` form a mantissa.
fn mantissa_prefix(t: &Vec<u8>, end: usize) -> (r: bool)
    requires
        end <= t.len(),
    ensures
        r == is_mantissa(t@.take(end as int)),
{
    let ghost m = t@.take(end as int);
    let mut dots: usize = 0;
    let mut digit_seen = false;
    let mut i: usize = 0;
    while i < end
        invariant
            end <= t.len(),
            m == t@.take(end as int),
            i <= end,
            dots <= 1,
            forall|k: int| 0 <= k < i ==> is_digit(#[trigger] m[k]) || m[k] == 46,
            dots == 0 ==> forall|k: int| 0 <= k < i ==> #[trigger] m[k] != 46,
            dots == 1 ==> exists|k: int| 0 <= k < i && #[trigger] m[k] == 46,
            forall|a: int, b: int| 0 <= a < b < i ==> !(#[trigger] m[a] == 46 && #[trigger] m[b] == 46),
            digit_seen <==> exists|k: int| 0 <= k < i && is_digit(#[trigger] m[k]),
        decreases end - i,
    {
        let b = t[i];
        assert(m[i as int] == b);
        if b == 46 {
            if dots == 1 {
                proof {
                    let k = choose|k: int| 0 <= k < i && #[trigger] m[k] == 46;
                    assert(m[k] == 46 && m[i as int] == 46);
                }
                return false;
            }
            dots = 1;
        } else if 48 <= b && b <= 57 {
            digit_seen = true;
        } else {
            return false;
        }
        i = i + 1;
    }
    digit_seen
}

/// Whether the bytes of `t` from `start` on form the tail of an exponent.
fn exponent_tail_from(t: &Vec<u8>, start: usize) -> (r: bool)
    requires
        start <= t.len(),
    ensures
        r == is_exponent_tail(t@.skip(start as int)),
{
    let ghost x = t@.skip(start as int);
    let first: usize = if start < t.len() && (t[start] == 43 || t[start] == 45) {
        start + 1
    } else {
        start
    };
    proof {
        assert(without_sign(x) =~= t@.skip(first as int));
    }
    if first == t.len() {
        return false;
    }
    let mut i: usize = first;
    while i < t.len()
        invariant
            first <= i <= t.len(),
            x == t@.skip(start as int),
            without_sign(x) == t@.skip(first as int),
            forall|k: int| first <= k < i ==> is_digit(#[trigger] t@[k]),
        decreases t.len() - i,
    {
        if t[i] < 48 || t[i] > 57 {
            proof {
                assert(without_sign(x)[i - first] == t@[i as int]);
            }
            return false;
        }
        i = i + 1;
    }
    proof {
        let d = without_sign(x);
        assert forall|k: int| 0 <= k < d.len() implies is_digit(#[trigger] d[k]) by {
            assert(d[k] == t@[first + k]);
        }
    }
    true
}

/// Whether `f64::from_str` accepts `s`: an optional sign followed by `inf`,
/// `infinity`, `nan` or a decimal number (a mantissa and an optional
/// exponent), where letters may be in either case.
pub fn float_literal(s: &Vec<u8>) -> (r: bool)
    ensures
        r == is_float_literal(s@),
{
    let t = lowered_without_sign(s);
    let n = t.len();
    if n == 3 && t[0] == 105 && t[1] == 110 && t[2] == 102 {
        assert(t@ =~= inf_word());
        return true;
    }
    if n == 8 && t[0] == 105 && t[1] == 110 && t[2] == 102 && t[3] == 105 && t[4] == 110 && t[5]
        == 105 && t[6] == 116 && t[7] == 121 {
        assert(t@ =~= infinity_word());
        return true;
    }
    if n == 3 && t[0] == 110 && t[1] == 97 && t[2] == 110 {
        assert(t@ =~= nan_word());
        return true;
    }
    proof {
        if t@ == inf_word() {
            assert(t@[0] == 105 && t@[1] == 110 && t@[2] == 102);
        }
        if t@ == infinity_word() {
            assert(t@[0] == 105 && t@[1] == 110 && t@[2] == 102 && t@[3] == 105);
            assert(t@[4] == 110 && t@[5] == 105 && t@[6] == 116 && t@[7] == 121);
        }
        if t@ == nan_word() {
            assert(t@[0] == 110 && t@[1] == 97 && t@[2] == 110);
        }
    }
    let mut k: usize = 0;
    while k < n && t[k] != 101
        invariant
            n == t.len(),
            k <= n,
            forall|j: int| 0 <= j < k ==> t@[j] != 101,
        decreases n - k,
    {
        k = k + 1;
    }
    if k == n {
        let r = mantissa_prefix(&t, n);
        proof {
            assert(t@.take(n as int) =~= t@);
        }
        r
    } else {
        let r = mantissa_prefix(&t, k) && exponent_tail_from(&t, k + 1);
        proof {
            assert(!is_mantissa(t@)) by {
                assert(t@[k as int] == 101);
            }
            assert forall|j: int|
                0 <= j < t@.len() && t@[j] == 101 && #[trigger] is_mantissa(t@.take(j))
                    && is_exponent_tail(t@.skip(j + 1)) implies j == k by {
                if j > k {
                    assert(t@.take(j)[k as int] == 101);
                }
            }
        }
        r
    }
}

} // verus!
