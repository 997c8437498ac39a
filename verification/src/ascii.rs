//! ASCII-level helpers shared by the three pipeline layers: decimal numbers,
//! case folding, and whitespace classification, each with its mathematical
//! model.

use vstd::prelude::*;

verus! {

/// The UTF-8 bytes that a character sequence occupies in memory.
pub open spec fn sbytes(s: Seq<char>) -> Seq<u8> {
    vstd::utf8::encode_utf8(s)
}

pub open spec fn is_digit(b: u8) -> bool {
    48 <= b <= 57
}

pub open spec fn is_digits(s: Seq<u8>) -> bool {
    forall|i: int| 0 <= i < s.len() ==> is_digit(#[trigger] s[i])
}

/// Value of a sequence of decimal digit bytes, most significant first.
pub open spec fn dec_val(s: Seq<u8>) -> nat
    decreases s.len(),
{
    if s.len() == 0 {
        0
    } else {
        dec_val(s.drop_last()) * 10 + (if s.last() >= 48 {
            (s.last() - 48) as nat
        } else {
            0
        })
    }
}

pub open spec fn pow10(n: nat) -> nat
    decreases n,
{
    if n == 0 {
        1
    } else {
        10 * pow10((n - 1) as nat)
    }
}

/// Reading one more digit multiplies the value by ten and adds the digit.
pub proof fn lemma_dec_val_step(s: Seq<u8>, i: int)
    requires
        0 <= i < s.len(),
        s[i] >= 48,
    ensures
        dec_val(s.take(i + 1)) == dec_val(s.take(i)) * 10 + (s[i] - 48),
{
    assert(s.take(i + 1).drop_last() =~= s.take(i));
    assert(s.take(i + 1).last() == s[i]);
}

/// A prefix of a digit string never has a larger value than the whole.
pub proof fn lemma_dec_val_prefix_le(s: Seq<u8>, i: int)
    requires
        0 <= i <= s.len(),
    ensures
        dec_val(s.take(i)) <= dec_val(s),
    decreases s.len() - i,
{
    if i < s.len() {
        lemma_dec_val_step_weak(s, i);
        lemma_dec_val_prefix_le(s, i + 1);
    } else {
        assert(s.take(i) =~= s);
    }
}

proof fn lemma_dec_val_step_weak(s: Seq<u8>, i: int)
    requires
        0 <= i < s.len(),
    ensures
        dec_val(s.take(i)) <= dec_val(s.take(i + 1)),
{
    assert(s.take(i + 1).drop_last() =~= s.take(i));
}

/// Upper-case ASCII letters folded to lower case; all other bytes unchanged.
pub open spec fn lower_byte(b: u8) -> u8 {
    if 65 <= b <= 90 {
        (b + 32) as u8
    } else {
        b
    }
}

pub open spec fn lower_bytes(s: Seq<u8>) -> Seq<u8> {
    s.map(|_i: int, b: u8| lower_byte(b))
}

/// Case-insensitive equality of two byte strings, ASCII letters only.
pub open spec fn eq_ignore_case(a: Seq<u8>, b: Seq<u8>) -> bool {
    lower_bytes(a) == lower_bytes(b)
}

pub fn lower_byte_ex(b: u8) -> (r: u8)
    ensures
        r == lower_byte(b),
{
    if 65 <= b && b <= 90 {
        b + 32
    } else {
        b
    }
}

/// Folds every ASCII upper-case letter in `s` to lower case.
pub fn to_lower_vec(s: &[u8]) -> (r: Vec<u8>)
    ensures
        r@ == lower_bytes(s@),
{
    let mut out: Vec<u8> = Vec::new();
    let mut i: usize = 0;
    while i < s.len()
        invariant
            i <= s@.len(),
            out@ =~= lower_bytes(s@).take(i as int),
        decreases s@.len() - i,
    {
        out.push(lower_byte_ex(s[i]));
        i = i + 1;
    }
    assert(out@ =~= lower_bytes(s@));
    out
}

/// Compares two byte strings, ignoring ASCII case.
pub fn eq_ignore_case_ex(a: &[u8], b: &[u8]) -> (r: bool)
    ensures
        r == eq_ignore_case(a@, b@),
{
    if a.len() != b.len() {
        assert(lower_bytes(a@).len() != lower_bytes(b@).len());
        return false;
    }
    let mut i: usize = 0;
    while i < a.len()
        invariant
            a@.len() == b@.len(),
            i <= a@.len(),
            forall|j: int| 0 <= j < i ==> lower_byte(a@[j]) == lower_byte(b@[j]),
        decreases a@.len() - i,
    {
        if lower_byte_ex(a[i]) != lower_byte_ex(b[i]) {
            assert(lower_bytes(a@)[i as int] != lower_bytes(b@)[i as int]);
            return false;
        }
        i = i + 1;
    }
    assert(lower_bytes(a@) =~= lower_bytes(b@));
    true
}

/// Linear whitespace inside a header line: space or horizontal tab.
pub open spec fn is_lws(b: u8) -> bool {
    b == 32 || b == 9
}

/// ASCII whitespace, as used to split tokens.
pub open spec fn is_ws(b: u8) -> bool {
    b == 32 || b == 9 || b == 10 || b == 13 || b == 11 || b == 12
}

pub fn is_lws_ex(b: u8) -> (r: bool)
    ensures
        r == is_lws(b),
{
    b == 32 || b == 9
}

pub fn is_ws_ex(b: u8) -> (r: bool)
    ensures
        r == is_ws(b),
{
    b == 32 || b == 9 || b == 10 || b == 13 || b == 11 || b == 12
}

/// First index at or after `i` whose byte is not linear whitespace.
pub open spec fn skip_lws(s: Seq<u8>, i: int) -> int
    decreases s.len() - i when 0 <= i <= s.len()
{
    if i >= s.len() {
        i
    } else if is_lws(s[i]) {
        skip_lws(s, i + 1)
    } else {
        i
    }
}

pub proof fn lemma_skip_lws(s: Seq<u8>, i: int)
    requires
        0 <= i <= s.len(),
    ensures
        i <= skip_lws(s, i) <= s.len(),
        forall|j: int| i <= j < skip_lws(s, i) ==> is_lws(s[j]),
        skip_lws(s, i) < s.len() ==> !is_lws(s[skip_lws(s, i)]),
    decreases s.len() - i,
{
    if i < s.len() && is_lws(s[i]) {
        lemma_skip_lws(s, i + 1);
    }
}

/// First index at or after `i` whose byte is not ASCII whitespace.
pub open spec fn skip_ws(s: Seq<u8>, i: int) -> int
    decreases s.len() - i when 0 <= i <= s.len()
{
    if i >= s.len() {
        i
    } else if is_ws(s[i]) {
        skip_ws(s, i + 1)
    } else {
        i
    }
}

/// First index at or after `i` whose byte is ASCII whitespace.
pub open spec fn skip_non_ws(s: Seq<u8>, i: int) -> int
    decreases s.len() - i when 0 <= i <= s.len()
{
    if i >= s.len() {
        i
    } else if !is_ws(s[i]) {
        skip_non_ws(s, i + 1)
    } else {
        i
    }
}

pub proof fn lemma_skip_ws(s: Seq<u8>, i: int)
    requires
        0 <= i <= s.len(),
    ensures
        i <= skip_ws(s, i) <= s.len(),
        i <= skip_non_ws(s, i) <= s.len(),
    decreases s.len() - i,
{
    if i < s.len() {
        lemma_skip_ws(s, i + 1);
    }
}

/// Decimal digit bytes of `n`, most significant first.
pub open spec fn dec_digits(n: nat) -> Seq<u8>
    decreases n,
{
    if n < 10 {
        seq![(48 + n) as u8]
    } else {
        dec_digits(n / 10).push((48 + n % 10) as u8)
    }
}

pub proof fn lemma_dec_digits(n: nat)
    ensures
        dec_digits(n).len() >= 1,
        is_digits(dec_digits(n)),
        dec_val(dec_digits(n)) == n,
    decreases n,
{
    if n < 10 {
        let d = dec_digits(n);
        assert(d.drop_last() =~= Seq::<u8>::empty());
        assert(d.last() == (48 + n) as u8);
        assert(dec_val(d) == dec_val(Seq::<u8>::empty()) * 10 + n);
    } else {
        lemma_dec_digits(n / 10);
        let d = dec_digits(n);
        assert(d.drop_last() =~= dec_digits(n / 10));
        let last_digit: u8 = (48 + n % 10) as u8;
        assert(d.last() == last_digit);
        assert(dec_val(d) == dec_val(dec_digits(n / 10)) * 10 + n % 10);
        assert(is_digits(d)) by {
            assert(forall|i: int|
                0 <= i < d.len() - 1 ==> d[i] == dec_digits(n / 10)[i]);
        }
    }
}

/// Appends the decimal digits of `n` to `out`.
pub fn push_dec_u16(out: &mut Vec<u8>, n: u16)
    ensures
        final(out)@ == old(out)@ + dec_digits(n as nat),
    decreases n,
{
    if n < 10 {
        out.push(48 + n as u8);
        assert(final(out)@ =~= old(out)@ + dec_digits(n as nat));
    } else {
        push_dec_u16(out, n / 10);
        out.push(48 + (n % 10) as u8);
        assert(final(out)@ =~= old(out)@ + dec_digits(n as nat));
    }
}

/// Decimal digit characters of `n`, most significant first.
pub open spec fn dec_chars(n: nat) -> Seq<char>
    decreases n,
{
    if n < 10 {
        seq![digit_char(n)]
    } else {
        dec_chars(n / 10).push(digit_char(n % 10))
    }
}

pub open spec fn digit_char(d: nat) -> char {
    if d == 0 {
        '0'
    } else if d == 1 {
        '1'
    } else if d == 2 {
        '2'
    } else if d == 3 {
        '3'
    } else if d == 4 {
        '4'
    } else if d == 5 {
        '5'
    } else if d == 6 {
        '6'
    } else if d == 7 {
        '7'
    } else if d == 8 {
        '8'
    } else {
        '9'
    }
}

fn digit_str(d: u16) -> (r: &'static str)
    requires
        d < 10,
    ensures
        r@ == seq![digit_char(d as nat)],
{
    proof {
        reveal_strlit("0");
        reveal_strlit("1");
        reveal_strlit("2");
        reveal_strlit("3");
        reveal_strlit("4");
        reveal_strlit("5");
        reveal_strlit("6");
        reveal_strlit("7");
        reveal_strlit("8");
        reveal_strlit("9");
    }
    let r: &'static str = if d == 0 {
        "0"
    } else if d == 1 {
        "1"
    } else if d == 2 {
        "2"
    } else if d == 3 {
        "3"
    } else if d == 4 {
        "4"
    } else if d == 5 {
        "5"
    } else if d == 6 {
        "6"
    } else if d == 7 {
        "7"
    } else if d == 8 {
        "8"
    } else {
        "9"
    };
    proof {
        assert(r@ =~= seq![digit_char(d as nat)]);
    }
    r
}

/// Appends the decimal digit characters of `n` to `s`.
pub fn append_dec_u16(s: &mut String, n: u16)
    ensures
        final(s)@ == old(s)@ + dec_chars(n as nat),
    decreases n,
{
    if n < 10 {
        s.append(digit_str(n));
        assert(final(s)@ =~= old(s)@ + dec_chars(n as nat));
    } else {
        append_dec_u16(s, n / 10);
        s.append(digit_str(n % 10));
        assert(final(s)@ =~= old(s)@ + dec_chars(n as nat));
    }
}

/// The number that `s` denotes under the standard library's unsigned decimal
/// grammar: an optional leading plus sign, then one or more digits, rejected
/// when the value exceeds `max`.
pub open spec fn spec_dec_std(s: Seq<u8>, max: nat) -> Option<nat> {
    let t = if s.len() > 0 && s[0] == 43 {
        s.drop_first()
    } else {
        s
    };
    if t.len() > 0 && is_digits(t) && dec_val(t) <= max {
        Some(dec_val(t))
    } else {
        None
    }
}

/// Parses an unsigned decimal number as `str::parse::<u16>` does.
pub fn parse_std_u16(bytes: &[u8]) -> (r: Option<u16>)
    ensures
        r == (match spec_dec_std(bytes@, u16::MAX as nat) {
            Some(v) => Some(v as u16),
            None => None::<u16>,
        }),
{
    let t_start: usize = if bytes.len() > 0 && bytes[0] == 43 {
        1
    } else {
        0
    };
    let ghost t = if bytes@.len() > 0 && bytes@[0] == 43 {
        bytes@.drop_first()
    } else {
        bytes@
    };
    proof {
        assert(t =~= bytes@.subrange(t_start as int, bytes@.len() as int));
    }
    if t_start >= bytes.len() {
        return None;
    }
    let mut val: u32 = 0;
    let mut i: usize = t_start;
    while i < bytes.len()
        invariant
            t_start <= i <= bytes@.len(),
            t_start as int == (if bytes@.len() > 0 && bytes@[0] == 43 { 1int } else { 0int }),
            t == (if bytes@.len() > 0 && bytes@[0] == 43 { bytes@.drop_first() } else { bytes@ }),
            t == bytes@.subrange(t_start as int, bytes@.len() as int),
            t.len() > 0,
            val == dec_val(t.take(i - t_start)),
            val <= u16::MAX,
            is_digits(t.take(i - t_start)),
        decreases bytes@.len() - i,
    {
        let b = bytes[i];
        if b < 48 || b > 57 {
            assert(!is_digit(t[i - t_start]));
            assert(!is_digits(t));
            return None;
        }
        proof {
            lemma_dec_val_step(t, i - t_start);
            assert(is_digits(t.take(i - t_start + 1))) by {
                assert(forall|j: int|
                    0 <= j < i - t_start ==> #[trigger] t.take(i - t_start + 1)[j]
                        == t.take(i - t_start)[j]);
                assert(t.take(i - t_start + 1)[i - t_start] == t[i - t_start]);
            }
        }
        val = val * 10 + (b - 48) as u32;
        i = i + 1;
        if val > 65535 {
            proof {
                lemma_dec_val_prefix_le(t, i - t_start);
            }
            return None;
        }
    }
    proof {
        assert(t.take(i - t_start) =~= t);
    }
    Some(val as u16)
}

/// Parses an unsigned decimal number as `str::parse::<usize>` does.
pub fn parse_std_usize(bytes: &[u8]) -> (r: Option<usize>)
    ensures
        r == (match spec_dec_std(bytes@, usize::MAX as nat) {
            Some(v) => Some(v as usize),
            None => None::<usize>,
        }),
{
    let t_start: usize = if bytes.len() > 0 && bytes[0] == 43 {
        1
    } else {
        0
    };
    let ghost t = if bytes@.len() > 0 && bytes@[0] == 43 {
        bytes@.drop_first()
    } else {
        bytes@
    };
    proof {
        assert(t =~= bytes@.subrange(t_start as int, bytes@.len() as int));
    }
    if t_start >= bytes.len() {
        return None;
    }
    let mut val: usize = 0;
    let mut i: usize = t_start;
    while i < bytes.len()
        invariant
            t_start <= i <= bytes@.len(),
            t_start as int == (if bytes@.len() > 0 && bytes@[0] == 43 { 1int } else { 0int }),
            t == (if bytes@.len() > 0 && bytes@[0] == 43 { bytes@.drop_first() } else { bytes@ }),
            t == bytes@.subrange(t_start as int, bytes@.len() as int),
            t.len() > 0,
            val == dec_val(t.take(i - t_start)),
            is_digits(t.take(i - t_start)),
        decreases bytes@.len() - i,
    {
        let b = bytes[i];
        if b < 48 || b > 57 {
            assert(!is_digit(t[i - t_start]));
            assert(!is_digits(t));
            return None;
        }
        proof {
            lemma_dec_val_step(t, i - t_start);
            assert(is_digits(t.take(i - t_start + 1))) by {
                assert(forall|j: int|
                    0 <= j < i - t_start ==> #[trigger] t.take(i - t_start + 1)[j]
                        == t.take(i - t_start)[j]);
                assert(t.take(i - t_start + 1)[i - t_start] == t[i - t_start]);
            }
        }
        let next = match val.checked_mul(10) {
            Some(m) => m.checked_add((b - 48) as usize),
            None => None,
        };
        match next {
            Some(v) => {
                val = v;
            },
            None => {
                proof {
                    lemma_dec_val_prefix_le(t, i - t_start + 1);
                }
                return None;
            },
        }
        i = i + 1;
    }
    proof {
        assert(t.take(i - t_start) =~= t);
    }
    Some(val)
}

} // verus!
