//! Text helpers: building strings a character at a time, and the strict
//! decimal form used when dictionary keys travel between their string form
//! and a numeric wire type.

use vstd::prelude::*;

verus! {

/// Relies on `String::push`: appends exactly the given character.
pub assume_specification[ String::push ](s: &mut String, ch: char)
    ensures
        final(s)@ == old(s)@.push(ch),
;

/// A copy of a string with the same characters.
pub fn clone_string(s: &String) -> (r: String)
    ensures
        r@ == s@,
{
    s.clone()
}

/// The digit characters, by value.
pub open spec fn digit_char(d: int) -> char {
    if d == 0 { '0' }
    else if d == 1 { '1' }
    else if d == 2 { '2' }
    else if d == 3 { '3' }
    else if d == 4 { '4' }
    else if d == 5 { '5' }
    else if d == 6 { '6' }
    else if d == 7 { '7' }
    else if d == 8 { '8' }
    else { '9' }
}

/// The value of a digit character; ten for any other character.
pub open spec fn digit_val(c: char) -> int {
    if c == '0' { 0 }
    else if c == '1' { 1 }
    else if c == '2' { 2 }
    else if c == '3' { 3 }
    else if c == '4' { 4 }
    else if c == '5' { 5 }
    else if c == '6' { 6 }
    else if c == '7' { 7 }
    else if c == '8' { 8 }
    else if c == '9' { 9 }
    else { 10 }
}

pub open spec fn is_digit(c: char) -> bool {
    digit_val(c) < 10
}

/// The canonical decimal text of a non-negative integer.
pub open spec fn dec_digits(n: int) -> Seq<char>
    decreases n,
{
    if n < 10 {
        seq![digit_char(if n < 0 { 0 } else { n })]
    } else {
        dec_digits(n / 10) + seq![digit_char(n % 10)]
    }
}

/// The canonical decimal text of a signed integer.
pub open spec fn dec_text_signed(v: int) -> Seq<char> {
    if v < 0 {
        seq!['-'] + dec_digits(-v)
    } else {
        dec_digits(v)
    }
}

pub open spec fn all_digits(t: Seq<char>) -> bool {
    forall|i: int| 0 <= i < t.len() ==> is_digit(#[trigger] t[i])
}

/// The number a digit string denotes, most significant digit first.
pub open spec fn dec_value(t: Seq<char>) -> int
    decreases t.len(),
{
    if t.len() == 0 {
        0
    } else {
        dec_value(t.drop_last()) * 10 + digit_val(t.last())
    }
}

/// A digit string is canonical when it is non-empty and carries no
/// superfluous leading zero.
pub open spec fn canonical_digits(t: Seq<char>) -> bool {
    &&& t.len() >= 1
    &&& all_digits(t)
    &&& (t[0] != '0' || t.len() == 1)
}

/// The strict decimal reading of a whole string: an optional minus sign on
/// a positive canonical digit string, or a canonical digit string.  This is
/// the only numeric form accepted for dictionary keys.
pub open spec fn sp_parse_dec(t: Seq<char>) -> Option<(bool, int)> {
    if t.len() >= 1 && t[0] == '-' {
        let tail = t.drop_first();
        if canonical_digits(tail) && dec_value(tail) > 0 {
            Some((true, dec_value(tail)))
        } else {
            None
        }
    } else {
        if canonical_digits(t) {
            Some((false, dec_value(t)))
        } else {
            None
        }
    }
}

pub proof fn lemma_dec_value_nonneg(t: Seq<char>)
    requires
        all_digits(t),
    ensures
        dec_value(t) >= 0,
    decreases t.len(),
{
    if t.len() > 0 {
        assert(all_digits(t.drop_last())) by {
            assert(forall|i: int| 0 <= i < t.len() - 1
                ==> is_digit(#[trigger] t.drop_last()[i]) == is_digit(t[i]));
        }
        lemma_dec_value_nonneg(t.drop_last());
        assert(is_digit(t.last()));
    }
}

/// A canonical digit string that does not start with zero denotes at
/// least one; with two or more digits, at least ten.
pub proof fn lemma_dec_value_lower(t: Seq<char>)
    requires
        all_digits(t),
        t.len() >= 1,
        t[0] != '0',
    ensures
        dec_value(t) >= 1,
        t.len() >= 2 ==> dec_value(t) >= 10,
    decreases t.len(),
{
    if t.len() == 1 {
        assert(is_digit(t[0]));
        assert(t.last() == t[0]);
        assert(t.drop_last() =~= Seq::<char>::empty());
        assert(dec_value(Seq::<char>::empty()) == 0);
        assert(dec_value(t.drop_last()) == 0);
        assert(dec_value(t) == dec_value(t.drop_last()) * 10 + digit_val(t.last()));
        assert(dec_value(t) == digit_val(t[0]));
        assert(digit_val(t[0]) >= 1);
    } else {
        let head = t.drop_last();
        assert(all_digits(head)) by {
            assert(forall|i: int| 0 <= i < t.len() - 1
                ==> is_digit(#[trigger] head[i]) == is_digit(t[i]));
        }
        assert(head[0] == t[0]);
        lemma_dec_value_lower(head);
        assert(is_digit(t.last()));
        lemma_dec_value_nonneg(head);
        assert(dec_value(t) == dec_value(head) * 10 + digit_val(t.last()));
        assert(digit_val(t.last()) >= 0);
        assert(dec_value(head) * 10 >= 10) by (nonlinear_arith)
            requires
                dec_value(head) >= 1,
        ;
        assert(dec_value(t) >= 10);
    }
}

/// Printing the value a canonical digit string denotes gives back that
/// string: the strict decimal form round-trips.
pub proof fn lemma_dec_canonical_roundtrip(t: Seq<char>)
    requires
        canonical_digits(t),
    ensures
        dec_digits(dec_value(t)) =~= t,
    decreases t.len(),
{
    lemma_dec_value_nonneg(t);
    if t.len() == 1 {
        assert(is_digit(t[0]));
        assert(t.last() == t[0]);
        assert(t.drop_last() =~= Seq::<char>::empty());
        assert(dec_value(t.drop_last()) == 0);
        assert(dec_value(t) == dec_value(t.drop_last()) * 10 + digit_val(t.last()));
        assert(dec_value(t) == digit_val(t[0]));
        assert(digit_char(digit_val(t[0])) == t[0]);
    } else {
        let head = t.drop_last();
        let d = digit_val(t.last());
        let w = dec_value(head);
        assert(all_digits(head)) by {
            assert(forall|i: int| 0 <= i < t.len() - 1
                ==> is_digit(#[trigger] head[i]) == is_digit(t[i]));
        }
        assert(head[0] == t[0]);
        lemma_dec_value_lower(head);
        lemma_dec_canonical_roundtrip(head);
        let v = dec_value(t);
        assert(v == w * 10 + d);
        assert(0 <= d < 10);
        assert(v / 10 == w && v % 10 == d) by (nonlinear_arith)
            requires
                v == w * 10 + d,
                0 <= d < 10,
                w >= 1,
        ;
        assert(v >= 10);
        assert(dec_digits(v) == dec_digits(w) + seq![digit_char(d)]);
        assert(is_digit(t.last()));
        assert(digit_char(d) == t.last());
        assert(dec_digits(v) =~= t);
    }
}

/// Printing back what the strict scanner read gives the original text.
pub proof fn lemma_parse_dec_roundtrip(t: Seq<char>)
    requires
        sp_parse_dec(t) is Some,
    ensures
        ({
            let (neg, mag) = sp_parse_dec(t)->Some_0;
            dec_text_signed(if neg { -mag } else { mag }) == t
        }),
{
    let (neg, mag) = sp_parse_dec(t)->Some_0;
    if t.len() >= 1 && t[0] == '-' {
        let tail = t.drop_first();
        lemma_dec_canonical_roundtrip(tail);
        assert(dec_text_signed(-mag) =~= seq!['-'] + tail);
        assert(seq!['-'] + tail =~= t);
    } else {
        lemma_dec_canonical_roundtrip(t);
        lemma_dec_value_nonneg(t);
        assert(mag >= 0);
        assert(dec_text_signed(mag) == dec_digits(mag));
        assert(dec_text_signed(mag) =~= t);
    }
}

/// Extending a digit string to the right never lowers its value.
pub proof fn lemma_dec_value_take_le(t: Seq<char>, k: int)
    requires
        all_digits(t),
        0 <= k <= t.len(),
    ensures
        dec_value(t.take(k)) <= dec_value(t),
    decreases t.len() - k,
{
    if k < t.len() {
        lemma_dec_value_take_le(t, k + 1);
        let a = t.take(k);
        let b = t.take(k + 1);
        assert(b.drop_last() =~= a);
        assert(b.last() == t[k]);
        assert(all_digits(a)) by {
            assert(forall|i: int| 0 <= i < k
                ==> is_digit(#[trigger] a[i]) == is_digit(t[i]));
        }
        lemma_dec_value_nonneg(a);
        assert(dec_value(b) == dec_value(a) * 10 + digit_val(t[k]));
        assert(dec_value(a) * 10 >= dec_value(a)) by (nonlinear_arith)
            requires
                dec_value(a) >= 0,
        ;
    } else {
        assert(t.take(k) =~= t);
    }
}

fn is_digit_char(c: char) -> (r: bool)
    ensures
        r == is_digit(c),
{
    c == '0' || c == '1' || c == '2' || c == '3' || c == '4' || c == '5'
        || c == '6' || c == '7' || c == '8' || c == '9'
}

fn digit_value(c: char) -> (r: u64)
    requires
        is_digit(c),
    ensures
        r == digit_val(c),
{
    if c == '0' { 0 }
    else if c == '1' { 1 }
    else if c == '2' { 2 }
    else if c == '3' { 3 }
    else if c == '4' { 4 }
    else if c == '5' { 5 }
    else if c == '6' { 6 }
    else if c == '7' { 7 }
    else if c == '8' { 8 }
    else { 9 }
}

fn char_of_digit(d: u64) -> (r: char)
    requires
        d < 10,
    ensures
        r == digit_char(d as int),
{
    if d == 0 { '0' }
    else if d == 1 { '1' }
    else if d == 2 { '2' }
    else if d == 3 { '3' }
    else if d == 4 { '4' }
    else if d == 5 { '5' }
    else if d == 6 { '6' }
    else if d == 7 { '7' }
    else if d == 8 { '8' }
    else { '9' }
}

/// Appends the canonical decimal text of `n`.
pub fn push_dec_u64(out: &mut String, n: u64)
    ensures
        final(out)@ == old(out)@ + dec_digits(n as int),
    decreases n,
{
    if n < 10 {
        out.push(char_of_digit(n));
        proof {
            assert(final(out)@ =~= old(out)@ + dec_digits(n as int));
        }
    } else {
        push_dec_u64(out, n / 10);
        out.push(char_of_digit(n % 10));
        proof {
            assert(final(out)@ =~= old(out)@ + dec_digits(n as int));
        }
    }
}

/// Appends the canonical decimal text of a signed value.
pub fn push_dec_i64(out: &mut String, v: i64)
    ensures
        final(out)@ == old(out)@ + dec_text_signed(v as int),
{
    if v < 0 {
        out.push('-');
        let mag: u64 = ((-(v as i128)) as u64);
        push_dec_u64(out, mag);
        proof {
            assert(final(out)@ =~= old(out)@ + dec_text_signed(v as int));
        }
    } else {
        push_dec_u64(out, v as u64);
    }
}

/// What the strict decimal scanner reports of a whole string.
pub enum DecScan {
    /// The text is not a strict decimal.
    NotDecimal,
    /// A strict decimal whose magnitude exceeds the largest wire integer.
    TooBig,
    /// A strict decimal: its sign and magnitude.
    Num(bool, u64),
}

/// Reads a whole string as a strict decimal: an optional minus sign and
/// canonical digits, nothing else.
#[verifier::loop_isolation(false)]
pub fn scan_dec(text: &str) -> (r: DecScan)
    ensures
        match r {
            DecScan::NotDecimal => sp_parse_dec(text@) is None,
            DecScan::TooBig => sp_parse_dec(text@) matches Some((_neg, v))
                && v > u64::MAX,
            DecScan::Num(neg, mag) => sp_parse_dec(text@) == Some((neg, mag as int)),
        },
{
    let n = text.unicode_len();
    let neg = n >= 1 && text.get_char(0) == '-';
    let start: usize = if neg { 1 } else { 0 };
    let ghost digits = if neg { text@.drop_first() } else { text@ };
    proof {
        assert(digits =~= text@.subrange(start as int, n as int));
    }
    if n == start {
        return DecScan::NotDecimal;
    }
    // reject a superfluous leading zero
    if text.get_char(start) == '0' && n > start + 1 {
        return DecScan::NotDecimal;
    }
    // first pass: every remaining character must be a digit
    let mut i: usize = start;
    while i < n
        invariant
            start <= i <= n,
            n == text@.len(),
            n > start,
            digits == text@.subrange(start as int, n as int),
            forall|k: int| 0 <= k < i - start ==> is_digit(#[trigger] digits[k]),
        decreases n - i,
    {
        if !is_digit_char(text.get_char(i)) {
            proof {
                assert(!is_digit(digits[i - start]));
                assert(!all_digits(digits));
                assert(!canonical_digits(digits));
            }
            return DecScan::NotDecimal;
        }
        i = i + 1;
    }
    proof {
        assert(all_digits(digits));
        assert(canonical_digits(digits));
        lemma_dec_value_nonneg(digits);
    }
    // second pass: accumulate, watching for overflow past the widest wire
    // integer
    let mut acc: u64 = 0;
    let mut j: usize = start;
    while j < n
        invariant
            start <= j <= n,
            n == text@.len(),
            n > start,
            digits == text@.subrange(start as int, n as int),
            canonical_digits(digits),
            acc as int == dec_value(digits.take(j - start)),
        decreases n - j,
    {
        let c = text.get_char(j);
        proof {
            let k = j - start;
            assert(digits[k] == c);
            assert(is_digit(c));
        }
        let d = digit_value(c);
        proof {
            let k = j - start;
            assert(digits.take(k + 1).drop_last() =~= digits.take(k));
            assert(digits.take(k + 1).last() == digits[k]);
        }
        if acc > (u64::MAX - d) / 10 {
            // every extension of these digits denotes at least this much
            proof {
                let k = j - start;
                assert(dec_value(digits.take(k + 1)) > u64::MAX as int)
                    by (nonlinear_arith)
                    requires
                        dec_value(digits.take(k + 1))
                            == dec_value(digits.take(k)) * 10 + digit_val(digits[k]),
                        dec_value(digits.take(k)) == acc as int,
                        acc > (u64::MAX - digit_val(digits[k])) / 10,
                        0 <= digit_val(digits[k]) < 10,
                ;
                lemma_dec_value_take_le(digits, k + 1);
                assert(dec_value(digits) > u64::MAX as int);
                if neg {
                    assert(text@.drop_first() == digits);
                    assert(sp_parse_dec(text@) == Some((true, dec_value(digits))));
                } else {
                    assert(sp_parse_dec(text@) == Some((false, dec_value(digits))));
                }
            }
            return DecScan::TooBig;
        }
        acc = acc * 10 + d;
        j = j + 1;
    }
    proof {
        assert(digits.take(n - start) =~= digits);
    }
    if neg && acc == 0 {
        return DecScan::NotDecimal;
    }
    DecScan::Num(neg, acc)
}

} // verus!
