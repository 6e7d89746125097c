//! Verified numeric-to-text conversions: lowercase hex encoding of byte
//! strings (through the `hex` crate) and decimal strings for balances.

use vstd::prelude::*;

verus! {

/// Lowercase hex character of a nibble.
pub open spec fn hex_digit(n: u8) -> char {
    if n == 0 { '0' } else if n == 1 { '1' } else if n == 2 { '2' } else if n == 3 { '3' }
    else if n == 4 { '4' } else if n == 5 { '5' } else if n == 6 { '6' } else if n == 7 { '7' }
    else if n == 8 { '8' } else if n == 9 { '9' } else if n == 10 { 'a' } else if n == 11 { 'b' }
    else if n == 12 { 'c' } else if n == 13 { 'd' } else if n == 14 { 'e' } else { 'f' }
}

/// Lowercase hex encoding: two digits per byte, high nibble first.
pub open spec fn hex_of(b: Seq<u8>) -> Seq<char>
    decreases b.len(),
{
    if b.len() == 0 {
        Seq::empty()
    } else {
        seq![hex_digit(b[0] / 16), hex_digit(b[0] % 16)] + hex_of(b.skip(1))
    }
}

/// Relies on hex::encode: lowercase, exactly two digits per input byte,
/// high nibble first.
#[verifier::external_body]
pub fn hex_encode(bytes: &Vec<u8>) -> (r: String)
    ensures
        r@ == hex_of(bytes@),
{
    hex::encode(bytes.as_slice())
}

/// Decimal character of a digit.
pub open spec fn dec_digit(n: nat) -> char {
    if n == 0 { '0' } else if n == 1 { '1' } else if n == 2 { '2' } else if n == 3 { '3' }
    else if n == 4 { '4' } else if n == 5 { '5' } else if n == 6 { '6' } else if n == 7 { '7' }
    else if n == 8 { '8' } else { '9' }
}

pub open spec fn is_dec_digit(c: char) -> bool {
    c == '0' || c == '1' || c == '2' || c == '3' || c == '4' || c == '5' || c == '6' || c == '7'
        || c == '8' || c == '9'
}

/// Numeric value of a decimal character; zero on other characters.
pub open spec fn dec_digit_val(c: char) -> nat {
    if c == '1' { 1 } else if c == '2' { 2 } else if c == '3' { 3 } else if c == '4' { 4 }
    else if c == '5' { 5 } else if c == '6' { 6 } else if c == '7' { 7 } else if c == '8' { 8 }
    else if c == '9' { 9 } else { 0 }
}

/// Value of a string of decimal digits, most significant first.
pub open spec fn dec_value(s: Seq<char>) -> nat
    decreases s.len(),
{
    if s.len() == 0 {
        0
    } else {
        dec_value(s.drop_last()) * 10 + dec_digit_val(s.last())
    }
}

pub open spec fn all_dec_digits(s: Seq<char>) -> bool {
    forall|i: int| 0 <= i < s.len() ==> is_dec_digit(#[trigger] s[i])
}

/// A canonical decimal string: nonempty, all digits, no superfluous leading zero.
pub open spec fn is_dec_string(s: Seq<char>) -> bool {
    s.len() > 0 && all_dec_digits(s) && (s.len() > 1 ==> s[0] != '0')
}

/// The canonical decimal string of a natural number.
pub open spec fn dec_of(n: nat) -> Seq<char>
    decreases n,
{
    if n < 10 {
        seq![dec_digit(n)]
    } else {
        dec_of(n / 10) + seq![dec_digit(n % 10)]
    }
}

/// The canonical decimal string really denotes its number and is well formed.
pub proof fn lemma_dec_of_props(n: nat)
    ensures
        is_dec_string(dec_of(n)),
        dec_value(dec_of(n)) == n,
        n >= 1 ==> dec_of(n)[0] != '0',
    decreases n,
{
    if n < 10 {
        let s = dec_of(n);
        assert(s.drop_last() =~= Seq::<char>::empty());
        assert(dec_value(s) == dec_value(Seq::<char>::empty()) * 10 + dec_digit_val(dec_digit(n)));
        assert(dec_digit_val(dec_digit(n)) == n);
    } else {
        let q = n / 10;
        let r = n % 10;
        assert(q >= 1 && r < 10 && n == q * 10 + r) by (nonlinear_arith)
            requires n >= 10 && q == n / 10 && r == n % 10;
        lemma_dec_of_props(q);
        let s = dec_of(n);
        assert(s.drop_last() =~= dec_of(q));
        assert(s.last() == dec_digit(r));
        assert(dec_digit_val(dec_digit(r)) == r);
        assert(dec_value(s) == q * 10 + r);
        assert(s[0] == dec_of(q)[0]);
    }
}

/// Value of a digit sequence stored least significant first.
pub open spec fn val_lsf(d: Seq<u8>) -> nat
    decreases d.len(),
{
    if d.len() == 0 {
        0
    } else {
        d[0] as nat + 10 * val_lsf(d.skip(1))
    }
}

proof fn lemma_val_lsf_last_nonzero(d: Seq<u8>)
    requires
        d.len() >= 1,
        d.last() != 0,
    ensures
        val_lsf(d) >= 1,
    decreases d.len(),
{
    if d.len() > 1 {
        assert(d.skip(1).last() == d.last());
        lemma_val_lsf_last_nonzero(d.skip(1));
    }
}

/// Appends one decimal digit character to a string.
fn push_dec_digit(s: &mut String, d: u8)
    requires
        d < 10,
    ensures
        final(s)@ == old(s)@ + seq![dec_digit(d as nat)],
{
    proof {
        reveal_strlit("0");
        reveal_strlit("1");
        reveal_strlit("2");
        reveal_strlit("3");
        reveal_strlit("4");
        reveal_strlit("5");
        reveal_strlit("6");
        reveal_strlit("7");
        reveal_strlit("8");
        reveal_strlit("9");
    }
    if d == 0 {
        s.append("0");
    } else if d == 1 {
        s.append("1");
    } else if d == 2 {
        s.append("2");
    } else if d == 3 {
        s.append("3");
    } else if d == 4 {
        s.append("4");
    } else if d == 5 {
        s.append("5");
    } else if d == 6 {
        s.append("6");
    } else if d == 7 {
        s.append("7");
    } else if d == 8 {
        s.append("8");
    } else {
        s.append("9");
    }
    proof {
        assert(final(s)@ =~= old(s)@ + seq![dec_digit(d as nat)]);
    }
}

/// The decimal string of a number, rebuilt from its digits least significant
/// first.
proof fn lemma_dec_of_step(d: u8, rest: nat)
    requires
        d < 10,
        rest >= 1,
    ensures
        dec_of(d as nat + 10 * rest) == dec_of(rest) + seq![dec_digit(d as nat)],
{
    let n: nat = (d + 10 * rest) as nat;
    assert(n >= 10 && n / 10 == rest && n % 10 == d) by (nonlinear_arith)
        requires d < 10 && rest >= 1 && n == d + 10 * rest;
}

/// Renders `n` as its canonical decimal string.
#[verifier::spinoff_prover]
pub fn u128_to_decimal(n: u128) -> (r: String)
    ensures
        r@ == dec_of(n as nat),
{
    if n == 0 {
        proof {
            reveal_strlit("0");
            assert("0"@ =~= dec_of(0));
        }
        return "0".to_owned();
    }
    let mut digits: Vec<u8> = Vec::new();
    let mut m = n;
    proof {
        assert(digits@ =~= Seq::<u8>::empty());
        assert(val_lsf(digits@) == 0);
        assert(pow10(0) == 1);
    }
    while m > 0
        invariant
            n as nat == val_lsf(digits@) + (m as nat) * pow10(digits@.len() as nat),
            forall|k: int| 0 <= k < digits@.len() ==> #[trigger] digits@[k] < 10,
            m == 0 ==> digits@.len() >= 1 && digits@.last() != 0,
        decreases m,
    {
        let d = (m % 10) as u8;
        let m2 = m / 10;
        proof {
            let len = digits@.len() as nat;
            assert(d < 10 && m2 < m && m == d as u128 + 10 * m2) by (nonlinear_arith)
                requires m > 0 && d == m % 10 && m2 == m / 10;
            lemma_val_lsf_push(digits@, d);
            assert(pow10(len + 1) == 10 * pow10(len));
            assert((m as nat) * pow10(len) == (d as nat) * pow10(len) + (m2 as nat) * (10
                * pow10(len))) by (nonlinear_arith)
                requires m as nat == d as nat + 10 * (m2 as nat);
            assert(digits@.push(d).len() == len + 1);
        }
        digits.push(d);
        m = m2;
    }
    proof {
        assert(n as nat == val_lsf(digits@));
    }
    let mut s = String::new();
    let mut i: usize = digits.len();
    while i > 0
        invariant
            i <= digits@.len(),
            n as nat == val_lsf(digits@),
            digits@.len() >= 1 && digits@.last() != 0,
            forall|k: int| 0 <= k < digits@.len() ==> #[trigger] digits@[k] < 10,
            i == digits@.len() ==> s@ == Seq::<char>::empty(),
            i < digits@.len() ==> s@ == dec_of(val_lsf(digits@.skip(i as int))),
        decreases i,
    {
        i -= 1;
        let d = digits[i];
        proof {
            let tail = digits@.skip(i as int);
            assert(tail[0] == digits@[i as int]);
            assert(tail.skip(1) =~= digits@.skip(i as int + 1));
            if i + 1 == digits@.len() {
                assert(tail.skip(1) =~= Seq::<u8>::empty());
                assert(val_lsf(tail) == d);
            } else {
                assert(digits@.skip(i as int + 1).last() == digits@.last());
                lemma_val_lsf_last_nonzero(digits@.skip(i as int + 1));
                lemma_dec_of_step(d, val_lsf(digits@.skip(i as int + 1)));
            }
        }
        push_dec_digit(&mut s, d);
    }
    proof {
        assert(digits@.skip(0) =~= digits@);
    }
    s
}

pub open spec fn pow10(k: nat) -> nat
    decreases k,
{
    if k == 0 {
        1
    } else {
        10 * pow10((k - 1) as nat)
    }
}

proof fn lemma_val_lsf_push(d: Seq<u8>, x: u8)
    ensures
        val_lsf(d.push(x)) == val_lsf(d) + (x as nat) * pow10(d.len() as nat),
    decreases d.len(),
{
    if d.len() == 0 {
        assert(d.push(x).skip(1) =~= Seq::<u8>::empty());
        assert(val_lsf(d.push(x)) == x as nat + 10 * val_lsf(Seq::<u8>::empty()));
        assert(pow10(0) == 1);
    } else {
        assert(d.push(x).skip(1) =~= d.skip(1).push(x));
        lemma_val_lsf_push(d.skip(1), x);
        assert(val_lsf(d.push(x)) == d[0] as nat + 10 * (val_lsf(d.skip(1)) + (x as nat) * pow10(
            d.skip(1).len() as nat,
        )));
        assert(d.skip(1).len() == d.len() - 1);
        assert(pow10(d.len() as nat) == 10 * pow10((d.len() - 1) as nat));
        let a = val_lsf(d.skip(1));
        let b = (x as nat) * pow10((d.len() - 1) as nat);
        assert(10 * (a + b) == 10 * a + 10 * b) by (nonlinear_arith);
        assert(10 * ((x as nat) * pow10((d.len() - 1) as nat)) == (x as nat) * (10 * pow10(
            (d.len() - 1) as nat,
        ))) by (nonlinear_arith);
    }
}

/// Reads a decimal-digit character; `None` on any other character.
fn dec_digit_of_char(c: char) -> (r: Option<u8>)
    ensures
        r is Some <==> is_dec_digit(c),
        r is Some ==> r->0 < 10 && r->0 as nat == dec_digit_val(c),
{
    if c == '0' { Some(0) }
    else if c == '1' { Some(1) }
    else if c == '2' { Some(2) }
    else if c == '3' { Some(3) }
    else if c == '4' { Some(4) }
    else if c == '5' { Some(5) }
    else if c == '6' { Some(6) }
    else if c == '7' { Some(7) }
    else if c == '8' { Some(8) }
    else if c == '9' { Some(9) }
    else { None }
}

/// A longer digit prefix never denotes a smaller value.
proof fn lemma_dec_value_take_monotone(s: Seq<char>, i: int, j: int)
    requires
        0 <= i <= j <= s.len(),
    ensures
        dec_value(s.take(i)) <= dec_value(s.take(j)),
    decreases j - i,
{
    if i < j {
        lemma_dec_value_take_monotone(s, i, j - 1);
        assert(s.take(j).drop_last() =~= s.take(j - 1));
        assert(dec_value(s.take(j)) == dec_value(s.take(j - 1)) * 10 + dec_digit_val(
            s.take(j).last(),
        ));
        assert(dec_value(s.take(j - 1)) * 10 >= dec_value(s.take(j - 1))) by (nonlinear_arith);
    }
}

/// Parses a decimal string into a number. Succeeds exactly on nonempty
/// all-digit strings whose value fits the result type.
#[verifier::spinoff_prover]
pub fn parse_decimal(s: &str) -> (r: Option<u128>)
    ensures
        r is Some <==> (s@.len() > 0 && all_dec_digits(s@) && dec_value(s@) <= u128::MAX),
        r is Some ==> r->0 as nat == dec_value(s@),
{
    let n = s.unicode_len();
    if n == 0 {
        return None;
    }
    let mut acc: u128 = 0;
    let mut i: usize = 0;
    while i < n
        invariant
            n == s@.len(),
            0 <= i <= n,
            forall|j: int| 0 <= j < i ==> is_dec_digit(#[trigger] s@[j]),
            acc as nat == dec_value(s@.take(i as int)),
        decreases n - i,
    {
        let c = s.get_char(i);
        let d = match dec_digit_of_char(c) {
            Some(d) => d,
            None => {
                return None;
            },
        };
        if acc > (u128::MAX - d as u128) / 10 {
            proof {
                assert(dec_value(s@.take(i as int)) * 10 + dec_digit_val(c) > u128::MAX)
                    by (nonlinear_arith)
                    requires
                        dec_value(s@.take(i as int)) > (u128::MAX - dec_digit_val(c)) / 10,
                        dec_digit_val(c) < 10,
                ;
                assert(s@.take(i as int + 1).drop_last() =~= s@.take(i as int));
                assert(s@.take(i as int + 1).last() == c);
                lemma_dec_value_take_monotone(s@, i as int + 1, n as int);
                assert(s@.take(n as int) =~= s@);
            }
            return None;
        }
        proof {
            assert(acc * 10 + (d as int) <= u128::MAX) by (nonlinear_arith)
                requires
                    acc <= (u128::MAX - d as u128) / 10,
                    d < 10,
            ;
            assert(s@.take(i as int + 1).drop_last() =~= s@.take(i as int));
            assert(s@.take(i as int + 1).last() == c);
        }
        acc = acc * 10 + d as u128;
        i += 1;
    }
    proof {
        assert(s@.take(n as int) =~= s@);
    }
    Some(acc)
}

/// Renders an amount in human-readable form, inserting a decimal point
/// `decimals` places from the right, zero-padding as needed.
pub open spec fn spec_format_amount(n: nat, d: nat) -> Seq<char> {
    if d == 0 {
        dec_of(n)
    } else {
        let s = dec_of(n);
        let padded = if s.len() <= d {
            pad_zeros((d + 1 - s.len()) as nat) + s
        } else {
            s
        };
        let pos = padded.len() - d;
        padded.take(pos as int) + seq!['.'] + padded.skip(pos as int)
    }
}

pub open spec fn pad_zeros(k: nat) -> Seq<char>
    decreases k,
{
    if k == 0 {
        Seq::empty()
    } else {
        seq!['0'] + pad_zeros((k - 1) as nat)
    }
}

/// Formats a token amount with `decimals` fractional digits.
#[verifier::spinoff_prover]
pub fn format_token_amount(amount: u128, decimals: u8) -> (r: String)
    ensures
        r@ == spec_format_amount(amount as nat, decimals as nat),
{
    let amount_str = u128_to_decimal(amount);
    if decimals == 0 {
        return amount_str;
    }
    let len = amount_str.as_str().unicode_len();
    proof {
        lemma_dec_of_props(amount as nat);
    }
    let padded = if len <= decimals as usize {
        let mut p = String::new();
        let want: usize = decimals as usize + 1 - len;
        let mut k: usize = 0;
        while k < want
            invariant
                k <= want,
                p@ == pad_zeros(k as nat),
            decreases want - k,
        {
            proof {
                reveal_strlit("0");
            }
            p.append("0");
            proof {
                lemma_pad_zeros_snoc(k as nat);
            }
            k += 1;
        }
        p.concat(amount_str.as_str())
    } else {
        amount_str
    };
    proof {
        lemma_pad_zeros_len((decimals as nat + 1 - dec_of(amount as nat).len()) as nat);
    }
    let plen = padded.as_str().unicode_len();
    assert(plen > decimals as usize);
    let pos = plen - decimals as usize;
    let int_part = padded.as_str().substring_char(0, pos);
    let frac_part = padded.as_str().substring_char(pos, plen);
    proof {
        reveal_strlit(".");
    }
    let r = int_part.to_owned().concat(".").concat(frac_part);
    proof {
        assert(r@ =~= spec_format_amount(amount as nat, decimals as nat));
    }
    r
}

proof fn lemma_pad_zeros_len(k: nat)
    ensures
        pad_zeros(k).len() == k,
    decreases k,
{
    if k > 0 {
        lemma_pad_zeros_len((k - 1) as nat);
    }
}

proof fn lemma_pad_zeros_snoc(k: nat)
    ensures
        pad_zeros(k) + seq!['0'] == pad_zeros(k + 1),
    decreases k,
{
    if k == 0 {
        assert(pad_zeros(0) + seq!['0'] =~= pad_zeros(1));
    } else {
        lemma_pad_zeros_snoc((k - 1) as nat);
        assert(pad_zeros(k) + seq!['0'] =~= seq!['0'] + (pad_zeros((k - 1) as nat) + seq!['0']));
    }
}


/// Prepending a digit multiplies its value by the power of the tail length.
proof fn lemma_dec_value_cons(c: char, t: Seq<char>)
    ensures
        dec_value(seq![c] + t) == dec_digit_val(c) * pow10(t.len() as nat) + dec_value(t),
    decreases t.len(),
{
    if t.len() == 0 {
        assert(seq![c] + t =~= seq![c]);
        assert((seq![c]).drop_last() =~= Seq::<char>::empty());
        assert(pow10(0) == 1);
        assert(dec_value(seq![c]) == dec_value(Seq::<char>::empty()) * 10 + dec_digit_val(c));
        assert(dec_digit_val(c) * 1 == dec_digit_val(c)) by (nonlinear_arith);
    } else {
        assert((seq![c] + t).drop_last() =~= seq![c] + t.drop_last());
        assert((seq![c] + t).last() == t.last());
        lemma_dec_value_cons(c, t.drop_last());
        assert(dec_value(seq![c] + t) == dec_value(seq![c] + t.drop_last()) * 10 + dec_digit_val(
            t.last(),
        ));
        assert((dec_digit_val(c) * pow10((t.len() - 1) as nat) + dec_value(t.drop_last())) * 10
            == dec_digit_val(c) * (10 * pow10((t.len() - 1) as nat)) + dec_value(t.drop_last())
            * 10) by (nonlinear_arith);
        assert(pow10(t.len() as nat) == 10 * pow10((t.len() - 1) as nat));
        assert(dec_digit_val(c) * (10 * pow10((t.len() - 1) as nat)) == dec_digit_val(c) * pow10(
            t.len() as nat,
        ));
    }
}

/// Reads a decimal string into its digits, least significant first.
/// Succeeds exactly on nonempty all-digit strings.
#[verifier::spinoff_prover]
pub fn dec_to_digits(s: &str) -> (r: Option<Vec<u8>>)
    ensures
        r is Some <==> (s@.len() > 0 && all_dec_digits(s@)),
        r matches Some(d) ==> val_lsf(d@) == dec_value(s@) && forall|k: int|
            0 <= k < d@.len() ==> #[trigger] d@[k] < 10,
{
    let n = s.unicode_len();
    if n == 0 {
        return None;
    }
    let mut digits: Vec<u8> = Vec::new();
    let mut i: usize = n;
    proof {
        assert(s@.skip(n as int) =~= Seq::<char>::empty());
        assert(digits@ =~= Seq::<u8>::empty());
    }
    while i > 0
        invariant
            n == s@.len(),
            0 <= i <= n,
            digits@.len() == n - i,
            forall|k: int| 0 <= k < digits@.len() ==> #[trigger] digits@[k] < 10,
            forall|j: int| i <= j < n ==> is_dec_digit(#[trigger] s@[j]),
            val_lsf(digits@) == dec_value(s@.skip(i as int)),
        decreases i,
    {
        let c = s.get_char(i - 1);
        let d = match dec_digit_of_char(c) {
            Some(d) => d,
            None => {
                proof {
                    assert(!is_dec_digit(s@[i - 1]));
                }
                return None;
            },
        };
        proof {
            assert(s@.skip(i as int - 1) =~= seq![c] + s@.skip(i as int));
            lemma_dec_value_cons(c, s@.skip(i as int));
            lemma_val_lsf_push(digits@, d);
            assert(s@.skip(i as int).len() == digits@.len());
        }
        digits.push(d);
        i -= 1;
    }
    proof {
        assert(s@.skip(0) =~= s@);
    }
    Some(digits)
}

/// Renders a digit vector (least significant first) as a canonical decimal
/// string.
#[verifier::spinoff_prover]
pub fn digits_to_decimal(digits: &Vec<u8>) -> (r: String)
    requires
        forall|k: int| 0 <= k < digits@.len() ==> #[trigger] digits@[k] < 10,
    ensures
        is_dec_string(r@),
        dec_value(r@) == val_lsf(digits@),
{
    let mut m: usize = digits.len();
    proof {
        assert(digits@.take(m as int) =~= digits@);
    }
    while m > 0 && digits[m - 1] == 0
        invariant
            0 <= m <= digits@.len(),
            forall|k: int| 0 <= k < digits@.len() ==> #[trigger] digits@[k] < 10,
            val_lsf(digits@.take(m as int)) == val_lsf(digits@),
        decreases m,
    {
        proof {
            assert(digits@.take(m as int) =~= digits@.take(m as int - 1).push(
                digits@[m as int - 1],
            ));
            lemma_val_lsf_push(digits@.take(m as int - 1), digits@[m as int - 1]);
        }
        m -= 1;
    }
    if m == 0 {
        proof {
            assert(digits@.take(0) =~= Seq::<u8>::empty());
            reveal_strlit("0");
            assert("0"@ =~= dec_of(0));
            lemma_dec_of_props(0);
        }
        return "0".to_owned();
    }
    let ghost v = val_lsf(digits@);
    let mut s = String::new();
    let mut i: usize = m;
    while i > 0
        invariant
            0 < m <= digits@.len(),
            0 <= i <= m,
            forall|k: int| 0 <= k < digits@.len() ==> #[trigger] digits@[k] < 10,
            digits@[m as int - 1] != 0,
            val_lsf(digits@.take(m as int)) == v,
            i == m ==> s@ == Seq::<char>::empty(),
            i < m ==> s@ == dec_of(val_lsf(digits@.subrange(i as int, m as int))),
        decreases i,
    {
        i -= 1;
        let d = digits[i];
        proof {
            let tail = digits@.subrange(i as int, m as int);
            assert(tail[0] == digits@[i as int]);
            assert(tail.skip(1) =~= digits@.subrange(i as int + 1, m as int));
            if i + 1 == m {
                assert(tail.skip(1) =~= Seq::<u8>::empty());
                assert(val_lsf(tail) == d);
            } else {
                assert(digits@.subrange(i as int + 1, m as int).last() == digits@[m as int - 1]);
                lemma_val_lsf_last_nonzero(digits@.subrange(i as int + 1, m as int));
                lemma_dec_of_step(d, val_lsf(digits@.subrange(i as int + 1, m as int)));
            }
        }
        push_dec_digit(&mut s, d);
    }
    proof {
        assert(digits@.subrange(0, m as int) =~= digits@.take(m as int));
        lemma_dec_of_props(v);
    }
    s
}

/// Adds two digit vectors (least significant first), schoolbook style.
#[verifier::spinoff_prover]
pub fn add_digits(a: &Vec<u8>, b: &Vec<u8>) -> (r: Vec<u8>)
    requires
        forall|k: int| 0 <= k < a@.len() ==> #[trigger] a@[k] < 10,
        forall|k: int| 0 <= k < b@.len() ==> #[trigger] b@[k] < 10,
    ensures
        forall|k: int| 0 <= k < r@.len() ==> #[trigger] r@[k] < 10,
        val_lsf(r@) == val_lsf(a@) + val_lsf(b@),
{
    let mut out: Vec<u8> = Vec::new();
    let mut carry: u8 = 0;
    let mut i: usize = 0;
    proof {
        assert(out@ =~= Seq::<u8>::empty());
        assert(a@.take(0) =~= Seq::<u8>::empty());
        assert(b@.take(0) =~= Seq::<u8>::empty());
    }
    while i < a.len() || i < b.len()
        invariant
            forall|k: int| 0 <= k < a@.len() ==> #[trigger] a@[k] < 10,
            forall|k: int| 0 <= k < b@.len() ==> #[trigger] b@[k] < 10,
            forall|k: int| 0 <= k < out@.len() ==> #[trigger] out@[k] < 10,
            out@.len() == i,
            carry <= 1,
            val_lsf(out@) + (carry as nat) * pow10(i as nat) == val_lsf(
                a@.take(if i <= a@.len() { i as int } else { a@.len() as int }),
            ) + val_lsf(b@.take(if i <= b@.len() { i as int } else { b@.len() as int })),
        decreases (if a@.len() > i { a@.len() - i } else { 0 }) + (if b@.len() > i {
            b@.len() - i
        } else {
            0
        }),
    {
        let ai: u8 = if i < a.len() { a[i] } else { 0 };
        let bi: u8 = if i < b.len() { b[i] } else { 0 };
        let sum: u8 = ai + bi + carry;
        let digit: u8 = sum % 10;
        let new_carry: u8 = sum / 10;
        proof {
            assert(digit < 10 && new_carry <= 1 && sum == digit + 10 * new_carry)
                by (nonlinear_arith)
                requires sum <= 19 && digit == sum % 10 && new_carry == sum / 10;
            lemma_val_lsf_push(out@, digit);
            if i < a@.len() {
                assert(a@.take(i as int + 1) =~= a@.take(i as int).push(a@[i as int]));
                lemma_val_lsf_push(a@.take(i as int), a@[i as int]);
            } else {
                assert(a@.take(a@.len() as int) == a@.take(a@.len() as int));
            }
            if i < b@.len() {
                assert(b@.take(i as int + 1) =~= b@.take(i as int).push(b@[i as int]));
                lemma_val_lsf_push(b@.take(i as int), b@[i as int]);
            }
            assert((sum as nat) * pow10(i as nat) == (digit as nat) * pow10(i as nat) + (
            new_carry as nat) * (10 * pow10(i as nat))) by (nonlinear_arith)
                requires sum == digit + 10 * new_carry;
            assert((ai as nat + bi as nat + carry as nat) * pow10(i as nat) == (ai as nat)
                * pow10(i as nat) + (bi as nat) * pow10(i as nat) + (carry as nat) * pow10(
                i as nat,
            )) by (nonlinear_arith);
        }
        out.push(digit);
        carry = new_carry;
        i += 1;
    }
    proof {
        assert(a@.take(a@.len() as int) =~= a@);
        assert(b@.take(b@.len() as int) =~= b@);
    }
    if carry > 0 {
        proof {
            lemma_val_lsf_push(out@, carry);
        }
        out.push(carry);
    }
    out
}


/// Hex encoding is two characters per byte, positionally.
pub proof fn lemma_hex_of_index(b: Seq<u8>, j: int)
    requires
        0 <= j < b.len(),
    ensures
        hex_of(b).len() == 2 * b.len(),
        hex_of(b)[2 * j] == hex_digit(b[j] / 16),
        hex_of(b)[2 * j + 1] == hex_digit(b[j] % 16),
    decreases b.len(),
{
    lemma_hex_of_len(b);
    if j > 0 {
        lemma_hex_of_index(b.skip(1), j - 1);
        assert(b.skip(1)[j - 1] == b[j]);
    }
}

pub proof fn lemma_hex_of_len(b: Seq<u8>)
    ensures
        hex_of(b).len() == 2 * b.len(),
    decreases b.len(),
{
    if b.len() > 0 {
        lemma_hex_of_len(b.skip(1));
    }
}

/// Hex characters are digits or lowercase letters: never a colon, never `x`.
pub proof fn lemma_hex_of_chars(b: Seq<u8>)
    ensures
        forall|k: int|
            0 <= k < hex_of(b).len() ==> #[trigger] hex_of(b)[k] != ':' && hex_of(b)[k] != 'x',
    decreases b.len(),
{
    if b.len() > 0 {
        lemma_hex_of_chars(b.skip(1));
        assert forall|k: int|
            0 <= k < hex_of(b).len() implies #[trigger] hex_of(b)[k] != ':' && hex_of(b)[k]
            != 'x' by {
            if k >= 2 {
                assert(hex_of(b)[k] == hex_of(b.skip(1))[k - 2]);
            }
        }
    }
}

} // verus!
