//! Facts about decimal digit strings and integer rounding.
use vstd::prelude::*;
use crate::text::{all_digits, dec_text, digit_char, digit_value, digits_value, is_ascii_digit, pow10};

verus! {

pub proof fn lemma_pow10_pos(k: nat)
    ensures
        pow10(k) >= 1,
    decreases k,
{
    if k > 0 {
        lemma_pow10_pos((k - 1) as nat);
    }
}

pub proof fn lemma_pow10_add(a: nat, b: nat)
    ensures
        pow10(a + b) == pow10(a) * pow10(b),
    decreases b,
{
    if b == 0 {
        assert(pow10(0) == 1);
        assert(a + b == a);
        assert(pow10(a) * 1 == pow10(a));
    } else {
        lemma_pow10_add(a, (b - 1) as nat);
        assert(pow10(a + b) == 10 * pow10((a + b - 1) as nat));
        assert(pow10(a + b) == 10 * (pow10(a) * pow10((b - 1) as nat)));
        assert(10 * (pow10(a) * pow10((b - 1) as nat)) == pow10(a) * (10 * pow10(
            (b - 1) as nat,
        ))) by (nonlinear_arith);
        assert(pow10(b) == 10 * pow10((b - 1) as nat));
    }
}

/// A string of `k` digits spells a number below `10^k`.
pub proof fn lemma_digits_value_bound(s: Seq<char>)
    requires
        all_digits(s),
    ensures
        digits_value(s) < pow10(s.len()),
    decreases s.len(),
{
    if s.len() > 0 {
        assert(all_digits(s.drop_last()));
        lemma_digits_value_bound(s.drop_last());
        assert(is_ascii_digit(s[s.len() - 1]));
        let a = digits_value(s.drop_last());
        let p = pow10(s.drop_last().len());
        assert(a * 10 + digit_value(s.last()) < 10 * p) by (nonlinear_arith)
            requires
                a < p,
                digit_value(s.last()) < 10,
        ;
    }
}

/// Digits written one after the other.
pub proof fn lemma_digits_concat(a: Seq<char>, b: Seq<char>)
    ensures
        digits_value(a + b) == digits_value(a) * pow10(b.len()) + digits_value(b),
    decreases b.len(),
{
    if b.len() == 0 {
        assert(a + b =~= a);
        assert(pow10(0) == 1);
        assert(digits_value(a) * 1 == digits_value(a));
    } else {
        let b0 = b.drop_last();
        lemma_digits_concat(a, b0);
        assert((a + b).drop_last() =~= a + b0);
        assert((a + b).last() == b.last());
        let va = digits_value(a);
        let vb0 = digits_value(b0);
        let p = pow10(b0.len());
        assert((va * p + vb0) * 10 + digit_value(b.last()) == va * (10 * p) + (vb0 * 10
            + digit_value(b.last()))) by (nonlinear_arith);
        assert(pow10(b.len()) == 10 * p);
        assert(digits_value(a + b) == digits_value((a + b).drop_last()) * 10 + digit_value(
            (a + b).last(),
        ));
        assert(digits_value(b) == vb0 * 10 + digit_value(b.last()));
    }
}

/// Taking more leading digits never spells a smaller number.
pub proof fn lemma_digits_prefix_mono(s: Seq<char>, i: int, j: int)
    requires
        0 <= i <= j <= s.len(),
    ensures
        digits_value(s.take(i)) <= digits_value(s.take(j)),
    decreases j - i,
{
    if i < j {
        lemma_digits_prefix_mono(s, i, j - 1);
        assert(s.take(j).drop_last() =~= s.take(j - 1));
        let v = digits_value(s.take(j - 1));
        assert(v <= v * 10) by (nonlinear_arith)
            requires
                v >= 0,
        ;
    }
}

/// One step of the right-to-left scaling of a digit string:
/// `floor((d·10^m + v)·p / 10^(m+1)) = floor((d·p + floor(v·p / 10^m)) / 10)`,
/// and the division is exact exactly when both steps are.
pub proof fn lemma_scale_step(d: nat, v: nat, p: nat, tm: nat)
    requires
        tm >= 1,
    ensures
        ((d * tm + v) * p) / (10 * tm) == (d * p + (v * p) / tm) / 10,
        (((d * tm + v) * p) % (10 * tm) == 0) == ((v * p) % tm == 0 && (d * p + (v * p)
            / tm) % 10 == 0),
{
    let q = (v * p) / tm;
    let r = (v * p) % tm;
    assert(v * p == q * tm + r && 0 <= r < tm) by {
        vstd::arithmetic::div_mod::lemma_fundamental_div_mod((v * p) as int, tm as int);
    }
    let a = (d * p + q) / 10;
    let b = (d * p + q) % 10;
    assert(d * p + q == a * 10 + b && 0 <= b < 10) by {
        vstd::arithmetic::div_mod::lemma_fundamental_div_mod((d * p + q) as int, 10);
    }
    let x = (d * tm + v) * p;
    assert(x == a * (10 * tm) + (b * tm + r)) by (nonlinear_arith)
        requires
            v * p == q * tm + r,
            d * p + q == a * 10 + b,
            x == (d * tm + v) * p,
    ;
    assert(b * tm + r < 10 * tm) by (nonlinear_arith)
        requires
            b < 10,
            r < tm,
    ;
    assert(0 <= b * tm + r) by (nonlinear_arith)
        requires
            b >= 0,
            r >= 0,
            tm >= 1,
    ;
    vstd::arithmetic::div_mod::lemma_fundamental_div_mod_converse(
        x as int,
        (10 * tm) as int,
        a as int,
        (b * tm + r) as int,
    );
    assert((b * tm + r == 0) == (b == 0 && r == 0)) by (nonlinear_arith)
        requires
            b >= 0,
            r >= 0,
            tm >= 1,
    ;
}

/// Rounding half up of `x / d` needs only the quotient of `2x / d`... stated
/// here for any numerator: `floor((y + d) / 2d) = floor((floor(y / d) + 1) / 2)`.
pub proof fn lemma_half_up(y: nat, d: nat)
    requires
        d >= 1,
    ensures
        (y + d) / (2 * d) == (y / d + 1) / 2,
{
    let q = y / d;
    let r = y % d;
    vstd::arithmetic::div_mod::lemma_fundamental_div_mod(y as int, d as int);
    let a = (q + 1) / 2;
    let b = (q + 1) % 2;
    assert(y + d == a * (2 * d) + (b * d + r)) by (nonlinear_arith)
        requires
            y == q * d + r,
            q + 1 == a * 2 + b,
    ;
    assert(0 <= b * d + r < 2 * d) by (nonlinear_arith)
        requires
            0 <= b < 2,
            0 <= r < d,
    ;
    vstd::arithmetic::div_mod::lemma_fundamental_div_mod_converse(
        (y + d) as int,
        (2 * d) as int,
        a as int,
        (b * d + r) as int,
    );
}

} // verus!

verus! {

/// Powers of ten grow with the exponent.
pub proof fn lemma_pow10_mono(a: nat, b: nat)
    requires
        a <= b,
    ensures
        pow10(a) <= pow10(b),
    decreases b - a,
{
    if a < b {
        lemma_pow10_mono(a, (b - 1) as nat);
        lemma_pow10_pos((b - 1) as nat);
    }
}

/// A run of `'0'` digits spells 0.
pub proof fn lemma_zeros_value(s: Seq<char>)
    requires
        forall|i: int| 0 <= i < s.len() ==> #[trigger] s[i] == '0',
    ensures
        digits_value(s) == 0,
    decreases s.len(),
{
    if s.len() > 0 {
        lemma_zeros_value(s.drop_last());
    }
}

/// Digits whose first is not `'0'` spell at least `10^(len - 1)`.
pub proof fn lemma_leading_digit(t: Seq<char>)
    requires
        all_digits(t),
        t.len() >= 1,
        t[0] != '0',
    ensures
        digits_value(t) >= pow10((t.len() - 1) as nat),
{
    let head = t.take(1);
    let rest = t.skip(1);
    assert(t =~= head + rest);
    lemma_digits_concat(head, rest);
    assert(head.drop_last() =~= Seq::<char>::empty());
    assert(digits_value(Seq::<char>::empty()) == 0);
    assert(head.last() == t[0]);
    assert(digits_value(head) == digit_value(t[0]));
    assert(digit_value(t[0]) >= 1);
    let p = pow10(rest.len());
    lemma_pow10_pos(rest.len());
    assert(digit_value(t[0]) * p >= p) by (nonlinear_arith)
        requires
            digit_value(t[0]) >= 1,
            p >= 1,
    ;
}

/// Equal-length digit strings that agree up to `i` and differ there compare
/// as their digits at `i` do.
pub proof fn lemma_digits_lex(a: Seq<char>, b: Seq<char>, i: int)
    requires
        all_digits(a),
        all_digits(b),
        a.len() == b.len(),
        0 <= i < a.len(),
        a.take(i) == b.take(i),
        a[i] < b[i],
    ensures
        digits_value(a) < digits_value(b),
{
    let n = a.len();
    let ha = a.take(i + 1);
    let hb = b.take(i + 1);
    let ra = a.skip(i + 1);
    let rb = b.skip(i + 1);
    assert(a =~= ha + ra);
    assert(b =~= hb + rb);
    lemma_digits_concat(ha, ra);
    lemma_digits_concat(hb, rb);
    assert(ha.drop_last() =~= a.take(i));
    assert(hb.drop_last() =~= b.take(i));
    assert(digits_value(ha) + 1 <= digits_value(hb));
    assert(all_digits(ra));
    lemma_digits_value_bound(ra);
    let p = pow10(ra.len());
    let x = digits_value(ha);
    let y = digits_value(hb);
    assert(x * p + digits_value(ra) < y * p + digits_value(rb)) by (nonlinear_arith)
        requires
            x + 1 <= y,
            digits_value(ra) < p,
    ;
}


/// The decimal text of `n` is a nonempty run of digits that spells `n`.
pub proof fn lemma_dec_text_value(n: nat)
    ensures
        all_digits(dec_text(n)),
        dec_text(n).len() >= 1,
        digits_value(dec_text(n)) == n,
    decreases n,
{
    let d = n % 10;
    let c = digit_char(d);
    assert(is_ascii_digit(c) && digit_value(c) == d) by {
        assert(d < 10);
        assert((d + 48) as u8 == d + 48);
    }
    if n < 10 {
        let s = seq![c];
        assert(s.drop_last() =~= Seq::<char>::empty());
        assert(digits_value(Seq::<char>::empty()) == 0);
        assert(s.last() == c);
        assert(dec_text(n) == s);
        assert(digits_value(s) == digit_value(c));
    } else {
        lemma_dec_text_value(n / 10);
        let t = dec_text(n / 10);
        assert(dec_text(n) == t.push(c));
        assert(t.push(c).drop_last() =~= t);
        assert(t.push(c).last() == c);
        assert(digits_value(t.push(c)) == (n / 10) * 10 + d);
        assert(all_digits(t.push(c)));
    }
}

} // verus!
