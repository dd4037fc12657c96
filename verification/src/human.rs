//! Byte sizes: parsing `10KB`-style text and formatting sizes for people.
use vstd::prelude::*;
use crate::num::{
    lemma_digits_concat, lemma_digits_lex, lemma_digits_prefix_mono, lemma_digits_value_bound,
    lemma_leading_digit, lemma_pow10_add, lemma_pow10_mono, lemma_pow10_pos, lemma_scale_step,
    lemma_zeros_value, lemma_dec_text_value,
};
use crate::text::{
    all_digits, ascii_lower, chars_eq_str, chars_of, digit_value, digits_value,
    is_ascii_digit, lower_chars, pow10, push_chars, push_str, slice_chars, string_of, trim,
    trim_chars, dec_text, push_dec, push_dec_padded, zero_pad, is_ws, lower_char, trim_start, trim_end,
};

verus! {

/// A number of bytes.
#[derive(Debug, Clone, Copy, PartialEq, Eq, Structural, PartialOrd, Ord)]
pub struct ByteSize(pub u64);

pub open spec fn is_number_char(c: char) -> bool {
    is_ascii_digit(c) || c == '.'
}

/// Length of the leading run of digits and dots.
pub open spec fn numeric_prefix_len(s: Seq<char>) -> nat
    decreases s.len(),
{
    if s.len() > 0 && is_number_char(s[0]) {
        1 + numeric_prefix_len(s.drop_first())
    } else {
        0
    }
}

/// `s` is `digits '.' digits` with at least one digit in all.
pub open spec fn dot_split_at(s: Seq<char>, p: int) -> bool {
    &&& 0 <= p < s.len()
    &&& s[p] == '.'
    &&& all_digits(s.take(p))
    &&& all_digits(s.skip(p + 1))
    &&& s.len() >= 2
}

/// The integer and fraction digits of a decimal number without sign or
/// exponent (`12`, `1.5`, `1.`, `.5`), or `None` where the text is no such number.
pub open spec fn decimal_parts(s: Seq<char>) -> Option<(Seq<char>, Seq<char>)> {
    if all_digits(s) {
        if s.len() > 0 {
            Some((s, Seq::<char>::empty()))
        } else {
            None
        }
    } else if exists|p: int| dot_split_at(s, p) {
        let p = choose|p: int| dot_split_at(s, p);
        Some((s.take(p), s.skip(p + 1)))
    } else {
        None
    }
}

/// Bytes per unit for a lower-cased, trimmed unit suffix.
pub open spec fn unit_multiplier(key: Seq<char>) -> Option<nat> {
    if key.len() == 0 || key == "b"@ || key == "byte"@ || key == "bytes"@ {
        Some(1)
    } else if key == "k"@ || key == "kb"@ || key == "kib"@ {
        Some(1024)
    } else if key == "m"@ || key == "mb"@ || key == "mib"@ {
        Some(1048576)
    } else if key == "g"@ || key == "gb"@ || key == "gib"@ {
        Some(1073741824)
    } else if key == "t"@ || key == "tb"@ || key == "tib"@ {
        Some(1099511627776)
    } else {
        None
    }
}

/// 2^1024 − 2^970: the least number that `f64` parsing rounds to infinity.
pub open spec fn f64_overflow() -> nat {
    (two_pow(1024) - two_pow(970)) as nat
}

/// How many low bits of the whole number `j` fall outside 53 significant bits.
pub open spec fn lost_bits(j: nat) -> nat
    decreases j,
{
    if j < 0x20_0000_0000_0000 {
        0
    } else {
        1 + lost_bits(j / 2)
    }
}

/// `j + f`, for a fraction `0 <= f < 1` that is nonzero exactly when
/// `sticky`, rounded to 53 significant bits with ties to even, as `f64`
/// arithmetic rounds; below 2^53 the whole part `j` is kept.
pub open spec fn round53(j: nat, sticky: bool) -> nat {
    let u = two_pow(lost_bits(j));
    let q = j / u;
    let r = j % u;
    if 2 * r > u || (2 * r == u && (sticky || q % 2 == 1)) {
        (q + 1) * u
    } else {
        q * u
    }
}

/// `ip.fp × m` bytes as `f64` arithmetic computes it: the number rounded to
/// 53 significant bits (ties to even), scaled by the power of two `m`, then
/// rounded half away from zero and capped at `u64::MAX`; `None` when the
/// `f64` value exceeds 2^64. The value is taken in units of 2^-55 byte;
/// below a quarter byte, where that keeps fewer than 53 bits, the size is 0
/// either way.
pub open spec fn scaled_size(ip: Seq<char>, fp: Seq<char>, m: nat) -> Option<u64> {
    let d = pow10(fp.len());
    let t = (digits_value(ip) * d + digits_value(fp)) * m * two_pow(55);
    let v = round53(t / d, t % d != 0);
    if v > two_pow(119) {
        None
    } else {
        let b = (v + two_pow(54)) / two_pow(55);
        Some(
            if b > u64::MAX {
                u64::MAX
            } else {
                b as u64
            },
        )
    }
}

/// What `ByteSize::parse` gives for `input`: the size, or the error message.
pub open spec fn parse_size(input: Seq<char>) -> Result<u64, Seq<char>> {
    let raw = trim(input);
    let k = numeric_prefix_len(raw) as int;
    let number = raw.take(k);
    let key = ascii_lower(trim(raw.skip(k)));
    if raw.len() == 0 {
        Err("size cannot be empty"@)
    } else if number.len() == 0 {
        Err("invalid size: "@ + input)
    } else {
        match decimal_parts(number) {
            None => Err("invalid size number: "@ + input),
            Some(parts) => if digits_value(parts.0) >= f64_overflow() {
                Err("invalid size number: "@ + input)
            } else {
                match unit_multiplier(key) {
                    None => Err("unsupported size suffix: "@ + key),
                    Some(m) => match scaled_size(parts.0, parts.1, m) {
                        None => Err("size too large: "@ + input),
                        Some(b) => Ok(b),
                    },
                }
            },
        }
    }
}

fn numeric_prefix(v: &[char]) -> (k: usize)
    ensures
        k == numeric_prefix_len(v@),
        k <= v@.len(),
        forall|j: int| 0 <= j < k ==> is_number_char(#[trigger] v@[j]),
{
    let mut i: usize = 0;
    assert(v@.skip(0) =~= v@);
    while i < v.len() && (('0' <= v[i] && v[i] <= '9') || v[i] == '.')
        invariant
            0 <= i <= v@.len(),
            numeric_prefix_len(v@) == i + numeric_prefix_len(v@.skip(i as int)),
            forall|j: int| 0 <= j < i ==> is_number_char(#[trigger] v@[j]),
        decreases v.len() - i,
    {
        assert(v@.skip(i as int).drop_first() =~= v@.skip(i + 1));
        i = i + 1;
    }
    i
}

fn digit_of(c: char) -> (d: u32)
    requires
        is_ascii_digit(c),
    ensures
        d == digit_value(c),
        d < 10,
{
    (c as u32) - 48
}

/// Splits a text of digits and dots into its integer and fraction digits.
fn decimal_split(s: &[char]) -> (r: Option<(Vec<char>, Vec<char>)>)
    requires
        forall|j: int| 0 <= j < s@.len() ==> is_number_char(#[trigger] s@[j]),
    ensures
        match r {
            Some(parts) => decimal_parts(s@) == Some((parts.0@, parts.1@)),
            None => decimal_parts(s@) is None,
        },
{
    let mut p: usize = 0;
    while p < s.len() && s[p] != '.'
        invariant
            0 <= p <= s@.len(),
            forall|j: int| 0 <= j < s@.len() ==> is_number_char(#[trigger] s@[j]),
            forall|j: int| 0 <= j < p ==> is_ascii_digit(#[trigger] s@[j]),
        decreases s.len() - p,
    {
        p = p + 1;
    }
    if p == s.len() {
        assert(all_digits(s@));
        if s.len() == 0 {
            return None;
        }
        let whole = slice_chars(s, 0, s.len());
        assert(whole@ =~= s@);
        return Some((whole, Vec::new()));
    }
    assert(!all_digits(s@)) by {
        assert(!is_ascii_digit(s@[p as int]));
    }
    let mut q: usize = p + 1;
    while q < s.len() && s[q] != '.'
        invariant
            p < q <= s@.len(),
            forall|j: int| 0 <= j < s@.len() ==> is_number_char(#[trigger] s@[j]),
            forall|j: int| p < j < q ==> is_ascii_digit(#[trigger] s@[j]),
        decreases s.len() - q,
    {
        q = q + 1;
    }
    if q < s.len() || s.len() < 2 {
        assert forall|x: int| !dot_split_at(s@, x) by {
            if dot_split_at(s@, x) {
                if x < p {
                    assert(s@[x] == '.');
                    assert(is_ascii_digit(s@[x]));
                } else if x > p {
                    assert(s@.take(x)[p as int] == '.');
                } else {
                    assert(s@.skip(x + 1)[q - x - 1] == '.');
                }
            }
        }
        return None;
    }
    assert(dot_split_at(s@, p as int)) by {
        assert forall|j: int| 0 <= j < s@.skip(p + 1).len() implies is_ascii_digit(
            #[trigger] s@.skip(p + 1)[j],
        ) by {
            assert(s@.skip(p + 1)[j] == s@[p + 1 + j]);
        }
    }
    assert forall|x: int| dot_split_at(s@, x) implies x == p by {
        if x < p {
            assert(is_ascii_digit(s@[x]));
        } else if x > p {
            assert(s@.take(x)[p as int] == '.');
        }
    }
    let ip = slice_chars(s, 0, p);
    let fp = slice_chars(s, p + 1, s.len());
    assert(ip@ =~= s@.take(p as int));
    assert(fp@ =~= s@.skip(p + 1));
    Some((ip, fp))
}

fn unit_multiplier_of(key: &[char]) -> (m: Option<u64>)
    ensures
        match m {
            Some(x) => unit_multiplier(key@) == Some(x as nat),
            None => unit_multiplier(key@) is None,
        },
{
    if key.len() == 0 || chars_eq_str(key, "b") || chars_eq_str(key, "byte") || chars_eq_str(
        key,
        "bytes",
    ) {
        Some(1)
    } else if chars_eq_str(key, "k") || chars_eq_str(key, "kb") || chars_eq_str(key, "kib") {
        Some(1024)
    } else if chars_eq_str(key, "m") || chars_eq_str(key, "mb") || chars_eq_str(key, "mib") {
        Some(1048576)
    } else if chars_eq_str(key, "g") || chars_eq_str(key, "gb") || chars_eq_str(key, "gib") {
        Some(1073741824)
    } else if chars_eq_str(key, "t") || chars_eq_str(key, "tb") || chars_eq_str(key, "tib") {
        Some(1099511627776)
    } else {
        None
    }
}

/// The number that `s` spells, or `None` when it exceeds `cap`.
fn digits_value_capped(s: &[char], cap: u128) -> (r: Option<u128>)
    requires
        all_digits(s@),
        cap <= 0x1_0000_0000_0000_0000_0000_0000,
    ensures
        match r {
            Some(x) => x == digits_value(s@) && x <= cap,
            None => digits_value(s@) > cap,
        },
{
    let mut acc: u128 = 0;
    let mut i: usize = 0;
    assert(s@.take(0) =~= Seq::<char>::empty());
    while i < s.len()
        invariant
            all_digits(s@),
            cap <= 0x1_0000_0000_0000_0000_0000_0000,
            0 <= i <= s@.len(),
            acc == digits_value(s@.take(i as int)),
            acc <= cap,
        decreases s.len() - i,
    {
        let d = digit_of(s[i]);
        let next: u128 = acc * 10 + d as u128;
        assert(s@.take(i + 1).drop_last() =~= s@.take(i as int));
        assert(next == digits_value(s@.take(i + 1)));
        if next > cap {
            proof {
                lemma_digits_prefix_mono(s@, i + 1, s@.len() as int);
                assert(s@.take(s@.len() as int) =~= s@);
            }
            return None;
        }
        acc = next;
        i = i + 1;
    }
    assert(s@.take(s@.len() as int) =~= s@);
    Some(acc)
}

/// `floor(f·p / 10^|f|)`, and whether that division is exact.
fn scale_fraction(f: &[char], p: u128) -> (r: (u128, bool))
    requires
        all_digits(f@),
        1 <= p <= 0x10_0000_0000_0000_0000_0000_0000,
    ensures
        r.0 == digits_value(f@) * (p as nat) / pow10(f@.len()),
        r.1 == ((digits_value(f@) * (p as nat)) % pow10(f@.len()) == 0),
        r.0 < p,
{
    let mut c: u128 = 0;
    let mut exact = true;
    let mut i: usize = f.len();
    proof {
        assert(f@.subrange(i as int, f@.len() as int) =~= Seq::<char>::empty());
        assert(pow10(0) == 1);
        assert(digits_value(Seq::<char>::empty()) == 0);
        assert(f@.len() - i == 0);
        assert((0nat * (p as nat)) / 1nat == 0) by (nonlinear_arith);
        assert((0nat * (p as nat)) % 1nat == 0) by (nonlinear_arith);
    }
    while i > 0
        invariant
            all_digits(f@),
            1 <= p <= 0x10_0000_0000_0000_0000_0000_0000,
            0 <= i <= f@.len(),
            c == digits_value(f@.subrange(i as int, f@.len() as int)) * (p as nat) / pow10(
                (f@.len() - i) as nat,
            ),
            exact == ((digits_value(f@.subrange(i as int, f@.len() as int)) * (p as nat)) % pow10(
                (f@.len() - i) as nat,
            ) == 0),
            c < p,
        decreases i,
    {
        i = i - 1;
        let d = digit_of(f[i]);
        assert((d as u128) * p <= 9 * 0x10_0000_0000_0000_0000_0000_0000) by (nonlinear_arith)
            requires
                d < 10,
                p <= 0x10_0000_0000_0000_0000_0000_0000,
        ;
        let x: u128 = (d as u128) * p + c;
        proof {
            let t = f@.subrange(i + 1, f@.len() as int);
            let t2 = f@.subrange(i as int, f@.len() as int);
            let one = seq![f@[i as int]];
            assert(t2 =~= one + t);
            lemma_digits_concat(one, t);
            assert(one.drop_last() =~= Seq::<char>::empty());
            assert(one.last() == f@[i as int]);
            assert(digits_value(one.drop_last()) == 0);
            assert(digits_value(one) == d);
            let tm = pow10(t.len());
            lemma_pow10_pos(t.len());
            assert(pow10(t2.len()) == 10 * tm);
            lemma_scale_step(d as nat, digits_value(t), p as nat, tm);
            lemma_digits_value_bound(t2);
            let v2 = digits_value(t2);
            assert(v2 * (p as nat) / (10 * tm) < p) by (nonlinear_arith)
                requires
                    v2 < 10 * tm,
                    tm >= 1,
                    p >= 1,
            ;
        }
        exact = exact && x % 10 == 0;
        c = x / 10;
    }
    assert(f@.subrange(0, f@.len() as int) =~= f@);
    (c, exact)
}

/// `round53(j, sticky)`, computed.
fn round53_exec(j: u128, sticky: bool) -> (v: u128)
    requires
        j < 0x200_0000_0000_0000_0000_0000_0000_0000,
    ensures
        v == round53(j as nat, sticky),
        v <= j + two_pow(lost_bits(j as nat)),
{
    let mut u: u128 = 1;
    let mut t: u128 = j;
    let ghost mut k: nat = 0;
    while t >= 0x20_0000_0000_0000
        invariant
            lost_bits(j as nat) == k + lost_bits(t as nat),
            u == two_pow(k),
            t * u <= j,
            u >= 1,
            j < 0x200_0000_0000_0000_0000_0000_0000_0000,
        decreases t,
    {
        assert(u < 0x10_0000_0000_0000_0000) by (nonlinear_arith)
            requires
                t >= 0x20_0000_0000_0000,
                t * u <= j,
                j < 0x200_0000_0000_0000_0000_0000_0000_0000,
        ;
        assert((t / 2) * (u * 2) <= t * u) by (nonlinear_arith)
            requires
                u >= 1,
        ;
        t = t / 2;
        u = u * 2;
        proof {
            k = k + 1;
        }
    }
    let q = j / u;
    let r = j % u;
    proof {
        vstd::arithmetic::div_mod::lemma_fundamental_div_mod(j as int, u as int);
        assert((q + 1) * u <= j + u) by (nonlinear_arith)
            requires
                j == u * q + r,
                r >= 0,
        ;
    }
    if 2 * r > u || (2 * r == u && (sticky || q % 2 == 1)) {
        (q + 1) * u
    } else {
        q * u
    }
}

proof fn lemma_two_pow_add(a: nat, b: nat)
    ensures
        two_pow(a + b) == two_pow(a) * two_pow(b),
    decreases b,
{
    if b > 0 {
        let c = (b - 1) as nat;
        lemma_two_pow_add(a, c);
        let x = two_pow(a);
        let y = two_pow(c);
        assert(two_pow(a + c) == x * y);
        assert(a + b == (a + c) + 1);
        assert(two_pow(a + b) == 2 * two_pow(a + c));
        assert(two_pow(b) == 2 * y);
        assert(2 * (x * y) == x * (2 * y)) by (nonlinear_arith);
        assert(two_pow(a + b) == x * two_pow(b));
    } else {
        assert(a + b == a);
        assert(two_pow(b) == 1);
        assert(two_pow(a) * 1 == two_pow(a));
    }
}

proof fn lemma_two_pow_values()
    ensures
        two_pow(53) == 0x20_0000_0000_0000,
        two_pow(54) == 0x40_0000_0000_0000,
        two_pow(55) == 0x80_0000_0000_0000,
        two_pow(119) == 0x80_0000_0000_0000_0000_0000_0000_0000,
        two_pow(120) == 0x100_0000_0000_0000_0000_0000_0000_0000,
{
    assert(two_pow(16) == 0x1_0000) by {
        reveal_with_fuel(two_pow, 17);
    }
    assert(two_pow(8) == 0x100) by {
        reveal_with_fuel(two_pow, 9);
    }
    lemma_two_pow_add(16, 16);
    assert(two_pow(32) == 4294967296nat) by (nonlinear_arith)
        requires
            two_pow(32) == two_pow(16) * two_pow(16),
            two_pow(16) == 65536nat,
            two_pow(16) == 65536nat,
    ;
    lemma_two_pow_add(32, 16);
    assert(two_pow(48) == 281474976710656nat) by (nonlinear_arith)
        requires
            two_pow(48) == two_pow(32) * two_pow(16),
            two_pow(32) == 4294967296nat,
            two_pow(16) == 65536nat,
    ;
    lemma_two_pow_add(48, 8);
    assert(two_pow(56) == 72057594037927936nat) by (nonlinear_arith)
        requires
            two_pow(56) == two_pow(48) * two_pow(8),
            two_pow(48) == 281474976710656nat,
            two_pow(8) == 256nat,
    ;
    lemma_two_pow_add(32, 32);
    assert(two_pow(64) == 18446744073709551616nat) by (nonlinear_arith)
        requires
            two_pow(64) == two_pow(32) * two_pow(32),
            two_pow(32) == 4294967296nat,
            two_pow(32) == 4294967296nat,
    ;
    lemma_two_pow_add(64, 56);
    assert(two_pow(120) == 1329227995784915872903807060280344576nat) by (nonlinear_arith)
        requires
            two_pow(120) == two_pow(64) * two_pow(56),
            two_pow(64) == 18446744073709551616nat,
            two_pow(56) == 72057594037927936nat,
    ;
    assert(two_pow(56) == 2 * two_pow(55));
    assert(two_pow(55) == 2 * two_pow(54));
    assert(two_pow(54) == 2 * two_pow(53));
    assert(two_pow(120) == 2 * two_pow(119));
}

/// The value of `f64_overflow()`, written out.
proof fn lemma_f64_overflow_value()
    ensures
        f64_overflow() == 179769313486231580793728971405303415079934132710037826936173778980444968292764750946649017977587207096330286416692887910946555547851940402630657488671505820681908902000708383676273854845817711531764475730270069855571366959622842914819860834936475292719074168444365510704342711559699508093042880177904174497792nat,
{
    assert(two_pow(16) == 0x1_0000) by {
        reveal_with_fuel(two_pow, 17);
    }
    assert(two_pow(8) == 0x100) by {
        reveal_with_fuel(two_pow, 9);
    }
    assert(two_pow(2) == 4) by {
        reveal_with_fuel(two_pow, 3);
    }
    lemma_two_pow_add(16, 16);
    assert(two_pow(32) == 4294967296nat) by (nonlinear_arith)
        requires
            two_pow(32) == two_pow(16) * two_pow(16),
            two_pow(16) == 65536nat,
            two_pow(16) == 65536nat,
    ;
    lemma_two_pow_add(32, 32);
    assert(two_pow(64) == 18446744073709551616nat) by (nonlinear_arith)
        requires
            two_pow(64) == two_pow(32) * two_pow(32),
            two_pow(32) == 4294967296nat,
            two_pow(32) == 4294967296nat,
    ;
    lemma_two_pow_add(64, 64);
    assert(two_pow(128) == 340282366920938463463374607431768211456nat) by (nonlinear_arith)
        requires
            two_pow(128) == two_pow(64) * two_pow(64),
            two_pow(64) == 18446744073709551616nat,
            two_pow(64) == 18446744073709551616nat,
    ;
    lemma_two_pow_add(128, 128);
    assert(two_pow(256) == 115792089237316195423570985008687907853269984665640564039457584007913129639936nat) by (nonlinear_arith)
        requires
            two_pow(256) == two_pow(128) * two_pow(128),
            two_pow(128) == 340282366920938463463374607431768211456nat,
            two_pow(128) == 340282366920938463463374607431768211456nat,
    ;
    lemma_two_pow_add(256, 256);
    assert(two_pow(512) == 13407807929942597099574024998205846127479365820592393377723561443721764030073546976801874298166903427690031858186486050853753882811946569946433649006084096nat) by (nonlinear_arith)
        requires
            two_pow(512) == two_pow(256) * two_pow(256),
            two_pow(256) == 115792089237316195423570985008687907853269984665640564039457584007913129639936nat,
            two_pow(256) == 115792089237316195423570985008687907853269984665640564039457584007913129639936nat,
    ;
    lemma_two_pow_add(512, 512);
    assert(two_pow(1024) == 179769313486231590772930519078902473361797697894230657273430081157732675805500963132708477322407536021120113879871393357658789768814416622492847430639474124377767893424865485276302219601246094119453082952085005768838150682342462881473913110540827237163350510684586298239947245938479716304835356329624224137216nat) by (nonlinear_arith)
        requires
            two_pow(1024) == two_pow(512) * two_pow(512),
            two_pow(512) == 13407807929942597099574024998205846127479365820592393377723561443721764030073546976801874298166903427690031858186486050853753882811946569946433649006084096nat,
            two_pow(512) == 13407807929942597099574024998205846127479365820592393377723561443721764030073546976801874298166903427690031858186486050853753882811946569946433649006084096nat,
    ;
    lemma_two_pow_add(512, 256);
    assert(two_pow(768) == 1552518092300708935148979488462502555256886017116696611139052038026050952686376886330878408828646477950487730697131073206171580044114814391444287275041181139204454976020849905550265285631598444825262999193716468750892846853816057856nat) by (nonlinear_arith)
        requires
            two_pow(768) == two_pow(512) * two_pow(256),
            two_pow(512) == 13407807929942597099574024998205846127479365820592393377723561443721764030073546976801874298166903427690031858186486050853753882811946569946433649006084096nat,
            two_pow(256) == 115792089237316195423570985008687907853269984665640564039457584007913129639936nat,
    ;
    lemma_two_pow_add(768, 128);
    assert(two_pow(896) == 528294531135665246352339784916516606518847326036121522127960709026673902556724859474417255887657187894674394993257128678882347559502685537250538978462939576908386683999005084168731517676426441053024232908211188404148028292751561738838396898767036476489538580897737998336nat) by (nonlinear_arith)
        requires
            two_pow(896) == two_pow(768) * two_pow(128),
            two_pow(768) == 1552518092300708935148979488462502555256886017116696611139052038026050952686376886330878408828646477950487730697131073206171580044114814391444287275041181139204454976020849905550265285631598444825262999193716468750892846853816057856nat,
            two_pow(128) == 340282366920938463463374607431768211456nat,
    ;
    lemma_two_pow_add(896, 64);
    assert(two_pow(960) == 9745314011399999080353382387875188310876226857595007526867906457212948690766426102465615065882010259225304916231408668183459169865203094046577987296312653419531277699956473029870789655490053648352799593479218378873685597925394874945746363615468965612827738803104277547081828589991914110976nat) by (nonlinear_arith)
        requires
            two_pow(960) == two_pow(896) * two_pow(64),
            two_pow(896) == 528294531135665246352339784916516606518847326036121522127960709026673902556724859474417255887657187894674394993257128678882347559502685537250538978462939576908386683999005084168731517676426441053024232908211188404148028292751561738838396898767036476489538580897737998336nat,
            two_pow(64) == 18446744073709551616nat,
    ;
    lemma_two_pow_add(960, 8);
    assert(two_pow(968) == 2494800386918399764570465891296048207584314075544321926878184053046514864836205082231197456865794626361678058555240619054965547485491992075923964747856039275400007091188857095646922151805453733978316695930679904991663513068901087986111069085560055196883901133594695052052948119037930012409856nat) by (nonlinear_arith)
        requires
            two_pow(968) == two_pow(960) * two_pow(8),
            two_pow(960) == 9745314011399999080353382387875188310876226857595007526867906457212948690766426102465615065882010259225304916231408668183459169865203094046577987296312653419531277699956473029870789655490053648352799593479218378873685597925394874945746363615468965612827738803104277547081828589991914110976nat,
            two_pow(8) == 256nat,
    ;
    lemma_two_pow_add(968, 2);
    assert(two_pow(970) == 9979201547673599058281863565184192830337256302177287707512736212186059459344820328924789827463178505446712234220962476219862189941967968303695858991424157101600028364755428382587688607221814935913266783722719619966654052275604351944444276342240220787535604534378780208211792476151720049639424nat) by (nonlinear_arith)
        requires
            two_pow(970) == two_pow(968) * two_pow(2),
            two_pow(968) == 2494800386918399764570465891296048207584314075544321926878184053046514864836205082231197456865794626361678058555240619054965547485491992075923964747856039275400007091188857095646922151805453733978316695930679904991663513068901087986111069085560055196883901133594695052052948119037930012409856nat,
            two_pow(2) == 4nat,
    ;
}

/// `10^308 < f64_overflow() < 10^309`: its digits number 309.
#[verifier::spinoff_prover]
proof fn lemma_f64_overflow_between_powers()
    ensures
        pow10(308) < f64_overflow() < pow10(309),
{
    lemma_f64_overflow_value();
    assert(pow10(18) == 1_000_000_000_000_000_000) by {
        reveal_with_fuel(pow10, 19);
    }
    assert(pow10(2) == 100) by {
        reveal_with_fuel(pow10, 3);
    }
    lemma_pow10_add(18, 18);
    assert(pow10(36) == 1000000000000000000000000000000000000nat) by (nonlinear_arith)
        requires
            pow10(36) == pow10(18) * pow10(18),
            pow10(18) == 1000000000000000000nat,
            pow10(18) == 1000000000000000000nat,
    ;
    lemma_pow10_add(36, 36);
    assert(pow10(72) == 1000000000000000000000000000000000000000000000000000000000000000000000000nat) by (nonlinear_arith)
        requires
            pow10(72) == pow10(36) * pow10(36),
            pow10(36) == 1000000000000000000000000000000000000nat,
            pow10(36) == 1000000000000000000000000000000000000nat,
    ;
    lemma_pow10_add(72, 72);
    assert(pow10(144) == 1000000000000000000000000000000000000000000000000000000000000000000000000000000000000000000000000000000000000000000000000000000000000000000000000nat) by (nonlinear_arith)
        requires
            pow10(144) == pow10(72) * pow10(72),
            pow10(72) == 1000000000000000000000000000000000000000000000000000000000000000000000000nat,
            pow10(72) == 1000000000000000000000000000000000000000000000000000000000000000000000000nat,
    ;
    lemma_pow10_add(144, 144);
    assert(pow10(288) == 1000000000000000000000000000000000000000000000000000000000000000000000000000000000000000000000000000000000000000000000000000000000000000000000000000000000000000000000000000000000000000000000000000000000000000000000000000000000000000000000000000000000000000000000000000000000000000000000000nat) by (nonlinear_arith)
        requires
            pow10(288) == pow10(144) * pow10(144),
            pow10(144) == 1000000000000000000000000000000000000000000000000000000000000000000000000000000000000000000000000000000000000000000000000000000000000000000000000nat,
            pow10(144) == 1000000000000000000000000000000000000000000000000000000000000000000000000000000000000000000000000000000000000000000000000000000000000000000000000nat,
    ;
    lemma_pow10_add(288, 18);
    assert(pow10(306) == 1000000000000000000000000000000000000000000000000000000000000000000000000000000000000000000000000000000000000000000000000000000000000000000000000000000000000000000000000000000000000000000000000000000000000000000000000000000000000000000000000000000000000000000000000000000000000000000000000000000000000000000nat) by (nonlinear_arith)
        requires
            pow10(306) == pow10(288) * pow10(18),
            pow10(288) == 1000000000000000000000000000000000000000000000000000000000000000000000000000000000000000000000000000000000000000000000000000000000000000000000000000000000000000000000000000000000000000000000000000000000000000000000000000000000000000000000000000000000000000000000000000000000000000000000000nat,
            pow10(18) == 1000000000000000000nat,
    ;
    lemma_pow10_add(306, 2);
    assert(pow10(308) == 100000000000000000000000000000000000000000000000000000000000000000000000000000000000000000000000000000000000000000000000000000000000000000000000000000000000000000000000000000000000000000000000000000000000000000000000000000000000000000000000000000000000000000000000000000000000000000000000000000000000000000000nat) by (nonlinear_arith)
        requires
            pow10(308) == pow10(306) * pow10(2),
            pow10(306) == 1000000000000000000000000000000000000000000000000000000000000000000000000000000000000000000000000000000000000000000000000000000000000000000000000000000000000000000000000000000000000000000000000000000000000000000000000000000000000000000000000000000000000000000000000000000000000000000000000000000000000000000nat,
            pow10(2) == 100nat,
    ;
    assert(pow10(309) == 10 * pow10(308));
}

/// The digits of `f64_overflow()`.
#[verifier::spinoff_prover]
#[verifier::rlimit(40)]
proof fn lemma_limit_digits()
    ensures
        "179769313486231580793728971405303415079934132710037826936173778980444968292764750946649017977587207096330286416692887910946555547851940402630657488671505820681908902000708383676273854845817711531764475730270069855571366959622842914819860834936475292719074168444365510704342711559699508093042880177904174497792"@.len() == 309,
        all_digits("179769313486231580793728971405303415079934132710037826936173778980444968292764750946649017977587207096330286416692887910946555547851940402630657488671505820681908902000708383676273854845817711531764475730270069855571366959622842914819860834936475292719074168444365510704342711559699508093042880177904174497792"@),
        digits_value("179769313486231580793728971405303415079934132710037826936173778980444968292764750946649017977587207096330286416692887910946555547851940402630657488671505820681908902000708383676273854845817711531764475730270069855571366959622842914819860834936475292719074168444365510704342711559699508093042880177904174497792"@) == f64_overflow(),
        pow10(308) < f64_overflow() < pow10(309),
{
    reveal_strlit("179769313486231580793728971405303415079934132710037826936173778980444968292764750946649017977587207096330286416692887910946555547851940402630657488671505820681908902000708383676273854845817711531764475730270069855571366959622842914819860834936475292719074168444365510704342711559699508093042880177904174497792");
    reveal_strlit("179");
    reveal_strlit("769313486231580793");
    reveal_strlit("728971405303415079");
    reveal_strlit("934132710037826936");
    reveal_strlit("173778980444968292");
    reveal_strlit("764750946649017977");
    reveal_strlit("587207096330286416");
    reveal_strlit("692887910946555547");
    reveal_strlit("851940402630657488");
    reveal_strlit("671505820681908902");
    reveal_strlit("000708383676273854");
    reveal_strlit("845817711531764475");
    reveal_strlit("730270069855571366");
    reveal_strlit("959622842914819860");
    reveal_strlit("834936475292719074");
    reveal_strlit("168444365510704342");
    reveal_strlit("711559699508093042");
    reveal_strlit("880177904174497792");
    let s = "179769313486231580793728971405303415079934132710037826936173778980444968292764750946649017977587207096330286416692887910946555547851940402630657488671505820681908902000708383676273854845817711531764475730270069855571366959622842914819860834936475292719074168444365510704342711559699508093042880177904174497792"@;
    assert(s =~= "179"@ + "769313486231580793"@ + "728971405303415079"@ + "934132710037826936"@ + "173778980444968292"@ + "764750946649017977"@ + "587207096330286416"@ + "692887910946555547"@ + "851940402630657488"@ + "671505820681908902"@ + "000708383676273854"@ + "845817711531764475"@ + "730270069855571366"@ + "959622842914819860"@ + "834936475292719074"@ + "168444365510704342"@ + "711559699508093042"@ + "880177904174497792"@);
    assert(digits_value("179"@) == 179nat) by {
        reveal_with_fuel(digits_value, 19);
    }
    assert(pow10(18) == 1_000_000_000_000_000_000) by {
        reveal_with_fuel(pow10, 19);
    }
    assert(digits_value("769313486231580793"@) == 769313486231580793nat) by {
        reveal_with_fuel(digits_value, 19);
    }
    lemma_digits_concat("179"@, "769313486231580793"@);
    assert(digits_value("179"@ + "769313486231580793"@) == 179769313486231580793nat);
    assert(digits_value("728971405303415079"@) == 728971405303415079nat) by {
        reveal_with_fuel(digits_value, 19);
    }
    lemma_digits_concat("179"@ + "769313486231580793"@, "728971405303415079"@);
    assert(digits_value("179"@ + "769313486231580793"@ + "728971405303415079"@) == 179769313486231580793728971405303415079nat);
    assert(digits_value("934132710037826936"@) == 934132710037826936nat) by {
        reveal_with_fuel(digits_value, 19);
    }
    lemma_digits_concat("179"@ + "769313486231580793"@ + "728971405303415079"@, "934132710037826936"@);
    assert(digits_value("179"@ + "769313486231580793"@ + "728971405303415079"@ + "934132710037826936"@) == 179769313486231580793728971405303415079934132710037826936nat);
    assert(digits_value("173778980444968292"@) == 173778980444968292nat) by {
        reveal_with_fuel(digits_value, 19);
    }
    lemma_digits_concat("179"@ + "769313486231580793"@ + "728971405303415079"@ + "934132710037826936"@, "173778980444968292"@);
    assert(digits_value("179"@ + "769313486231580793"@ + "728971405303415079"@ + "934132710037826936"@ + "173778980444968292"@) == 179769313486231580793728971405303415079934132710037826936173778980444968292nat);
    assert(digits_value("764750946649017977"@) == 764750946649017977nat) by {
        reveal_with_fuel(digits_value, 19);
    }
    lemma_digits_concat("179"@ + "769313486231580793"@ + "728971405303415079"@ + "934132710037826936"@ + "173778980444968292"@, "764750946649017977"@);
    assert(digits_value("179"@ + "769313486231580793"@ + "728971405303415079"@ + "934132710037826936"@ + "173778980444968292"@ + "764750946649017977"@) == 179769313486231580793728971405303415079934132710037826936173778980444968292764750946649017977nat);
    assert(digits_value("587207096330286416"@) == 587207096330286416nat) by {
        reveal_with_fuel(digits_value, 19);
    }
    lemma_digits_concat("179"@ + "769313486231580793"@ + "728971405303415079"@ + "934132710037826936"@ + "173778980444968292"@ + "764750946649017977"@, "587207096330286416"@);
    assert(digits_value("179"@ + "769313486231580793"@ + "728971405303415079"@ + "934132710037826936"@ + "173778980444968292"@ + "764750946649017977"@ + "587207096330286416"@) == 179769313486231580793728971405303415079934132710037826936173778980444968292764750946649017977587207096330286416nat);
    assert(digits_value("692887910946555547"@) == 692887910946555547nat) by {
        reveal_with_fuel(digits_value, 19);
    }
    lemma_digits_concat("179"@ + "769313486231580793"@ + "728971405303415079"@ + "934132710037826936"@ + "173778980444968292"@ + "764750946649017977"@ + "587207096330286416"@, "692887910946555547"@);
    assert(digits_value("179"@ + "769313486231580793"@ + "728971405303415079"@ + "934132710037826936"@ + "173778980444968292"@ + "764750946649017977"@ + "587207096330286416"@ + "692887910946555547"@) == 179769313486231580793728971405303415079934132710037826936173778980444968292764750946649017977587207096330286416692887910946555547nat);
    assert(digits_value("851940402630657488"@) == 851940402630657488nat) by {
        reveal_with_fuel(digits_value, 19);
    }
    lemma_digits_concat("179"@ + "769313486231580793"@ + "728971405303415079"@ + "934132710037826936"@ + "173778980444968292"@ + "764750946649017977"@ + "587207096330286416"@ + "692887910946555547"@, "851940402630657488"@);
    assert(digits_value("179"@ + "769313486231580793"@ + "728971405303415079"@ + "934132710037826936"@ + "173778980444968292"@ + "764750946649017977"@ + "587207096330286416"@ + "692887910946555547"@ + "851940402630657488"@) == 179769313486231580793728971405303415079934132710037826936173778980444968292764750946649017977587207096330286416692887910946555547851940402630657488nat);
    assert(digits_value("671505820681908902"@) == 671505820681908902nat) by {
        reveal_with_fuel(digits_value, 19);
    }
    lemma_digits_concat("179"@ + "769313486231580793"@ + "728971405303415079"@ + "934132710037826936"@ + "173778980444968292"@ + "764750946649017977"@ + "587207096330286416"@ + "692887910946555547"@ + "851940402630657488"@, "671505820681908902"@);
    assert(digits_value("179"@ + "769313486231580793"@ + "728971405303415079"@ + "934132710037826936"@ + "173778980444968292"@ + "764750946649017977"@ + "587207096330286416"@ + "692887910946555547"@ + "851940402630657488"@ + "671505820681908902"@) == 179769313486231580793728971405303415079934132710037826936173778980444968292764750946649017977587207096330286416692887910946555547851940402630657488671505820681908902nat);
    assert(digits_value("000708383676273854"@) == 708383676273854nat) by {
        reveal_with_fuel(digits_value, 19);
    }
    lemma_digits_concat("179"@ + "769313486231580793"@ + "728971405303415079"@ + "934132710037826936"@ + "173778980444968292"@ + "764750946649017977"@ + "587207096330286416"@ + "692887910946555547"@ + "851940402630657488"@ + "671505820681908902"@, "000708383676273854"@);
    assert(digits_value("179"@ + "769313486231580793"@ + "728971405303415079"@ + "934132710037826936"@ + "173778980444968292"@ + "764750946649017977"@ + "587207096330286416"@ + "692887910946555547"@ + "851940402630657488"@ + "671505820681908902"@ + "000708383676273854"@) == 179769313486231580793728971405303415079934132710037826936173778980444968292764750946649017977587207096330286416692887910946555547851940402630657488671505820681908902000708383676273854nat);
    assert(digits_value("845817711531764475"@) == 845817711531764475nat) by {
        reveal_with_fuel(digits_value, 19);
    }
    lemma_digits_concat("179"@ + "769313486231580793"@ + "728971405303415079"@ + "934132710037826936"@ + "173778980444968292"@ + "764750946649017977"@ + "587207096330286416"@ + "692887910946555547"@ + "851940402630657488"@ + "671505820681908902"@ + "000708383676273854"@, "845817711531764475"@);
    assert(digits_value("179"@ + "769313486231580793"@ + "728971405303415079"@ + "934132710037826936"@ + "173778980444968292"@ + "764750946649017977"@ + "587207096330286416"@ + "692887910946555547"@ + "851940402630657488"@ + "671505820681908902"@ + "000708383676273854"@ + "845817711531764475"@) == 179769313486231580793728971405303415079934132710037826936173778980444968292764750946649017977587207096330286416692887910946555547851940402630657488671505820681908902000708383676273854845817711531764475nat);
    assert(digits_value("730270069855571366"@) == 730270069855571366nat) by {
        reveal_with_fuel(digits_value, 19);
    }
    lemma_digits_concat("179"@ + "769313486231580793"@ + "728971405303415079"@ + "934132710037826936"@ + "173778980444968292"@ + "764750946649017977"@ + "587207096330286416"@ + "692887910946555547"@ + "851940402630657488"@ + "671505820681908902"@ + "000708383676273854"@ + "845817711531764475"@, "730270069855571366"@);
    assert(digits_value("179"@ + "769313486231580793"@ + "728971405303415079"@ + "934132710037826936"@ + "173778980444968292"@ + "764750946649017977"@ + "587207096330286416"@ + "692887910946555547"@ + "851940402630657488"@ + "671505820681908902"@ + "000708383676273854"@ + "845817711531764475"@ + "730270069855571366"@) == 179769313486231580793728971405303415079934132710037826936173778980444968292764750946649017977587207096330286416692887910946555547851940402630657488671505820681908902000708383676273854845817711531764475730270069855571366nat);
    assert(digits_value("959622842914819860"@) == 959622842914819860nat) by {
        reveal_with_fuel(digits_value, 19);
    }
    lemma_digits_concat("179"@ + "769313486231580793"@ + "728971405303415079"@ + "934132710037826936"@ + "173778980444968292"@ + "764750946649017977"@ + "587207096330286416"@ + "692887910946555547"@ + "851940402630657488"@ + "671505820681908902"@ + "000708383676273854"@ + "845817711531764475"@ + "730270069855571366"@, "959622842914819860"@);
    assert(digits_value("179"@ + "769313486231580793"@ + "728971405303415079"@ + "934132710037826936"@ + "173778980444968292"@ + "764750946649017977"@ + "587207096330286416"@ + "692887910946555547"@ + "851940402630657488"@ + "671505820681908902"@ + "000708383676273854"@ + "845817711531764475"@ + "730270069855571366"@ + "959622842914819860"@) == 179769313486231580793728971405303415079934132710037826936173778980444968292764750946649017977587207096330286416692887910946555547851940402630657488671505820681908902000708383676273854845817711531764475730270069855571366959622842914819860nat);
    assert(digits_value("834936475292719074"@) == 834936475292719074nat) by {
        reveal_with_fuel(digits_value, 19);
    }
    lemma_digits_concat("179"@ + "769313486231580793"@ + "728971405303415079"@ + "934132710037826936"@ + "173778980444968292"@ + "764750946649017977"@ + "587207096330286416"@ + "692887910946555547"@ + "851940402630657488"@ + "671505820681908902"@ + "000708383676273854"@ + "845817711531764475"@ + "730270069855571366"@ + "959622842914819860"@, "834936475292719074"@);
    assert(digits_value("179"@ + "769313486231580793"@ + "728971405303415079"@ + "934132710037826936"@ + "173778980444968292"@ + "764750946649017977"@ + "587207096330286416"@ + "692887910946555547"@ + "851940402630657488"@ + "671505820681908902"@ + "000708383676273854"@ + "845817711531764475"@ + "730270069855571366"@ + "959622842914819860"@ + "834936475292719074"@) == 179769313486231580793728971405303415079934132710037826936173778980444968292764750946649017977587207096330286416692887910946555547851940402630657488671505820681908902000708383676273854845817711531764475730270069855571366959622842914819860834936475292719074nat);
    assert(digits_value("168444365510704342"@) == 168444365510704342nat) by {
        reveal_with_fuel(digits_value, 19);
    }
    lemma_digits_concat("179"@ + "769313486231580793"@ + "728971405303415079"@ + "934132710037826936"@ + "173778980444968292"@ + "764750946649017977"@ + "587207096330286416"@ + "692887910946555547"@ + "851940402630657488"@ + "671505820681908902"@ + "000708383676273854"@ + "845817711531764475"@ + "730270069855571366"@ + "959622842914819860"@ + "834936475292719074"@, "168444365510704342"@);
    assert(digits_value("179"@ + "769313486231580793"@ + "728971405303415079"@ + "934132710037826936"@ + "173778980444968292"@ + "764750946649017977"@ + "587207096330286416"@ + "692887910946555547"@ + "851940402630657488"@ + "671505820681908902"@ + "000708383676273854"@ + "845817711531764475"@ + "730270069855571366"@ + "959622842914819860"@ + "834936475292719074"@ + "168444365510704342"@) == 179769313486231580793728971405303415079934132710037826936173778980444968292764750946649017977587207096330286416692887910946555547851940402630657488671505820681908902000708383676273854845817711531764475730270069855571366959622842914819860834936475292719074168444365510704342nat);
    assert(digits_value("711559699508093042"@) == 711559699508093042nat) by {
        reveal_with_fuel(digits_value, 19);
    }
    lemma_digits_concat("179"@ + "769313486231580793"@ + "728971405303415079"@ + "934132710037826936"@ + "173778980444968292"@ + "764750946649017977"@ + "587207096330286416"@ + "692887910946555547"@ + "851940402630657488"@ + "671505820681908902"@ + "000708383676273854"@ + "845817711531764475"@ + "730270069855571366"@ + "959622842914819860"@ + "834936475292719074"@ + "168444365510704342"@, "711559699508093042"@);
    assert(digits_value("179"@ + "769313486231580793"@ + "728971405303415079"@ + "934132710037826936"@ + "173778980444968292"@ + "764750946649017977"@ + "587207096330286416"@ + "692887910946555547"@ + "851940402630657488"@ + "671505820681908902"@ + "000708383676273854"@ + "845817711531764475"@ + "730270069855571366"@ + "959622842914819860"@ + "834936475292719074"@ + "168444365510704342"@ + "711559699508093042"@) == 179769313486231580793728971405303415079934132710037826936173778980444968292764750946649017977587207096330286416692887910946555547851940402630657488671505820681908902000708383676273854845817711531764475730270069855571366959622842914819860834936475292719074168444365510704342711559699508093042nat);
    assert(digits_value("880177904174497792"@) == 880177904174497792nat) by {
        reveal_with_fuel(digits_value, 19);
    }
    lemma_digits_concat("179"@ + "769313486231580793"@ + "728971405303415079"@ + "934132710037826936"@ + "173778980444968292"@ + "764750946649017977"@ + "587207096330286416"@ + "692887910946555547"@ + "851940402630657488"@ + "671505820681908902"@ + "000708383676273854"@ + "845817711531764475"@ + "730270069855571366"@ + "959622842914819860"@ + "834936475292719074"@ + "168444365510704342"@ + "711559699508093042"@, "880177904174497792"@);
    assert(digits_value("179"@ + "769313486231580793"@ + "728971405303415079"@ + "934132710037826936"@ + "173778980444968292"@ + "764750946649017977"@ + "587207096330286416"@ + "692887910946555547"@ + "851940402630657488"@ + "671505820681908902"@ + "000708383676273854"@ + "845817711531764475"@ + "730270069855571366"@ + "959622842914819860"@ + "834936475292719074"@ + "168444365510704342"@ + "711559699508093042"@ + "880177904174497792"@) == 179769313486231580793728971405303415079934132710037826936173778980444968292764750946649017977587207096330286416692887910946555547851940402630657488671505820681908902000708383676273854845817711531764475730270069855571366959622842914819860834936475292719074168444365510704342711559699508093042880177904174497792nat);
    lemma_f64_overflow_value();
    lemma_f64_overflow_between_powers();
}

/// Past 2^120 units, the rounded value is past 2^119.
proof fn lemma_round53_large(j: nat, sticky: bool)
    requires
        j >= 0x100_0000_0000_0000_0000_0000_0000_0000,
    ensures
        round53(j, sticky) > 0x80_0000_0000_0000_0000_0000_0000_0000,
{
    let u = two_pow(lost_bits(j));
    lemma_lost_bits(j);
    let q = j / u;
    let r = j % u;
    vstd::arithmetic::div_mod::lemma_fundamental_div_mod(j as int, u as int);
    assert(q * u > 0x80_0000_0000_0000_0000_0000_0000_0000) by (nonlinear_arith)
        requires
            j == u * q + r,
            0 <= r < u,
            u * 0x10_0000_0000_0000 <= j,
            j >= 0x100_0000_0000_0000_0000_0000_0000_0000,
    ;
    assert((q + 1) * u > q * u) by (nonlinear_arith)
        requires
            u >= 1,
    ;
}

/// With 53 bits kept, a whole number `j` at or past 2^53 loses `lost_bits(j)`
/// bits: `u = 2^lost_bits(j)` has `2^52·u <= j < 2^53·u`.
proof fn lemma_lost_bits(j: nat)
    ensures
        two_pow(lost_bits(j)) >= 1,
        j < 0x20_0000_0000_0000 ==> lost_bits(j) == 0,
        j >= 0x20_0000_0000_0000 ==> two_pow(lost_bits(j)) * 0x10_0000_0000_0000 <= j,
        j < two_pow(lost_bits(j)) * 0x20_0000_0000_0000,
    decreases j,
{
    if j >= 0x20_0000_0000_0000 {
        lemma_lost_bits(j / 2);
        let u = two_pow(lost_bits(j / 2));
        assert(two_pow(lost_bits(j)) == 2 * u);
        assert(j / 2 >= 0x10_0000_0000_0000);
    } else {
        assert(two_pow(0) == 1);
    }
}

/// `(a·d + b) / d` and `(a·d + b) % d`, taken apart.
proof fn lemma_div_shift(a: nat, b: nat, d: nat)
    requires
        d >= 1,
    ensures
        (a * d + b) / d == a + b / d,
        (a * d + b) % d == b % d,
{
    vstd::arithmetic::div_mod::lemma_fundamental_div_mod(b as int, d as int);
    let q = b / d;
    let r = b % d;
    assert(a * d + b == (a + q) * d + r) by (nonlinear_arith)
        requires
            b == d * q + r,
    ;
    vstd::arithmetic::div_mod::lemma_fundamental_div_mod_converse_div((a * d + b) as int, d as int, (a + q) as int, r as int);
    vstd::arithmetic::div_mod::lemma_fundamental_div_mod_converse_mod((a * d + b) as int, d as int, (a + q) as int, r as int);
}

/// Whether the whole number `ip` is at least `f64_overflow()`, so that
/// `f64` parsing gives infinity.
fn exceeds_f64(ip: &[char]) -> (b: bool)
    requires
        all_digits(ip@),
    ensures
        b == (digits_value(ip@) >= f64_overflow()),
{
    let mut z: usize = 0;
    while z < ip.len() && ip[z] == '0'
        invariant
            0 <= z <= ip@.len(),
            forall|j: int| 0 <= j < z ==> #[trigger] ip@[j] == '0',
        decreases ip.len() - z,
    {
        z = z + 1;
    }
    let ghost t = ip@.skip(z as int);
    proof {
        let zs = ip@.take(z as int);
        assert(ip@ =~= zs + t);
        assert forall|j: int| 0 <= j < zs.len() implies #[trigger] zs[j] == '0' by {}
        lemma_zeros_value(zs);
        lemma_digits_concat(zs, t);
        assert(all_digits(t));
        lemma_limit_digits();
        lemma_digits_value_bound(t);
    }
    let n = ip.len() - z;
    if n < 309 {
        proof {
            lemma_pow10_mono(t.len(), 308);
        }
        return false;
    }
    if n > 309 {
        proof {
            lemma_leading_digit(t);
            lemma_pow10_mono(309, (t.len() - 1) as nat);
        }
        return true;
    }
    let lim = chars_of("179769313486231580793728971405303415079934132710037826936173778980444968292764750946649017977587207096330286416692887910946555547851940402630657488671505820681908902000708383676273854845817711531764475730270069855571366959622842914819860834936475292719074168444365510704342711559699508093042880177904174497792");
    let ghost ls = "179769313486231580793728971405303415079934132710037826936173778980444968292764750946649017977587207096330286416692887910946555547851940402630657488671505820681908902000708383676273854845817711531764475730270069855571366959622842914819860834936475292719074168444365510704342711559699508093042880177904174497792"@;
    assert(lim@ == ls);
    let mut i: usize = 0;
    while i < 309 && ip[z + i] == lim[i]
        invariant
            0 <= i <= 309,
            z + 309 == ip.len(),
            lim@ == ls,
            ls.len() == 309,
            t == ip@.skip(z as int),
            t.take(i as int) =~= ls.take(i as int),
        decreases 309 - i,
    {
        assert(t.take(i + 1) =~= t.take(i as int).push(t[i as int]));
        assert(ls.take(i + 1) =~= ls.take(i as int).push(ls[i as int]));
        i = i + 1;
    }
    if i == 309 {
        assert(t.take(309) =~= t);
        assert(ls.take(309) =~= ls);
        return true;
    }
    proof {
        assert(t[i as int] == ip@[z + i]);
    }
    if ip[z + i] < lim[i] {
        proof {
            lemma_digits_lex(t, ls, i as int);
        }
        false
    } else {
        proof {
            lemma_digits_lex(ls, t, i as int);
        }
        true
    }
}

/// `ip.fp × m` as `scaled_size` states it.
fn scale_decimal(ip: &[char], fp: &[char], m: u64) -> (r: Option<u64>)
    requires
        all_digits(ip@),
        all_digits(fp@),
        1 <= m <= 1099511627776,
    ensures
        r == scaled_size(ip@, fp@, m as nat),
{
    let ghost d = pow10(fp@.len());
    let ghost f = digits_value(fp@);
    let ghost t = (digits_value(ip@) * d + f) * (m as nat) * two_pow(55);
    proof {
        lemma_pow10_pos(fp@.len());
        lemma_two_pow_values();
        lemma_div_shift(digits_value(ip@) * (m as nat) * two_pow(55), f * (m as nat) * two_pow(55), d);
        assert(t == (digits_value(ip@) * (m as nat) * two_pow(55)) * d + f * (m as nat) * two_pow(55)) by (nonlinear_arith)
            requires
                t == (digits_value(ip@) * d + f) * (m as nat) * two_pow(55),
        ;
        assert(t / d >= digits_value(ip@) * (m as nat) * two_pow(55));
    }
    let cap: u128 = 0x2_0000_0000_0000_0000;
    let i: u128 = match digits_value_capped(ip, cap) {
        None => {
            proof {
                assert(digits_value(ip@) * (m as nat) * two_pow(55) >= 0x100_0000_0000_0000_0000_0000_0000_0000) by (nonlinear_arith)
                    requires
                        digits_value(ip@) > 0x2_0000_0000_0000_0000,
                        m >= 1,
                        two_pow(55) == 0x80_0000_0000_0000,
                ;
                lemma_round53_large(t / d, t % d != 0);
            }
            return None;
        },
        Some(x) => x,
    };
    assert(i * (m as u128) <= 0x2_0000_0000_0000_0000 * 1099511627776) by (nonlinear_arith)
        requires
            i <= 0x2_0000_0000_0000_0000u128,
            m <= 1099511627776,
    ;
    let im: u128 = i * (m as u128);
    if im >= 0x2_0000_0000_0000_0000 {
        proof {
            assert(digits_value(ip@) * (m as nat) * two_pow(55) >= 0x100_0000_0000_0000_0000_0000_0000_0000) by (nonlinear_arith)
                requires
                    digits_value(ip@) * (m as nat) >= 0x2_0000_0000_0000_0000,
                    two_pow(55) == 0x80_0000_0000_0000,
            ;
            lemma_round53_large(t / d, t % d != 0);
        }
        return None;
    }
    let p: u128 = (m as u128) * 0x80_0000_0000_0000;
    let (z, exact) = scale_fraction(fp, p);
    let j: u128 = im * 0x80_0000_0000_0000 + z;
    proof {
        assert(f * (m as nat) * two_pow(55) == f * (p as nat)) by (nonlinear_arith)
            requires
                p == m * 0x80_0000_0000_0000,
                two_pow(55) == 0x80_0000_0000_0000,
        ;
        assert(digits_value(ip@) * (m as nat) * two_pow(55) == im * 0x80_0000_0000_0000) by (nonlinear_arith)
            requires
                im == digits_value(ip@) * m,
                two_pow(55) == 0x80_0000_0000_0000,
        ;
        assert(j == t / d);
        assert((t % d != 0) == !exact);
    }
    let v = round53_exec(j, !exact);
    if v > 0x80_0000_0000_0000_0000_0000_0000_0000 {
        return None;
    }
    let b: u128 = (v + 0x40_0000_0000_0000) / 0x80_0000_0000_0000;
    if b > 0xffff_ffff_ffff_ffff {
        Some(0xffff_ffff_ffff_ffff)
    } else {
        Some(b as u64)
    }
}

impl ByteSize {
    /// Parses sizes such as `123`, `10KB`, `1.5 GiB` or `50mb`: a decimal
    /// number followed by an optional unit (`b`, `k`, `m`, `g`, `t`, each also
    /// as `kb`/`kib` and so on, in any case), 1024-based. The number is taken
    /// as `f64` parsing takes it (to 53 significant bits, ties to even, and
    /// past `f64::MAX` to infinity, an invalid number), scaled by the unit,
    /// and rounded half away from zero to whole bytes; a size above 2^64 is
    /// too large, and 2^64 itself becomes `u64::MAX`.
    pub fn parse(input: &str) -> (r: Result<ByteSize, String>)
        ensures
            match r {
                Ok(b) => parse_size(input@) == Ok::<u64, Seq<char>>(b.0),
                Err(e) => parse_size(input@) == Err::<u64, Seq<char>>(e@),
            },
    {
        let v = chars_of(input);
        let raw = trim_chars(v.as_slice());
        if raw.len() == 0 {
            return Err(string_of("size cannot be empty"));
        }
        let k = numeric_prefix(raw.as_slice());
        let ghost number_s = raw@.take(k as int);
        if k == 0 {
            let mut e = string_of("invalid size: ");
            push_str(&mut e, input);
            return Err(e);
        }
        let number = slice_chars(raw.as_slice(), 0, k);
        assert(number@ =~= number_s);
        let parts = match decimal_split(number.as_slice()) {
            None => {
                let mut e = string_of("invalid size number: ");
                push_str(&mut e, input);
                return Err(e);
            },
            Some(parts) => parts,
        };
        proof {
            if !all_digits(number@) {
                let p = choose|p: int| dot_split_at(number@, p);
                assert(all_digits(number@.take(p)));
                assert(all_digits(number@.skip(p + 1)));
            }
        }
        if exceeds_f64(parts.0.as_slice()) {
            let mut e = string_of("invalid size number: ");
            push_str(&mut e, input);
            return Err(e);
        }
        let suffix = slice_chars(raw.as_slice(), k, raw.len());
        assert(suffix@ =~= raw@.skip(k as int));
        let trimmed = trim_chars(suffix.as_slice());
        let key = lower_chars(trimmed.as_slice());
        let m = match unit_multiplier_of(key.as_slice()) {
            None => {
                let mut e = string_of("unsupported size suffix: ");
                push_chars(&mut e, key.as_slice());
                return Err(e);
            },
            Some(m) => m,
        };
        proof {
            let ip = parts.0@;
            let fp = parts.1@;
            if all_digits(number@) {
            } else {
                let p = choose|p: int| dot_split_at(number@, p);
                assert(all_digits(number@.take(p)));
                assert(all_digits(number@.skip(p + 1)));
            }
        }
        match scale_decimal(parts.0.as_slice(), parts.1.as_slice(), m) {
            None => {
                let mut e = string_of("size too large: ");
                push_str(&mut e, input);
                Err(e)
            },
            Some(b) => Ok(ByteSize(b)),
        }
    }
}

} // verus!

verus! {

pub open spec fn two_pow(k: nat) -> nat
    decreases k,
{
    if k == 0 {
        1
    } else {
        2 * two_pow((k - 1) as nat)
    }
}

/// `n / d` rounded to the nearest integer, ties to the even one.
pub open spec fn round_even(n: nat, d: nat) -> nat {
    let q = n / d;
    let r = n % d;
    if 2 * r > d || (2 * r == d && q % 2 == 1) {
        q + 1
    } else {
        q
    }
}

/// How many low bits `b` loses in an `f64` (53 significant bits), counted from `s`.
pub open spec fn f64_shift_from(b: nat, s: nat) -> nat
    decreases 64 - s,
{
    if s >= 11 || b < two_pow(53 + s) {
        s
    } else {
        f64_shift_from(b, s + 1)
    }
}

/// The value of `b as f64`: `b` rounded to 53 significant bits, ties to even.
pub open spec fn f64_value(b: nat) -> nat {
    let s = f64_shift_from(b, 0);
    round_even(b, two_pow(s)) * two_pow(s)
}

pub open spec fn unit_name(u: nat) -> Seq<char> {
    if u == 0 {
        "B"@
    } else if u == 1 {
        "KB"@
    } else if u == 2 {
        "MB"@
    } else if u == 3 {
        "GB"@
    } else {
        "TB"@
    }
}

/// The unit that `x >= 1024` is shown in: the largest power of 1024 not
/// above it, at most TB.
pub open spec fn unit_of(x: nat) -> nat {
    if x >= 1099511627776 {
        4
    } else if x >= 1073741824 {
        3
    } else if x >= 1048576 {
        2
    } else {
        1
    }
}

pub open spec fn unit_size(u: nat) -> nat {
    if u == 1 {
        1024
    } else if u == 2 {
        1048576
    } else if u == 3 {
        1073741824
    } else {
        1099511627776
    }
}

/// Decimals shown for `x / den`: none from 100 up, one from 10 up, else two.
pub open spec fn decimals_for(x: nat, den: nat) -> nat {
    if x >= 100 * den {
        0
    } else if x >= 10 * den {
        1
    } else {
        2
    }
}

/// `r / 10^p` written with `p` decimals.
pub open spec fn fixed_text(r: nat, p: nat) -> Seq<char> {
    if p == 0 {
        dec_text(r)
    } else {
        dec_text(r / pow10(p)) + "."@ + zero_pad(dec_text(r % pow10(p)), p)
    }
}

/// The text `format_bytes` gives: whole bytes below 1024, otherwise the size
/// (as an `f64` holds it) in the largest unit up to TB, with three
/// significant figures (at least), rounded half to even as `{:.N}` prints.
pub open spec fn format_bytes_text(b: nat) -> Seq<char> {
    if b < 1024 {
        dec_text(b) + " "@ + unit_name(0)
    } else {
        let x = f64_value(b);
        let u = unit_of(x);
        let den = unit_size(u);
        let p = decimals_for(x, den);
        fixed_text(round_even(x * pow10(p), den), p) + " "@ + unit_name(u)
    }
}

fn round_even_exec(n: u128, d: u128) -> (r: u128)
    requires
        1 <= d <= 0x1_0000_0000_0000_0000_0000,
        n < 0xffff_ffff_ffff_ffff_ffff_ffff_ffff_fff0,
    ensures
        r == round_even(n as nat, d as nat),
{
    let q = n / d;
    let r = n % d;
    if 2 * r > d || (2 * r == d && q % 2 == 1) {
        q + 1
    } else {
        q
    }
}

proof fn lemma_two_pow_mono(a: nat, b: nat)
    requires
        a <= b,
    ensures
        two_pow(a) <= two_pow(b),
    decreases b - a,
{
    if a < b {
        lemma_two_pow_mono(a, (b - 1) as nat);
    }
}

fn f64_value_exec(b: u64) -> (x: u128)
    ensures
        x == f64_value(b as nat),
        x <= 0x1_0000_0000_0000_0000,
        b >= 1024 ==> x >= 1024,
{
    let mut s: u64 = 0;
    let mut pw: u128 = 1;
    let mut top: u128 = 0x20_0000_0000_0000;
    proof {
        assert(two_pow(0) == 1);
        assert(two_pow(53) == 0x20_0000_0000_0000) by {
            reveal_with_fuel(two_pow, 54);
        }
        assert(two_pow(11) == 0x800) by {
            reveal_with_fuel(two_pow, 12);
        }
    }
    while s < 11 && (b as u128) >= top
        invariant
            s <= 11,
            two_pow(11) == 0x800,
            pw == two_pow(s as nat),
            top == two_pow((53 + s) as nat),
            f64_shift_from(b as nat, 0) == f64_shift_from(b as nat, s as nat),
            1 <= pw <= 0x800,
            top == pw * 0x20_0000_0000_0000,
            s > 0 ==> b >= 0x20_0000_0000_0000,
        decreases 11 - s,
    {
        s = s + 1;
        proof {
            lemma_two_pow_mono(s as nat, 11);
        }
        pw = pw * 2;
        top = top * 2;
    }
    proof {
        assert(f64_shift_from(b as nat, s as nat) == s);
        assert((b as u128) < top);
    }
    let q = (b as u128) / pw;
    let r = (b as u128) % pw;
    proof {
        vstd::arithmetic::div_mod::lemma_fundamental_div_mod(b as int, pw as int);
        assert(q < 0x20_0000_0000_0000) by (nonlinear_arith)
            requires
                b as int == pw * q + r,
                0 <= r,
                b < pw * 0x20_0000_0000_0000,
                pw >= 1,
        ;
        assert((q + 1) * pw <= 0x1_0000_0000_0000_0000) by (nonlinear_arith)
            requires
                q + 1 <= 0x20_0000_0000_0000,
                pw <= 0x800,
        ;
    }
    let up = 2 * r > pw || (2 * r == pw && q % 2 == 1);
    let x = if up {
        (q + 1) * pw
    } else {
        q * pw
    };
    proof {
        assert(x >= q * pw) by (nonlinear_arith)
            requires
                x == if up { (q + 1) * pw } else { q * pw },
                pw >= 1,
        ;
        assert(b >= 1024 ==> x >= 1024) by (nonlinear_arith)
            requires
                b as int == pw * q + r,
                0 <= r < pw,
                pw <= 0x800,
                x >= q * pw,
                pw > 1 ==> b >= 0x20_0000_0000_0000,
                pw == 1 ==> r == 0,
        ;
    }
    x
}

/// Formats a byte count for people: `999 B`, `1.00 KB`, `10.0 MB`, `512 GB`.
pub fn format_bytes(bytes: u64) -> (s: String)
    ensures
        s@ == format_bytes_text(bytes as nat),
{
    let mut out = String::new();
    if bytes < 1024 {
        push_dec(&mut out, bytes as u128);
        push_str(&mut out, " ");
        push_str(&mut out, "B");
        assert(out@ =~= format_bytes_text(bytes as nat));
        return out;
    }
    let x = f64_value_exec(bytes);
    let (u, den, name): (u64, u128, &str) = if x >= 1099511627776 {
        (4, 1099511627776, "TB")
    } else if x >= 1073741824 {
        (3, 1073741824, "GB")
    } else if x >= 1048576 {
        (2, 1048576, "MB")
    } else {
        (1, 1024, "KB")
    };
    let (p, tp): (usize, u128) = if x >= 100 * den {
        (0, 1)
    } else if x >= 10 * den {
        (1, 10)
    } else {
        (2, 100)
    };
    proof {
        assert(pow10(0) == 1);
        assert(pow10(1) == 10);
        assert(pow10(2) == 100);
    }
    let rounded = round_even_exec(x * tp, den);
    if p == 0 {
        push_dec(&mut out, rounded);
    } else {
        push_dec(&mut out, rounded / tp);
        push_str(&mut out, ".");
        push_dec_padded(&mut out, rounded % tp, p);
    }
    push_str(&mut out, " ");
    push_str(&mut out, name);
    assert(out@ =~= format_bytes_text(bytes as nat));
    out
}

impl ByteSize {
    /// The size as `format_bytes` shows it.
    pub fn human(self) -> (s: String)
        ensures
            s@ == format_bytes_text(self.0 as nat),
    {
        format_bytes(self.0)
    }
}


/// A whole number of units up to 2^108 that is a multiple of 2^55 keeps all
/// its bits.
proof fn lemma_round53_exact(n: nat)
    requires
        n <= 0x20_0000_0000_0000,
    ensures
        round53(n * 0x80_0000_0000_0000, false) == n * 0x80_0000_0000_0000,
{
    let j = n * 0x80_0000_0000_0000;
    let k = lost_bits(j);
    let u = two_pow(k);
    lemma_lost_bits(j);
    lemma_two_pow_values();
    if n == 0 {
        assert(k == 0);
        assert(u == 1);
    } else {
        assert(j >= 0x20_0000_0000_0000);
        if k > 56 {
            lemma_two_pow_mono(57, k);
            assert(two_pow(56) == 2 * two_pow(55));
            assert(two_pow(57) == 2 * two_pow(56));
            assert(u >= 0x200_0000_0000_0000);
            assert(u * 0x10_0000_0000_0000 >= 0x200_0000_0000_0000 * 0x10_0000_0000_0000) by (nonlinear_arith)
                requires
                    u >= 0x200_0000_0000_0000,
            ;
            assert(j <= 0x1_0000_0000_0000_0000_0000_0000_0000) by (nonlinear_arith)
                requires
                    n <= 0x20_0000_0000_0000,
                    j == n * 0x80_0000_0000_0000,
            ;
            assert(false);
        } else if k == 56 {
            assert(u == 2 * two_pow(55));
            assert(n == 0x20_0000_0000_0000) by (nonlinear_arith)
                requires
                    u == 0x100_0000_0000_0000,
                    u * 0x10_0000_0000_0000 <= j,
                    j == n * 0x80_0000_0000_0000,
                    n <= 0x20_0000_0000_0000,
            ;
            assert(j == 0x10_0000_0000_0000 * u);
            vstd::arithmetic::div_mod::lemma_fundamental_div_mod_converse_mod(j as int, u as int, 0x10_0000_0000_0000, 0);
            vstd::arithmetic::div_mod::lemma_fundamental_div_mod_converse_div(j as int, u as int, 0x10_0000_0000_0000, 0);
        } else {
            let w = two_pow((55 - k) as nat);
            lemma_two_pow_add(k, (55 - k) as nat);
            assert(j == (n * w) * u) by (nonlinear_arith)
                requires
                    j == n * 0x80_0000_0000_0000,
                    0x80_0000_0000_0000 == u * w,
            ;
            vstd::arithmetic::div_mod::lemma_fundamental_div_mod_converse_mod(j as int, u as int, (n * w) as int, 0);
            vstd::arithmetic::div_mod::lemma_fundamental_div_mod_converse_div(j as int, u as int, (n * w) as int, 0);
        }
    }
}

/// A text whose ends are not whitespace is its own trim.
proof fn lemma_trim_keeps(s: Seq<char>)
    requires
        s.len() >= 1,
        !is_ws(s[0]),
        !is_ws(s.last()),
    ensures
        trim(s) == s,
{
}

/// Digits in front add to the leading run of digits and dots.
proof fn lemma_numeric_prefix_digits(a: Seq<char>, b: Seq<char>)
    requires
        all_digits(a),
    ensures
        numeric_prefix_len(a + b) == a.len() + numeric_prefix_len(b),
    decreases a.len(),
{
    if a.len() == 0 {
        assert(a + b =~= b);
    } else {
        assert((a + b).drop_first() =~= a.drop_first() + b);
        assert((a + b)[0] == a[0]);
        lemma_numeric_prefix_digits(a.drop_first(), b);
    }
}

/// The decimal text of a whole number of bytes parses back to that number,
/// alone or followed by ` B`, for every number up to 2^53 (those that `f64`
/// holds exactly).
pub proof fn lemma_parse_dec_text(n: nat)
    requires
        n <= 0x20_0000_0000_0000,
    ensures
        parse_size(dec_text(n)) == Ok::<u64, Seq<char>>(n as u64),
        parse_size(dec_text(n) + " B"@) == Ok::<u64, Seq<char>>(n as u64),
{
    let s = dec_text(n);
    lemma_dec_text_value(n);
    lemma_f64_overflow_value();
    lemma_two_pow_values();
    lemma_round53_exact(n);
    let e = Seq::<char>::empty();
    assert(pow10(0) == 1);
    assert(digits_value(e) == 0);
    let t = (n * 1 + 0) * 1 * two_pow(55);
    assert(t == n * 0x80_0000_0000_0000);
    assert(t / 1 == t);
    assert(t % 1 == 0);
    assert((t + two_pow(54)) / two_pow(55) == n) by (nonlinear_arith)
        requires
            t == n * 0x80_0000_0000_0000,
            two_pow(54) == 0x40_0000_0000_0000,
            two_pow(55) == 0x80_0000_0000_0000,
    ;
    assert(t <= two_pow(119)) by (nonlinear_arith)
        requires
            t == n * 0x80_0000_0000_0000,
            n <= 0x20_0000_0000_0000,
            two_pow(119) == 0x80_0000_0000_0000_0000_0000_0000_0000,
    ;
    assert(scaled_size(s, e, 1) == Some(n as u64));
    assert(decimal_parts(s) == Some((s, e)));
    // the number alone
    lemma_trim_keeps(s);
    lemma_numeric_prefix_digits(s, e);
    assert(s + e =~= s);
    assert(s.take(s.len() as int) =~= s);
    assert(s.skip(s.len() as int) =~= e);
    assert(trim(e) == e);
    assert(ascii_lower(e) =~= e);
    assert(unit_multiplier(e) == Some(1nat));
    // followed by " B"
    reveal_strlit(" B");
    reveal_strlit("B");
    reveal_strlit("b");
    let sb = s + " B"@;
    assert(sb[0] == s[0]);
    assert(sb.last() == 'B');
    lemma_trim_keeps(sb);
    lemma_numeric_prefix_digits(s, " B"@);
    assert(numeric_prefix_len(" B"@) == 0);
    assert(sb.take(s.len() as int) =~= s);
    assert(sb.skip(s.len() as int) =~= " B"@);
    assert(" B"@.drop_first() =~= "B"@);
    assert(trim_start("B"@) == "B"@);
    assert(trim_start(" B"@) == trim_start("B"@));
    assert(trim_end("B"@) == "B"@);
    assert(trim(" B"@) == "B"@);
    assert(lower_char('B') == 'b');
    assert(ascii_lower("B"@) =~= "b"@);
    assert(unit_multiplier("b"@) == Some(1nat));
}

} // verus!
