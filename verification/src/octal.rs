//! Octal ASCII numeric fields of tar headers: fixed-width fields holding
//! zero-padded octal digits with a NUL terminator, read back accepting
//! both NUL- and space-terminated digit runs.

use vstd::prelude::*;
use vstd::arithmetic::div_mod::lemma_div_denominator;

verus! {

/// True of the ASCII bytes '0' through '7'.
pub open spec fn is_octal_digit(b: u8) -> bool {
    48 <= b <= 55
}

/// True of the bytes that may pad a numeric field after its digits.
pub open spec fn is_pad_byte(b: u8) -> bool {
    b == 0 || b == 32
}

/// 8 to the power `k`.
pub open spec fn pow8(k: nat) -> int
    decreases k,
{
    if k == 0 {
        1
    } else {
        8 * pow8((k - 1) as nat)
    }
}

pub proof fn lemma_pow8_pos(k: nat)
    ensures
        pow8(k) >= 1,
    decreases k,
{
    if k > 0 {
        lemma_pow8_pos((k - 1) as nat);
    }
}

pub proof fn lemma_pow8_increases(j: nat, k: nat)
    requires
        j <= k,
    ensures
        pow8(j) <= pow8(k),
    decreases k,
{
    if j < k {
        lemma_pow8_increases(j, (k - 1) as nat);
        lemma_pow8_pos((k - 1) as nat);
    }
}

/// The largest octal value of twelve digits is below `u64::MAX`.
pub proof fn lemma_pow8_12_fits()
    ensures
        pow8(12) == 0x1000000000,
{
    reveal_with_fuel(pow8, 13);
}

/// The `n` ASCII octal digits of `v`, most significant first.
pub open spec fn octal_digits(v: int, n: nat) -> Seq<u8>
    decreases n,
{
    if n == 0 {
        Seq::empty()
    } else {
        octal_digits(v / 8, (n - 1) as nat).push((48 + v % 8) as u8)
    }
}

pub proof fn lemma_octal_digits_len(v: int, n: nat)
    ensures
        octal_digits(v, n).len() == n,
    decreases n,
{
    if n > 0 {
        lemma_octal_digits_len(v / 8, (n - 1) as nat);
    }
}

/// Each digit of the encoding: position `j` holds `48 + (v / 8^(n-1-j)) % 8`.
pub proof fn lemma_octal_digits_index(v: int, n: nat, j: int)
    requires
        v >= 0,
        0 <= j < n,
    ensures
        octal_digits(v, n).len() == n,
        octal_digits(v, n)[j] == (48 + (v / pow8((n - 1 - j) as nat)) % 8) as u8,
    decreases n,
{
    lemma_octal_digits_len(v, n);
    if j == n - 1 {
        assert(pow8(0) == 1);
        assert(v / 1 == v);
    } else {
        lemma_octal_digits_index(v / 8, (n - 1) as nat, j);
        lemma_octal_digits_len(v / 8, (n - 1) as nat);
        assert(octal_digits(v, n)[j] == octal_digits(v / 8, (n - 1) as nat)[j]);
        let e = (n - 2 - j) as nat;
        lemma_pow8_pos(e);
        lemma_div_denominator(v, 8, pow8(e));
        assert(8 * pow8(e) == pow8((e + 1) as nat));
    }
}

/// All bytes of an octal encoding are octal digits.
pub proof fn lemma_octal_digits_are_digits(v: int, n: nat)
    requires
        v >= 0,
    ensures
        octal_digits(v, n).len() == n,
        forall|j: int| 0 <= j < n ==> is_octal_digit(#[trigger] octal_digits(v, n)[j]),
{
    lemma_octal_digits_len(v, n);
    assert forall|j: int| 0 <= j < n implies is_octal_digit(#[trigger] octal_digits(v, n)[j]) by {
        lemma_octal_digits_index(v, n, j);
        let e = (n - 1 - j) as nat;
        lemma_pow8_pos(e);
    }
}

/// The value of the first `n` bytes of `s` read as octal digits,
/// most significant first.
pub open spec fn oct_value(s: Seq<u8>, n: nat) -> int
    decreases n,
{
    if n == 0 {
        0
    } else {
        oct_value(s, (n - 1) as nat) * 8 + (s[n - 1] - 48)
    }
}

/// `oct_value` reads only the first `n` bytes.
pub proof fn lemma_oct_value_congruent(s: Seq<u8>, t: Seq<u8>, n: nat)
    requires
        forall|k: int| 0 <= k < n ==> s[k] == t[k],
    ensures
        oct_value(s, n) == oct_value(t, n),
    decreases n,
{
    if n > 0 {
        lemma_oct_value_congruent(s, t, (n - 1) as nat);
    }
}

/// Reading back the octal digits of `v` yields `v`.
pub proof fn lemma_oct_value_of_digits(v: int, n: nat)
    requires
        0 <= v < pow8(n),
    ensures
        oct_value(octal_digits(v, n), n) == v,
    decreases n,
{
    if n == 0 {
    } else {
        let m = (n - 1) as nat;
        lemma_pow8_pos(m);
        assert(v / 8 < pow8(m)) by {
            assert(pow8(n) == 8 * pow8(m));
            assert(v < 8 * pow8(m));
            assert(v / 8 < pow8(m)) by (nonlinear_arith)
                requires
                    v >= 0,
                    pow8(m) >= 1,
                    v < 8 * pow8(m),
            ;
        }
        lemma_oct_value_of_digits(v / 8, m);
        lemma_octal_digits_len(v / 8, m);
        let d = octal_digits(v, n);
        lemma_octal_digits_len(v, n);
        assert(d[n - 1] == (48 + v % 8) as u8);
        lemma_oct_value_congruent(d, octal_digits(v / 8, m), m);
        assert(oct_value(d, n) == (v / 8) * 8 + v % 8);
    }
}

/// Number of leading ASCII octal digits of `s`.
pub open spec fn digit_count(s: Seq<u8>) -> nat
    decreases s.len(),
{
    if s.len() > 0 && is_octal_digit(s[0]) {
        (1 + digit_count(s.drop_first())) as nat
    } else {
        0
    }
}

/// `digit_count` is the unique boundary between a digit prefix and what follows.
pub proof fn lemma_digit_count_char(s: Seq<u8>, n: nat)
    requires
        n <= s.len(),
        forall|k: int| 0 <= k < n ==> is_octal_digit(#[trigger] s[k]),
        n == s.len() || !is_octal_digit(s[n as int]),
    ensures
        digit_count(s) == n,
    decreases s.len(),
{
    if n == 0 {
        assert(s.len() == 0 || !is_octal_digit(s[0]));
    } else {
        assert(is_octal_digit(s[0]));
        let t = s.drop_first();
        assert forall|k: int| 0 <= k < n - 1 implies is_octal_digit(#[trigger] t[k]) by {
            assert(t[k] == s[k + 1]);
        }
        if n < s.len() {
            assert(t[n - 1] == s[n as int]);
        }
        lemma_digit_count_char(t, (n - 1) as nat);
    }
}

/// The digit prefix found by `digit_count` really is one.
pub proof fn lemma_digit_count_digits(s: Seq<u8>)
    ensures
        digit_count(s) <= s.len(),
        forall|k: int| 0 <= k < digit_count(s) ==> is_octal_digit(#[trigger] s[k]),
    decreases s.len(),
{
    if s.len() > 0 && is_octal_digit(s[0]) {
        let t = s.drop_first();
        lemma_digit_count_digits(t);
        assert forall|k: int| 0 <= k < digit_count(s) implies is_octal_digit(#[trigger] s[k]) by {
            if k > 0 {
                assert(t[k - 1] == s[k]);
            }
        }
    }
}

/// An octal digit run of length `n` has a value below `8^n`.
pub proof fn lemma_oct_value_bound(s: Seq<u8>, n: nat)
    requires
        n <= s.len(),
        forall|k: int| 0 <= k < n ==> is_octal_digit(#[trigger] s[k]),
    ensures
        0 <= oct_value(s, n) < pow8(n),
    decreases n,
{
    if n > 0 {
        lemma_oct_value_bound(s, (n - 1) as nat);
    }
}

/// A parsed numeric field's value is bounded by the field width.
pub proof fn lemma_parse_octal_bound(s: Seq<u8>, v: int)
    requires
        spec_parse_octal(s) == Some(v),
    ensures
        0 <= v < pow8(s.len()),
{
    lemma_digit_count_digits(s);
    lemma_oct_value_bound(s, digit_count(s));
    lemma_pow8_increases(digit_count(s), s.len());
}

/// True when every byte of `s` is NUL or space.
pub open spec fn all_pad(s: Seq<u8>) -> bool {
    forall|k: int| 0 <= k < s.len() ==> is_pad_byte(#[trigger] s[k])
}

/// What a fixed-width octal numeric field holds: at least one leading
/// octal digit, then only NUL or space padding; anything else is malformed.
pub open spec fn spec_parse_octal(s: Seq<u8>) -> Option<int> {
    let n = digit_count(s);
    if n == 0 {
        None
    } else if !all_pad(s.skip(n as int)) {
        None
    } else {
        Some(oct_value(s, n))
    }
}

/// A numeric field of width `w`: `w - 1` zero-padded octal digits
/// and a NUL terminator.
pub open spec fn octal_field(v: int, w: nat) -> Seq<u8>
    recommends
        w >= 1,
{
    octal_digits(v, (w - 1) as nat) + seq![0u8]
}

/// Reading back octal digits followed by padding yields the encoded value.
pub proof fn lemma_parse_octal_padded(v: int, n: nat, pad: Seq<u8>)
    requires
        n >= 1,
        0 <= v < pow8(n),
        all_pad(pad),
    ensures
        spec_parse_octal(octal_digits(v, n) + pad) == Some(v),
{
    let s = octal_digits(v, n) + pad;
    lemma_octal_digits_are_digits(v, n);
    assert forall|k: int| 0 <= k < n implies is_octal_digit(#[trigger] s[k]) by {
        assert(s[k] == octal_digits(v, n)[k]);
    }
    if n < s.len() {
        assert(s[n as int] == pad[0]);
        assert(is_pad_byte(pad[0]));
    }
    lemma_digit_count_char(s, n);
    assert(s.skip(n as int) =~= pad);
    lemma_oct_value_congruent(s, octal_digits(v, n), n);
    lemma_oct_value_of_digits(v, n);
}

/// A whole octal field parses back to its value.
pub proof fn lemma_parse_octal_field(v: int, w: nat)
    requires
        w >= 2,
        0 <= v < pow8((w - 1) as nat),
    ensures
        spec_parse_octal(octal_field(v, w)) == Some(v),
{
    lemma_parse_octal_padded(v, (w - 1) as nat, seq![0u8]);
}

/// Writes the `w - 1` digit octal encoding of `v` and a NUL terminator
/// into `block[off .. off + w]`, leaving all other bytes unchanged.
pub fn write_octal_field(block: &mut Vec<u8>, off: usize, v: u64, w: usize)
    requires
        1 <= w <= 12,
        off + w <= old(block).len(),
        (v as int) < pow8((w - 1) as nat),
    ensures
        final(block).len() == old(block).len(),
        forall|k: int|
            off <= k < off + w ==> #[trigger] final(block)@[k] == octal_field(
                v as int,
                (w as nat),
            )[k - off],
        forall|k: int|
            0 <= k < old(block).len() && !(off <= k < off + w) ==> final(block)@[k] == old(block)@[k],
{
    let n = w - 1;
    block[off + n] = 0u8;
    let mut x: u64 = v;
    let mut j: usize = n;
    proof {
        assert(pow8(0) == 1);
        assert(v as int / 1 == v as int);
    }
    while j > 0
        invariant
            j <= n,
            n + 1 == w <= 12,
            off + w <= block.len(),
            block.len() == old(block).len(),
            x as int == v as int / pow8((n - j) as nat),
            block@[off + n] == 0u8,
            forall|k: int|
                off + j <= k < off + n ==> #[trigger] block@[k] == (48 + (v as int / pow8(
                    (n - 1 - (k - off)) as nat,
                )) % 8) as u8,
            forall|k: int|
                0 <= k < old(block).len() && !(off <= k < off + w) ==> block@[k] == old(
                    block,
                )@[k],
        decreases j,
    {
        j = j - 1;
        let d: u8 = 48 + (x % 8) as u8;
        block[off + j] = d;
        proof {
            assert((x as int) % 8 == (v as int / pow8((n - 1 - j) as nat)) % 8);
            let e = (n - 1 - j) as nat;
            lemma_pow8_pos(e);
            lemma_div_denominator(v as int, pow8(e), 8);
            assert(pow8(e) * 8 == 8 * pow8(e));
            assert(8 * pow8(e) == pow8((e + 1) as nat));
            assert((v as int / pow8(e)) / 8 == v as int / pow8((e + 1) as nat));
        }
        x = x / 8;
    }
    proof {
        let f = octal_field(v as int, w as nat);
        lemma_octal_digits_len(v as int, n as nat);
        assert forall|k: int| off <= k < off + w implies #[trigger] block@[k] == f[k - off] by {
            if k - off < n {
                lemma_octal_digits_index(v as int, n as nat, k - off);
                assert(f[k - off] == octal_digits(v as int, n as nat)[k - off]);
            } else {
                assert(f[k - off] == 0u8);
                assert(block@[off + n] == 0u8);
            }
        }
    }
}

/// Reads the numeric field `block[off .. off + w]` as octal.
pub fn parse_octal_field(block: &Vec<u8>, off: usize, w: usize) -> (r: Option<u64>)
    requires
        1 <= w <= 12,
        off + w <= block.len(),
    ensures
        match r {
            Some(v) => spec_parse_octal(block@.subrange(off as int, (off + w) as int)) == Some(
                v as int,
            ),
            None => spec_parse_octal(block@.subrange(off as int, (off + w) as int)) is None,
        },
{
    let ghost f = block@.subrange(off as int, (off + w) as int);
    let mut n: usize = 0;
    while n < w && 48 <= block[off + n] && block[off + n] <= 55
        invariant
            n <= w,
            off + w <= block.len(),
            forall|k: int| 0 <= k < n ==> is_octal_digit(#[trigger] f[k]),
            f == block@.subrange(off as int, (off + w) as int),
        decreases w - n,
    {
        assert(f[n as int] == block@[off + n]);
        n = n + 1;
    }
    proof {
        if n < w {
            assert(f[n as int] == block@[off + n]);
        }
        lemma_digit_count_char(f, n as nat);
    }
    if n == 0 {
        return None;
    }
    let mut val: u64 = 0;
    let mut i: usize = 0;
    proof {
        lemma_pow8_12_fits();
    }
    while i < n
        invariant
            i <= n <= w <= 12,
            1 <= n,
            digit_count(f) == n as nat,
            off + w <= block.len(),
            val as int == oct_value(f, i as nat),
            (val as int) < pow8(i as nat),
            pow8(12) == 0x1000000000,
            f == block@.subrange(off as int, (off + w) as int),
            forall|k: int| 0 <= k < n ==> is_octal_digit(#[trigger] f[k]),
        decreases n - i,
    {
        let b = block[off + i];
        proof {
            assert(f[i as int] == block@[off + i]);
            assert(is_octal_digit(b));
            lemma_pow8_increases((i + 1) as nat, 12);
        }
        val = val * 8 + (b - 48) as u64;
        i = i + 1;
    }
    let mut p: usize = n;
    while p < w
        invariant
            1 <= n <= p <= w,
            off + w <= block.len(),
            f == block@.subrange(off as int, (off + w) as int),
            digit_count(f) == n as nat,
            val as int == oct_value(f, n as nat),
            forall|k: int| n <= k < p ==> is_pad_byte(#[trigger] f[k]),
        decreases w - p,
    {
        let b = block[off + p];
        proof {
            assert(f[p as int] == block@[off + p]);
        }
        if !(b == 0 || b == 32) {
            proof {
                assert(!is_pad_byte(f[p as int]));
                assert(f.skip(n as int)[p - n] == f[p as int]);
                assert(!all_pad(f.skip(n as int)));
            }
            return None;
        }
        p = p + 1;
    }
    proof {
        assert forall|k: int| 0 <= k < f.skip(n as int).len() implies is_pad_byte(
            #[trigger] f.skip(n as int)[k],
        ) by {
            assert(f.skip(n as int)[k] == f[k + n]);
        }
    }
    Some(val)
}

} // verus!
