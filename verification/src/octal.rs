use vstd::prelude::*;
use vstd::arithmetic::div_mod::{lemma_fundamental_div_mod, lemma_div_denominator};

verus! {

/// 8 to the power `k` (1 for `k <= 0`).
pub open spec fn pow8(k: int) -> int
    decreases k,
{
    if k <= 0 {
        1
    } else {
        8 * pow8(k - 1)
    }
}

pub proof fn lemma_pow8_pos(k: int)
    ensures
        pow8(k) >= 1,
    decreases k,
{
    if k > 0 {
        lemma_pow8_pos(k - 1);
    }
}

pub proof fn lemma_pow8_le(a: int, b: int)
    requires
        a <= b,
    ensures
        pow8(a) <= pow8(b),
    decreases b - a,
{
    if a < b {
        lemma_pow8_le(a, b - 1);
        lemma_pow8_pos(b - 1);
    }
}

/// The numeric values of the powers the tar fields use.
pub proof fn lemma_pow8_values()
    ensures
        pow8(6) == 262144,
        pow8(11) == 0x200000000,
        pow8(12) == 0x1000000000,
{
    reveal_with_fuel(pow8, 13);
}

pub open spec fn is_octal_digit(b: u8) -> bool {
    48 <= b <= 55
}

/// The octal digit of `v` with weight `8^pos`, as an ASCII byte.
pub open spec fn oct_digit(v: int, pos: int) -> u8 {
    (48 + ((v / pow8(pos)) % 8)) as u8
}

/// `v` written as `width` ASCII octal digits, most significant first,
/// zero-padded.
pub open spec fn octal_seq(v: int, width: int) -> Seq<u8> {
    Seq::new(width as nat, |i: int| oct_digit(v, width - 1 - i))
}

/// Value of the `n`-digit octal numeral `f[0..n]`.
pub open spec fn octal_value(f: Seq<u8>, n: int) -> int
    decreases n,
{
    if n <= 0 {
        0
    } else {
        8 * octal_value(f, n - 1) + (f[n - 1] - 48)
    }
}

/// Number of leading ASCII octal digits of `f`.
pub open spec fn octal_prefix_len(f: Seq<u8>) -> int
    decreases f.len(),
{
    if f.len() == 0 || !is_octal_digit(f[0]) {
        0
    } else {
        1 + octal_prefix_len(f.skip(1))
    }
}

/// What a 12-byte octal header field denotes: at least one octal digit,
/// then only NUL or space filler.
pub open spec fn parse_octal_field(f: Seq<u8>) -> Option<int> {
    let n = octal_prefix_len(f);
    if n >= 1 && (forall|i: int| n <= i < f.len() ==> f[i] == 0u8 || f[i] == 32u8) {
        Some(octal_value(f, n))
    } else {
        None
    }
}

pub proof fn lemma_octal_prefix_len_props(f: Seq<u8>)
    ensures
        0 <= octal_prefix_len(f) <= f.len(),
        forall|i: int| 0 <= i < octal_prefix_len(f) ==> is_octal_digit(#[trigger] f[i]),
        octal_prefix_len(f) < f.len() ==> !is_octal_digit(f[octal_prefix_len(f)]),
    decreases f.len(),
{
    if f.len() != 0 && is_octal_digit(f[0]) {
        lemma_octal_prefix_len_props(f.skip(1));
        let p = octal_prefix_len(f);
        assert forall|i: int| 0 <= i < p implies is_octal_digit(#[trigger] f[i]) by {
            if i > 0 {
                assert(f.skip(1)[i - 1] == f[i]);
            }
        }
        if p < f.len() {
            assert(f.skip(1)[p - 1] == f[p]);
        }
    }
}

pub proof fn lemma_octal_value_bound(f: Seq<u8>, n: int)
    requires
        forall|i: int| 0 <= i < n ==> is_octal_digit(#[trigger] f[i]),
    ensures
        0 <= octal_value(f, n) < pow8(n),
    decreases n,
{
    if n <= 0 {
    } else {
        lemma_octal_value_bound(f, n - 1);
    }
}

/// Reading back the digits that `octal_seq` wrote gives the value back.
pub proof fn lemma_octal_value_of_digits(v: int, w: int, f: Seq<u8>)
    requires
        0 <= v < pow8(w),
        0 <= w,
        forall|i: int| 0 <= i < w ==> #[trigger] f[i] == oct_digit(v, w - 1 - i),
    ensures
        octal_value(f, w) == v,
    decreases w,
{
    if w == 0 {
        lemma_pow8_pos(0);
    } else {
        let v1 = v / 8;
        assert forall|i: int| 0 <= i < w - 1 implies #[trigger] f[i] == oct_digit(
            v1,
            w - 2 - i,
        ) by {
            lemma_pow8_pos(w - 2 - i);
            lemma_div_denominator(v, 8, pow8(w - 2 - i));
            assert(8 * pow8(w - 2 - i) == pow8(w - 1 - i));
            assert((v / 8) / pow8(w - 2 - i) == v / pow8(w - 1 - i));
        }
        assert(8 * pow8(w - 1) == pow8(w));
        lemma_fundamental_div_mod(v, 8);
        assert(v == 8 * v1 + v % 8);
        assert(v1 < pow8(w - 1)) by {
            if v1 >= pow8(w - 1) {
                assert(8 * v1 >= 8 * pow8(w - 1)) by (nonlinear_arith)
                    requires v1 >= pow8(w - 1);
            }
        }
        assert(0 <= v1) by {
            lemma_pow8_pos(w - 1);
        }
        lemma_octal_value_of_digits(v1, w - 1, f);
        assert(f[w - 1] == oct_digit(v, 0));
        assert(pow8(0) == 1);
        assert(v / 1 == v);
        assert(octal_value(f, w) == 8 * octal_value(f, w - 1) + (f[w - 1] - 48));
    }
}

/// All bytes `octal_seq` writes are octal digits.
pub proof fn lemma_octal_seq_digits(v: int, w: int)
    requires
        0 <= v,
    ensures
        forall|i: int| 0 <= i < w ==> is_octal_digit(#[trigger] octal_seq(v, w)[i]),
{
    assert forall|i: int| 0 <= i < w implies is_octal_digit(#[trigger] octal_seq(v, w)[i]) by {
        lemma_pow8_pos(w - 1 - i);
        assert(0 <= (v / pow8(w - 1 - i)) % 8 < 8);
    }
}

/// A field written as `octal_seq` digits plus NUL or space filler parses
/// back to its value.
pub proof fn lemma_parse_octal_filled(v: int, w: int, tail: Seq<u8>)
    requires
        0 <= v < pow8(w),
        1 <= w <= 11,
        forall|i: int| 0 <= i < tail.len() ==> tail[i] == 0u8 || tail[i] == 32u8,
    ensures
        parse_octal_field(octal_seq(v, w) + tail) == Some(v),
{
    let f = octal_seq(v, w) + tail;
    lemma_octal_seq_digits(v, w);
    lemma_octal_prefix_len_props(f);
    assert forall|i: int| 0 <= i < w implies is_octal_digit(#[trigger] f[i]) by {
        assert(f[i] == octal_seq(v, w)[i]);
    }
    if tail.len() > 0 {
        assert(f[w] == tail[0]);
        assert(!is_octal_digit(f[w]));
    }
    assert(octal_prefix_len(f) == w);
    assert forall|i: int| w <= i < f.len() implies f[i] == 0u8 || f[i] == 32u8 by {
        assert(f[i] == tail[i - w]);
    }
    assert forall|i: int| 0 <= i < w implies #[trigger] f[i] == oct_digit(v, w - 1 - i) by {
        assert(f[i] == octal_seq(v, w)[i]);
    }
    lemma_octal_value_of_digits(v, w, f);
}

pub fn pow8_exec(k: usize) -> (r: u64)
    requires
        k <= 12,
    ensures
        r == pow8(k as int),
{
    proof {
        lemma_pow8_values();
    }
    let mut r: u64 = 1;
    let mut i: usize = 0;
    while i < k
        invariant
            i <= k <= 12,
            r == pow8(i as int),
        decreases k - i,
    {
        proof {
            lemma_pow8_le(i as int, 11);
            lemma_pow8_values();
        }
        r = r * 8;
        i = i + 1;
    }
    r
}

/// Append `v` as `width` octal digits, most significant first.
pub fn push_octal(out: &mut Vec<u8>, v: u64, width: usize)
    requires
        width <= 12,
    ensures
        final(out)@ == old(out)@ + octal_seq(v as int, width as int),
{
    let mut j: usize = 0;
    while j < width
        invariant
            j <= width <= 12,
            out@ == old(out)@ + octal_seq(v as int, width as int).take(j as int),
        decreases width - j,
    {
        let p = pow8_exec(width - 1 - j);
        proof {
            lemma_pow8_pos(width - 1 - j);
        }
        let d: u64 = (v / p) % 8;
        out.push(48 + (d as u8));
        j = j + 1;
        assert(out@ =~= old(out)@ + octal_seq(v as int, width as int).take(j as int));
    }
    assert(octal_seq(v as int, width as int).take(width as int) =~= octal_seq(
        v as int,
        width as int,
    ));
}

/// Parse the `w`-byte octal field at `s[a..a+w]`.
pub fn parse_octal_at(s: &Vec<u8>, a: usize, w: usize) -> (r: Option<u64>)
    requires
        a + w <= s@.len(),
        1 <= w <= 12,
    ensures
        ({
            let f = s@.subrange(a as int, a as int + w);
            match r {
                Some(u) => parse_octal_field(f) == Some(u as int) && u < 0x1000000000,
                None => parse_octal_field(f) is None,
            }
        }),
{
    let ghost f = s@.subrange(a as int, a as int + w);
    proof {
        lemma_octal_prefix_len_props(f);
    }
    let n = s.len();
    let mut q: usize = 0;
    while q < w && 48 <= s[a + q] && s[a + q] <= 55
        invariant
            q <= w <= 12,
            a + w <= n,
            n == s@.len(),
            f == s@.subrange(a as int, a as int + w),
            forall|i: int| 0 <= i < q ==> is_octal_digit(#[trigger] f[i]),
        decreases w - q,
    {
        assert(f[q as int] == s@[a + q]);
        q = q + 1;
    }
    proof {
        if q < w {
            assert(f[q as int] == s@[a + q]);
        }
        assert(octal_prefix_len(f) == q);
    }
    if q == 0 {
        return None;
    }
    // the rest of the field must be NUL or space filler
    let mut i: usize = q;
    while i < w
        invariant
            1 <= q <= i <= w <= 12,
            a + w <= n,
            n == s@.len(),
            f == s@.subrange(a as int, a as int + w),
            octal_prefix_len(f) == q,
            forall|j: int| q <= j < i ==> f[j] == 0u8 || f[j] == 32u8,
        decreases w - i,
    {
        let b = s[a + i];
        assert(f[i as int] == s@[a + i]);
        if b != 0 && b != 32 {
            assert(!(f[i as int] == 0u8 || f[i as int] == 32u8));
            return None;
        }
        i = i + 1;
    }
    // accumulate the value
    proof {
        lemma_octal_value_bound(f, q as int);
    }
    let mut acc: u64 = 0;
    let mut j: usize = 0;
    while j < q
        invariant
            j <= q <= w <= 12,
            a + w <= n,
            n == s@.len(),
            f == s@.subrange(a as int, a as int + w),
            forall|i2: int| 0 <= i2 < q ==> is_octal_digit(#[trigger] f[i2]),
            acc == octal_value(f, j as int),
            acc < 0x1000000000,
        decreases q - j,
    {
        proof {
            lemma_octal_value_bound(f, (j + 1) as int);
            lemma_pow8_le((j + 1) as int, 12);
            lemma_pow8_values();
        }
        let b = s[a + j];
        assert(f[j as int] == s@[a + j]);
        acc = acc * 8 + ((b - 48) as u64);
        j = j + 1;
    }
    assert(parse_octal_field(f) == Some(octal_value(f, q as int)));
    Some(acc)
}

} // verus!
