use vstd::prelude::*;

verus! {

/// A run of `n` zero bytes.
pub open spec fn zeros(n: int) -> Seq<u8> {
    Seq::new(n as nat, |i: int| 0u8)
}

/// `s` begins with `p`.
pub open spec fn starts_with(s: Seq<u8>, p: Seq<u8>) -> bool {
    s.len() >= p.len() && s.take(p.len() as int) == p
}

/// Sum of all bytes of `s`, as an unbounded integer.
pub open spec fn sum_bytes(s: Seq<u8>) -> int
    decreases s.len(),
{
    if s.len() == 0 {
        0
    } else {
        sum_bytes(s.drop_last()) + s.last()
    }
}

pub proof fn lemma_sum_bytes_bounds(s: Seq<u8>)
    ensures
        0 <= sum_bytes(s) <= 255 * s.len(),
    decreases s.len(),
{
    if s.len() > 0 {
        lemma_sum_bytes_bounds(s.drop_last());
    }
}

/// Byte sums split over concatenation.
pub proof fn lemma_sum_bytes_add(a: Seq<u8>, b: Seq<u8>)
    ensures
        sum_bytes(a + b) == sum_bytes(a) + sum_bytes(b),
    decreases b.len(),
{
    if b.len() == 0 {
        assert(a + b =~= a);
    } else {
        lemma_sum_bytes_add(a, b.drop_last());
        assert((a + b).drop_last() =~= a + b.drop_last());
        assert((a + b).last() == b.last());
    }
}

/// The sum of `n` space bytes.
pub proof fn lemma_sum_bytes_spaces(n: int)
    requires
        0 <= n,
    ensures
        sum_bytes(Seq::new(n as nat, |i: int| 32u8)) == 32 * n,
    decreases n,
{
    let s = Seq::new(n as nat, |i: int| 32u8);
    if n > 0 {
        lemma_sum_bytes_spaces(n - 1);
        assert(s.drop_last() =~= Seq::new((n - 1) as nat, |i: int| 32u8));
    }
}

/// Append `n` zero bytes.
pub fn push_zeros(out: &mut Vec<u8>, n: usize)
    ensures
        final(out)@ == old(out)@ + zeros(n as int),
{
    let mut i: usize = 0;
    while i < n
        invariant
            i <= n,
            out@ == old(out)@ + zeros(i as int),
        decreases n - i,
    {
        out.push(0u8);
        i = i + 1;
        assert(out@ =~= old(out)@ + zeros(i as int));
    }
    assert(out@ =~= old(out)@ + zeros(n as int));
}

/// Copy `s[a..b]` into a fresh vector.
pub fn copy_range(s: &Vec<u8>, a: usize, b: usize) -> (r: Vec<u8>)
    requires
        a <= b <= s@.len(),
    ensures
        r@ == s@.subrange(a as int, b as int),
{
    let mut r: Vec<u8> = Vec::new();
    let mut i: usize = a;
    while i < b
        invariant
            a <= i <= b <= s@.len(),
            r@ == s@.subrange(a as int, i as int),
        decreases b - i,
    {
        r.push(s[i]);
        i = i + 1;
        assert(r@ =~= s@.subrange(a as int, i as int));
    }
    r
}

/// Byte-for-byte equality of two vectors.
pub fn bytes_eq(a: &Vec<u8>, b: &Vec<u8>) -> (r: bool)
    ensures
        r == (a@ == b@),
{
    if a.len() != b.len() {
        return false;
    }
    let mut i: usize = 0;
    while i < a.len()
        invariant
            i <= a@.len(),
            a@.len() == b@.len(),
            forall|j: int| 0 <= j < i ==> a@[j] == b@[j],
        decreases a@.len() - i,
    {
        if a[i] != b[i] {
            return false;
        }
        i = i + 1;
    }
    assert(a@ =~= b@);
    true
}

/// Sum the bytes of `s[a..b]`.
pub fn sum_range(s: &Vec<u8>, a: usize, b: usize) -> (r: u64)
    requires
        a <= b <= s@.len(),
        b - a <= 1024,
    ensures
        r == sum_bytes(s@.subrange(a as int, b as int)),
{
    let ghost g = s@.subrange(a as int, b as int);
    let n = s.len();
    let mut acc: u64 = 0;
    let mut i: usize = a;
    while i < b
        invariant
            a <= i <= b <= n,
            n == s@.len(),
            b - a <= 1024,
            g == s@.subrange(a as int, b as int),
            acc == sum_bytes(g.take(i - a)),
            acc <= 255 * (i - a),
        decreases b - i,
    {
        proof {
            assert(g.take(i - a + 1).drop_last() =~= g.take(i - a));
            assert(g.take(i - a + 1).last() == s@[i as int]);
        }
        acc = acc + (s[i] as u64);
        i = i + 1;
    }
    assert(g.take(b - a) =~= g);
    acc
}

/// Sum the bytes of `s`.
pub fn sum_vec(s: &Vec<u8>) -> (r: u64)
    requires
        s@.len() <= 1024,
    ensures
        r == sum_bytes(s@),
{
    let mut acc: u64 = 0;
    let mut i: usize = 0;
    while i < s.len()
        invariant
            i <= s@.len() <= 1024,
            acc == sum_bytes(s@.take(i as int)),
            acc <= 255 * i,
        decreases s@.len() - i,
    {
        proof {
            assert(s@.take(i + 1).drop_last() =~= s@.take(i as int));
            assert(s@.take(i + 1).last() == s@[i as int]);
        }
        acc = acc + (s[i] as u64);
        i = i + 1;
    }
    assert(s@.take(s@.len() as int) =~= s@);
    acc
}

} // verus!
