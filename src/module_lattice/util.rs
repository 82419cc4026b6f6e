//! Truncation between unsigned widths, and flattening of sequences of equal-size
//! parts into one sequence and back.
use vstd::arithmetic::div_mod::*;
use vstd::arithmetic::mul::*;
use vstd::prelude::*;

verus! {

/// Narrowing of an unsigned integer to a shorter unsigned type: the high bits are
/// dropped and the low bits that fit are kept.
pub trait Truncate<T>: Sized {
    /// The value that `truncate(x)` returns.
    spec fn truncate_spec(x: T) -> Self;

    /// Keeps the low bits of `x` that fit in `Self`.
    fn truncate(x: T) -> (r: Self)
        ensures
            r == Self::truncate_spec(x),
    ;
}

impl Truncate<u128> for u32 {
    open spec fn truncate_spec(x: u128) -> u32 {
        (x % 0x1_0000_0000) as u32
    }

    fn truncate(x: u128) -> (r: u32) {
        let r = (x & 0xffff_ffff) as u32;
        assert(x & 0xffff_ffff == x % 0x1_0000_0000) by (bit_vector);
        assert(r == Self::truncate_spec(x));
        r
    }
}

impl Truncate<u64> for u32 {
    open spec fn truncate_spec(x: u64) -> u32 {
        (x % 0x1_0000_0000) as u32
    }

    fn truncate(x: u64) -> (r: u32) {
        let r = (x & 0xffff_ffff) as u32;
        assert(x & 0xffff_ffff == x % 0x1_0000_0000) by (bit_vector);
        assert(r == Self::truncate_spec(x));
        r
    }
}

impl Truncate<usize> for u8 {
    open spec fn truncate_spec(x: usize) -> u8 {
        (x % 0x100) as u8
    }

    fn truncate(x: usize) -> (r: u8) {
        let r = (x & 0xff) as u8;
        assert(x & 0xff == x % 0x100) by (bit_vector);
        assert(r == Self::truncate_spec(x));
        r
    }
}

impl Truncate<usize> for u16 {
    open spec fn truncate_spec(x: usize) -> u16 {
        (x % 0x1_0000) as u16
    }

    fn truncate(x: usize) -> (r: u16) {
        let r = (x & 0xffff) as u16;
        assert(x & 0xffff == x % 0x1_0000) by (bit_vector);
        assert(r == Self::truncate_spec(x));
        r
    }
}

/// The parts, each of length `m`, laid end to end.
pub open spec fn concat_parts<T>(parts: Seq<Seq<T>>, m: nat) -> Seq<T> {
    Seq::new(parts.len() * m, |x: int| parts[x / (m as int)][x % (m as int)])
}

/// `whole` cut into `n` consecutive parts of length `m`.
pub open spec fn split_parts<T>(whole: Seq<T>, n: nat, m: nat) -> Seq<Seq<T>> {
    Seq::new(n, |i: int| whole.subrange(i * m, i * m + m))
}

/// The contents of each part.
pub open spec fn part_views<T>(parts: Seq<Vec<T>>) -> Seq<Seq<T>> {
    Seq::new(parts.len(), |i: int| parts[i]@)
}

proof fn lemma_part_index(i: int, j: int, n: nat, m: nat)
    requires
        0 <= i < n,
        0 <= j < m,
    ensures
        0 <= i * m + j < n * m,
        (i * m + j) / (m as int) == i,
        (i * m + j) % (m as int) == j,
{
    assert(0 <= i * m + j < n * m) by (nonlinear_arith)
        requires
            0 <= i < n,
            0 <= j < m,
    ;
    lemma_fundamental_div_mod_converse(i * m + j, m as int, i, j);
}

/// Cutting parts of equal length that were laid end to end gives them back.
pub proof fn lemma_split_concat<T>(parts: Seq<Seq<T>>, m: nat)
    requires
        forall|i: int| 0 <= i < parts.len() ==> (#[trigger] parts[i]).len() == m,
    ensures
        split_parts(concat_parts(parts, m), parts.len(), m) == parts,
{
    let whole = concat_parts(parts, m);
    let back = split_parts(whole, parts.len(), m);
    assert forall|i: int| 0 <= i < parts.len() implies #[trigger] back[i] == parts[i] by {
        assert(0 <= i * m && i * m + m <= parts.len() * m) by (nonlinear_arith)
            requires
                0 <= i < parts.len(),
        ;
        assert forall|j: int| 0 <= j < m implies #[trigger] back[i][j] == parts[i][j] by {
            lemma_part_index(i, j, parts.len(), m);
        }
        assert(back[i] =~= parts[i]);
    }
    assert(back =~= parts);
}

/// Laying end to end the parts of a sequence that was cut gives it back.
pub proof fn lemma_concat_split<T>(whole: Seq<T>, n: nat, m: nat)
    requires
        whole.len() == n * m,
    ensures
        concat_parts(split_parts(whole, n, m), m) == whole,
{
    let parts = split_parts(whole, n, m);
    let back = concat_parts(parts, m);
    assert forall|x: int| 0 <= x < whole.len() implies #[trigger] back[x] == whole[x] by {
        if m > 0 {
            lemma_fundamental_div_mod(x, m as int);
            lemma_mod_bound(x, m as int);
            let i = x / (m as int);
            let j = x % (m as int);
            lemma_mul_is_commutative(m as int, i);
            assert(0 <= i < n) by (nonlinear_arith)
                requires
                    x == i * m + j,
                    0 <= j < m,
                    0 <= x < n * m,
            ;
            assert(i * m + m <= n * m) by (nonlinear_arith)
                requires
                    0 <= i < n,
            ;
        }
    }
    assert(back =~= whole);
}

/// Lays parts of equal length end to end in one vector.
pub fn flatten<T: Copy>(parts: &[Vec<T>], m: usize) -> (r: Vec<T>)
    requires
        forall|i: int| 0 <= i < parts@.len() ==> (#[trigger] parts@[i])@.len() == m,
        parts@.len() * m <= usize::MAX,
    ensures
        r@ == concat_parts(part_views(parts@), m as nat),
{
    let ghost want = concat_parts(part_views(parts@), m as nat);
    let mut r: Vec<T> = Vec::new();
    let mut i: usize = 0;
    while i < parts.len()
        invariant
            i <= parts@.len(),
            parts@.len() * m <= usize::MAX,
            forall|k: int| 0 <= k < parts@.len() ==> (#[trigger] parts@[k])@.len() == m,
            want == concat_parts(part_views(parts@), m as nat),
            r@.len() == i * m,
            forall|x: int| 0 <= x < r@.len() ==> #[trigger] r@[x] == want[x],
        decreases parts@.len() - i,
    {
        let mut j: usize = 0;
        proof {
            assert(i * m + m <= parts@.len() * m) by (nonlinear_arith)
                requires
                    i < parts@.len(),
            ;
        }
        while j < m
            invariant
                i < parts@.len(),
                j <= m,
                i * m + m <= parts@.len() * m,
                parts@.len() * m <= usize::MAX,
                forall|k: int| 0 <= k < parts@.len() ==> (#[trigger] parts@[k])@.len() == m,
                want == concat_parts(part_views(parts@), m as nat),
                r@.len() == i * m + j,
                forall|x: int| 0 <= x < r@.len() ==> #[trigger] r@[x] == want[x],
            decreases m - j,
        {
            proof {
                lemma_part_index(i as int, j as int, parts@.len(), m as nat);
            }
            r.push(parts[i][j]);
            j += 1;
        }
        proof {
            assert((i + 1) * m == i * m + m) by (nonlinear_arith);
        }
        i += 1;
    }
    assert(r@ =~= want);
    r
}

/// Cuts `whole` into consecutive parts of length `m`.
pub fn unflatten<T: Copy>(whole: &[T], m: usize) -> (r: Vec<Vec<T>>)
    requires
        m > 0,
        whole@.len() % (m as nat) == 0,
    ensures
        part_views(r@) == split_parts(whole@, whole@.len() / (m as nat), m as nat),
{
    let len = whole.len();
    let n = len / m;
    proof {
        lemma_fundamental_div_mod(whole@.len() as int, m as int);
        lemma_mul_is_commutative(m as int, n as int);
    }
    let ghost want = split_parts(whole@, n as nat, m as nat);
    let mut r: Vec<Vec<T>> = Vec::new();
    let mut i: usize = 0;
    while i < n
        invariant
            i <= n,
            m > 0,
            n * m == whole@.len(),
            len == whole@.len(),
            want == split_parts(whole@, n as nat, m as nat),
            r@.len() == i,
            forall|k: int| 0 <= k < i ==> (#[trigger] r@[k])@ == want[k],
        decreases n - i,
    {
        proof {
            assert(i * m + m <= n * m) by (nonlinear_arith)
                requires
                    i < n,
            ;
        }
        let mut part: Vec<T> = Vec::new();
        let start = i * m;
        let mut j: usize = 0;
        while j < m
            invariant
                i < n,
                j <= m,
                start == i * m,
                i * m + m <= n * m,
                n * m == whole@.len(),
                len == whole@.len(),
                part@ == whole@.subrange(start as int, start + j),
            decreases m - j,
        {
            part.push(whole[start + j]);
            j += 1;
            assert(part@ =~= whole@.subrange(start as int, start + j));
        }
        r.push(part);
        i += 1;
    }
    assert(part_views(r@) =~= want);
    r
}

} // verus!
