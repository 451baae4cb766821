//! Mathematical model of polynomials over GF(2).
//!
//! A polynomial is modelled as a sequence of coefficients: index `k` holds the
//! coefficient of `x^k`.  Addition is pointwise XOR, multiplication is the
//! carryless convolution, and the degree is the index of the highest set
//! coefficient (`-1` for the zero polynomial).
use vstd::prelude::*;

verus! {

/// Coefficient of `x^k` in `a`; false outside the stored range.
pub open spec fn coeff(a: Seq<bool>, k: int) -> bool {
    0 <= k < a.len() && a[k]
}

/// XOR of `f(0), ..., f(n-1)`.
pub open spec fn xorsum(f: spec_fn(int) -> bool, n: nat) -> bool
    decreases n,
{
    if n == 0 {
        false
    } else {
        xorsum(f, (n - 1) as nat) != f(n - 1)
    }
}

/// Pointwise sum (XOR) of two coefficient sequences of equal length.
pub open spec fn pxor(a: Seq<bool>, b: Seq<bool>) -> Seq<bool>
    recommends
        a.len() == b.len(),
{
    Seq::new(a.len(), |k: int| a[k] != b[k])
}

/// The terms summed by the product coefficient: `b_j * a_(k-j)`.
pub open spec fn conv_term(a: Seq<bool>, b: Seq<bool>, k: int) -> spec_fn(int) -> bool {
    |j: int| coeff(b, j) && coeff(a, k - j)
}

/// Coefficient of `x^k` in the product `a * b` over GF(2): the XOR over all
/// `i + j == k` of `a_i * b_j`.
pub open spec fn pmul_coeff(a: Seq<bool>, b: Seq<bool>, k: int) -> bool {
    xorsum(conv_term(a, b, k), b.len())
}

/// Degree: index of the highest set coefficient, `-1` for the zero polynomial.
pub open spec fn pdeg(a: Seq<bool>) -> int
    decreases a.len(),
{
    if a.len() == 0 {
        -1
    } else if a[a.len() - 1] {
        a.len() - 1
    } else {
        pdeg(a.drop_last())
    }
}

/// The zero polynomial: no coefficient set.
pub open spec fn is_pzero(a: Seq<bool>) -> bool {
    forall|k: int| 0 <= k < a.len() ==> !a[k]
}

/// The identity polynomial: exactly the coefficient of `x^0` set.
pub open spec fn is_pone(a: Seq<bool>) -> bool {
    coeff(a, 0) && forall|k: int| 1 <= k < a.len() ==> !a[k]
}

/// The quotient `q` witnesses `a * b == q * m + r` coefficient by coefficient.
pub open spec fn mul_mod_with(
    a: Seq<bool>,
    b: Seq<bool>,
    m: Seq<bool>,
    r: Seq<bool>,
    q: Seq<bool>,
) -> bool {
    forall|k: int| pmul_coeff(a, b, k) == ((#[trigger] pmul_coeff(q, m, k)) != coeff(r, k))
}

/// `r` is congruent to `a * b` modulo `m`: some quotient `q` satisfies
/// `a * b == q * m + r` coefficient by coefficient.
pub open spec fn mul_mod(a: Seq<bool>, b: Seq<bool>, m: Seq<bool>, r: Seq<bool>) -> bool {
    exists|q: Seq<bool>| #[trigger] mul_mod_with(a, b, m, r, q)
}

// ---------------------------------------------------------------------------
// Words as polynomials
// ---------------------------------------------------------------------------

/// Coefficient of `x^i` in the 16-bit word `w`.
pub open spec fn word_bit(w: u16, i: u16) -> bool {
    (w >> i) & 1u16 == 1u16
}

/// The 16 coefficients of a word, lowest bit first.
pub open spec fn word_poly(w: u16) -> Seq<bool> {
    Seq::new(16, |k: int| word_bit(w, k as u16))
}

/// The coefficients encoded by a limb array in big-endian limb order:
/// the limb at the smallest index holds the highest-power terms.
pub open spec fn limbs_poly(limbs: Seq<u16>) -> Seq<bool> {
    Seq::new(
        limbs.len() * 16,
        |k: int| word_bit(limbs[limbs.len() - 1 - k / 16], (k % 16) as u16),
    )
}

/// The 32 coefficients of a double-width word given as (high, low).
pub open spec fn wide_word_poly(high: u16, low: u16) -> Seq<bool> {
    Seq::new(
        32,
        |k: int|
            if k < 16 {
                word_bit(low, k as u16)
            } else {
                word_bit(high, (k - 16) as u16)
            },
    )
}

/// The product polynomial, one coefficient per index.
pub open spec fn pmul(a: Seq<bool>, b: Seq<bool>) -> Seq<bool> {
    Seq::new(a.len() + b.len(), |k: int| pmul_coeff(a, b, k))
}

/// The polynomial held by a (high, low) pair of limb arrays.
pub open spec fn pair_poly(h: Seq<u16>, l: Seq<u16>) -> Seq<bool> {
    limbs_poly(h + l)
}

/// XORing a word into one limb changes exactly that limb's 16-bit window of
/// the view.
pub proof fn lemma_limbs_poly_xor_limb(s: Seq<u16>, c: int, w: u16)
    requires
        0 <= c < s.len(),
    ensures
        ({
            let p = s.len() - 1 - c;
            let s2 = s.update(c, s[c] ^ w);
            forall|k: int|
                0 <= k < 16 * s.len() ==> #[trigger] limbs_poly(s2)[k] == (limbs_poly(s)[k] != (16
                    * p <= k < 16 * p + 16 && word_bit(w, (k - 16 * p) as u16)))
        }),
{
    let p = s.len() - 1 - c;
    let s2 = s.update(c, s[c] ^ w);
    assert forall|k: int| 0 <= k < 16 * s.len() implies #[trigger] limbs_poly(s2)[k] == (limbs_poly(
        s,
    )[k] != (16 * p <= k < 16 * p + 16 && word_bit(w, (k - 16 * p) as u16))) by {
        lemma_limbs_index(s, k);
        lemma_limbs_index(s2, k);
        let lc = s.len() - 1 - k / 16;
        if lc == c {
            assert(16 * p <= k < 16 * p + 16) by (nonlinear_arith)
                requires k / 16 == p, 0 <= k % 16 < 16, k == 16 * (k / 16) + k % 16,
            ;
            crate::lemma_word_xor_bits(s[c], w);
            assert(k - 16 * p == k % 16);
        } else {
            assert(!(16 * p <= k < 16 * p + 16)) by (nonlinear_arith)
                requires k / 16 != p, 0 <= k % 16 < 16, k == 16 * (k / 16) + k % 16,
            ;
        }
    }
}

/// The identity polynomial over `n` coefficients.
pub open spec fn pone(n: nat) -> Seq<bool> {
    Seq::new(n, |k: int| k == 0)
}

/// The two halves of a (high, low) pair seen through the combined view.
pub proof fn lemma_pair_poly_halves(h: Seq<u16>, l: Seq<u16>)
    requires
        h.len() == l.len(),
    ensures
        pair_poly(h, l).len() == 32 * l.len(),
        forall|k: int| 0 <= k < 16 * l.len() ==> #[trigger] pair_poly(h, l)[k] == limbs_poly(l)[k],
        forall|k: int|
            16 * l.len() <= k < 32 * l.len() ==> #[trigger] pair_poly(h, l)[k] == limbs_poly(h)[k
                - 16 * l.len()],
{
    let n = l.len();
    assert forall|k: int| 0 <= k < 16 * n implies #[trigger] pair_poly(h, l)[k] == limbs_poly(
        l,
    )[k] by {
        lemma_limbs_index(h + l, k);
        lemma_limbs_index(l, k);
        assert(k / 16 < n) by (nonlinear_arith)
            requires k < 16 * n, 0 <= k % 16 < 16, k == 16 * (k / 16) + k % 16,
        ;
    }
    assert forall|k: int| 16 * n <= k < 32 * n implies #[trigger] pair_poly(h, l)[k] == limbs_poly(
        h,
    )[k - 16 * n] by {
        let kp = k - 16 * n;
        lemma_limbs_index(h + l, k);
        lemma_limbs_index(h, kp);
        assert(k / 16 == kp / 16 + n && k % 16 == kp % 16) by (nonlinear_arith)
            requires k == kp + 16 * n, 0 <= kp,
        ;
    }
}

/// A (high, low) pair whose high half is the constant one holds a monic
/// polynomial of degree exactly `16 * l.len()`, whose lower coefficients are
/// the low half's.
pub proof fn lemma_monic_pair_shape(h: Seq<u16>, l: Seq<u16>)
    requires
        h.len() == l.len(),
        h.len() >= 1,
        forall|p: int| 0 <= p < h.len() - 1 ==> h[p] == 0u16,
        h[h.len() - 1] == 1u16,
    ensures
        pair_poly(h, l).len() == 32 * l.len(),
        pair_poly(h, l)[16 * l.len() as int],
        forall|k: int| 16 * l.len() < k < 32 * l.len() ==> !pair_poly(h, l)[k],
        forall|k: int| 0 <= k < 16 * l.len() ==> pair_poly(h, l)[k] == limbs_poly(l)[k],
        pdeg(pair_poly(h, l)) == 16 * l.len(),
{
    let n = l.len();
    let w = pair_poly(h, l);
    lemma_pair_poly_halves(h, l);
    crate::lemma_word_one_bits();
    crate::lemma_word_zero_bits();
    lemma_limbs_coeff(h, 0, 0);
    assert(w[16 * n as int] == limbs_poly(h)[0]);
    assert forall|k: int| 16 * n < k < 32 * n implies !w[k] by {
        let kp = k - 16 * n;
        lemma_limbs_index(h, kp);
        if kp / 16 == 0 {
            assert(kp == 16 * (kp / 16) + kp % 16);
            assert(kp % 16 >= 1);
        } else {
            assert(h[n - 1 - kp / 16] == 0u16);
        }
    }
    assert forall|k: int| k > 16 * n implies !#[trigger] coeff(w, k) by {}
    lemma_pdeg_le(w, 16 * n as int);
    if pdeg(w) < 16 * n {
        lemma_coeff_above_pdeg(w, 16 * n as int);
    }
}

/// Position arithmetic: the limb and bit a coefficient index falls in.
pub proof fn lemma_limbs_index(s: Seq<u16>, k: int)
    requires
        0 <= k < 16 * s.len(),
    ensures
        0 <= k / 16 < s.len(),
        0 <= k % 16 < 16,
        k == 16 * (k / 16) + k % 16,
        coeff(limbs_poly(s), k) == word_bit(s[s.len() - 1 - k / 16], (k % 16) as u16),
{
    assert(0 <= k / 16 && 0 <= k % 16 < 16 && k == 16 * (k / 16) + k % 16) by (nonlinear_arith)
        requires 0 <= k,
    ;
    assert(k / 16 < s.len()) by (nonlinear_arith)
        requires k < 16 * s.len(), 0 <= k % 16 < 16, k == 16 * (k / 16) + k % 16,
    ;
}

/// Reading a limb's bit through the whole-array view.
pub proof fn lemma_limbs_coeff(s: Seq<u16>, p: int, t: int)
    requires
        0 <= p < s.len(),
        0 <= t < 16,
    ensures
        coeff(limbs_poly(s), 16 * p + t) == word_bit(s[s.len() - 1 - p], t as u16),
{
    assert((16 * p + t) / 16 == p && (16 * p + t) % 16 == t) by (nonlinear_arith)
        requires 0 <= t < 16, 0 <= p,
    ;
    assert(16 * p + t < 16 * s.len()) by (nonlinear_arith)
        requires p < s.len(), t < 16,
    ;
}

// ---------------------------------------------------------------------------
// XOR-sum lemmas
// ---------------------------------------------------------------------------

pub proof fn lemma_xorsum_congruence(f: spec_fn(int) -> bool, g: spec_fn(int) -> bool, n: nat)
    requires
        forall|j: int| 0 <= j < n ==> #[trigger] f(j) == g(j),
    ensures
        xorsum(f, n) == xorsum(g, n),
    decreases n,
{
    if n > 0 {
        lemma_xorsum_congruence(f, g, (n - 1) as nat);
    }
}

pub proof fn lemma_xorsum_zero(f: spec_fn(int) -> bool, n: nat)
    requires
        forall|j: int| 0 <= j < n ==> !#[trigger] f(j),
    ensures
        !xorsum(f, n),
    decreases n,
{
    if n > 0 {
        lemma_xorsum_zero(f, (n - 1) as nat);
    }
}

pub proof fn lemma_xorsum_single(f: spec_fn(int) -> bool, n: nat, j0: int)
    requires
        0 <= j0 < n,
        forall|j: int| 0 <= j < n && j != j0 ==> !#[trigger] f(j),
    ensures
        xorsum(f, n) == f(j0),
    decreases n,
{
    if j0 == n - 1 {
        lemma_xorsum_zero(f, (n - 1) as nat);
    } else {
        lemma_xorsum_single(f, (n - 1) as nat, j0);
    }
}

/// Two sums whose terms differ only at index `j0` differ by that term.
pub proof fn lemma_xorsum_update(
    f: spec_fn(int) -> bool,
    g: spec_fn(int) -> bool,
    n: nat,
    j0: int,
)
    requires
        0 <= j0 < n,
        forall|j: int| 0 <= j < n && j != j0 ==> #[trigger] f(j) == g(j),
    ensures
        xorsum(g, n) == (xorsum(f, n) != (f(j0) != g(j0))),
    decreases n,
{
    if j0 == n - 1 {
        lemma_xorsum_congruence(f, g, (n - 1) as nat);
    } else {
        lemma_xorsum_update(f, g, (n - 1) as nat, j0);
    }
}

/// The same terms, read from offset `s` upward.
pub open spec fn shifted(f: spec_fn(int) -> bool, s: int) -> spec_fn(int) -> bool {
    |j: int| f(j + s)
}

pub proof fn lemma_xorsum_split(f: spec_fn(int) -> bool, m: nat, n: nat)
    ensures
        xorsum(f, m + n) == (xorsum(f, m) != xorsum(shifted(f, m as int), n)),
    decreases n,
{
    if n > 0 {
        lemma_xorsum_split(f, m, (n - 1) as nat);
        assert(shifted(f, m as int)(n - 1) == f(m + n - 1));
    }
}

/// Extra all-false terms at the top do not change the sum.
pub proof fn lemma_xorsum_extend(f: spec_fn(int) -> bool, m: nat, n: nat)
    requires
        m <= n,
        forall|j: int| m <= j < n ==> !#[trigger] f(j),
    ensures
        xorsum(f, n) == xorsum(f, m),
{
    lemma_xorsum_split(f, m, (n - m) as nat);
    assert forall|t: int| 0 <= t < n - m implies !#[trigger] shifted(f, m as int)(t) by {
        assert(shifted(f, m as int)(t) == f(t + m));
    }
    lemma_xorsum_zero(shifted(f, m as int), (n - m) as nat);
}

/// A sum of pointwise XORs is the XOR of the sums.
pub proof fn lemma_xorsum_xor(
    f: spec_fn(int) -> bool,
    g: spec_fn(int) -> bool,
    h: spec_fn(int) -> bool,
    n: nat,
)
    requires
        forall|j: int| 0 <= j < n ==> #[trigger] h(j) == (f(j) != g(j)),
    ensures
        xorsum(h, n) == (xorsum(f, n) != xorsum(g, n)),
    decreases n,
{
    if n > 0 {
        lemma_xorsum_xor(f, g, h, (n - 1) as nat);
    }
}

/// A common AND factor distributes out of the sum.
pub proof fn lemma_xorsum_and(
    b: bool,
    f: spec_fn(int) -> bool,
    g: spec_fn(int) -> bool,
    n: nat,
)
    requires
        forall|j: int| 0 <= j < n ==> #[trigger] g(j) == (b && f(j)),
    ensures
        xorsum(g, n) == (b && xorsum(f, n)),
    decreases n,
{
    if n > 0 {
        lemma_xorsum_and(b, f, g, (n - 1) as nat);
    }
}

pub proof fn lemma_xorsum_front(f: spec_fn(int) -> bool, n: nat)
    requires
        n >= 1,
    ensures
        xorsum(f, n) == (f(0) != xorsum(shifted(f, 1), (n - 1) as nat)),
    decreases n,
{
    if n == 1 {
        assert(xorsum(f, 0) == false);
        assert(xorsum(shifted(f, 1), 0) == false);
        assert(xorsum(f, 1) == (xorsum(f, 0) != f(0)));
    } else {
        lemma_xorsum_front(f, (n - 1) as nat);
        assert(xorsum(f, n) == (xorsum(f, (n - 1) as nat) != f(n - 1)));
        assert(xorsum(shifted(f, 1), (n - 1) as nat) == (xorsum(shifted(f, 1), (n - 2) as nat)
            != shifted(f, 1)(n - 2)));
        assert(shifted(f, 1)(n - 2) == f(n - 1));
    }
}

/// Summing the terms in reverse order gives the same sum.
pub proof fn lemma_xorsum_reverse(f: spec_fn(int) -> bool, g: spec_fn(int) -> bool, n: nat)
    requires
        forall|j: int| 0 <= j < n ==> #[trigger] g(j) == f(n - 1 - j),
    ensures
        xorsum(g, n) == xorsum(f, n),
    decreases n,
{
    if n > 0 {
        assert forall|j: int| 0 <= j < n - 1 implies #[trigger] g(j) == shifted(f, 1)(
            (n - 1) - 1 - j,
        ) by {
            assert(shifted(f, 1)(n - 2 - j) == f(n - 1 - j));
        }
        lemma_xorsum_reverse(shifted(f, 1), g, (n - 1) as nat);
        lemma_xorsum_front(f, n);
    }
}

/// A double sum may be summed in either order.
pub proof fn lemma_xorsum_swap(f: spec_fn(int, int) -> bool, m: nat, n: nat)
    ensures
        xorsum(|i: int| xorsum(|j: int| f(i, j), n), m) == xorsum(
            |j: int| xorsum(|i: int| f(i, j), m),
            n,
        ),
    decreases m,
{
    if m == 0 {
        let cur = |j: int| xorsum(|i: int| f(i, j), m);
        assert forall|j: int| 0 <= j < n implies !#[trigger] cur(j) by {
            assert(!xorsum(|i: int| f(i, j), m));
        }
        lemma_xorsum_zero(cur, n);
    } else {
        let prev = |j: int| xorsum(|i: int| f(i, j), (m - 1) as nat);
        let last = |j: int| f(m - 1, j);
        let cur = |j: int| xorsum(|i: int| f(i, j), m);
        assert forall|j: int| 0 <= j < n implies #[trigger] cur(j) == (prev(j) != last(j)) by {
            assert(xorsum(|i: int| f(i, j), m) == (xorsum(|i: int| f(i, j), (m - 1) as nat)
                != f(m - 1, j)));
        }
        lemma_xorsum_xor(prev, last, cur, n);
        lemma_xorsum_swap(f, (m - 1) as nat, n);
        assert(xorsum(|i: int| xorsum(|j: int| f(i, j), n), m) == (xorsum(
            |i: int| xorsum(|j: int| f(i, j), n),
            (m - 1) as nat,
        ) != xorsum(|j: int| f(m - 1, j), n)));
    }
}

// ---------------------------------------------------------------------------
// Degree lemmas
// ---------------------------------------------------------------------------

pub proof fn lemma_pdeg_bound(a: Seq<bool>)
    ensures
        -1 <= pdeg(a) < a.len(),
    decreases a.len(),
{
    if a.len() > 0 && !a[a.len() - 1] {
        lemma_pdeg_bound(a.drop_last());
    }
}

/// No coefficient above the degree is set.
pub proof fn lemma_coeff_above_pdeg(a: Seq<bool>, k: int)
    requires
        k > pdeg(a),
    ensures
        !coeff(a, k),
    decreases a.len(),
{
    if a.len() > 0 && !a[a.len() - 1] && 0 <= k < a.len() - 1 {
        lemma_coeff_above_pdeg(a.drop_last(), k);
    }
}

/// The coefficient at the degree itself is set.
pub proof fn lemma_pdeg_coeff(a: Seq<bool>)
    requires
        pdeg(a) >= 0,
    ensures
        coeff(a, pdeg(a)),
    decreases a.len(),
{
    if a.len() > 0 && !a[a.len() - 1] {
        lemma_pdeg_coeff(a.drop_last());
        lemma_pdeg_bound(a.drop_last());
    }
}

/// If every coefficient above `d` is clear, the degree is at most `d`.
pub proof fn lemma_pdeg_le(a: Seq<bool>, d: int)
    requires
        d >= -1,
        forall|k: int| k > d ==> !#[trigger] coeff(a, k),
    ensures
        pdeg(a) <= d,
{
    lemma_pdeg_bound(a);
    if pdeg(a) > d {
        lemma_pdeg_coeff(a);
    }
}

/// The zero polynomial has degree `-1`, and conversely.
pub proof fn lemma_pdeg_zero(a: Seq<bool>)
    ensures
        is_pzero(a) <==> pdeg(a) == -1,
{
    lemma_pdeg_bound(a);
    if is_pzero(a) {
        lemma_pdeg_le(a, -1);
    } else {
        if pdeg(a) == -1 {
            let k = choose|k: int| 0 <= k < a.len() && a[k];
            lemma_coeff_above_pdeg(a, k);
        }
    }
}

/// A product coefficient above the sum of the degrees is clear.
pub proof fn lemma_pmul_coeff_above(a: Seq<bool>, b: Seq<bool>, k: int)
    requires
        k > pdeg(a) + pdeg(b),
    ensures
        !pmul_coeff(a, b, k),
{
    assert forall|j: int| 0 <= j < b.len() implies !#[trigger] conv_term(a, b, k)(j) by {
        if coeff(b, j) {
            if j > pdeg(b) {
                lemma_coeff_above_pdeg(b, j);
            }
            lemma_coeff_above_pdeg(a, k - j);
        }
    }
    lemma_xorsum_zero(conv_term(a, b, k), b.len());
}

/// A product coefficient at a negative index is clear.
pub proof fn lemma_pmul_coeff_neg(a: Seq<bool>, b: Seq<bool>, k: int)
    requires
        k < 0,
    ensures
        !pmul_coeff(a, b, k),
{
    assert forall|j: int| 0 <= j < b.len() implies !#[trigger] conv_term(a, b, k)(j) by {}
    lemma_xorsum_zero(conv_term(a, b, k), b.len());
}

/// A product coefficient outside the index range both factors can reach is
/// clear.
pub proof fn lemma_pmul_coeff_range(a: Seq<bool>, b: Seq<bool>, k: int)
    requires
        k < 0 || k > a.len() + b.len() - 2,
    ensures
        !pmul_coeff(a, b, k),
{
    assert forall|j: int| 0 <= j < b.len() implies !#[trigger] conv_term(a, b, k)(j) by {}
    lemma_xorsum_zero(conv_term(a, b, k), b.len());
}

// ---------------------------------------------------------------------------
// Decomposing a limb-array product into word products
// ---------------------------------------------------------------------------

/// Per-limb blocks of the convolution with `limbs_poly(bv)`.
pub open spec fn limb_blocks(a: Seq<bool>, bv: Seq<u16>, k: int) -> spec_fn(int) -> bool {
    |m: int| pmul_coeff(a, word_poly(bv[bv.len() - 1 - m]), k - 16 * m)
}

/// Which limb of `av` supplies the coefficient at index `x`.
pub open spec fn limb_hits(av: Seq<u16>, x: int) -> spec_fn(int) -> bool {
    |i: int| coeff(word_poly(av[av.len() - 1 - i]), x - 16 * i)
}

/// Word-pair products of limb `i` of `av` against limb `j` of `bv`,
/// both counted from the least-significant limb.
pub open spec fn school_row(av: Seq<u16>, bv: Seq<u16>, k: int, i: int) -> spec_fn(int) -> bool {
    |j: int|
        pmul_coeff(
            word_poly(av[av.len() - 1 - i]),
            word_poly(bv[bv.len() - 1 - j]),
            k - 16 * (i + j),
        )
}

/// The completed rows of the schoolbook sum.
pub open spec fn school_rows(av: Seq<u16>, bv: Seq<u16>, k: int) -> spec_fn(int) -> bool {
    |i: int| xorsum(school_row(av, bv, k, i), bv.len())
}

/// The schoolbook terms as a two-index grid, for reordering.
pub open spec fn school_grid(av: Seq<u16>, bv: Seq<u16>, k: int) -> spec_fn(int, int) -> bool {
    |i: int, m: int|
        pmul_coeff(
            word_poly(av[av.len() - 1 - i]),
            word_poly(bv[bv.len() - 1 - m]),
            k - 16 * (i + m),
        )
}

/// The terms of a limb-array-times-word product as a two-index grid.
pub open spec fn word_grid(av: Seq<u16>, w: u16, k: int) -> spec_fn(int, int) -> bool {
    |i: int, t: int|
        coeff(word_poly(w), t) && coeff(word_poly(av[av.len() - 1 - i]), k - 16 * i - t)
}

/// Row sums of a limb array against a single word.
pub open spec fn word_rows(av: Seq<u16>, w: u16, k: int) -> spec_fn(int) -> bool {
    |i: int| pmul_coeff(word_poly(av[av.len() - 1 - i]), word_poly(w), k - 16 * i)
}

/// The first `16 * m` convolution terms against `limbs_poly(bv)` group into
/// `m` whole-limb blocks.
pub proof fn lemma_conv_blocks(a: Seq<bool>, bv: Seq<u16>, k: int, m: nat)
    requires
        m <= bv.len(),
    ensures
        xorsum(conv_term(a, limbs_poly(bv), k), (16 * m) as nat) == xorsum(
            limb_blocks(a, bv, k),
            m,
        ),
    decreases m,
{
    let f = conv_term(a, limbs_poly(bv), k);
    if m > 0 {
        lemma_conv_blocks(a, bv, k, (m - 1) as nat);
        lemma_xorsum_split(f, (16 * (m - 1)) as nat, 16);
        let base = 16 * (m - 1);
        let w = bv[bv.len() - m];
        let kp = k - base;
        assert forall|t: int| 0 <= t < 16 implies #[trigger] shifted(f, base)(t) == conv_term(
            a,
            word_poly(w),
            kp,
        )(t) by {
            assert(shifted(f, base)(t) == f(base + t));
            assert(f(base + t) == (coeff(limbs_poly(bv), base + t) && coeff(a, k - base - t)));
            lemma_limbs_coeff(bv, m - 1, t);
            assert(coeff(word_poly(w), t) == word_bit(w, t as u16));
            assert(conv_term(a, word_poly(w), kp)(t) == (coeff(word_poly(w), t) && coeff(
                a,
                kp - t,
            )));
        }
        lemma_xorsum_congruence(
            shifted(f, base),
            conv_term(a, word_poly(w), kp),
            16,
        );
        assert(xorsum(conv_term(a, word_poly(w), kp), 16) == pmul_coeff(a, word_poly(w), kp));
        assert(limb_blocks(a, bv, k)(m - 1) == pmul_coeff(a, word_poly(w), kp));
        assert(xorsum(limb_blocks(a, bv, k), m) == (xorsum(limb_blocks(a, bv, k), (m - 1) as nat)
            != limb_blocks(a, bv, k)(m - 1)));
    }
}

/// Reading one coefficient of `limbs_poly(av)` as a sum over its limbs: at
/// most one limb is hit.
pub proof fn lemma_limbs_poly_single(av: Seq<u16>, x: int)
    ensures
        coeff(limbs_poly(av), x) == xorsum(limb_hits(av, x), av.len()),
{
    let h = limb_hits(av, x);
    if 0 <= x < 16 * av.len() {
        lemma_limbs_index(av, x);
        let i0 = x / 16;
        assert forall|i: int| 0 <= i < av.len() && i != i0 implies !#[trigger] h(i) by {
            assert(h(i) == coeff(word_poly(av[av.len() - 1 - i]), x - 16 * i));
            assert(x - 16 * i < 0 || x - 16 * i >= 16) by (nonlinear_arith)
                requires i != x / 16, 0 <= x, x % 16 < 16, x == 16 * (x / 16) + x % 16,
            ;
        }
        lemma_xorsum_single(h, av.len(), i0);
        assert(h(i0) == coeff(word_poly(av[av.len() - 1 - i0]), x - 16 * i0));
        assert(x - 16 * i0 == x % 16);
        assert(coeff(word_poly(av[av.len() - 1 - i0]), x % 16) == word_bit(
            av[av.len() - 1 - i0],
            (x % 16) as u16,
        ));
    } else {
        assert forall|i: int| 0 <= i < av.len() implies !#[trigger] h(i) by {
            assert(h(i) == coeff(word_poly(av[av.len() - 1 - i]), x - 16 * i));
            if x < 0 {
            } else {
                assert(x - 16 * i >= 16) by (nonlinear_arith)
                    requires x >= 16 * av.len(), i < av.len(),
                ;
            }
        }
        lemma_xorsum_zero(h, av.len());
    }
}

/// A limb-array-times-word product coefficient splits into per-limb word
/// products.
pub proof fn lemma_word_block_decomp(av: Seq<u16>, w: u16, k: int)
    ensures
        pmul_coeff(limbs_poly(av), word_poly(w), k) == xorsum(word_rows(av, w, k), av.len()),
{
    let a = limbs_poly(av);
    let g = word_grid(av, w, k);
    let la = av.len();
    // left side: sum over t of wp[t] && coeff(A, k - t), each expanded over limbs
    assert forall|t: int| 0 <= t < 16 implies #[trigger] conv_term(a, word_poly(w), k)(t)
        == xorsum(|i: int| g(i, t), la) by {
        assert(conv_term(a, word_poly(w), k)(t) == (coeff(word_poly(w), t) && coeff(a, k - t)));
        lemma_limbs_poly_single(av, k - t);
        let gi = |i: int| g(i, t);
        assert forall|i: int| 0 <= i < la implies #[trigger] gi(i) == (coeff(word_poly(w), t)
            && limb_hits(av, k - t)(i)) by {
            assert(g(i, t) == (coeff(word_poly(w), t) && coeff(
                word_poly(av[la - 1 - i]),
                k - 16 * i - t,
            )));
            assert(limb_hits(av, k - t)(i) == coeff(word_poly(av[la - 1 - i]), k - t - 16 * i));
        }
        lemma_xorsum_and(coeff(word_poly(w), t), limb_hits(av, k - t), gi, la);
        assert(xorsum(gi, la) == xorsum(|i: int| g(i, t), la));
    }
    lemma_xorsum_congruence(
        conv_term(a, word_poly(w), k),
        |t: int| xorsum(|i: int| g(i, t), la),
        16,
    );
    lemma_xorsum_swap(g, la, 16);
    assert forall|i: int| 0 <= i < la implies #[trigger] word_rows(av, w, k)(i) == xorsum(
        |t: int| g(i, t),
        16,
    ) by {
        assert(word_rows(av, w, k)(i) == pmul_coeff(word_poly(av[la - 1 - i]), word_poly(w), k - 16
            * i));
        assert forall|t: int| 0 <= t < 16 implies #[trigger] conv_term(
            word_poly(av[la - 1 - i]),
            word_poly(w),
            k - 16 * i,
        )(t) == (|t: int| g(i, t))(t) by {
            assert(g(i, t) == (coeff(word_poly(w), t) && coeff(
                word_poly(av[la - 1 - i]),
                k - 16 * i - t,
            )));
        }
        lemma_xorsum_congruence(
            conv_term(word_poly(av[la - 1 - i]), word_poly(w), k - 16 * i),
            |t: int| g(i, t),
            16,
        );
    }
    lemma_xorsum_congruence(word_rows(av, w, k), |i: int| xorsum(|t: int| g(i, t), 16), la);
}

/// The full schoolbook decomposition: the product of two limb-array
/// polynomials is the XOR over all limb pairs of the word products, each at
/// its word offset.
pub proof fn lemma_school_decomposition(av: Seq<u16>, bv: Seq<u16>, k: int)
    ensures
        pmul_coeff(limbs_poly(av), limbs_poly(bv), k) == xorsum(school_rows(av, bv, k), av.len()),
{
    let a = limbs_poly(av);
    let b = limbs_poly(bv);
    let la = av.len();
    let lb = bv.len();
    let g = school_grid(av, bv, k);
    assert(b.len() == 16 * lb);
    lemma_conv_blocks(a, bv, k, lb);
    assert(pmul_coeff(a, b, k) == xorsum(limb_blocks(a, bv, k), lb));
    // expand each block over the limbs of `av`
    assert forall|m: int| 0 <= m < lb implies #[trigger] limb_blocks(a, bv, k)(m) == xorsum(
        |i: int| g(i, m),
        la,
    ) by {
        let w = bv[lb - 1 - m];
        let kp = k - 16 * m;
        assert(limb_blocks(a, bv, k)(m) == pmul_coeff(a, word_poly(w), kp));
        lemma_word_block_decomp(av, w, kp);
        assert forall|i: int| 0 <= i < la implies #[trigger] word_rows(av, w, kp)(i) == g(i, m) by {
            assert(word_rows(av, w, kp)(i) == pmul_coeff(
                word_poly(av[la - 1 - i]),
                word_poly(w),
                kp - 16 * i,
            ));
            assert(g(i, m) == pmul_coeff(
                word_poly(av[la - 1 - i]),
                word_poly(bv[lb - 1 - m]),
                k - 16 * (i + m),
            ));
            assert(k - 16 * (i + m) == kp - 16 * i);
        }
        lemma_xorsum_congruence(word_rows(av, w, kp), |i: int| g(i, m), la);
    }
    lemma_xorsum_congruence(
        limb_blocks(a, bv, k),
        |m: int| xorsum(|i: int| g(i, m), la),
        lb,
    );
    lemma_xorsum_swap(g, la, lb);
    // the swapped grid is exactly the schoolbook row sum
    assert forall|i: int| 0 <= i < la implies #[trigger] school_rows(av, bv, k)(i) == xorsum(
        |m: int| g(i, m),
        lb,
    ) by {
        assert(school_rows(av, bv, k)(i) == xorsum(school_row(av, bv, k, i), lb));
        assert forall|j: int| 0 <= j < lb implies #[trigger] school_row(av, bv, k, i)(j) == g(
            i,
            j,
        ) by {
            assert(school_row(av, bv, k, i)(j) == pmul_coeff(
                word_poly(av[la - 1 - i]),
                word_poly(bv[lb - 1 - j]),
                k - 16 * (i + j),
            ));
            assert(g(i, j) == pmul_coeff(
                word_poly(av[la - 1 - i]),
                word_poly(bv[lb - 1 - j]),
                k - 16 * (i + j),
            ));
        }
        lemma_xorsum_congruence(school_row(av, bv, k, i), |m: int| g(i, m), lb);
    }
    lemma_xorsum_congruence(school_rows(av, bv, k), |i: int| xorsum(|m: int| g(i, m), lb), la);
}

/// Flipping one coefficient of the left factor moves the product by the
/// other factor, shifted to that position.
pub proof fn lemma_pmul_coeff_flip(q1: Seq<bool>, q2: Seq<bool>, d: Seq<bool>, s: int, k: int)
    requires
        q1.len() == q2.len(),
        0 <= s < q1.len(),
        forall|x: int| 0 <= x < q1.len() && x != s ==> q1[x] == #[trigger] q2[x],
        q2[s] == !q1[s],
    ensures
        pmul_coeff(q2, d, k) == (pmul_coeff(q1, d, k) != coeff(d, k - s)),
{
    let f1 = conv_term(q1, d, k);
    let f2 = conv_term(q2, d, k);
    let j0 = k - s;
    if 0 <= j0 < d.len() {
        assert forall|j: int| 0 <= j < d.len() && j != j0 implies #[trigger] f1(j) == f2(j) by {
            assert(f1(j) == (coeff(d, j) && coeff(q1, k - j)));
            assert(f2(j) == (coeff(d, j) && coeff(q2, k - j)));
            assert(k - j != s);
        }
        lemma_xorsum_update(f1, f2, d.len(), j0);
        assert(f1(j0) == (coeff(d, j0) && coeff(q1, s)));
        assert(f2(j0) == (coeff(d, j0) && coeff(q2, s)));
    } else {
        assert forall|j: int| 0 <= j < d.len() implies #[trigger] f1(j) == f2(j) by {
            assert(f1(j) == (coeff(d, j) && coeff(q1, k - j)));
            assert(f2(j) == (coeff(d, j) && coeff(q2, k - j)));
            assert(k - j != s);
        }
        lemma_xorsum_congruence(f1, f2, d.len());
    }
}

// ---------------------------------------------------------------------------
// Products, divisibility, irreducibility
// ---------------------------------------------------------------------------

/// `x` is the product `c * d`, coefficient by coefficient.
pub open spec fn is_product(x: Seq<bool>, c: Seq<bool>, d: Seq<bool>) -> bool {
    forall|k: int| #[trigger] pmul_coeff(c, d, k) == coeff(x, k)
}

/// `d` divides `x`: some cofactor multiplies with `d` to give `x`.
pub open spec fn pdivides(d: Seq<bool>, x: Seq<bool>) -> bool {
    exists|c: Seq<bool>| #[trigger] is_product(x, c, d)
}

/// `m` is irreducible over GF(2): it has positive degree and no
/// factorization into two polynomials of positive degree.
pub open spec fn pirreducible(m: Seq<bool>) -> bool {
    pdeg(m) >= 1 && forall|c: Seq<bool>, d: Seq<bool>|
        #[trigger] is_product(m, c, d) ==> (pdeg(c) <= 0 || pdeg(d) <= 0)
}

/// A stored product coefficient equals the product coefficient at any index.
pub proof fn lemma_coeff_pmul(b: Seq<bool>, c: Seq<bool>, j: int)
    ensures
        coeff(pmul(b, c), j) == pmul_coeff(b, c, j),
{
    if j < 0 {
        lemma_pmul_coeff_neg(b, c, j);
    } else if j >= b.len() + c.len() {
        lemma_pmul_coeff_range(b, c, j);
    }
}

/// The product coefficient depends only on the first factor's coefficients.
pub proof fn lemma_pmul_congr_left(a1: Seq<bool>, a2: Seq<bool>, b: Seq<bool>, k: int)
    requires
        forall|x: int| #[trigger] coeff(a1, x) == coeff(a2, x),
    ensures
        pmul_coeff(a1, b, k) == pmul_coeff(a2, b, k),
{
    let f = conv_term(a1, b, k);
    let g = conv_term(a2, b, k);
    assert forall|j: int| 0 <= j < b.len() implies #[trigger] f(j) == g(j) by {
        assert(f(j) == (coeff(b, j) && coeff(a1, k - j)));
        assert(g(j) == (coeff(b, j) && coeff(a2, k - j)));
    }
    lemma_xorsum_congruence(f, g, b.len());
}

/// The product coefficient depends only on the second factor's coefficients.
pub proof fn lemma_pmul_congr_right(a: Seq<bool>, b1: Seq<bool>, b2: Seq<bool>, k: int)
    requires
        forall|x: int| #[trigger] coeff(b1, x) == coeff(b2, x),
    ensures
        pmul_coeff(a, b1, k) == pmul_coeff(a, b2, k),
{
    let f = conv_term(a, b1, k);
    let g = conv_term(a, b2, k);
    let n = if b1.len() >= b2.len() {
        b1.len()
    } else {
        b2.len()
    };
    assert forall|j: int| b1.len() <= j < n implies !#[trigger] f(j) by {}
    lemma_xorsum_extend(f, b1.len(), n);
    assert forall|j: int| b2.len() <= j < n implies !#[trigger] g(j) by {}
    lemma_xorsum_extend(g, b2.len(), n);
    assert forall|j: int| 0 <= j < n implies #[trigger] f(j) == g(j) by {
        assert(f(j) == (coeff(b1, j) && coeff(a, k - j)));
        assert(g(j) == (coeff(b2, j) && coeff(a, k - j)));
    }
    lemma_xorsum_congruence(f, g, n);
}

/// A pointwise XOR in the first factor splits the product coefficient.
pub proof fn lemma_pmul_xor_left(w: Seq<bool>, s1: Seq<bool>, s2: Seq<bool>, b: Seq<bool>, k: int)
    requires
        forall|x: int| #[trigger] coeff(w, x) == (coeff(s1, x) != coeff(s2, x)),
    ensures
        pmul_coeff(w, b, k) == (pmul_coeff(s1, b, k) != pmul_coeff(s2, b, k)),
{
    let h = conv_term(w, b, k);
    let f = conv_term(s1, b, k);
    let g = conv_term(s2, b, k);
    assert forall|j: int| 0 <= j < b.len() implies #[trigger] h(j) == (f(j) != g(j)) by {
        assert(h(j) == (coeff(b, j) && coeff(w, k - j)));
        assert(f(j) == (coeff(b, j) && coeff(s1, k - j)));
        assert(g(j) == (coeff(b, j) && coeff(s2, k - j)));
    }
    lemma_xorsum_xor(f, g, h, b.len());
}

/// A pointwise XOR in the second factor splits the product coefficient.
pub proof fn lemma_pmul_xor_right(a: Seq<bool>, w: Seq<bool>, s1: Seq<bool>, s2: Seq<bool>, k: int)
    requires
        forall|x: int| #[trigger] coeff(w, x) == (coeff(s1, x) != coeff(s2, x)),
    ensures
        pmul_coeff(a, w, k) == (pmul_coeff(a, s1, k) != pmul_coeff(a, s2, k)),
{
    let h = conv_term(a, w, k);
    let f = conv_term(a, s1, k);
    let g = conv_term(a, s2, k);
    let n1 = if w.len() >= s1.len() {
        w.len()
    } else {
        s1.len()
    };
    let n = if n1 >= s2.len() {
        n1
    } else {
        s2.len()
    };
    assert forall|j: int| w.len() <= j < n implies !#[trigger] h(j) by {}
    lemma_xorsum_extend(h, w.len(), n);
    assert forall|j: int| s1.len() <= j < n implies !#[trigger] f(j) by {}
    lemma_xorsum_extend(f, s1.len(), n);
    assert forall|j: int| s2.len() <= j < n implies !#[trigger] g(j) by {}
    lemma_xorsum_extend(g, s2.len(), n);
    assert forall|j: int| 0 <= j < n implies #[trigger] h(j) == (f(j) != g(j)) by {
        assert(h(j) == (coeff(w, j) && coeff(a, k - j)));
        assert(f(j) == (coeff(s1, j) && coeff(a, k - j)));
        assert(g(j) == (coeff(s2, j) && coeff(a, k - j)));
    }
    lemma_xorsum_xor(f, g, h, n);
}

/// The constant one is the multiplicative identity.
pub proof fn lemma_pmul_by_one(n: nat, d: Seq<bool>, k: int)
    requires
        n >= 1,
    ensures
        pmul_coeff(pone(n), d, k) == coeff(d, k),
{
    let f = conv_term(pone(n), d, k);
    if 0 <= k < d.len() {
        assert forall|j: int| 0 <= j < d.len() && j != k implies !#[trigger] f(j) by {
            assert(f(j) == (coeff(d, j) && coeff(pone(n), k - j)));
        }
        lemma_xorsum_single(f, d.len(), k);
        assert(f(k) == (coeff(d, k) && coeff(pone(n), 0)));
    } else {
        assert forall|j: int| 0 <= j < d.len() implies !#[trigger] f(j) by {
            assert(f(j) == (coeff(d, j) && coeff(pone(n), k - j)));
        }
        lemma_xorsum_zero(f, d.len());
    }
}

/// Multiplication is associative, coefficient by coefficient:
/// `a * (b * c) == (a * b) * c`.
pub proof fn lemma_pmul_assoc(a: Seq<bool>, b: Seq<bool>, c: Seq<bool>, k: int)
    ensures
        pmul_coeff(a, pmul(b, c), k) == pmul_coeff(pmul(a, b), c, k),
{
    let bc = pmul(b, c);
    let ab = pmul(a, b);
    let jn = bc.len();
    let g = assoc_grid(a, b, c, k);
    // each term of the left side expands over the inner product's terms
    assert forall|j: int| 0 <= j < jn implies #[trigger] conv_term(a, bc, k)(j) == xorsum(
        |i: int| g(j, i),
        c.len(),
    ) by {
        assert(conv_term(a, bc, k)(j) == (coeff(bc, j) && coeff(a, k - j)));
        lemma_coeff_pmul(b, c, j);
        let gi = |i: int| g(j, i);
        assert forall|i: int| 0 <= i < c.len() implies #[trigger] gi(i) == (coeff(a, k - j)
            && conv_term(b, c, j)(i)) by {
            assert(g(j, i) == (coeff(c, i) && coeff(b, j - i) && coeff(a, k - j)));
            assert(conv_term(b, c, j)(i) == (coeff(c, i) && coeff(b, j - i)));
        }
        lemma_xorsum_and(coeff(a, k - j), conv_term(b, c, j), gi, c.len());
        assert(xorsum(gi, c.len()) == xorsum(|i: int| g(j, i), c.len()));
    }
    lemma_xorsum_congruence(
        conv_term(a, bc, k),
        |j: int| xorsum(|i: int| g(j, i), c.len()),
        jn,
    );
    lemma_xorsum_swap(g, jn, c.len());
    // each column of the swapped grid is one term of the right side
    assert forall|i: int| 0 <= i < c.len() implies xorsum(|j: int| g(j, i), jn)
        == #[trigger] conv_term(ab, c, k)(i) by {
        let hi = |j: int| coeff(b, j - i) && coeff(a, k - j);
        let gj = |j: int| g(j, i);
        assert forall|j: int| 0 <= j < jn implies #[trigger] gj(j) == (coeff(c, i) && hi(j)) by {
            assert(g(j, i) == (coeff(c, i) && coeff(b, j - i) && coeff(a, k - j)));
        }
        lemma_xorsum_and(coeff(c, i), hi, gj, jn);
        assert(xorsum(gj, jn) == xorsum(|j: int| g(j, i), jn));
        // the first i terms of hi vanish, the rest line up with conv_term
        let fi = conv_term(a, b, k - i);
        lemma_xorsum_split(hi, i as nat, (jn - i) as nat);
        assert(i as nat + (jn - i) as nat == jn);
        assert forall|j: int| 0 <= j < i implies !#[trigger] hi(j) by {}
        lemma_xorsum_zero(hi, i as nat);
        assert forall|t: int| 0 <= t < jn - i implies #[trigger] shifted(hi, i)(t) == fi(t) by {
            assert(shifted(hi, i)(t) == hi(t + i));
            assert(fi(t) == (coeff(b, t) && coeff(a, k - i - t)));
        }
        lemma_xorsum_congruence(shifted(hi, i), fi, (jn - i) as nat);
        assert forall|t: int| b.len() <= t < jn - i implies !#[trigger] fi(t) by {
            assert(fi(t) == (coeff(b, t) && coeff(a, k - i - t)));
        }
        lemma_xorsum_extend(fi, b.len(), (jn - i) as nat);
        lemma_coeff_pmul(a, b, k - i);
        assert(conv_term(ab, c, k)(i) == (coeff(c, i) && coeff(ab, k - i)));
    }
    lemma_xorsum_congruence(
        |i: int| xorsum(|j: int| g(j, i), jn),
        conv_term(ab, c, k),
        c.len(),
    );
}

/// The terms of a triple product as a two-index grid, for reordering.
pub open spec fn assoc_grid(a: Seq<bool>, b: Seq<bool>, c: Seq<bool>, k: int) -> spec_fn(
    int,
    int,
) -> bool {
    |j: int, i: int| coeff(c, i) && coeff(b, j - i) && coeff(a, k - j)
}

/// Every polynomial divides itself.
pub proof fn lemma_pdivides_refl(d: Seq<bool>)
    ensures
        pdivides(d, d),
{
    assert forall|k: int| #[trigger] pmul_coeff(pone(1), d, k) == coeff(d, k) by {
        lemma_pmul_by_one(1, d, k);
    }
    assert(is_product(d, pone(1), d));
}

/// Every polynomial divides the zero polynomial.
pub proof fn lemma_pdivides_zero(d: Seq<bool>, x: Seq<bool>)
    requires
        is_pzero(x),
    ensures
        pdivides(d, x),
{
    let c = Seq::<bool>::empty();
    assert forall|k: int| #[trigger] pmul_coeff(c, d, k) == coeff(x, k) by {
        assert forall|j: int| 0 <= j < d.len() implies !#[trigger] conv_term(c, d, k)(j) by {
            assert(conv_term(c, d, k)(j) == (coeff(d, j) && coeff(c, k - j)));
        }
        lemma_xorsum_zero(conv_term(c, d, k), d.len());
    }
    assert(is_product(x, c, d));
}

/// A common divisor of a divisor and a remainder divides the dividend.
pub proof fn lemma_pdivides_step(
    d: Seq<bool>,
    r0: Seq<bool>,
    r1: Seq<bool>,
    r2: Seq<bool>,
    q: Seq<bool>,
)
    requires
        forall|k: int| #[trigger] coeff(r0, k) == (pmul_coeff(q, r1, k) != coeff(r2, k)),
        pdivides(d, r1),
        pdivides(d, r2),
    ensures
        pdivides(d, r0),
{
    let c1 = choose|c: Seq<bool>| #[trigger] is_product(r1, c, d);
    let c2 = choose|c: Seq<bool>| #[trigger] is_product(r2, c, d);
    let qc1 = pmul(q, c1);
    let n = if qc1.len() >= c2.len() {
        qc1.len()
    } else {
        c2.len()
    };
    let c0 = Seq::new(n, |x: int| coeff(qc1, x) != coeff(c2, x));
    assert forall|x: int| #[trigger] coeff(c0, x) == (coeff(qc1, x) != coeff(c2, x)) by {}
    assert forall|k: int| #[trigger] pmul_coeff(c0, d, k) == coeff(r0, k) by {
        lemma_pmul_xor_left(c0, qc1, c2, d, k);
        lemma_pmul_assoc(q, c1, d, k);
        assert forall|x: int| #[trigger] coeff(pmul(c1, d), x) == coeff(r1, x) by {
            lemma_coeff_pmul(c1, d, x);
            assert(pmul_coeff(c1, d, x) == coeff(r1, x));
        }
        lemma_pmul_congr_right(q, pmul(c1, d), r1, k);
        assert(pmul_coeff(c2, d, k) == coeff(r2, k));
    }
    assert(is_product(r0, c0, d));
}

// ---------------------------------------------------------------------------
// Laws of the field operations
// ---------------------------------------------------------------------------

/// Addition commutes: `a + b == b + a`.
pub proof fn lemma_pxor_comm(a: Seq<bool>, b: Seq<bool>)
    requires
        a.len() == b.len(),
    ensures
        pxor(a, b) == pxor(b, a),
{
    assert(pxor(a, b) =~= pxor(b, a));
}

/// Every element is its own additive inverse: `a + a == ZERO`.
pub proof fn lemma_pxor_self(a: Seq<bool>)
    ensures
        is_pzero(pxor(a, a)),
{
}

/// Addition is associative: `(a + b) + c == a + (b + c)`.
pub proof fn lemma_pxor_assoc(a: Seq<bool>, b: Seq<bool>, c: Seq<bool>)
    requires
        a.len() == b.len(),
        b.len() == c.len(),
    ensures
        pxor(pxor(a, b), c) == pxor(a, pxor(b, c)),
{
    assert(pxor(pxor(a, b), c) =~= pxor(a, pxor(b, c)));
}

/// The zero polynomial is the additive identity: `a + ZERO == a`.
pub proof fn lemma_pxor_zero(a: Seq<bool>, z: Seq<bool>)
    requires
        z.len() == a.len(),
        is_pzero(z),
    ensures
        pxor(a, z) == a,
{
    assert(pxor(a, z) =~= a);
}

/// Multiplication commutes coefficient by coefficient: `a * b == b * a`.
pub proof fn lemma_pmul_coeff_comm(a: Seq<bool>, b: Seq<bool>, k: int)
    ensures
        pmul_coeff(a, b, k) == pmul_coeff(b, a, k),
{
    if k < 0 {
        lemma_pmul_coeff_neg(a, b, k);
        lemma_pmul_coeff_neg(b, a, k);
    } else {
        let f = conv_term(a, b, k);
        let g = conv_term(b, a, k);
        let n = (k + 1) as nat;
        if k + 1 >= b.len() {
            assert forall|j: int| b.len() <= j < n implies !#[trigger] f(j) by {}
            lemma_xorsum_extend(f, b.len(), n);
        } else {
            assert forall|j: int| n <= j < b.len() implies !#[trigger] f(j) by {}
            lemma_xorsum_extend(f, n, b.len());
        }
        if k + 1 >= a.len() {
            assert forall|j: int| a.len() <= j < n implies !#[trigger] g(j) by {}
            lemma_xorsum_extend(g, a.len(), n);
        } else {
            assert forall|j: int| n <= j < a.len() implies !#[trigger] g(j) by {}
            lemma_xorsum_extend(g, n, a.len());
        }
        assert forall|j: int| 0 <= j < n implies #[trigger] g(j) == f(n - 1 - j) by {
            assert(f(k - j) == (coeff(b, k - j) && coeff(a, j)));
            assert(g(j) == (coeff(a, j) && coeff(b, k - j)));
        }
        lemma_xorsum_reverse(f, g, n);
    }
}

/// Multiplication distributes over addition, coefficient by coefficient:
/// `a * (b + c) == a * b + a * c`.
pub proof fn lemma_pmul_coeff_xor(a: Seq<bool>, b: Seq<bool>, c: Seq<bool>, k: int)
    requires
        b.len() == c.len(),
    ensures
        pmul_coeff(a, pxor(b, c), k) == (pmul_coeff(a, b, k) != pmul_coeff(a, c, k)),
{
    let f = conv_term(a, b, k);
    let g = conv_term(a, c, k);
    let h = conv_term(a, pxor(b, c), k);
    assert forall|j: int| 0 <= j < b.len() implies #[trigger] h(j) == (f(j) != g(j)) by {
        assert(h(j) == (coeff(pxor(b, c), j) && coeff(a, k - j)));
        assert(f(j) == (coeff(b, j) && coeff(a, k - j)));
        assert(g(j) == (coeff(c, j) && coeff(a, k - j)));
    }
    lemma_xorsum_xor(f, g, h, b.len());
}

/// The modular product does not depend on the order of the factors.
pub proof fn lemma_mul_mod_comm(a: Seq<bool>, b: Seq<bool>, m: Seq<bool>, r: Seq<bool>)
    requires
        mul_mod(a, b, m, r),
    ensures
        mul_mod(b, a, m, r),
{
    let q = choose|q: Seq<bool>| #[trigger] mul_mod_with(a, b, m, r, q);
    assert forall|k: int| pmul_coeff(b, a, k) == ((#[trigger] pmul_coeff(q, m, k)) != coeff(
        r,
        k,
    )) by {
        lemma_pmul_coeff_comm(a, b, k);
    }
    assert(mul_mod_with(b, a, m, r, q));
}

/// The modular product distributes over addition: from `a * b = r1` and
/// `a * c = r2` modulo `m` follows `a * (b + c) = r1 + r2` modulo `m`.
pub proof fn lemma_mul_mod_distrib(
    a: Seq<bool>,
    b: Seq<bool>,
    c: Seq<bool>,
    m: Seq<bool>,
    r1: Seq<bool>,
    r2: Seq<bool>,
)
    requires
        b.len() == c.len(),
        r1.len() == r2.len(),
        mul_mod(a, b, m, r1),
        mul_mod(a, c, m, r2),
    ensures
        mul_mod(a, pxor(b, c), m, pxor(r1, r2)),
{
    let q1 = choose|q: Seq<bool>| #[trigger] mul_mod_with(a, b, m, r1, q);
    let q2 = choose|q: Seq<bool>| #[trigger] mul_mod_with(a, c, m, r2, q);
    let n = if q1.len() >= q2.len() {
        q1.len()
    } else {
        q2.len()
    };
    let q3 = Seq::new(n, |x: int| coeff(q1, x) != coeff(q2, x));
    assert forall|k: int| pmul_coeff(a, pxor(b, c), k) == ((#[trigger] pmul_coeff(q3, m, k))
        != coeff(pxor(r1, r2), k)) by {
        lemma_pmul_coeff_xor(a, b, c, k);
        assert(pmul_coeff(a, b, k) == (pmul_coeff(q1, m, k) != coeff(r1, k)));
        assert(pmul_coeff(a, c, k) == (pmul_coeff(q2, m, k) != coeff(r2, k)));
        assert(coeff(pxor(r1, r2), k) == (coeff(r1, k) != coeff(r2, k)));
        let f = conv_term(q1, m, k);
        let g = conv_term(q2, m, k);
        let h = conv_term(q3, m, k);
        assert forall|j: int| 0 <= j < m.len() implies #[trigger] h(j) == (f(j) != g(j)) by {
            assert(h(j) == (coeff(m, j) && coeff(q3, k - j)));
            assert(f(j) == (coeff(m, j) && coeff(q1, k - j)));
            assert(g(j) == (coeff(m, j) && coeff(q2, k - j)));
            assert(coeff(q3, k - j) == (coeff(q1, k - j) != coeff(q2, k - j)));
        }
        lemma_xorsum_xor(f, g, h, m.len());
    }
    assert(mul_mod_with(a, pxor(b, c), m, pxor(r1, r2), q3));
}

/// The product of two non-zero polynomials has its leading coefficient at
/// the sum of the degrees: GF(2)[x] has no zero divisors.
pub proof fn lemma_pmul_coeff_at_deg_sum(a: Seq<bool>, b: Seq<bool>)
    requires
        pdeg(a) >= 0,
        pdeg(b) >= 0,
    ensures
        pmul_coeff(a, b, pdeg(a) + pdeg(b)),
{
    let k = pdeg(a) + pdeg(b);
    let f = conv_term(a, b, k);
    let j0 = pdeg(b);
    lemma_pdeg_bound(a);
    lemma_pdeg_bound(b);
    lemma_pdeg_coeff(a);
    lemma_pdeg_coeff(b);
    assert forall|j: int| 0 <= j < b.len() && j != j0 implies !#[trigger] f(j) by {
        if coeff(b, j) {
            if j > pdeg(b) {
                lemma_coeff_above_pdeg(b, j);
            }
            lemma_coeff_above_pdeg(a, k - j);
        }
    }
    lemma_xorsum_single(f, b.len(), j0);
    assert(f(j0) == (coeff(b, j0) && coeff(a, pdeg(a))));
}

/// The reduced remainder of a product modulo `m` is unique: two remainders
/// of degree below `deg(m)` that are both congruent to `a * b` agree on
/// every coefficient.
pub proof fn lemma_mul_mod_unique(
    a: Seq<bool>,
    b: Seq<bool>,
    m: Seq<bool>,
    r1: Seq<bool>,
    r2: Seq<bool>,
)
    requires
        mul_mod(a, b, m, r1),
        mul_mod(a, b, m, r2),
        pdeg(r1) < pdeg(m),
        pdeg(r2) < pdeg(m),
    ensures
        forall|k: int| #[trigger] coeff(r1, k) == coeff(r2, k),
{
    let q1 = choose|q: Seq<bool>| #[trigger] mul_mod_with(a, b, m, r1, q);
    let q2 = choose|q: Seq<bool>| #[trigger] mul_mod_with(a, b, m, r2, q);
    let n = if q1.len() >= q2.len() {
        q1.len()
    } else {
        q2.len()
    };
    let q3 = Seq::new(n, |x: int| coeff(q1, x) != coeff(q2, x));
    assert forall|k: int| (#[trigger] pmul_coeff(q3, m, k)) == (coeff(r1, k) != coeff(
        r2,
        k,
    )) by {
        assert(pmul_coeff(a, b, k) == (pmul_coeff(q1, m, k) != coeff(r1, k)));
        assert(pmul_coeff(a, b, k) == (pmul_coeff(q2, m, k) != coeff(r2, k)));
        let f = conv_term(q1, m, k);
        let g = conv_term(q2, m, k);
        let h = conv_term(q3, m, k);
        assert forall|j: int| 0 <= j < m.len() implies #[trigger] h(j) == (f(j) != g(j)) by {
            assert(h(j) == (coeff(m, j) && coeff(q3, k - j)));
            assert(f(j) == (coeff(m, j) && coeff(q1, k - j)));
            assert(g(j) == (coeff(m, j) && coeff(q2, k - j)));
            assert(coeff(q3, k - j) == (coeff(q1, k - j) != coeff(q2, k - j)));
        }
        lemma_xorsum_xor(f, g, h, m.len());
    }
    if is_pzero(q3) {
        assert forall|k: int| #[trigger] coeff(r1, k) == coeff(r2, k) by {
            lemma_pmul_coeff_zero(q3, m, k);
        }
    } else {
        lemma_pdeg_zero(q3);
        lemma_pdeg_bound(q3);
        lemma_pdeg_bound(r1);
        assert(pdeg(q3) >= 0);
        assert(pdeg(m) >= 0);
        let kx = pdeg(q3) + pdeg(m);
        lemma_pmul_coeff_at_deg_sum(q3, m);
        lemma_coeff_above_pdeg(r1, kx);
        lemma_coeff_above_pdeg(r2, kx);
        assert(false);
    }
}

/// The field product does not depend on the order of the factors: any two
/// reduced remainders of `a * b` and of `b * a` modulo `m` are the same
/// polynomial.
pub proof fn lemma_mul_comm_value(
    a: Seq<bool>,
    b: Seq<bool>,
    m: Seq<bool>,
    r1: Seq<bool>,
    r2: Seq<bool>,
)
    requires
        mul_mod(a, b, m, r1),
        mul_mod(b, a, m, r2),
        pdeg(r1) < pdeg(m),
        pdeg(r2) < pdeg(m),
        r1.len() == r2.len(),
    ensures
        r1 == r2,
{
    lemma_mul_mod_comm(b, a, m, r2);
    lemma_mul_mod_unique(a, b, m, r1, r2);
    assert forall|k: int| 0 <= k < r1.len() implies r1[k] == r2[k] by {
        assert(coeff(r1, k) == coeff(r2, k));
    }
    assert(r1 =~= r2);
}

/// Multiplication by the zero polynomial gives clear coefficients.
pub proof fn lemma_pmul_coeff_zero(a: Seq<bool>, b: Seq<bool>, k: int)
    requires
        is_pzero(a) || is_pzero(b),
    ensures
        !pmul_coeff(a, b, k),
{
    assert forall|j: int| 0 <= j < b.len() implies !#[trigger] conv_term(a, b, k)(j) by {}
    lemma_xorsum_zero(conv_term(a, b, k), b.len());
}

} // verus!
