//! What the opening protocols need of a code, a hasher and a transcript.
use vstd::prelude::*;
use vstd::arithmetic::power2::{lemma_pow2_adds, lemma_pow2_pos, pow2};
use crate::field::{TowerField, lemma_add_cancel, lemma_add_mul, lemma_add_swap, lemma_units};
use crate::hashing::{HashOutput, blake3_digest, blake3_hash, le_bytes, le_value, push_bytes, push_le, read_le_u128};
use crate::merkle::NodeHasher;
use crate::mle::{fold, lemma_half_pow2, line};
use crate::transcript::{ElementTranscript, FiatShamir};

verus! {

/// The logarithm of the inverse rate of the codes.
pub const LOG_RATE: usize = 2;

/// The inverse rate of the codes: a codeword has four symbols a value.
pub const RATE: usize = 4;

/// A transcript that also absorbs roots of Merkle trees.
pub trait FriChannel<F>: FiatShamir<F> {
    /// The transcript after absorbing a root and the depth of its tree.
    spec fn committed(self, root: HashOutput, depth: nat) -> Self;

    /// Absorbs a root and the depth of its tree.
    fn observe_vector_commitment(&mut self, root: &HashOutput, depth: usize)
        ensures
            *final(self) == old(self).committed(*root, depth as nat),
    ;
}

/// A hasher of nodes and of pairs of symbols.
pub trait CryptographicHasher<F>: NodeHasher {
    /// The digest of a pair of symbols.
    spec fn pair_digest(&self, s0: F, s1: F) -> HashOutput;

    /// Computes [`CryptographicHasher::pair_digest`].
    fn hash_pair(&self, s0: &F, s1: &F) -> (r: HashOutput)
        ensures
            r == self.pair_digest(*s0, *s1),
    ;
}

/// The two places of a codeword that a leaf of high pairs covers, in a layer of
/// `2^log` values: the leaf's coset and place, and half a coset on.
pub open spec fn pair_positions(log: nat, leaf: int) -> (int, int) {
    let half = pow2((log - 1) as nat) as int;
    let base = (leaf / half) * (2 * half) + leaf % half;
    (base, base + half)
}

/// The fold of a high pair at `r`: `s1 + (b + 1 + r) s0` for the basis element
/// `b` of the leaf's coset.
pub open spec fn high_pair_fold<F: TowerField>(r: F, log: nat, leaf: int, s0: F, s1: F) -> F {
    let coset = leaf / (pow2((log - 1) as nat) as int);
    let basis = F::of_u128(pow2((coset + log - 1) as nat) as u128);
    s1.add(basis.add(F::one()).add(r).mul(s0))
}

/// A linear code of rate 1/4 whose words fold pair by pair.
pub trait FriCode<F: TowerField> {
    /// The word of a table of `2^n` values.
    spec fn encoded(&self, evals: Seq<F>) -> Seq<F>;

    /// The fold of the pair of neighbours with the given index, in a round.
    spec fn folded(&self, r: F, round: nat, pair: int, s0: F, s1: F) -> F;

    /// Computes [`FriCode::encoded`].
    fn encode(&self, evals: &[F]) -> (c: Vec<F>)
        requires
            exists|n: nat| #[trigger] pow2(n) == evals.len() && n <= 120,
            4 * evals.len() <= usize::MAX,
        ensures
            c@ == self.encoded(evals@),
    ;

    /// Computes [`FriCode::folded`].
    fn fold_symbol(&self, r: F, round: usize, pair: usize, s0: F, s1: F) -> (v: F)
        ensures
            v == self.folded(r, round as nat, pair as int, s0, s1),
    ;

    /// A word has four symbols a value.
    proof fn encoded_len(&self, evals: Seq<F>, n: nat)
        requires
            evals.len() == pow2(n),
        ensures
            self.encoded(evals).len() == pow2(n + 2),
    ;

    /// The code is linear.
    proof fn encoded_linear(&self, a: Seq<F>, b: Seq<F>, k: F, n: nat, i: int)
        requires
            a.len() == pow2(n),
            b.len() == pow2(n),
            0 <= i < pow2(n + 2),
        ensures
            self.encoded(Seq::new(a.len(), |j: int| a[j].add(k.mul(b[j]))))[i] == self.encoded(
                a,
            )[i].add(k.mul(self.encoded(b)[i])),
    ;

    /// Setting the highest variable of a table folds its word pair by pair.
    proof fn high_fold(&self, t: Seq<F>, r: F, n: nat, leaf: int)
        requires
            0 < n <= 120,
            t.len() == pow2(n),
            0 <= leaf < pow2(n + 1),
        ensures
            ({
                let (p0, p1) = pair_positions(n, leaf);
                self.encoded(fold(t, r))[leaf] == high_pair_fold(
                    r,
                    n,
                    leaf,
                    self.encoded(t)[p0],
                    self.encoded(t)[p1],
                )
            }),
    ;
}

/// The symbol at a place of one coset of the word of a table of `2^n` values.
pub open spec fn coset_symbol<F: TowerField>(coset: nat, t: Seq<F>, n: nat, i: int) -> F
    decreases n,
{
    if n == 0 {
        t[0]
    } else {
        let half = pow2((n - 1) as nat) as int;
        let lo = coset_symbol(coset, t.take(half), (n - 1) as nat, i % half);
        let hi = coset_symbol(coset, t.skip(half), (n - 1) as nat, i % half);
        if i < half {
            lo.add(hi)
        } else {
            let basis = F::of_u128(pow2((coset + n - 1) as nat) as u128);
            lo.add(basis.add(F::one()).mul(lo.add(hi)))
        }
    }
}

/// The logarithm of the length of a table.
pub open spec fn log_len(len: nat) -> nat {
    choose|n: nat| #[trigger] pow2(n) == len
}

/// Powers of two determine their exponents.
pub proof fn lemma_log_len(n: nat)
    ensures
        log_len(pow2(n)) == n,
{
    let m = log_len(pow2(n));
    assert(pow2(m) == pow2(n));
    if m < n {
        vstd::arithmetic::power2::lemma_pow2_strictly_increases(m, n);
    } else if n < m {
        vstd::arithmetic::power2::lemma_pow2_strictly_increases(n, m);
    }
}

/// The code whose words consist of four cosets, each built by halving the
/// table.
pub struct TensorCode;

/// The word of a table.
pub open spec fn tensor_word<F: TowerField>(t: Seq<F>) -> Seq<F> {
    let n = log_len(t.len());
    Seq::new(
        pow2(n + 2),
        |i: int|
            coset_symbol((i / pow2(n) as int) as nat, t, n, i % pow2(n) as int),
    )
}

proof fn lemma_coset_linear<F: TowerField>(
    coset: nat,
    a: Seq<F>,
    b: Seq<F>,
    k: F,
    n: nat,
    i: int,
)
    requires
        a.len() == pow2(n),
        b.len() == pow2(n),
        0 <= i < pow2(n),
    ensures
        coset_symbol(coset, Seq::new(a.len(), |j: int| a[j].add(k.mul(b[j]))), n, i)
            == coset_symbol(coset, a, n, i).add(k.mul(coset_symbol(coset, b, n, i))),
    decreases n,
{
    let c = Seq::new(a.len(), |j: int| a[j].add(k.mul(b[j])));
    if n == 0 {
        vstd::arithmetic::power2::lemma2_to64();
    } else {
        let m = (n - 1) as nat;
        let half = pow2(m) as int;
        lemma_half_pow2(n);
        let (al, ah) = (a.take(half), a.skip(half));
        let (bl, bh) = (b.take(half), b.skip(half));
        let cl = Seq::new(al.len(), |j: int| al[j].add(k.mul(bl[j])));
        let ch = Seq::new(ah.len(), |j: int| ah[j].add(k.mul(bh[j])));
        assert(c.take(half) =~= cl);
        assert(c.skip(half) =~= ch);
        let p = i % half;
        lemma_coset_linear(coset, al, bl, k, m, p);
        lemma_coset_linear(coset, ah, bh, k, m, p);
        let la = coset_symbol(coset, al, m, p);
        let ha = coset_symbol(coset, ah, m, p);
        let lb = coset_symbol(coset, bl, m, p);
        let hb = coset_symbol(coset, bh, m, p);
        lemma_add_swap(la, k.mul(lb), ha, k.mul(hb));
        F::mul_add(k, lb, hb);
        if i >= half {
            let g = F::of_u128(pow2((coset + n - 1) as nat) as u128).add(F::one());
            let sa = la.add(ha);
            let sb = lb.add(hb);
            F::mul_add(g, sa, k.mul(sb));
            F::mul_assoc(g, k, sb);
            F::mul_comm(g, k);
            F::mul_assoc(k, g, sb);
            lemma_add_swap(la, k.mul(lb), g.mul(sa), k.mul(g.mul(sb)));
            F::mul_add(k, lb, g.mul(sb));
        }
    }
}

/// Writes one coset of the word of a table.
fn write_coset<F: TowerField>(coset: usize, t: &[F], n: usize) -> (c: Vec<F>)
    requires
        t.len() == pow2(n as nat),
        n <= 120,
        coset < 4,
    ensures
        c.len() == t.len(),
        forall|i: int|
            0 <= i < c.len() ==> #[trigger] c[i] == coset_symbol(
                coset as nat,
                t@,
                n as nat,
                i,
            ),
    decreases n,
{
    if n == 0 {
        proof {
            vstd::arithmetic::power2::lemma2_to64();
        }
        let mut c: Vec<F> = Vec::new();
        c.push(t[0]);
        return c;
    }
    let half: usize = t.len() / 2;
    proof {
        lemma_half_pow2(n as nat);
    }
    let lo_table = crate::table::subrange(t, 0, half);
    let hi_table = crate::table::subrange(t, half, t.len());
    proof {
        assert(lo_table@ =~= t@.take(half as int));
        assert(hi_table@ =~= t@.skip(half as int));
    }
    let lo = write_coset(coset, lo_table.as_slice(), n - 1);
    let hi = write_coset(coset, hi_table.as_slice(), n - 1);
    let basis = F::from_u128(basis_word(coset + n - 1));
    let g = basis.plus(F::one_value());
    let mut c: Vec<F> = Vec::new();
    let mut i: usize = 0;
    while i < t.len()
        invariant
            i <= t.len(),
            t.len() == 2 * half,
            half == pow2((n - 1) as nat),
            n > 0,
            lo.len() == half,
            hi.len() == half,
            forall|k: int|
                0 <= k < half ==> #[trigger] lo[k] == coset_symbol(
                    coset as nat,
                    t@.take(half as int),
                    (n - 1) as nat,
                    k,
                ),
            forall|k: int|
                0 <= k < half ==> #[trigger] hi[k] == coset_symbol(
                    coset as nat,
                    t@.skip(half as int),
                    (n - 1) as nat,
                    k,
                ),
            g == F::of_u128(pow2((coset + n - 1) as nat) as u128).add(F::one()),
            c.len() == i,
            forall|k: int|
                0 <= k < i ==> #[trigger] c[k] == coset_symbol(coset as nat, t@, n as nat, k),
        decreases t.len() - i,
    {
        if i < half {
            proof {
                vstd::arithmetic::div_mod::lemma_small_mod(i as nat, half as nat);
            }
            c.push(lo[i].plus(hi[i]));
        } else {
            let p: usize = i - half;
            proof {
                vstd::arithmetic::div_mod::lemma_fundamental_div_mod_converse(
                    i as int,
                    half as int,
                    1,
                    p as int,
                );
            }
            c.push(lo[p].plus(g.times(lo[p].plus(hi[p]))));
        }
        i += 1;
    }
    c
}

/// The word with one bit set.
pub fn basis_word(k: usize) -> (r: u128)
    requires
        k < 128,
    ensures
        r == pow2(k as nat),
{
    let mut r: u128 = 1;
    let mut i: usize = 0;
    proof {
        vstd::arithmetic::power2::lemma2_to64();
    }
    while i < k
        invariant
            i <= k < 128,
            r == pow2(i as nat),
        decreases k - i,
    {
        proof {
            lemma_half_pow2((i + 1) as nat);
            lemma_pow2_below_128((i + 1) as nat);
        }
        r = r * 2;
        i += 1;
    }
    r
}

proof fn lemma_pow2_below_128(n: nat)
    requires
        n < 128,
    ensures
        pow2(n) <= u128::MAX,
{
    vstd::arithmetic::power2::lemma2_to64();
    lemma_pow2_adds(64, 63);
    lemma_half_pow2(64);
    assert(pow2(127) == 0x8000_0000_0000_0000_0000_0000_0000_0000) by {
        assert(pow2(64) == 0x1_0000_0000_0000_0000);
        assert(pow2(63) == 0x8000_0000_0000_0000);
    }
    if n < 127 {
        vstd::arithmetic::power2::lemma_pow2_strictly_increases(n, 127);
    }
}

impl<F: TowerField> FriCode<F> for TensorCode {
    open spec fn encoded(&self, evals: Seq<F>) -> Seq<F> {
        tensor_word(evals)
    }

    open spec fn folded(&self, r: F, round: nat, pair: int, s0: F, s1: F) -> F {
        line(s0, s1, r)
    }

    fn encode(&self, evals: &[F]) -> (c: Vec<F>) {
        let mut n: usize = 0;
        let mut len: usize = 1;
        let ghost target = choose|n: nat| #[trigger] pow2(n) == evals.len() && n <= 120;
        proof {
            vstd::arithmetic::power2::lemma2_to64();
        }
        while len < evals.len()
            invariant
                len == pow2(n as nat),
                n <= target <= 120,
                pow2(target) == evals.len(),
            decreases target - n,
        {
            proof {
                if n == target {
                    assert(false);
                }
                lemma_half_pow2((n + 1) as nat);
                if n + 1 < target {
                    vstd::arithmetic::power2::lemma_pow2_strictly_increases(
                        (n + 1) as nat,
                        target,
                    );
                }
            }
            len = len * 2;
            n += 1;
        }
        proof {
            if n < target {
                vstd::arithmetic::power2::lemma_pow2_strictly_increases(n as nat, target);
            }
            lemma_log_len(n as nat);
            lemma_pow2_adds(n as nat, 2);
            lemma_pow2_pos(n as nat);
        }
        let mut c: Vec<F> = Vec::new();
        let mut coset: usize = 0;
        while coset < 4
            invariant
                coset <= 4,
                evals.len() == pow2(n as nat),
                evals.len() > 0,
                4 * evals.len() <= usize::MAX,
                n <= 120,
                log_len(evals@.len()) == n,
                pow2((n + 2) as nat) == 4 * evals.len(),
                c.len() == coset * evals.len(),
                forall|i: int| 0 <= i < c.len() ==> #[trigger] c[i] == tensor_word(evals@)[i],
            decreases 4 - coset,
        {
            let part = write_coset(coset, evals, n);
            let ghost before = c@;
            let mut i: usize = 0;
            while i < part.len()
                invariant
                    i <= part.len(),
                    part.len() == evals.len(),
                    coset < 4,
                    c@ == before + part@.take(i as int),
                decreases part.len() - i,
            {
                c.push(part[i]);
                proof {
                    assert(c@ =~= before + part@.take(i + 1));
                }
                i += 1;
            }
            proof {
                let m = evals.len() as int;
                assert(c.len() == (coset + 1) * evals.len()) by (nonlinear_arith)
                    requires
                        c.len() == coset * evals.len() + evals.len(),
                ;
                assert((coset + 1) * m <= 4 * m) by (nonlinear_arith)
                    requires
                        coset < 4,
                        m > 0,
                ;
                assert forall|i: int| 0 <= i < c.len() implies #[trigger] c[i] == tensor_word(
                    evals@,
                )[i] by {
                    if i < before.len() {
                        assert(c[i] == before[i]);
                    } else {
                        let p = i - before.len();
                        assert(c[i] == part[p]);
                        assert(i == coset * m + p);
                        vstd::arithmetic::div_mod::lemma_fundamental_div_mod_converse(
                            i,
                            m,
                            coset as int,
                            p,
                        );
                    }
                }
            }
            coset += 1;
        }
        proof {
            assert(c@ =~= tensor_word(evals@));
        }
        c
    }

    fn fold_symbol(&self, r: F, round: usize, pair: usize, s0: F, s1: F) -> (v: F) {
        s0.plus(r.times(s0.plus(s1)))
    }

    proof fn encoded_len(&self, evals: Seq<F>, n: nat) {
        lemma_log_len(n);
    }

    proof fn encoded_linear(&self, a: Seq<F>, b: Seq<F>, k: F, n: nat, i: int) {
        lemma_log_len(n);
        lemma_pow2_pos(n);
        let m = pow2(n) as int;
        vstd::arithmetic::div_mod::lemma_mod_bound(i, m);
        lemma_coset_linear((i / m) as nat, a, b, k, n, i % m);
    }

    proof fn high_fold(&self, t: Seq<F>, r: F, n: nat, leaf: int) {
        let m = (n - 1) as nat;
        let half = pow2(m) as int;
        lemma_half_pow2(n);
        lemma_log_len(n);
        lemma_log_len(m);
        vstd::arithmetic::power2::lemma2_to64();
        lemma_pow2_adds(m, 2);
        lemma_pow2_adds(n, 2);
        lemma_half_pow2(n + 1);
        let coset = leaf / half;
        let p = leaf % half;
        vstd::arithmetic::div_mod::lemma_fundamental_div_mod(leaf, half);
        vstd::arithmetic::div_mod::lemma_mod_bound(leaf, half);
        assert(0 <= coset < 4) by (nonlinear_arith)
            requires
                leaf == half * coset + p,
                0 <= p < half,
                0 <= leaf < 4 * half,
                half > 0,
        ;
        let (p0, p1) = pair_positions(n, leaf);
        assert(p0 == coset * (2 * half) + p);
        assert(p1 == coset * (2 * half) + (p + half));
        assert(0 <= p0 && p1 < 8 * half) by (nonlinear_arith)
            requires
                p0 == coset * (2 * half) + p,
                p1 == coset * (2 * half) + (p + half),
                0 <= coset < 4,
                0 <= p < half,
        ;
        vstd::arithmetic::div_mod::lemma_fundamental_div_mod_converse(p0, 2 * half, coset, p);
        vstd::arithmetic::div_mod::lemma_fundamental_div_mod_converse(
            p1,
            2 * half,
            coset,
            p + half,
        );
        let (lo, hi) = (t.take(half), t.skip(half));
        let c = coset as nat;
        let l = coset_symbol(c, lo, m, p);
        let h = coset_symbol(c, hi, m, p);
        assert(p % half == p) by {
            vstd::arithmetic::div_mod::lemma_small_mod(p as nat, half as nat);
        }
        assert((p + half) % half == p) by {
            vstd::arithmetic::div_mod::lemma_mod_add_multiples_vanish(p, half);
        }
        let w = self.encoded(t);
        let g = F::of_u128(pow2((c + n - 1) as nat) as u128).add(F::one());
        let s = l.add(h);
        assert(w[p0] == s);
        assert(w[p1] == l.add(g.mul(s)));
        // The folded table is lo + r (lo + hi).
        let sum_table = Seq::new(lo.len(), |j: int| lo[j].add(F::one().mul(hi[j])));
        let folded = Seq::new(lo.len(), |j: int| lo[j].add(r.mul(sum_table[j])));
        assert(fold(t, r) =~= folded) by {
            assert forall|j: int| 0 <= j < half implies fold(t, r)[j] == folded[j] by {
                lemma_units(hi[j]);
            }
        }
        lemma_coset_linear(c, lo, hi, F::one(), m, p);
        lemma_coset_linear(c, lo, sum_table, r, m, p);
        lemma_units(h);
        assert(self.encoded(fold(t, r))[leaf] == l.add(r.mul(s)));
        // s1 + (g + r) s0 == l + r s
        lemma_add_mul(g, r, s);
        F::add_assoc(l, g.mul(s), g.mul(s).add(r.mul(s)));
        lemma_add_cancel(g.mul(s), r.mul(s));
    }
}

impl<F: TowerField> FriChannel<F> for ElementTranscript<F> {
    open spec fn committed(self, root: HashOutput, depth: nat) -> Self {
        self.absorbed(F::of_u128(le_value(root@.subrange(0, 16)) as u128)).absorbed(
            F::of_u128(le_value(root@.subrange(16, 32)) as u128),
        ).absorbed(F::of_u128(depth as u128))
    }

    fn observe_vector_commitment(&mut self, root: &HashOutput, depth: usize) {
        let lo: u128 = read_le_u128(root.as_slice(), 0);
        let hi: u128 = read_le_u128(root.as_slice(), 16);
        self.absorb(F::from_u128(lo));
        self.absorb(F::from_u128(hi));
        self.absorb(F::from_u128(depth as u128));
    }
}

/// A hasher that takes the BLAKE3 digest of the bytes of its inputs, in turn.
pub struct Blake3Hasher;

/// The bytes of two nodes.
pub open spec fn node_message(left: HashOutput, right: HashOutput) -> Seq<u8> {
    left@ + right@
}

/// The bytes of a pair of symbols.
pub open spec fn pair_message<F: TowerField>(s0: F, s1: F) -> Seq<u8> {
    le_bytes(s0.bits() as nat, 16) + le_bytes(s1.bits() as nat, 16)
}

/// The digest with the given bytes.
pub open spec fn digest_of(message: Seq<u8>) -> HashOutput {
    choose|h: HashOutput| #[trigger] h@ == blake3_digest(message)
}

/// Takes the digest of a message.
pub fn digest_value(message: &[u8]) -> (r: HashOutput)
    ensures
        r == digest_of(message@),
        r@ == blake3_digest(message@),
{
    let r = blake3_hash(message);
    proof {
        let d = digest_of(message@);
        assert(r@ == blake3_digest(message@));
        assert(d@ == r@);
        assert(d =~= r);
    }
    r
}

impl NodeHasher for Blake3Hasher {
    open spec fn parent(&self, left: HashOutput, right: HashOutput) -> HashOutput {
        digest_of(node_message(left, right))
    }

    fn compress(&self, left: &HashOutput, right: &HashOutput) -> (r: HashOutput) {
        let mut m: Vec<u8> = Vec::new();
        push_bytes(&mut m, left.as_slice());
        push_bytes(&mut m, right.as_slice());
        proof {
            assert(m@ =~= node_message(*left, *right));
        }
        digest_value(m.as_slice())
    }
}

impl<F: TowerField> CryptographicHasher<F> for Blake3Hasher {
    open spec fn pair_digest(&self, s0: F, s1: F) -> HashOutput {
        digest_of(pair_message(s0, s1))
    }

    fn hash_pair(&self, s0: &F, s1: &F) -> (r: HashOutput) {
        let mut m: Vec<u8> = Vec::new();
        push_le(&mut m, s0.to_u128(), 16);
        push_le(&mut m, s1.to_u128(), 16);
        proof {
            assert(m@ =~= pair_message(*s0, *s1));
        }
        digest_value(m.as_slice())
    }
}

} // verus!
