//! Codes whose words fold by contiguous cosets.
//!
//! A message has `2^11` symbols and its word `2^16`; setting the lowest
//! variable of the message folds the word in pairs of neighbours.
use vstd::prelude::*;
use vstd::arithmetic::power2::{lemma_pow2_adds, lemma_pow2_pos, lemma_pow2_strictly_increases, pow2};
use crate::field::TowerField;
use crate::low_fold::{fold_low_all, fold_low_vars, lemma_fold_low_len};
use crate::merkle::{increasing, keys_of, lemma_sorted_keys_distinct, sort_indices, sorted_keys};
use crate::mle::{lemma_half_pow2, pow2_usize};
use crate::table::copied;

verus! {

/// The logarithm of the number of symbols of a message.
pub const MESSAGE_LOG: usize = 11;

/// The logarithm of the number of symbols of a word.
pub const DOMAIN_LOG: usize = 16;

/// The number of symbols of a message.
pub const MESSAGE_LEN: usize = 2048;

/// The number of symbols of a word.
pub const DOMAIN_LEN: usize = 65536;

/// The number of symbols of a message that carry the state; those above are
/// random padding.
pub const STATE_LEN: usize = 512;

/// Why a code refuses.
#[derive(Clone, Copy, Debug, PartialEq, Eq, Structural)]
pub enum ZkAffineCodeError {
    /// A message has another length.
    MessageLengthMismatch,
    /// A coset has another length.
    CosetLengthMismatch,
    /// A position lies outside the word.
    PositionOutOfRange,
}

/// How far the padding hides the symbols at some positions: of how many
/// distinct positions the padding makes how many independent.
#[derive(Clone, Copy, Debug, PartialEq, Eq, Structural)]
pub struct AffineHighPaddingRankCertificate {
    pub distinct_query_count: usize,
    pub certified_rank: usize,
}

/// A linear code whose words fold by contiguous cosets.
pub trait AffineCode<F: TowerField> {
    /// The word of a message whose `folds` lowest variables are set.
    spec fn word(&self, t: Seq<F>, folds: nat) -> Seq<F>;

    /// What encoding gives.
    spec fn word_result(&self, t: Seq<F>, folds: nat) -> Result<Seq<F>, ZkAffineCodeError>;

    /// What folding a contiguous coset gives.
    spec fn coset_result(&self, symbols: Seq<F>, folds: nat, index: int, rs: Seq<F>) -> Result<
        F,
        ZkAffineCodeError,
    >;

    /// What is certified of some positions.
    spec fn certified(&self, positions: Seq<usize>) -> Result<
        AffineHighPaddingRankCertificate,
        ZkAffineCodeError,
    >;

    /// Encodes a message whose lowest variables are set.
    fn encode_after_low_folds(&self, t: &[F], folds: usize) -> (r: Result<
        Vec<F>,
        ZkAffineCodeError,
    >)
        ensures
            match r {
                Ok(w) => self.word_result(t@, folds as nat) == Ok::<Seq<F>, ZkAffineCodeError>(
                    w@,
                ),
                Err(e) => self.word_result(t@, folds as nat) == Err::<Seq<F>, ZkAffineCodeError>(
                    e,
                ),
            },
    ;

    /// Folds a contiguous coset of a word.
    fn fold_contiguous_coset(&self, symbols: &[F], folds: usize, index: usize, rs: &[F]) -> (r:
        Result<F, ZkAffineCodeError>)
        ensures
            r == self.coset_result(symbols@, folds as nat, index as int, rs@),
    ;

    /// Certifies how far the padding hides the symbols at some positions.
    fn certify_high_padding_rank(&self, positions: &[usize]) -> (r: Result<
        AffineHighPaddingRankCertificate,
        ZkAffineCodeError,
    >)
        ensures
            r == self.certified(positions@),
    ;

    /// Messages of the right length are encoded.
    proof fn word_shape(&self, t: Seq<F>, folds: nat)
        requires
            folds <= MESSAGE_LOG,
            t.len() == pow2((MESSAGE_LOG - folds) as nat),
        ensures
            self.word_result(t, folds) == Ok::<Seq<F>, ZkAffineCodeError>(self.word(t, folds)),
            self.word(t, folds).len() == pow2((DOMAIN_LOG - folds) as nat),
    ;

    /// The code is linear.
    proof fn word_linear(&self, a: Seq<F>, b: Seq<F>, k: F, folds: nat, i: int)
        requires
            folds <= MESSAGE_LOG,
            a.len() == pow2((MESSAGE_LOG - folds) as nat),
            b.len() == a.len(),
            0 <= i < pow2((DOMAIN_LOG - folds) as nat),
        ensures
            self.word(Seq::new(a.len(), |j: int| a[j].add(k.mul(b[j]))), folds)[i] == self.word(
                a,
                folds,
            )[i].add(k.mul(self.word(b, folds)[i])),
    ;

    /// Repeated positions count once, and the padding makes no more symbols
    /// independent than there are distinct positions.
    proof fn certified_law(&self, positions: Seq<usize>)
        ensures
            self.certified(positions) matches Ok(c) ==> c.distinct_query_count
                == positions.to_set().len() && c.certified_rank <= c.distinct_query_count,
    ;

    /// Folding the cosets of a word gives the word of the folded message.
    proof fn coset_law(&self, t: Seq<F>, folds: nat, rs: Seq<F>, index: int)
        requires
            folds + rs.len() <= MESSAGE_LOG,
            t.len() == pow2((MESSAGE_LOG - folds) as nat),
            0 <= index < pow2((DOMAIN_LOG - folds - rs.len()) as nat),
        ensures
            self.coset_result(
                self.word(t, folds).subrange(
                    index * pow2(rs.len()),
                    index * pow2(rs.len()) + pow2(rs.len()),
                ),
                folds,
                index,
                rs,
            ) == Ok::<F, ZkAffineCodeError>(
                self.word(fold_low_all(t, rs), folds + rs.len())[index],
            ),
    ;
}

/// The code whose words repeat the message.
#[derive(Clone, Copy, Debug, PartialEq, Eq)]
pub struct RepeatedCode;

/// The places in the message of those of the first `k` positions that fall in
/// the padding.
pub open spec fn padding_places(positions: Seq<usize>, k: nat) -> Seq<usize>
    decreases k,
{
    if k == 0 {
        Seq::empty()
    } else {
        let rest = padding_places(positions, (k - 1) as nat);
        let place = (positions[k - 1] % MESSAGE_LEN) as usize;
        if place >= STATE_LEN {
            rest.push(place)
        } else {
            rest
        }
    }
}

/// There are no more padding places than positions, repetitions apart.
proof fn lemma_padding_places(positions: Seq<usize>, k: nat)
    requires
        k <= positions.len(),
    ensures
        forall|j: int|
            0 <= j < k && #[trigger] positions[j] % MESSAGE_LEN >= STATE_LEN ==> padding_places(
                positions,
                k,
            ).contains((positions[j] % MESSAGE_LEN) as usize),
        padding_places(positions, k).to_set().len() <= positions.take(k as int).to_set().len(),
    decreases k,
{
    let all = padding_places(positions, k);
    let seen = positions.take(k as int);
    if k > 0 {
        let j = (k - 1) as nat;
        lemma_padding_places(positions, j);
        let rest = padding_places(positions, j);
        let before = positions.take(j as int);
        let p = positions[k - 1];
        let place = (p % MESSAGE_LEN) as usize;
        assert(seen =~= before.push(p));
        assert(seen.to_set() =~= before.to_set().insert(p)) by {
            assert forall|x: usize| seen.to_set().contains(x) == before.to_set().insert(p).contains(
                x,
            ) by {
                if before.contains(x) {
                    let q = choose|q: int| 0 <= q < before.len() && before[q] == x;
                    assert(seen[q] == x);
                }
                if seen.contains(x) {
                    let q = choose|q: int| 0 <= q < seen.len() && seen[q] == x;
                    if q < j {
                        assert(before[q] == x);
                    }
                }
                assert(seen[j as int] == p);
            }
        }
        if place >= STATE_LEN {
            assert(all == rest.push(place));
            assert(all[rest.len() as int] == place);
            assert(all.to_set() =~= rest.to_set().insert(place)) by {
                assert forall|x: usize| all.to_set().contains(x) == rest.to_set().insert(
                    place,
                ).contains(x) by {
                    if rest.contains(x) {
                        let q = choose|q: int| 0 <= q < rest.len() && rest[q] == x;
                        assert(all[q] == x);
                    }
                    if all.contains(x) {
                        let q = choose|q: int| 0 <= q < all.len() && all[q] == x;
                        if q < rest.len() {
                            assert(rest[q] == x);
                        }
                    }
                }
            }
            if before.to_set().contains(p) {
                let q = choose|q: int| 0 <= q < before.len() && before[q] == p;
                assert(positions[q] == p);
                assert(rest.contains(place));
                assert(rest.to_set().insert(place) =~= rest.to_set());
            }
        }
        assert forall|i: int|
            0 <= i < k && #[trigger] positions[i] % MESSAGE_LEN >= STATE_LEN implies all.contains(
            (positions[i] % MESSAGE_LEN) as usize,
        ) by {
            if i < j {
                let x = (positions[i] % MESSAGE_LEN) as usize;
                assert(rest.contains(x));
                let q = choose|q: int| 0 <= q < rest.len() && rest[q] == x;
                assert(all[q] == x);
            }
        }
    } else {
        assert(all.to_set() =~= Set::empty());
    }
}

/// Increasing keys below a bound are no more than the bound.
proof fn lemma_keys_bounded(known: Seq<(usize, ())>, bound: nat, k: int)
    requires
        increasing(known),
        0 <= k < known.len(),
        forall|j: int| 0 <= j < known.len() ==> (#[trigger] known[j]).0 < bound,
    ensures
        known[k].0 >= k,
        k < bound,
    decreases k,
{
    if k > 0 {
        lemma_keys_bounded(known, bound, k - 1);
    }
    assert(known[k].0 < bound);
}

proof fn lemma_repeat_step(y: int, m: int)
    requires
        m > 0,
        y >= 0,
    ensures
        (2 * y) % (2 * m) == 2 * (y % m),
        (2 * y + 1) % (2 * m) == 2 * (y % m) + 1,
{
    vstd::arithmetic::div_mod::lemma_fundamental_div_mod(y, m);
    vstd::arithmetic::div_mod::lemma_mod_bound(y, m);
    let q = y / m;
    let r = y % m;
    assert(2 * y == q * (2 * m) + 2 * r && 2 * y + 1 == q * (2 * m) + (2 * r + 1))
        by (nonlinear_arith)
        requires
            y == m * q + r,
    ;
    vstd::arithmetic::div_mod::lemma_fundamental_div_mod_converse(2 * y, 2 * m, q, 2 * r);
    vstd::arithmetic::div_mod::lemma_fundamental_div_mod_converse(
        2 * y + 1,
        2 * m,
        q,
        2 * r + 1,
    );
}

proof fn lemma_repeat_fold<F: TowerField>(
    t: Seq<F>,
    sub: Seq<F>,
    rs: Seq<F>,
    index: int,
    m: nat,
    k: nat,
    j: nat,
    x: int,
)
    requires
        t.len() == pow2(m),
        k <= m,
        rs.len() == k,
        j <= k,
        0 <= index,
        sub.len() == pow2(k),
        forall|x: int|
            0 <= x < pow2(k) ==> #[trigger] sub[x] == t[(index * pow2(k) + x) % pow2(m) as int],
        0 <= x < pow2((k - j) as nat),
    ensures
        fold_low_all(sub, rs.take(j as int))[x] == fold_low_all(t, rs.take(j as int))[(index * pow2(
            (k - j) as nat,
        ) + x) % (pow2((m - j) as nat) as int)],
    decreases j,
{
    if j > 0 {
        let i = (j - 1) as nat;
        let part = rs.take(j as int);
        assert(part.drop_last() =~= rs.take(i as int));
        let half = pow2((k - j) as nat) as int;
        let half_m = pow2((m - j) as nat) as int;
        lemma_half_pow2((k - i) as nat);
        lemma_half_pow2((m - i) as nat);
        lemma_repeat_fold(t, sub, rs, index, m, k, i, 2 * x);
        lemma_repeat_fold(t, sub, rs, index, m, k, i, 2 * x + 1);
        lemma_fold_low_len(sub, rs.take(i as int), k);
        lemma_fold_low_len(t, rs.take(i as int), m);
        let y = index * half + x;
        assert(index * (2 * half) == 2 * (index * half) && index * half >= 0) by (nonlinear_arith)
            requires
                index >= 0,
                half >= 0,
        ;
        lemma_pow2_pos((m - j) as nat);
        lemma_repeat_step(y, half_m);
        vstd::arithmetic::div_mod::lemma_mod_bound(y, half_m);
    } else {
        assert(rs.take(0) =~= Seq::empty());
    }
}

impl<F: TowerField> AffineCode<F> for RepeatedCode {
    open spec fn word(&self, t: Seq<F>, folds: nat) -> Seq<F> {
        Seq::new(pow2((DOMAIN_LOG - folds) as nat), |i: int| t[i % t.len() as int])
    }

    open spec fn word_result(&self, t: Seq<F>, folds: nat) -> Result<Seq<F>, ZkAffineCodeError> {
        if folds > MESSAGE_LOG || t.len() != pow2((MESSAGE_LOG - folds) as nat) {
            Err(ZkAffineCodeError::MessageLengthMismatch)
        } else {
            Ok(Seq::new(pow2((DOMAIN_LOG - folds) as nat), |i: int| t[i % t.len() as int]))
        }
    }

    open spec fn coset_result(&self, symbols: Seq<F>, folds: nat, index: int, rs: Seq<F>) -> Result<
        F,
        ZkAffineCodeError,
    > {
        if rs.len() > MESSAGE_LOG || symbols.len() != pow2(rs.len()) {
            Err(ZkAffineCodeError::CosetLengthMismatch)
        } else {
            Ok(fold_low_all(symbols, rs)[0])
        }
    }

    open spec fn certified(&self, positions: Seq<usize>) -> Result<
        AffineHighPaddingRankCertificate,
        ZkAffineCodeError,
    > {
        if exists|k: int| 0 <= k < positions.len() && #[trigger] positions[k] >= DOMAIN_LEN {
            Err(ZkAffineCodeError::PositionOutOfRange)
        } else {
            let padding = padding_places(positions, positions.len());
            Ok(
                AffineHighPaddingRankCertificate {
                    distinct_query_count: sorted_keys(positions, positions.len()).len() as usize,
                    certified_rank: sorted_keys(padding, padding.len()).len() as usize,
                },
            )
        }
    }

    fn encode_after_low_folds(&self, t: &[F], folds: usize) -> (r: Result<
        Vec<F>,
        ZkAffineCodeError,
    >) {
        if folds > MESSAGE_LOG {
            return Err(ZkAffineCodeError::MessageLengthMismatch);
        }
        proof {
            vstd::arithmetic::power2::lemma2_to64();
            if folds > 0 {
                lemma_pow2_strictly_increases((DOMAIN_LOG - folds) as nat, 16);
                lemma_pow2_strictly_increases((MESSAGE_LOG - folds) as nat, 11);
            }
            lemma_pow2_pos((MESSAGE_LOG - folds) as nat);
        }
        if t.len() != pow2_usize(MESSAGE_LOG - folds) {
            return Err(ZkAffineCodeError::MessageLengthMismatch);
        }
        let len: usize = pow2_usize(DOMAIN_LOG - folds);
        let n: usize = t.len();
        let mut w: Vec<F> = Vec::new();
        let mut i: usize = 0;
        while i < len
            invariant
                i <= len,
                n == t.len(),
                n > 0,
                w.len() == i,
                forall|k: int| 0 <= k < i ==> #[trigger] w[k] == t@[k % n as int],
            decreases len - i,
        {
            w.push(t[i % n]);
            i += 1;
        }
        proof {
            assert(w@ =~= Seq::new(
                pow2((DOMAIN_LOG - folds) as nat),
                |i: int| t@[i % t@.len() as int],
            ));
        }
        Ok(w)
    }

    fn fold_contiguous_coset(&self, symbols: &[F], folds: usize, index: usize, rs: &[F]) -> (r:
        Result<F, ZkAffineCodeError>) {
        if rs.len() > MESSAGE_LOG {
            return Err(ZkAffineCodeError::CosetLengthMismatch);
        }
        proof {
            vstd::arithmetic::power2::lemma2_to64();
            if rs.len() < MESSAGE_LOG {
                lemma_pow2_strictly_increases(rs.len() as nat, 11);
            }
        }
        if symbols.len() != pow2_usize(rs.len()) {
            return Err(ZkAffineCodeError::CosetLengthMismatch);
        }
        let mut t = copied(symbols);
        fold_low_vars(&mut t, rs);
        proof {
            lemma_fold_low_len(symbols@, rs@, rs@.len());
        }
        Ok(t[0])
    }

    fn certify_high_padding_rank(&self, positions: &[usize]) -> (r: Result<
        AffineHighPaddingRankCertificate,
        ZkAffineCodeError,
    >) {
        let mut padding: Vec<usize> = Vec::new();
        let mut k: usize = 0;
        while k < positions.len()
            invariant
                k <= positions.len(),
                forall|j: int| 0 <= j < k ==> #[trigger] positions[j] < DOMAIN_LEN,
                padding@ == padding_places(positions@, k as nat),
            decreases positions.len() - k,
        {
            let p: usize = positions[k];
            if p >= DOMAIN_LEN {
                proof {
                    assert(positions@[k as int] >= DOMAIN_LEN);
                }
                return Err(ZkAffineCodeError::PositionOutOfRange);
            }
            let place: usize = p % MESSAGE_LEN;
            if place >= STATE_LEN {
                padding.push(place);
            }
            k += 1;
        }
        let distinct = sort_indices(positions);
        let hidden = sort_indices(padding.as_slice());
        Ok(
            AffineHighPaddingRankCertificate {
                distinct_query_count: distinct.len(),
                certified_rank: hidden.len(),
            },
        )
    }

    proof fn word_shape(&self, t: Seq<F>, folds: nat) {
    }

    proof fn word_linear(&self, a: Seq<F>, b: Seq<F>, k: F, folds: nat, i: int) {
        lemma_pow2_pos((MESSAGE_LOG - folds) as nat);
        vstd::arithmetic::div_mod::lemma_mod_bound(i, a.len() as int);
    }

    proof fn certified_law(&self, positions: Seq<usize>) {
        let n = positions.len();
        if <Self as AffineCode<F>>::certified(self, positions) is Ok {
            let keys = sorted_keys(positions, n);
            let padding = padding_places(positions, n);
            lemma_sorted_keys_distinct(positions, n);
            lemma_sorted_keys_distinct(padding, padding.len());
            lemma_padding_places(positions, n);
            assert(positions.take(n as int) =~= positions);
            assert(padding.take(padding.len() as int) =~= padding);
            assert forall|j: int| 0 <= j < keys.len() implies (#[trigger] keys[j]).0
                < DOMAIN_LEN by {
                assert(keys_of(keys)[j] == keys[j].0);
                assert(keys_of(keys).to_set().contains(keys[j].0));
                let q = choose|q: int| 0 <= q < positions.len() && positions[q] == keys[j].0;
                assert(positions[q] < DOMAIN_LEN);
            }
            if keys.len() > 0 {
                lemma_keys_bounded(keys, DOMAIN_LEN as nat, keys.len() - 1);
            }
        }
    }

    proof fn coset_law(&self, t: Seq<F>, folds: nat, rs: Seq<F>, index: int) {
        let k = rs.len();
        let m = (MESSAGE_LOG - folds) as nat;
        let w = self.word(t, folds);
        let first = index * pow2(k);
        lemma_pow2_adds((DOMAIN_LOG - folds - k) as nat, k);
        assert(0 <= first && first + pow2(k) <= w.len()) by (nonlinear_arith)
            requires
                first == index * pow2(k),
                0 <= index < pow2((DOMAIN_LOG - folds - k) as nat),
                w.len() == pow2((DOMAIN_LOG - folds - k) as nat) * pow2(k),
        ;
        let sub = w.subrange(first, first + pow2(k));
        vstd::arithmetic::power2::lemma2_to64();
        lemma_repeat_fold(t, sub, rs, index, m, k, k, 0);
        assert(rs.take(k as int) =~= rs);
        assert(index * 1 + 0 == index);
        lemma_fold_low_len(t, rs, m);
    }
}

} // verus!
