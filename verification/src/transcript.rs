//! Fiat-Shamir transcripts.
use vstd::prelude::*;
use crate::field::TowerField;

verus! {

/// A transcript that absorbs field elements and yields challenges.
///
/// A transcript is deterministic: what it yields is a function of its state,
/// and its state a function of what it absorbed and yielded.
pub trait FiatShamir<F>: Sized {
    /// The transcript after absorbing an element.
    spec fn absorbed(self, elem: F) -> Self;

    /// The next challenge.
    spec fn challenge(self) -> F;

    /// The transcript after yielding the next challenge.
    spec fn squeezed(self) -> Self;

    /// Absorbs an element.
    fn absorb(&mut self, elem: F)
        ensures
            *final(self) == old(self).absorbed(elem),
    ;

    /// Yields the next challenge.
    fn squeeze(&mut self) -> (r: F)
        ensures
            r == old(self).challenge(),
            *final(self) == old(self).squeezed(),
    ;
}

/// The transcript after absorbing a sequence, first element first.
pub open spec fn absorb_all<F, T: FiatShamir<F>>(channel: T, elems: Seq<F>) -> T
    decreases elems.len(),
{
    if elems.len() == 0 {
        channel
    } else {
        absorb_all(channel, elems.drop_last()).absorbed(elems.last())
    }
}

/// The next `n` challenges, in the order in which they are drawn.
pub open spec fn challenges<F, T: FiatShamir<F>>(channel: T, n: nat) -> Seq<F>
    decreases n,
{
    if n == 0 {
        Seq::empty()
    } else {
        challenges(channel, (n - 1) as nat).push(squeezed_by(channel, (n - 1) as nat).challenge())
    }
}

/// The transcript after drawing `n` challenges.
pub open spec fn squeezed_by<F, T: FiatShamir<F>>(channel: T, n: nat) -> T
    decreases n,
{
    if n == 0 {
        channel
    } else {
        squeezed_by(channel, (n - 1) as nat).squeezed()
    }
}

/// There are `n` challenges among the next `n` ones.
pub proof fn lemma_challenges_len<F, T: FiatShamir<F>>(channel: T, n: nat)
    ensures
        challenges(channel, n).len() == n,
    decreases n,
{
    if n > 0 {
        lemma_challenges_len(channel, (n - 1) as nat);
    }
}

/// Absorbing a concatenation is absorbing its parts in turn.
pub proof fn lemma_absorb_all_add<F, T: FiatShamir<F>>(channel: T, a: Seq<F>, b: Seq<F>)
    ensures
        absorb_all(channel, a + b) == absorb_all(absorb_all(channel, a), b),
    decreases b.len(),
{
    if b.len() == 0 {
        assert(a + b =~= a);
    } else {
        assert((a + b).drop_last() =~= a + b.drop_last());
        lemma_absorb_all_add(channel, a, b.drop_last());
    }
}

/// Absorbs every element of a slice, first element first.
pub fn absorb_slice<F: Copy, T: FiatShamir<F>>(channel: &mut T, elems: &[F])
    ensures
        *final(channel) == absorb_all(*old(channel), elems@),
{
    let mut i: usize = 0;
    while i < elems.len()
        invariant
            i <= elems.len(),
            *channel == absorb_all(*old(channel), elems@.take(i as int)),
        decreases elems.len() - i,
    {
        channel.absorb(elems[i]);
        proof {
            assert(elems@.take(i as int + 1).drop_last() =~= elems@.take(i as int));
        }
        i += 1;
    }
    proof {
        assert(elems@.take(elems@.len() as int) =~= elems@);
    }
}

/// Draws `n` challenges.
pub fn squeeze_many<F, T: FiatShamir<F>>(channel: &mut T, n: usize) -> (r: Vec<F>)
    ensures
        r@ == challenges(*old(channel), n as nat),
        *final(channel) == squeezed_by(*old(channel), n as nat),
{
    let mut out: Vec<F> = Vec::new();
    let mut i: usize = 0;
    while i < n
        invariant
            i <= n,
            out@ == challenges(*old(channel), i as nat),
            *channel == squeezed_by(*old(channel), i as nat),
        decreases n - i,
    {
        let c = channel.squeeze();
        out.push(c);
        i += 1;
    }
    out
}

/// A transcript whose whole state is one field element.
///
/// It is deterministic and cheap and has no cryptographic strength: it serves
/// to run the protocols on known values.
#[derive(Clone, Copy, Debug, PartialEq, Eq, Structural)]
pub struct ElementTranscript<F> {
    pub state: F,
}

/// The element by which [`ElementTranscript`] multiplies its state.
pub open spec fn element_transcript_key<F: TowerField>() -> F {
    F::of_u128(0x9E37_79B9_7F4A_7C15_F39C_C060_5CED_C835)
}

impl<F: TowerField> ElementTranscript<F> {
    /// A transcript that has absorbed nothing.
    pub fn new() -> (r: Self)
        ensures
            r.state == F::zero(),
    {
        ElementTranscript { state: F::zero_value() }
    }
}

impl<F: TowerField> FiatShamir<F> for ElementTranscript<F> {
    open spec fn absorbed(self, elem: F) -> Self {
        ElementTranscript {
            state: self.state.mul(element_transcript_key::<F>()).add(elem).add(F::one()),
        }
    }

    open spec fn challenge(self) -> F {
        self.state.mul(self.state).mul(self.state).add(element_transcript_key::<F>())
    }

    open spec fn squeezed(self) -> Self {
        ElementTranscript { state: self.challenge() }
    }

    fn absorb(&mut self, elem: F) {
        let key = F::from_u128(0x9E37_79B9_7F4A_7C15_F39C_C060_5CED_C835);
        self.state = self.state.times(key).plus(elem).plus(F::one_value());
    }

    fn squeeze(&mut self) -> (r: F) {
        let key = F::from_u128(0x9E37_79B9_7F4A_7C15_F39C_C060_5CED_C835);
        self.state = self.state.times(self.state).times(self.state).plus(key);
        self.state
    }
}

/// The challenge at an index is the one that is yielded after as many others.
pub proof fn lemma_challenge_at<F, T: FiatShamir<F>>(channel: T, n: nat, i: int)
    requires
        0 <= i < n,
    ensures
        challenges(channel, n)[i] == squeezed_by(channel, i as nat).challenge(),
    decreases n,
{
    lemma_challenges_len(channel, (n - 1) as nat);
    if i < n - 1 {
        lemma_challenge_at(channel, (n - 1) as nat, i);
    }
}

/// Whether a kind of transcript keeps what it absorbs: different elements, or
/// different transcripts before them, leave different transcripts, and so do
/// different transcripts before a challenge.
pub open spec fn keeps_all<F, T: FiatShamir<F>>() -> bool {
    &&& forall|a: T, b: T, x: F, y: F| #[trigger]
        a.absorbed(x) == #[trigger] b.absorbed(y) ==> a == b && x == y
    &&& forall|a: T, b: T| #[trigger] a.squeezed() == #[trigger] b.squeezed() ==> a == b
}

/// On a transcript that keeps what it absorbs, drawing challenges loses nothing.
pub proof fn lemma_squeeze_injective<F, T: FiatShamir<F>>(a: T, b: T, n: nat)
    requires
        keeps_all::<F, T>(),
        squeezed_by(a, n) == squeezed_by(b, n),
    ensures
        a == b,
    decreases n,
{
    if n > 0 {
        lemma_squeeze_injective(a, b, (n - 1) as nat);
    }
}

/// On a transcript that keeps what it absorbs, sequences of one length that leave
/// the same transcript are equal.
pub proof fn lemma_absorb_injective<F, T: FiatShamir<F>>(a: T, b: T, x: Seq<F>, y: Seq<F>)
    requires
        keeps_all::<F, T>(),
        x.len() == y.len(),
        absorb_all(a, x) == absorb_all(b, y),
    ensures
        a == b,
        x == y,
    decreases x.len(),
{
    if x.len() > 0 {
        lemma_absorb_injective(a, b, x.drop_last(), y.drop_last());
        assert(x =~= x.drop_last().push(x.last()));
        assert(y =~= y.drop_last().push(y.last()));
    } else {
        assert(x =~= y);
    }
}

} // verus!
