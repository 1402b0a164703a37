//! Messages of bytes and their digests.
use vstd::prelude::*;
use crate::field::TowerField;

verus! {

/// A digest of 32 bytes.
pub type HashOutput = [u8; 32];

/// The BLAKE3 digest of a message.
pub uninterp spec fn blake3_digest(message: Seq<u8>) -> Seq<u8>;

/// Calls `blake3::hash`, which gives the 32-byte digest of its input. The
/// contract claims that the digest is a function of the input alone, which is
/// named [`blake3_digest`].
#[verifier::external_body]
pub(crate) fn blake3_hash(message: &[u8]) -> (r: HashOutput)
    ensures
        r@ == blake3_digest(message@),
{
    *blake3::hash(message).as_bytes()
}

/// The `count` low bytes of a number, lowest first.
pub open spec fn le_bytes(x: nat, count: nat) -> Seq<u8>
    decreases count,
{
    if count == 0 {
        Seq::empty()
    } else {
        seq![(x % 256) as u8] + le_bytes(x / 256, (count - 1) as nat)
    }
}

/// The number with the given bytes, lowest first.
pub open spec fn le_value(bytes: Seq<u8>) -> nat
    decreases bytes.len(),
{
    if bytes.len() == 0 {
        0
    } else {
        bytes[0] as nat + 256 * le_value(bytes.drop_first())
    }
}

/// 256 to the power `n`.
pub open spec fn pow256(n: nat) -> nat
    decreases n,
{
    if n == 0 {
        1
    } else {
        256 * pow256((n - 1) as nat)
    }
}

/// Reading back what was written.
pub proof fn lemma_le_round_trip(x: nat, count: nat)
    requires
        x < pow256(count),
    ensures
        le_value(le_bytes(x, count)) == x,
        le_bytes(x, count).len() == count,
    decreases count,
{
    if count > 0 {
        let rest = le_bytes(x / 256, (count - 1) as nat);
        lemma_le_round_trip(x / 256, (count - 1) as nat);
        assert(le_bytes(x, count).drop_first() =~= rest);
    }
}

/// There are as many bytes as asked for.
pub proof fn lemma_le_bytes_len(x: nat, count: nat)
    ensures
        le_bytes(x, count).len() == count,
    decreases count,
{
    if count > 0 {
        lemma_le_bytes_len(x / 256, (count - 1) as nat);
    }
}

/// The value of `n` bytes is below 256 to the power `n`.
pub proof fn lemma_le_value_bound(bytes: Seq<u8>)
    ensures
        le_value(bytes) < pow256(bytes.len()),
    decreases bytes.len(),
{
    if bytes.len() > 0 {
        lemma_le_value_bound(bytes.drop_first());
    }
}

/// 16 bytes make a 128-bit number.
pub proof fn lemma_pow256_16()
    ensures
        pow256(16) == 0x1_0000_0000_0000_0000_0000_0000_0000_0000,
{
    reveal_with_fuel(pow256, 17);
}

/// Appends the low bytes of a number.
pub fn push_le(out: &mut Vec<u8>, x: u128, count: usize)
    ensures
        final(out)@ == old(out)@ + le_bytes(x as nat, count as nat),
{
    let mut rest: u128 = x;
    let mut i: usize = 0;
    proof {
        assert(out@ + le_bytes(x as nat, count as nat) =~= old(out)@ + le_bytes(
            x as nat,
            count as nat,
        ));
    }
    while i < count
        invariant
            i <= count,
            out@ + le_bytes(rest as nat, (count - i) as nat) == old(out)@ + le_bytes(
                x as nat,
                count as nat,
            ),
        decreases count - i,
    {
        let ghost before = out@;
        let byte: u8 = (rest % 256) as u8;
        out.push(byte);
        proof {
            assert(out@ + le_bytes(rest as nat / 256, (count - i - 1) as nat) =~= before + (seq![
                byte,
            ] + le_bytes(rest as nat / 256, (count - i - 1) as nat)));
        }
        rest = rest / 256;
        i += 1;
    }
    proof {
        assert(out@ + Seq::<u8>::empty() =~= out@);
    }
}

/// Reads a number from 16 bytes.
pub fn read_le_u128(bytes: &[u8], at: usize) -> (x: u128)
    requires
        at + 16 <= bytes.len(),
    ensures
        x == le_value(bytes@.subrange(at as int, at + 16)),
{
    let ghost s = bytes@.subrange(at as int, at + 16);
    let mut x: u128 = 0;
    let mut i: usize = 16;
    proof {
        lemma_pow256_16();
        assert(s.skip(16) =~= Seq::empty());
    }
    while i > 0
        invariant
            i <= 16,
            at + 16 <= bytes.len(),
            s == bytes@.subrange(at as int, at + 16),
            x == le_value(s.skip(i as int)),
            pow256(16) == 0x1_0000_0000_0000_0000_0000_0000_0000_0000,
        decreases i,
    {
        i -= 1;
        let ghost t = s.skip(i as int);
        proof {
            assert(t.drop_first() =~= s.skip(i + 1));
            lemma_le_value_bound(t);
            lemma_pow256_le(t.len(), 16);
        }
        x = (bytes[at + i] as u128) + 256 * x;
    }
    proof {
        assert(s.skip(0) =~= s);
    }
    x
}

proof fn lemma_pow256_le(a: nat, b: nat)
    requires
        a <= b,
    ensures
        pow256(a) <= pow256(b),
    decreases b,
{
    if a < b {
        lemma_pow256_le(a, (b - 1) as nat);
    }
}

/// Appends the bytes of a slice.
pub fn push_bytes(out: &mut Vec<u8>, bytes: &[u8])
    ensures
        final(out)@ == old(out)@ + bytes@,
{
    let mut i: usize = 0;
    proof {
        assert(out@ =~= old(out)@ + bytes@.take(0));
    }
    while i < bytes.len()
        invariant
            i <= bytes.len(),
            out@ == old(out)@ + bytes@.take(i as int),
        decreases bytes.len() - i,
    {
        out.push(bytes[i]);
        proof {
            assert(out@ =~= old(out)@ + bytes@.take(i + 1));
        }
        i += 1;
    }
    proof {
        assert(bytes@.take(bytes@.len() as int) =~= bytes@);
    }
}

/// The 16 bytes of each element of a sequence.
pub open spec fn elem_bytes<F: TowerField>(elems: Seq<F>) -> Seq<u8>
    decreases elems.len(),
{
    if elems.len() == 0 {
        Seq::empty()
    } else {
        elem_bytes(elems.drop_last()) + le_bytes(elems.last().bits() as nat, 16)
    }
}

/// Two lists are equal when they end in equal parts of one length and start
/// with equal parts.
pub proof fn lemma_concat_parts(a: Seq<u8>, b: Seq<u8>, c: Seq<u8>, d: Seq<u8>)
    requires
        a + b == c + d,
        b.len() == d.len(),
    ensures
        a == c,
        b == d,
{
    let x = a + b;
    let y = c + d;
    assert(x.len() == a.len() + b.len() && y.len() == c.len() + d.len());
    assert(x.take(a.len() as int) =~= a);
    assert(y.take(a.len() as int) =~= c);
    assert(x.skip(a.len() as int) =~= b);
    assert(y.skip(a.len() as int) =~= d);
}

/// There are 16 bytes an element.
pub proof fn lemma_elem_bytes_len<F: TowerField>(elems: Seq<F>)
    ensures
        elem_bytes(elems).len() == 16 * elems.len(),
    decreases elems.len(),
{
    if elems.len() > 0 {
        lemma_elem_bytes_len(elems.drop_last());
        lemma_le_bytes_len(elems.last().bits() as nat, 16);
    }
}

/// Elements can be told from their bytes.
pub proof fn lemma_elem_bytes_injective<F: TowerField>(a: Seq<F>, b: Seq<F>)
    requires
        a.len() == b.len(),
        elem_bytes(a) == elem_bytes(b),
    ensures
        a == b,
    decreases a.len(),
{
    if a.len() > 0 {
        let (x, y) = (a.last(), b.last());
        let (p, q) = (le_bytes(x.bits() as nat, 16), le_bytes(y.bits() as nat, 16));
        lemma_pow256_16();
        lemma_le_round_trip(x.bits() as nat, 16);
        lemma_le_round_trip(y.bits() as nat, 16);
        lemma_concat_parts(elem_bytes(a.drop_last()), p, elem_bytes(b.drop_last()), q);
        lemma_elem_bytes_injective(a.drop_last(), b.drop_last());
        F::of_u128_bits(x);
        F::of_u128_bits(y);
        assert(a =~= a.drop_last().push(x));
        assert(b =~= b.drop_last().push(y));
    } else {
        assert(a =~= b);
    }
}

/// Appends the bytes of every element.
pub fn push_elems<F: TowerField>(out: &mut Vec<u8>, elems: &[F])
    ensures
        final(out)@ == old(out)@ + elem_bytes(elems@),
{
    let mut i: usize = 0;
    proof {
        assert(out@ =~= old(out)@ + elem_bytes(elems@.take(0)));
    }
    while i < elems.len()
        invariant
            i <= elems.len(),
            out@ == old(out)@ + elem_bytes(elems@.take(i as int)),
        decreases elems.len() - i,
    {
        let ghost before = out@;
        push_le(out, elems[i].to_u128(), 16);
        proof {
            let part = elems@.take(i + 1);
            assert(part.drop_last() =~= elems@.take(i as int));
            assert(out@ =~= old(out)@ + elem_bytes(part));
        }
        i += 1;
    }
    proof {
        assert(elems@.take(elems@.len() as int) =~= elems@);
    }
}

/// Whether two digests are equal.
pub fn same_hash(a: &HashOutput, b: &HashOutput) -> (r: bool)
    ensures
        r == (*a == *b),
{
    let mut i: usize = 0;
    while i < 32
        invariant
            i <= 32,
            forall|k: int| 0 <= k < i ==> a[k] == b[k],
        decreases 32 - i,
    {
        if a[i] != b[i] {
            return false;
        }
        i += 1;
    }
    proof {
        assert(*a =~= *b);
    }
    true
}

/// Bytes can be told from their value.
pub proof fn lemma_le_bytes_value(bytes: Seq<u8>)
    ensures
        le_bytes(le_value(bytes), bytes.len()) == bytes,
    decreases bytes.len(),
{
    if bytes.len() > 0 {
        let rest = bytes.drop_first();
        lemma_le_bytes_value(rest);
        let v = le_value(rest);
        assert((bytes[0] as nat + 256 * v) % 256 == bytes[0]);
        assert((bytes[0] as nat + 256 * v) / 256 == v);
        assert(seq![bytes[0]] + rest =~= bytes);
    } else {
        assert(bytes =~= Seq::<u8>::empty());
    }
}

} // verus!
