//! Small operations on sequences of copyable values.
use vstd::prelude::*;

verus! {

/// Copies a slice.
pub fn copied<F: Copy>(s: &[F]) -> (v: Vec<F>)
    ensures
        v@ == s@,
{
    let mut v: Vec<F> = Vec::new();
    let mut i: usize = 0;
    while i < s.len()
        invariant
            i <= s.len(),
            v@ == s@.take(i as int),
        decreases s.len() - i,
    {
        v.push(s[i]);
        i += 1;
    }
    proof {
        assert(v@ =~= s@);
    }
    v
}

/// The values in the opposite order.
pub fn reversed<F: Copy>(s: &[F]) -> (v: Vec<F>)
    ensures
        v@ == s@.reverse(),
{
    let mut v: Vec<F> = Vec::new();
    let mut i: usize = s.len();
    while i > 0
        invariant
            i <= s.len(),
            v.len() == s.len() - i,
            forall|k: int| 0 <= k < v.len() ==> v[k] == s[s.len() - 1 - k],
        decreases i,
    {
        i -= 1;
        v.push(s[i]);
    }
    proof {
        assert(v@ =~= s@.reverse());
    }
    v
}

/// The values from `lo` up to `hi`.
pub fn subrange<F: Copy>(s: &[F], lo: usize, hi: usize) -> (v: Vec<F>)
    requires
        lo <= hi <= s.len(),
    ensures
        v@ == s@.subrange(lo as int, hi as int),
{
    let mut v: Vec<F> = Vec::new();
    let mut i: usize = lo;
    while i < hi
        invariant
            lo <= i <= hi <= s.len(),
            v@ == s@.subrange(lo as int, i as int),
        decreases hi - i,
    {
        v.push(s[i]);
        proof {
            assert(v@ =~= s@.subrange(lo as int, i + 1));
        }
        i += 1;
    }
    v
}

} // verus!
