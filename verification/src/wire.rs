//! Little-endian encoding of the fixed-layout records handed to user space.

use vstd::prelude::*;

verus! {

/// The `n` low-order bytes of `x`, least significant first.
pub open spec fn le_bytes(x: nat, n: nat) -> Seq<u8>
    decreases n,
{
    if n == 0 {
        Seq::empty()
    } else {
        seq![(x % 256) as u8].add(le_bytes(x / 256, (n - 1) as nat))
    }
}

/// An encoding of `n` bytes has `n` bytes.
pub proof fn lemma_le_bytes_len(x: nat, n: nat)
    ensures
        le_bytes(x, n).len() == n,
    decreases n,
{
    if n > 0 {
        lemma_le_bytes_len(x / 256, (n - 1) as nat);
    }
}

/// Appends the `n` low-order bytes of `x` to `out`, least significant first.
pub fn push_le(out: &mut Vec<u8>, x: u64, n: usize)
    ensures
        final(out)@ == old(out)@.add(le_bytes(x as nat, n as nat)),
{
    let mut cur: u64 = x;
    let mut i: usize = 0;
    assert(out@.add(le_bytes(cur as nat, (n - i) as nat)) =~= old(out)@.add(
        le_bytes(x as nat, n as nat),
    ));
    while i < n
        invariant
            i <= n,
            out@.add(le_bytes(cur as nat, (n - i) as nat)) == old(out)@.add(
                le_bytes(x as nat, n as nat),
            ),
        decreases n - i,
    {
        let b: u8 = (cur % 256) as u8;
        proof {
            let rest = le_bytes(cur as nat / 256, (n - i - 1) as nat);
            assert(le_bytes(cur as nat, (n - i) as nat) == seq![b].add(rest));
            assert(out@.push(b).add(rest) =~= out@.add(seq![b].add(rest)));
        }
        out.push(b);
        cur = cur / 256;
        i += 1;
    }
    assert(le_bytes(cur as nat, 0) =~= Seq::<u8>::empty());
    assert(out@.add(Seq::<u8>::empty()) =~= out@);
}

/// Appends `n` zero bytes to `out`.
pub fn push_zeros(out: &mut Vec<u8>, n: usize)
    ensures
        final(out)@ == old(out)@.add(Seq::new(n as nat, |i: int| 0u8)),
{
    let mut i: usize = 0;
    assert(out@ =~= old(out)@.add(Seq::new(0nat, |i: int| 0u8)));
    while i < n
        invariant
            i <= n,
            out@ == old(out)@.add(Seq::new(i as nat, |i: int| 0u8)),
        decreases n - i,
    {
        out.push(0u8);
        i += 1;
        assert(out@ =~= old(out)@.add(Seq::new(i as nat, |i: int| 0u8)));
    }
}

} // verus!
