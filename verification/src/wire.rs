//! Big-endian fixed-width integer fields of the DNS wire format.

use vstd::prelude::*;

verus! {

/// 256 raised to `w`: the number of values a `w`-byte field can hold.
pub open spec fn pow256(w: nat) -> int
    decreases w,
{
    if w == 0 {
        1
    } else {
        256 * pow256((w - 1) as nat)
    }
}

/// The `w` big-endian bytes of `v` (modulo `256^w`).
pub open spec fn be_bytes(v: int, w: nat) -> Seq<u8>
    decreases w,
{
    if w == 0 {
        Seq::empty()
    } else {
        be_bytes(v / 256, (w - 1) as nat).push((v % 256) as u8)
    }
}

/// The value of a big-endian byte string.
pub open spec fn be_val(s: Seq<u8>) -> int
    decreases s.len(),
{
    if s.len() == 0 {
        0
    } else {
        be_val(s.drop_last()) * 256 + s.last()
    }
}

/// `be_bytes` always yields exactly `w` bytes.
pub proof fn lemma_be_bytes_len(v: int, w: nat)
    ensures
        be_bytes(v, w).len() == w,
    decreases w,
{
    if w > 0 {
        lemma_be_bytes_len(v / 256, (w - 1) as nat);
    }
}

/// A big-endian byte string's value is nonnegative and below
/// `256^len`.
pub proof fn lemma_be_val_bound(s: Seq<u8>)
    ensures
        0 <= be_val(s) < pow256(s.len()),
    decreases s.len(),
{
    if s.len() > 0 {
        lemma_be_val_bound(s.drop_last());
        assert(be_val(s.drop_last()) * 256 + s.last() < pow256(s.len())) by (nonlinear_arith)
            requires
                0 <= be_val(s.drop_last()) < pow256((s.len() - 1) as nat),
                0 <= s.last() < 256,
                pow256(s.len()) == 256 * pow256((s.len() - 1) as nat),
        ;
    }
}

/// Reading back the big-endian bytes of an in-range value gives the
/// value.
pub proof fn lemma_be_round_trip(v: int, w: nat)
    requires
        0 <= v < pow256(w),
    ensures
        be_val(be_bytes(v, w)) == v,
    decreases w,
{
    if w > 0 {
        assert(0 <= v / 256 < pow256((w - 1) as nat)) by (nonlinear_arith)
            requires
                0 <= v < pow256(w),
                pow256(w) == 256 * pow256((w - 1) as nat),
        ;
        lemma_be_round_trip(v / 256, (w - 1) as nat);
        let s = be_bytes(v, w);
        lemma_be_bytes_len(v / 256, (w - 1) as nat);
        assert(s.drop_last() =~= be_bytes(v / 256, (w - 1) as nat));
        assert(s.last() == (v % 256) as u8);
        assert(v == (v / 256) * 256 + v % 256) by (nonlinear_arith)
            requires
                0 <= v,
        ;
    }
}

/// Appends the `w` big-endian bytes of `v`.
pub fn push_be(out: &mut Vec<u8>, v: u128, w: usize)
    ensures
        final(out)@ == old(out)@ + be_bytes(v as int, w as nat),
    decreases w,
{
    if w == 0 {
        proof {
            assert(out@ =~= out@ + be_bytes(v as int, 0));
        }
        return ;
    }
    push_be(out, v / 256, w - 1);
    out.push((v % 256) as u8);
    proof {
        assert((v as int) / 256 == (v / 256) as int);
        assert((v as int) % 256 == (v % 256) as int);
        assert(out@ =~= old(out)@ + be_bytes(v as int, w as nat));
    }
}

/// Reads a `w`-byte big-endian value at `pos`; `w` is at most 16.
pub fn read_be(data: &[u8], pos: usize, w: usize) -> (r: u128)
    requires
        pos + w <= data@.len(),
        w <= 16,
    ensures
        r as int == be_val(data@.subrange(pos as int, pos as int + w as int)),
    decreases w,
{
    if w == 0 {
        proof {
            assert(data@.subrange(pos as int, pos as int) =~= Seq::<u8>::empty());
        }
        return 0;
    }
    // binds the slice length so the index arithmetic below is known
    // to fit in usize
    let _len = data.len();
    let hi = read_be(data, pos, w - 1);
    let b = *vstd::slice::slice_index_get(data, pos + (w - 1));
    let ghost s = data@.subrange(pos as int, pos as int + w as int);
    proof {
        assert(s.drop_last() =~= data@.subrange(pos as int, pos as int + w as int - 1));
        assert(s.last() == data@[pos as int + w as int - 1]);
        lemma_be_val_bound(s);
        lemma_be_val_bound(s.drop_last());
        lemma_pow256_mono(w as nat, 16);
        reveal_with_fuel(pow256, 17);
        assert(pow256(16) == 0x100000000000000000000000000000000);
    }
    hi * 256 + (b as u128)
}

/// A subrange of a buffer region equals the same subrange of the
/// region's known contents.
pub proof fn lemma_subrange_transfer(data: Seq<u8>, pos: int, w: Seq<u8>, a: int, b: int)
    requires
        0 <= pos,
        pos + w.len() <= data.len(),
        data.subrange(pos, pos + w.len()) == w,
        0 <= a <= b <= w.len(),
    ensures
        data.subrange(pos + a, pos + b) == w.subrange(a, b),
{
    assert forall|j: int| 0 <= j < b - a implies data.subrange(pos + a, pos + b)[j] == w.subrange(
        a,
        b,
    )[j] by {
        assert(data.subrange(pos, pos + w.len())[a + j] == w[a + j]);
        assert(data.subrange(pos + a, pos + b)[j] == data[pos + a + j]);
        assert(data[pos + a + j] == data.subrange(pos, pos + w.len())[a + j]);
    }
    assert(data.subrange(pos + a, pos + b) =~= w.subrange(a, b));
}

/// The two halves of a concatenation are its subranges.
pub proof fn lemma_concat_sub(a: Seq<u8>, b: Seq<u8>)
    ensures
        (a + b).subrange(0, a.len() as int) == a,
        (a + b).subrange(a.len() as int, (a + b).len() as int) == b,
{
    assert((a + b).subrange(0, a.len() as int) =~= a);
    assert((a + b).subrange(a.len() as int, (a + b).len() as int) =~= b);
}

/// A subrange within the left half of a concatenation ignores the
/// right half.
pub proof fn lemma_prefix_sub(a: Seq<u8>, b: Seq<u8>, x: int, y: int)
    requires
        0 <= x <= y <= a.len(),
    ensures
        (a + b).subrange(x, y) == a.subrange(x, y),
{
    assert((a + b).subrange(x, y) =~= a.subrange(x, y));
}

/// `pow256` grows with its exponent.
pub proof fn lemma_pow256_mono(a: nat, b: nat)
    requires
        a <= b,
    ensures
        pow256(a) <= pow256(b),
        pow256(a) >= 1,
    decreases b,
{
    if a < b {
        lemma_pow256_mono(a, (b - 1) as nat);
        assert(pow256(b) == 256 * pow256((b - 1) as nat));
        assert(256 * pow256((b - 1) as nat) >= pow256((b - 1) as nat)) by (nonlinear_arith)
            requires
                pow256((b - 1) as nat) >= 1,
        ;
    } else if a == b && a == 0 {
    } else {
        lemma_pow256_mono((a - 1) as nat, (b - 1) as nat);
        assert(256 * pow256((b - 1) as nat) >= 256 * pow256((a - 1) as nat)) by (nonlinear_arith)
            requires
                pow256((b - 1) as nat) >= pow256((a - 1) as nat),
        ;
        assert(pow256((a - 1) as nat) >= 1);
        assert(pow256(a) >= 1) by (nonlinear_arith)
            requires
                pow256((a - 1) as nat) >= 1,
                pow256(a) == 256 * pow256((a - 1) as nat),
        ;
    }
}

} // verus!
