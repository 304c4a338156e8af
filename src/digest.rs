//! Byte framing fed to the hasher, and the hasher itself.
use std::collections::hash_map::DefaultHasher;
use std::hash::Hasher;
use vstd::prelude::*;
use vstd::std_specs::hash::DefaultHasherAdditionalSpecFns;

verus! {

/// The 64-bit value that std's `DefaultHasher` yields after one write of `bytes`.
pub open spec fn digest_of(bytes: Seq<u8>) -> u64 {
    DefaultHasher::spec_finish(seq![bytes])
}

/// Hashes `bytes` with a fresh `DefaultHasher`, whose keys are fixed, so the
/// result depends on the bytes alone.
pub fn digest_bytes(bytes: &Vec<u8>) -> (r: u64)
    ensures
        r == digest_of(bytes@),
{
    let mut hasher = DefaultHasher::new();
    hasher.write(bytes.as_slice());
    assert(hasher@ =~= seq![bytes@]);
    hasher.finish()
}

/// The `k` low-order base-256 digits of `v`, least significant first.
pub open spec fn le_bytes(v: nat, k: nat) -> Seq<u8>
    decreases k,
{
    if k == 0 {
        seq![]
    } else {
        seq![(v % 256) as u8] + le_bytes(v / 256, (k - 1) as nat)
    }
}

/// `256` to the power `k`.
pub open spec fn radix(k: nat) -> nat
    decreases k,
{
    if k == 0 {
        1
    } else {
        256 * radix((k - 1) as nat)
    }
}

/// The eight little-endian bytes of `v`.
pub open spec fn u64_bytes(v: nat) -> Seq<u8> {
    le_bytes(v, 8)
}

/// A byte string preceded by its length, so that concatenations stay unambiguous.
pub open spec fn framed(s: Seq<u8>) -> Seq<u8> {
    u64_bytes(s.len()) + s
}

/// The frames of all pieces, one after the other.
pub open spec fn frames(pieces: Seq<Seq<u8>>) -> Seq<u8>
    decreases pieces.len(),
{
    if pieces.len() == 0 {
        seq![]
    } else {
        framed(pieces[0]) + frames(pieces.drop_first())
    }
}

pub proof fn lemma_le_bytes_len(v: nat, k: nat)
    ensures
        le_bytes(v, k).len() == k,
    decreases k,
{
    if k > 0 {
        lemma_le_bytes_len(v / 256, (k - 1) as nat);
    }
}

/// Distinct numbers below `256^k` have distinct `k`-digit encodings.
pub proof fn lemma_le_bytes_injective(a: nat, b: nat, k: nat)
    requires
        a < radix(k),
        b < radix(k),
        le_bytes(a, k) == le_bytes(b, k),
    ensures
        a == b,
    decreases k,
{
    if k > 0 {
        let r = radix((k - 1) as nat);
        assert(a / 256 < r) by (nonlinear_arith)
            requires a < 256 * r;
        assert(b / 256 < r) by (nonlinear_arith)
            requires b < 256 * r;
        let (la, lb) = (le_bytes(a, k), le_bytes(b, k));
        assert(la[0] == lb[0]);
        assert(le_bytes(a / 256, (k - 1) as nat) == la.drop_first());
        assert(le_bytes(b / 256, (k - 1) as nat) == lb.drop_first());
        lemma_le_bytes_injective(a / 256, b / 256, (k - 1) as nat);
        assert(a % 256 == b % 256);
        assert(a == 256 * (a / 256) + a % 256) by (nonlinear_arith);
        assert(b == 256 * (b / 256) + b % 256) by (nonlinear_arith);
    } else {
        assert(a == 0 && b == 0);
    }
}

proof fn lemma_radix_8()
    ensures
        radix(8) == 0x1_0000_0000_0000_0000,
{
    reveal_with_fuel(radix, 9);
}

/// A frame can be told apart from what follows it.
pub proof fn lemma_framed_prefix(a: Seq<u8>, b: Seq<u8>, ra: Seq<u8>, rb: Seq<u8>)
    requires
        a.len() < 0x1_0000_0000_0000_0000,
        b.len() < 0x1_0000_0000_0000_0000,
        framed(a) + ra == framed(b) + rb,
    ensures
        a == b,
        ra == rb,
{
    let (x, y) = (framed(a) + ra, framed(b) + rb);
    lemma_le_bytes_len(a.len(), 8);
    lemma_le_bytes_len(b.len(), 8);
    lemma_radix_8();
    assert(x.subrange(0, 8) == u64_bytes(a.len()));
    assert(y.subrange(0, 8) == u64_bytes(b.len()));
    lemma_le_bytes_injective(a.len(), b.len(), 8);
    assert(x.subrange(8, 8 + a.len() as int) == a);
    assert(y.subrange(8, 8 + b.len() as int) == b);
    assert(x.subrange(8 + a.len() as int, x.len() as int) == ra);
    assert(y.subrange(8 + b.len() as int, y.len() as int) == rb);
}

/// Every piece is shorter than `2^64` bytes.
pub open spec fn pieces_fit(pieces: Seq<Seq<u8>>) -> bool {
    forall|i: int| 0 <= i < pieces.len() ==> pieces[i].len() < 0x1_0000_0000_0000_0000
}

/// The framed concatenation determines its pieces.
pub proof fn lemma_frames_injective(xs: Seq<Seq<u8>>, ys: Seq<Seq<u8>>)
    requires
        pieces_fit(xs),
        pieces_fit(ys),
        frames(xs) == frames(ys),
    ensures
        xs == ys,
    decreases xs.len(),
{
    if xs.len() == 0 {
        if ys.len() > 0 {
            lemma_le_bytes_len(ys[0].len(), 8);
            assert(frames(ys).len() >= 8);
        }
        assert(ys.len() == 0);
        assert(xs =~= ys);
    } else {
        if ys.len() == 0 {
            lemma_le_bytes_len(xs[0].len(), 8);
            assert(frames(xs).len() >= 8);
        }
        lemma_framed_prefix(xs[0], ys[0], frames(xs.drop_first()), frames(ys.drop_first()));
        lemma_frames_injective(xs.drop_first(), ys.drop_first());
        assert(xs =~= seq![xs[0]] + xs.drop_first());
        assert(ys =~= seq![ys[0]] + ys.drop_first());
    }
}

/// Framing one more piece appends its frame.
pub proof fn lemma_frames_push(pieces: Seq<Seq<u8>>, p: Seq<u8>)
    ensures
        frames(pieces.push(p)) == frames(pieces) + framed(p),
    decreases pieces.len(),
{
    if pieces.len() == 0 {
        let q = pieces.push(p);
        assert(q.drop_first().len() == 0);
        assert(q[0] == p);
        assert(frames(q) == framed(p) + frames(q.drop_first()));
        assert(frames(q) =~= framed(p));
        assert(frames(pieces) =~= Seq::<u8>::empty());
    } else {
        assert(pieces.push(p).drop_first() =~= pieces.drop_first().push(p));
        lemma_frames_push(pieces.drop_first(), p);
        assert(frames(pieces.push(p)) =~= frames(pieces) + framed(p));
    }
}

/// Appends the eight little-endian bytes of `v`.
pub fn push_u64(out: &mut Vec<u8>, v: u64)
    ensures
        final(out)@ == old(out)@ + u64_bytes(v as nat),
{
    let mut x: u64 = v;
    let mut i: usize = 0;
    while i < 8
        invariant
            i <= 8,
            old(out)@ + u64_bytes(v as nat) == out@ + le_bytes(x as nat, (8 - i) as nat),
        decreases 8 - i,
    {
        let ghost before = out@;
        let b: u8 = (x % 256) as u8;
        out.push(b);
        assert(le_bytes(x as nat, (8 - i) as nat) == seq![b] + le_bytes((x / 256) as nat, (8 - i - 1) as nat));
        assert(out@ + le_bytes((x / 256) as nat, (8 - i - 1) as nat) =~= before + le_bytes(x as nat, (8 - i) as nat));
        x = x / 256;
        i = i + 1;
    }
    assert(out@ + le_bytes(x as nat, 0) =~= out@);
}

/// Appends `bytes` preceded by its length.
pub fn push_framed(out: &mut Vec<u8>, bytes: &Vec<u8>)
    ensures
        final(out)@ == old(out)@ + framed(bytes@),
{
    push_u64(out, bytes.len() as u64);
    let ghost mid = out@;
    let mut i: usize = 0;
    while i < bytes.len()
        invariant
            i <= bytes.len(),
            out@ == mid + bytes@.subrange(0, i as int),
            mid == old(out)@ + u64_bytes(bytes@.len()),
        decreases bytes.len() - i,
    {
        out.push(bytes[i]);
        assert(bytes@.subrange(0, i + 1) =~= bytes@.subrange(0, i as int).push(bytes@[i as int]));
        i = i + 1;
    }
    assert(bytes@.subrange(0, bytes.len() as int) =~= bytes@);
    assert(out@ =~= old(out)@ + framed(bytes@));
}

} // verus!
