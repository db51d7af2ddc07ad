use vstd::arithmetic::power2::{lemma2_to64, lemma_pow2_pos, lemma_pow2_unfold, pow2};
use vstd::prelude::*;

verus! {

/// The `w` low bits of `n`, most significant first.
pub open spec fn bits_of(n: nat, w: nat) -> Seq<bool>
    decreases w,
{
    if w == 0 {
        Seq::empty()
    } else {
        bits_of(n / 2, (w - 1) as nat).push(n % 2 == 1)
    }
}

/// The unsigned integer that a bit sequence spells, most significant first.
pub open spec fn value_of(b: Seq<bool>) -> nat
    decreases b.len(),
{
    if b.len() == 0 {
        0
    } else {
        2 * value_of(b.drop_last()) + if b.last() {
            1nat
        } else {
            0nat
        }
    }
}

/// The integer held by the `w` bits that start at `pos`.
pub open spec fn field(b: Seq<bool>, pos: int, w: int) -> nat {
    value_of(b.subrange(pos, pos + w))
}

/// `n` zero bits.
pub open spec fn zeros(n: nat) -> Seq<bool> {
    Seq::new(n, |i: int| false)
}

/// A bit sequence followed by as many zero bits as bring it to a whole number of bytes.
pub open spec fn padded(b: Seq<bool>) -> Seq<bool> {
    b + zeros(((8 - b.len() % 8) % 8) as nat)
}

/// The bytes that a bit sequence whose length is a multiple of eight packs into.
pub open spec fn bytes_of(b: Seq<bool>) -> Seq<u8> {
    Seq::new(b.len() / 8, |i: int| field(b, 8 * i, 8) as u8)
}

/// The bits of a byte sequence, eight per byte, most significant first.
pub open spec fn bits_of_bytes(bytes: Seq<u8>) -> Seq<bool>
    decreases bytes.len(),
{
    if bytes.len() == 0 {
        Seq::empty()
    } else {
        bits_of_bytes(bytes.drop_last()) + bits_of(bytes.last() as nat, 8)
    }
}

pub proof fn lemma_bits_of_len(n: nat, w: nat)
    ensures
        bits_of(n, w).len() == w,
    decreases w,
{
    if w > 0 {
        lemma_bits_of_len(n / 2, (w - 1) as nat);
    }
}

pub proof fn lemma_value_bound(b: Seq<bool>)
    ensures
        value_of(b) < pow2(b.len()),
    decreases b.len(),
{
    if b.len() > 0 {
        lemma_value_bound(b.drop_last());
        lemma_pow2_unfold(b.len());
    } else {
        lemma_pow2_pos(0);
    }
}

/// Reading back `w` bits written from `n` gives `n` when it fits.
pub proof fn lemma_value_of_bits(n: nat, w: nat)
    requires
        n < pow2(w),
    ensures
        value_of(bits_of(n, w)) == n,
    decreases w,
{
    if w > 0 {
        lemma_pow2_unfold(w);
        lemma_bits_of_len(n / 2, (w - 1) as nat);
        let b = bits_of(n, w);
        assert(b.drop_last() =~= bits_of(n / 2, (w - 1) as nat));
        lemma_value_of_bits(n / 2, (w - 1) as nat);
    } else {
        lemma_pow2_pos(0);
        assert(pow2(0) == 1) by {
            lemma2_to64();
        }
    }
}

/// Writing back the value of a bit sequence with its own width gives the sequence.
pub proof fn lemma_bits_of_value(b: Seq<bool>)
    ensures
        bits_of(value_of(b), b.len()) =~= b,
    decreases b.len(),
{
    if b.len() > 0 {
        let v = value_of(b);
        let last: nat = if b.last() { 1 } else { 0 };
        assert(v / 2 == value_of(b.drop_last()));
        assert(v % 2 == last);
        lemma_bits_of_value(b.drop_last());
        assert(b =~= b.drop_last().push(b.last()));
    }
}

/// Unpacking the bytes that a whole number of bytes' worth of bits packs into
/// gives back those bits.
pub proof fn lemma_bits_of_bytes_of(b: Seq<bool>)
    requires
        b.len() % 8 == 0,
    ensures
        bits_of_bytes(bytes_of(b)) =~= b,
    decreases b.len(),
{
    if b.len() > 0 {
        let n = b.len() - 8;
        let front = b.subrange(0, n);
        let chunk = b.subrange(n, b.len() as int);
        assert(bytes_of(b).drop_last() =~= bytes_of(front)) by {
            assert forall|i: int| 0 <= i < front.len() / 8 implies #[trigger] front.subrange(
                8 * i,
                8 * i + 8,
            ) =~= b.subrange(8 * i, 8 * i + 8) by {}
        }
        lemma_bits_of_bytes_of(front);
        lemma_value_bound(chunk);
        assert(pow2(8) == 256) by {
            lemma2_to64();
        }
        assert(bytes_of(b).last() as nat == value_of(chunk));
        lemma_bits_of_value(chunk);
        assert(b =~= front + chunk);
    }
}

/// Appends the `w` low bits of `n` to `out`, most significant first.
pub fn push_bits(out: &mut Vec<bool>, n: u8, w: usize)
    requires
        w <= 8,
    ensures
        final(out)@ == old(out)@ + bits_of(n as nat, w as nat),
    decreases w,
{
    if w > 0 {
        push_bits(out, n / 2, w - 1);
        out.push(n % 2 == 1);
        assert(bits_of(n as nat, w as nat) == bits_of((n / 2) as nat, (w - 1) as nat).push(
            n % 2 == 1,
        ));
    } else {
        assert(old(out)@ + bits_of(n as nat, 0) =~= old(out)@);
    }
}

} // verus!
