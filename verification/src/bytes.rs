//! Little-endian integers in byte sequences.

use vstd::prelude::*;

verus! {

/// 256 to the power `n`: one more than the largest integer that `n` bytes can hold.
pub open spec fn pow256(n: nat) -> nat
    decreases n,
{
    if n == 0 {
        1
    } else {
        256 * pow256((n - 1) as nat)
    }
}

/// The integer whose little-endian digits in base 256 are `s`.
pub open spec fn le_value(s: Seq<u8>) -> nat
    decreases s.len(),
{
    if s.len() == 0 {
        0
    } else {
        s[0] as nat + 256 * le_value(s.subrange(1, s.len() as int))
    }
}

/// The `n` lowest little-endian digits of `v` in base 256.
pub open spec fn le_bytes(v: nat, n: nat) -> Seq<u8>
    decreases n,
{
    if n == 0 {
        Seq::empty()
    } else {
        seq![(v % 256) as u8] + le_bytes(v / 256, (n - 1) as nat)
    }
}

pub proof fn lemma_pow256_values()
    ensures
        pow256(1) == 0x100,
        pow256(2) == 0x1_0000,
        pow256(4) == 0x1_0000_0000,
        pow256(8) == 0x1_0000_0000_0000_0000,
{
    reveal_with_fuel(pow256, 9);
}

pub proof fn lemma_pow256_grows(a: nat, b: nat)
    requires
        a <= b,
    ensures
        1 <= pow256(a) <= pow256(b),
    decreases b,
{
    if b > 0 {
        if a < b {
            lemma_pow256_grows(a, (b - 1) as nat);
        } else {
            lemma_pow256_grows((a - 1) as nat, (b - 1) as nat);
        }
    }
}

/// `n` bytes hold an integer below `pow256(n)`.
pub proof fn lemma_le_value_bound(s: Seq<u8>)
    ensures
        le_value(s) < pow256(s.len()),
    decreases s.len(),
{
    if s.len() > 0 {
        lemma_le_value_bound(s.subrange(1, s.len() as int));
    }
}

pub proof fn lemma_le_bytes_len(v: nat, n: nat)
    ensures
        le_bytes(v, n).len() == n,
    decreases n,
{
    if n > 0 {
        lemma_le_bytes_len(v / 256, (n - 1) as nat);
    }
}

/// Reading back the digits of an integer that fits gives the integer.
pub proof fn lemma_le_round_trip(v: nat, n: nat)
    requires
        v < pow256(n),
    ensures
        le_bytes(v, n).len() == n,
        le_value(le_bytes(v, n)) == v,
    decreases n,
{
    if n > 0 {
        lemma_le_round_trip(v / 256, (n - 1) as nat);
        let s = le_bytes(v, n);
        assert(s.subrange(1, s.len() as int) =~= le_bytes(v / 256, (n - 1) as nat));
    }
}

/// The digits of what was read are the bytes that were read.
pub proof fn lemma_le_value_bytes(s: Seq<u8>)
    ensures
        le_bytes(le_value(s), s.len()) == s,
    decreases s.len(),
{
    if s.len() > 0 {
        let rest = s.subrange(1, s.len() as int);
        lemma_le_value_bytes(rest);
        let v = le_value(s);
        assert(v % 256 == s[0] as nat);
        assert(v / 256 == le_value(rest));
        assert(seq![s[0]] + rest =~= s);
    }
}

/// Appends the `width` lowest little-endian bytes of `value`.
pub fn push_le(out: &mut Vec<u8>, value: u64, width: usize)
    ensures
        final(out)@ == old(out)@ + le_bytes(value as nat, width as nat),
{
    let mut rest: u64 = value;
    let mut done: usize = 0;
    while done < width
        invariant
            done <= width,
            out@ + le_bytes(rest as nat, (width - done) as nat) == old(out)@ + le_bytes(
                value as nat,
                width as nat,
            ),
        decreases width - done,
    {
        let ghost before = out@;
        let ghost tail = le_bytes((rest / 256) as nat, (width - done - 1) as nat);
        out.push((rest % 256) as u8);
        assert(out@ + tail =~= before + (seq![(rest % 256) as u8] + tail));
        rest = rest / 256;
        done = done + 1;
    }
    assert(out@ + le_bytes(rest as nat, 0) =~= out@);
}

/// The little-endian integer in the `width` bytes at `pos`.
pub fn read_le(data: &[u8], pos: usize, width: usize) -> (value: u64)
    requires
        width <= 8,
        pos + width <= data@.len(),
    ensures
        value == le_value(data@.subrange(pos as int, pos + width)),
{
    let size: usize = data.len();
    let mut left: usize = width;
    let mut value: u64 = 0;
    proof {
        lemma_pow256_values();
    }
    while left > 0
        invariant
            left <= width <= 8,
            pos + width <= size == data@.len(),
            value == le_value(data@.subrange(pos + left, pos + width)),
            pow256(8) == 0x1_0000_0000_0000_0000,
        decreases left,
    {
        let ghost read = data@.subrange(pos + left, pos + width);
        let ghost more = data@.subrange(pos + left - 1, pos + width);
        proof {
            assert(more.subrange(1, more.len() as int) =~= read);
            lemma_le_value_bound(more);
            lemma_pow256_grows(more.len(), 8);
            assert(more[0] == data@[pos + left - 1]);
        }
        left = left - 1;
        value = value * 256 + data[pos + left] as u64;
    }
    value
}

/// Appends a copy of `bytes`.
pub fn push_all(out: &mut Vec<u8>, bytes: &[u8])
    ensures
        final(out)@ == old(out)@ + bytes@,
{
    out.extend_from_slice(bytes);
    assert(out@ =~= old(out)@ + bytes@);
}

/// A copy of the bytes from `from` up to `to`.
pub fn copy_range(data: &[u8], from: usize, to: usize) -> (out: Vec<u8>)
    requires
        from <= to <= data@.len(),
    ensures
        out@ == data@.subrange(from as int, to as int),
{
    let mut out: Vec<u8> = Vec::new();
    out.extend_from_slice(vstd::slice::slice_subrange(data, from, to));
    assert(out@ =~= data@.subrange(from as int, to as int));
    out
}

/// `n` zero bytes.
pub open spec fn zeros(n: nat) -> Seq<u8> {
    Seq::new(n, |i: int| 0u8)
}

/// Appends zero bytes until `out` holds `len` bytes; a longer `out` is left as it is.
pub fn pad_to(out: &mut Vec<u8>, len: usize)
    ensures
        final(out)@ == old(out)@ + zeros(if len > old(out)@.len() { (len - old(out)@.len()) as nat } else { 0 }),
{
    let ghost start = out@;
    while out.len() < len
        invariant
            out@.len() >= start.len(),
            out@ =~= start + zeros((out@.len() - start.len()) as nat),
            out@.len() <= len || out@ == start,
        decreases len - out@.len(),
    {
        out.push(0);
    }
}

} // verus!
