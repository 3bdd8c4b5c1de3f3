//! Variable-length unsigned integers: seven payload bits per byte, least
//! significant group first, the high bit of a byte set while more follow.
//! A 64-bit value takes at most ten bytes; of the tenth only the lowest bit
//! counts.

use vstd::prelude::*;

verus! {

/// Exclusive bound on the value that may still follow from byte `k` on.
pub open spec fn cap(k: nat) -> nat
    decreases 10 - k,
{
    if k >= 9 {
        2
    } else {
        128 * cap(k + 1)
    }
}

/// The varint that starts at `pos` as the `k`-th byte of an encoding:
/// its value and the position just behind it, or `None` where the buffer
/// ends first.
pub open spec fn varint_at(b: Seq<u8>, pos: int, k: nat) -> Option<(nat, int)>
    decreases 10 - k,
{
    if pos < 0 || pos >= b.len() {
        None
    } else if k >= 9 {
        Some(((b[pos] % 2) as nat, pos + 1))
    } else if b[pos] < 128 {
        Some((b[pos] as nat, pos + 1))
    } else {
        match varint_at(b, pos + 1, k + 1) {
            Some((v, next)) => Some(((b[pos] - 128) as nat + 128 * v, next)),
            None => None,
        }
    }
}

/// The bytes that encode `v`.
pub open spec fn varint_bytes(v: nat) -> Seq<u8>
    decreases v,
{
    if v < 128 {
        seq![v as u8]
    } else {
        seq![(v % 128 + 128) as u8] + varint_bytes(v / 128)
    }
}

/// The bound for the first byte is two to the sixty-fourth.
pub proof fn lemma_cap_zero()
    ensures
        cap(0) == 0x1_0000_0000_0000_0000,
{
    reveal_with_fuel(cap, 11);
}

/// Every bound lies between two and two to the sixty-fourth.
pub proof fn lemma_cap_le(k: nat)
    ensures
        2 <= cap(k) <= 0x1_0000_0000_0000_0000,
{
    lemma_cap_zero();
    lemma_cap_mono(0, k);
}

proof fn lemma_cap_mono(i: nat, k: nat)
    requires
        i <= k,
    ensures
        2 <= cap(k) <= cap(i),
    decreases 10 - i,
{
    if i < 9 {
        if i < k {
            lemma_cap_mono(i + 1, k);
        } else {
            lemma_cap_mono(i + 1, k + 1);
        }
    }
}

/// Within bounds a varint stays below the bound of its byte index and ends
/// behind where it starts.
pub proof fn lemma_varint_at_bounds(b: Seq<u8>, pos: int, k: nat)
    ensures
        match varint_at(b, pos, k) {
            Some((v, next)) => v < cap(k) && pos < next <= b.len(),
            None => true,
        },
    decreases 10 - k,
{
    if pos < 0 || pos >= b.len() {
    } else if k >= 9 {
    } else if b[pos] < 128 {
        lemma_cap_mono(k + 1, k + 1);
    } else {
        lemma_varint_at_bounds(b, pos + 1, k + 1);
    }
}

/// Reading back what `varint_bytes` wrote gives the value and the position
/// behind it, wherever in a buffer the bytes stand.
pub proof fn lemma_varint_round_trip(b: Seq<u8>, pos: int, v: nat, k: nat)
    requires
        0 <= pos,
        pos + varint_bytes(v).len() <= b.len(),
        b.subrange(pos, pos + varint_bytes(v).len()) == varint_bytes(v),
        v < cap(k),
    ensures
        varint_at(b, pos, k) == Some((v, pos + varint_bytes(v).len())),
    decreases v,
{
    let enc = varint_bytes(v);
    assert(b[pos] == b.subrange(pos, pos + enc.len())[0]);
    if k >= 9 {
    } else if v < 128 {
    } else {
        let rest = varint_bytes(v / 128);
        assert(enc == seq![(v % 128 + 128) as u8] + rest);
        assert(b.subrange(pos + 1, pos + 1 + rest.len()) =~= rest) by {
            assert forall|i: int| 0 <= i < rest.len() implies b[pos + 1 + i] == rest[i] by {
                assert(b[pos + 1 + i] == b.subrange(pos, pos + enc.len())[1 + i]);
            }
        }
        lemma_varint_round_trip(b, pos + 1, v / 128, k + 1);
    }
}

/// Reads the varint at `pos`.
pub fn read_varint(b: &[u8], pos: usize) -> (r: Option<(u64, usize)>)
    ensures
        match r {
            Some((v, next)) => varint_at(b@, pos as int, 0) == Some((v as nat, next as int)),
            None => varint_at(b@, pos as int, 0) is None,
        },
{
    proof {
        lemma_cap_zero();
    }
    read_varint_from(b, pos, 0)
}

fn read_varint_from(b: &[u8], pos: usize, k: u8) -> (r: Option<(u64, usize)>)
    requires
        k <= 9,
    ensures
        match r {
            Some((v, next)) => varint_at(b@, pos as int, k as nat) == Some((v as nat, next as int)),
            None => varint_at(b@, pos as int, k as nat) is None,
        },
    decreases 10 - k,
{
    if pos >= b.len() {
        return None;
    }
    let byte: u8 = b[pos];
    if k >= 9 {
        return Some(((byte % 2) as u64, pos + 1));
    }
    if byte < 128 {
        return Some((byte as u64, pos + 1));
    }
    match read_varint_from(b, pos + 1, k + 1) {
        Some((v, next)) => {
            proof {
                lemma_varint_at_bounds(b@, pos + 1, (k + 1) as nat);
                lemma_cap_le(k as nat);
            }
            Some(((byte - 128) as u64 + 128 * v, next))
        },
        None => None,
    }
}

/// Appends the encoding of `v` to `out`.
pub fn write_varint(v: u64, out: &mut Vec<u8>)
    ensures
        final(out)@ == old(out)@ + varint_bytes(v as nat),
{
    let mut cur: u64 = v;
    while cur >= 128
        invariant
            out@ + varint_bytes(cur as nat) == old(out)@ + varint_bytes(v as nat),
        decreases cur,
    {
        let ghost before = out@;
        out.push((cur % 128 + 128) as u8);
        proof {
            let rest = varint_bytes((cur / 128) as nat);
            assert(out@ + rest =~= before + (seq![(cur % 128 + 128) as u8] + rest));
        }
        cur = cur / 128;
    }
    let ghost before = out@;
    out.push(cur as u8);
    assert(out@ =~= before + varint_bytes(cur as nat));
}

} // verus!
