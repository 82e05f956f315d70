use vstd::prelude::*;

verus! {

/// The XMODEM generator polynomial.
pub const POLYNOMIAL: u16 = 0x1021;

/// One round of the register: shift left, folding in the polynomial when
/// the bit shifted out of bit 15 was set.
pub open spec fn crc_step(x: u16) -> u16 {
    if x & 0x8000u16 != 0 {
        ((x << 1u16) ^ 0x1021u16) as u16
    } else {
        (x << 1u16) as u16
    }
}

/// `n` rounds of `crc_step` applied to `x`.
pub open spec fn crc_rounds(x: u16, n: nat) -> u16
    decreases n,
{
    if n == 0 {
        x
    } else {
        crc_step(crc_rounds(x, (n - 1) as nat))
    }
}

/// The register after folding one byte into it.
pub open spec fn crc_update(crc: u16, data: u8) -> u16 {
    crc_rounds(crc ^ (((data as u16) << 8u16) as u16), 8)
}

/// The register after folding every byte of `s`, in order, into `init`.
pub open spec fn crc_from(init: u16, s: Seq<u8>) -> u16
    decreases s.len(),
{
    if s.len() == 0 {
        init
    } else {
        crc_update(crc_from(init, s.drop_last()), s.last())
    }
}

/// CRC-16/XMODEM of a byte sequence: initial value zero, no reflection.
pub open spec fn crc_of(s: Seq<u8>) -> u16 {
    crc_from(0, s)
}

/// Folds one byte into a running CRC-16/XMODEM register.
pub fn crc_xmodem_update(crc: u16, data: u8) -> (r: u16)
    ensures
        r == crc_update(crc, data),
{
    let mut c: u16 = crc ^ ((data as u16) << 8u16);
    let ghost start = c;
    let mut i: u32 = 0;
    while i < 8
        invariant
            i <= 8,
            start == crc ^ (((data as u16) << 8u16) as u16),
            c == crc_rounds(start, i as nat),
        decreases 8 - i,
    {
        if c & 0x8000 != 0 {
            c = (c << 1u16) ^ POLYNOMIAL;
        } else {
            c = c << 1u16;
        }
        i = i + 1;
    }
    c
}

/// CRC-16/XMODEM of a whole buffer in one call.
pub fn crc_xmodem(data: &[u8]) -> (r: u16)
    ensures
        r == crc_of(data@),
{
    let mut crc: u16 = 0;
    let mut i: usize = 0;
    while i < data.len()
        invariant
            i <= data@.len(),
            crc == crc_of(data@.subrange(0, i as int)),
        decreases data.len() - i,
    {
        proof {
            assert(data@.subrange(0, i + 1).drop_last() =~= data@.subrange(0, i as int));
        }
        crc = crc_xmodem_update(crc, data[i]);
        i = i + 1;
    }
    proof {
        assert(data@.subrange(0, i as int) =~= data@);
    }
    crc
}

/// Folding a sequence in two pieces, the second continuing from the register
/// left by the first, gives the checksum of the whole sequence: the one-shot
/// checksum and the byte-at-a-time updater agree on every input.
pub proof fn lemma_incremental_matches_bulk(init: u16, s: Seq<u8>, t: Seq<u8>)
    ensures
        crc_from(crc_from(init, s), t) == crc_from(init, s + t),
    decreases t.len(),
{
    if t.len() == 0 {
        assert(s + t =~= s);
    } else {
        lemma_incremental_matches_bulk(init, s, t.drop_last());
        assert((s + t).drop_last() =~= s + t.drop_last());
        assert((s + t).last() == t.last());
    }
}

/// A single byte folded into a zero register is the checksum of that byte alone.
pub proof fn lemma_single_byte(b: u8)
    ensures
        crc_of(seq![b]) == crc_update(0, b),
{
    assert(seq![b].drop_last() =~= Seq::<u8>::empty());
    assert(crc_from(0, Seq::<u8>::empty()) == 0);
    assert(seq![b].last() == b);
}

proof fn lemma_step_injective(x: u16, y: u16)
    requires
        crc_step(x) == crc_step(y),
    ensures
        x == y,
{
    assert((if x & 0x8000u16 != 0 { ((x << 1u16) ^ 0x1021u16) } else { x << 1u16 }) == (if y
        & 0x8000u16 != 0 {
        ((y << 1u16) ^ 0x1021u16)
    } else {
        y << 1u16
    }) ==> x == y) by (bit_vector);
}

proof fn lemma_rounds_injective(x: u16, y: u16, n: nat)
    requires
        crc_rounds(x, n) == crc_rounds(y, n),
    ensures
        x == y,
    decreases n,
{
    if n > 0 {
        lemma_step_injective(crc_rounds(x, (n - 1) as nat), crc_rounds(y, (n - 1) as nat));
        lemma_rounds_injective(x, y, (n - 1) as nat);
    }
}

/// Folding a byte into the register loses nothing: distinct registers stay
/// distinct, and so do distinct bytes folded into the same register.
pub proof fn lemma_update_injective(c1: u16, b1: u8, c2: u16, b2: u8)
    requires
        crc_update(c1, b1) == crc_update(c2, b2),
        c1 == c2 || b1 == b2,
    ensures
        c1 == c2 && b1 == b2,
{
    lemma_rounds_injective(c1 ^ (((b1 as u16) << 8u16) as u16), c2 ^ (((b2 as u16) << 8u16) as u16), 8);
    assert(c1 ^ ((b1 as u16) << 8u16) == c2 ^ ((b2 as u16) << 8u16) && (c1 == c2 || b1 == b2)
        ==> c1 == c2 && b1 == b2) by (bit_vector);
}

/// Folding the same bytes into two distinct registers keeps them distinct.
pub proof fn lemma_from_injective(c1: u16, c2: u16, s: Seq<u8>)
    requires
        crc_from(c1, s) == crc_from(c2, s),
    ensures
        c1 == c2,
    decreases s.len(),
{
    if s.len() > 0 {
        lemma_update_injective(crc_from(c1, s.drop_last()), s.last(), crc_from(c2, s.drop_last()), s.last());
        lemma_from_injective(c1, c2, s.drop_last());
    }
}

/// Two byte sequences of the same length that differ in exactly one byte
/// have different checksums.
pub proof fn lemma_single_byte_change_detected(s: Seq<u8>, i: int, x: u8)
    requires
        0 <= i < s.len(),
        x != s[i],
    ensures
        crc_of(s.update(i, x)) != crc_of(s),
{
    let t = s.update(i, x);
    let head = s.take(i);
    let rest = s.subrange(i + 1, s.len() as int);
    assert(s =~= head.push(s[i]) + rest);
    assert(t =~= head.push(x) + rest);
    lemma_incremental_matches_bulk(0, head.push(s[i]), rest);
    lemma_incremental_matches_bulk(0, head.push(x), rest);
    assert(head.push(s[i]).drop_last() =~= head);
    assert(head.push(x).drop_last() =~= head);
    if crc_of(t) == crc_of(s) {
        lemma_from_injective(crc_of(head.push(x)), crc_of(head.push(s[i])), rest);
        lemma_update_injective(crc_of(head), x, crc_of(head), s[i]);
    }
}

} // verus!
