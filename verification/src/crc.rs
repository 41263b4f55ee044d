//! The checksum CRC-32 (IEEE): the remainder of a division of the bytes, taken as the coefficients of
//! a polynomial over two elements.
use vstd::prelude::*;

verus! {

/// The register once it has taken one step of the division: it is shifted by one bit, and if that
/// bit was set, the divisor is taken away. The divisor of CRC-32 (IEEE) is written lowest bit last.
pub open spec fn stepped(register: u32) -> u32 {
    if register & 1 == 1 {
        (register >> 1) ^ 0xedb8_8320
    } else {
        register >> 1
    }
}

/// The register once it has taken so many steps.
pub open spec fn divided(register: u32, steps: nat) -> u32
    decreases steps,
{
    if steps == 0 {
        register
    } else {
        stepped(divided(register, (steps - 1) as nat))
    }
}

/// The register once all bytes went into it. All of its bits are set at first.
pub open spec fn register_after(bytes: Seq<u8>) -> u32
    decreases bytes.len(),
{
    if bytes.len() == 0 {
        0xffff_ffff
    } else {
        divided(register_after(bytes.drop_last()) ^ (bytes.last() as u32), 8)
    }
}

/// The CRC-32 (IEEE) checksum of the bytes: the register with every bit flipped.
pub open spec fn crc32(bytes: Seq<u8>) -> u32 {
    !register_after(bytes)
}

/// `crc32fast::hash`: the CRC-32 (IEEE) checksum of the bytes.
#[verifier::external_body]
pub(crate) fn crc32_hash(bytes: &[u8]) -> (r: u32)
    ensures
        r == crc32(bytes@),
{
    crc32fast::hash(bytes)
}

/// A step can be undone, and it takes sums to sums.
proof fn lemma_stepped(a: u32, b: u32)
    ensures
        stepped(a) == stepped(b) ==> a == b,
        stepped(a ^ b) == stepped(a) ^ stepped(b),
{
    assert(stepped(a) == stepped(b) ==> a == b) by (bit_vector);
    assert(stepped(a ^ b) == stepped(a) ^ stepped(b)) by (bit_vector);
}

/// Steps can be undone, and they take sums to sums.
proof fn lemma_divided(a: u32, b: u32, steps: nat)
    ensures
        divided(a, steps) == divided(b, steps) ==> a == b,
        divided(a ^ b, steps) == divided(a, steps) ^ divided(b, steps),
    decreases steps,
{
    if steps > 0 {
        let fewer = (steps - 1) as nat;
        lemma_divided(a, b, fewer);
        lemma_stepped(divided(a, fewer), divided(b, fewer));
    }
}

/// Steps are taken one after the other.
proof fn lemma_divided_twice(register: u32, first: nat, second: nat)
    ensures
        divided(divided(register, first), second) == divided(register, first + second),
    decreases second,
{
    if second > 0 {
        lemma_divided_twice(register, first, (second - 1) as nat);
    }
}

/// While the lowest bits are not set, steps only shift the register.
proof fn lemma_shifts(word: u32, steps: u32)
    requires
        word < 0x100_0000,
        steps <= 8,
    ensures
        divided(word << 8, steps as nat) == word << ((8 - steps) as u32),
    decreases steps,
{
    if steps > 0 {
        let fewer = (steps - 1) as u32;
        lemma_shifts(word, fewer);
        assert(stepped(word << ((8 - (steps - 1)) as u32)) == word << ((8 - steps) as u32))
            by (bit_vector)
            requires
                word < 0x100_0000,
                1 <= steps <= 8,
        ;
    }
}

/// Up to four bytes as one number, the first of them lowest.
spec fn word(bytes: Seq<u8>) -> u32
    decreases bytes.len(),
{
    if bytes.len() == 0 {
        0
    } else {
        (word(bytes.skip(1)) << 8) ^ (bytes[0] as u32)
    }
}

/// The number is not larger than so many bytes can make it, and other bytes make another number.
proof fn lemma_word(a: Seq<u8>, b: Seq<u8>)
    requires
        a.len() == b.len() <= 4,
    ensures
        a.len() <= 3 ==> word(a) < 0x100_0000,
        a.len() <= 2 ==> word(a) < 0x1_0000,
        a.len() <= 1 ==> word(a) < 0x100,
        a.len() == 0 ==> word(a) == 0,
        word(a) == word(b) ==> a == b,
    decreases a.len(),
{
    if a.len() == 0 {
        assert(a =~= b);
    } else {
        lemma_word(a.skip(1), b.skip(1));
        lemma_word(b.skip(1), a.skip(1));
        let (u, v) = (word(a.skip(1)), word(b.skip(1)));
        let (x, y) = (a[0], b[0]);
        assert(u < 0x100_0000 && v < 0x100_0000 && (u << 8) ^ (x as u32) == (v << 8) ^ (y as u32)
            ==> u == v && x == y) by (bit_vector);
        assert(u < 0x1_0000 ==> (u << 8) ^ (x as u32) < 0x100_0000) by (bit_vector);
        assert(u < 0x100 ==> (u << 8) ^ (x as u32) < 0x1_0000) by (bit_vector);
        assert(u == 0 ==> (u << 8) ^ (x as u32) < 0x100) by (bit_vector);
        if word(a) == word(b) {
            assert(a =~= seq![x] + a.skip(1));
            assert(b =~= seq![y] + b.skip(1));
        }
    }
}

/// Up to four bytes can go into the register at once.
proof fn lemma_word_at_once(before: Seq<u8>, bytes: Seq<u8>)
    requires
        bytes.len() <= 4,
    ensures
        register_after(before + bytes) == divided(
            register_after(before) ^ word(bytes),
            8 * bytes.len(),
        ),
    decreases bytes.len(),
{
    let c = register_after(before);
    if bytes.len() == 0 {
        assert(before + bytes =~= before);
        assert(c ^ 0 == c) by (bit_vector);
    } else {
        let x = bytes[0] as u32;
        let rest = bytes.skip(1);
        let longer = before.push(bytes[0]);
        let w = word(rest);
        assert(longer + rest =~= before + bytes);
        assert(longer.drop_last() =~= before);
        lemma_word_at_once(longer, rest);
        lemma_word(rest, rest);
        // The rest may go in before the first byte is divided.
        lemma_shifts(w, 8);
        assert(w << 0u32 == w) by (bit_vector);
        lemma_divided(c ^ x, w << 8, 8);
        assert(c ^ ((w << 8) ^ x) == (c ^ x) ^ (w << 8)) by (bit_vector);
        lemma_divided_twice(c ^ word(bytes), 8, 8 * rest.len());
        assert(8 + 8 * rest.len() == 8 * bytes.len());
    }
}

/// Registers that differ still differ once the same bytes went into both.
proof fn lemma_registers_stay_apart(a: Seq<u8>, b: Seq<u8>, after: Seq<u8>)
    requires
        register_after(a) != register_after(b),
    ensures
        register_after(a + after) != register_after(b + after),
    decreases after.len(),
{
    if after.len() == 0 {
        assert(a + after =~= a);
        assert(b + after =~= b);
    } else {
        lemma_registers_stay_apart(a, b, after.drop_last());
        let (a2, b2) = (a + after, b + after);
        assert(a2.drop_last() =~= a + after.drop_last());
        assert(b2.drop_last() =~= b + after.drop_last());
        let (r, s) = (register_after(a2.drop_last()), register_after(b2.drop_last()));
        let x = after.last() as u32;
        assert(r ^ x == s ^ x ==> r == s) by (bit_vector);
        lemma_divided(r ^ x, s ^ x, 8);
    }
}

/// The checksum of no bytes is zero.
pub proof fn law_checksum_of_nothing()
    ensures
        crc32(Seq::empty()) == 0,
{
    assert(!0xffff_ffffu32 == 0) by (bit_vector);
}

/// Bytes that differ in up to four places next to each other have different checksums.
pub proof fn law_small_changes_show(before: Seq<u8>, a: Seq<u8>, b: Seq<u8>, after: Seq<u8>)
    requires
        a.len() == b.len() <= 4,
        a != b,
    ensures
        crc32(before + a + after) != crc32(before + b + after),
{
    lemma_word_at_once(before, a);
    lemma_word_at_once(before, b);
    lemma_word(a, b);
    let c = register_after(before);
    let (u, v) = (word(a), word(b));
    assert(c ^ u == c ^ v ==> u == v) by (bit_vector);
    lemma_divided(c ^ u, c ^ v, 8 * a.len());
    lemma_registers_stay_apart(before + a, before + b, after);
    let (r, s) = (register_after(before + a + after), register_after(before + b + after));
    assert(!r == !s ==> r == s) by (bit_vector);
}

} // verus!
