//! Small class codes packed several to a byte.

use vstd::prelude::*;

verus! {

/// Four 2-bit codes in one byte, the first in the lowest bits.
pub open spec fn quad(a: u8, b: u8, c: u8, d: u8) -> u8 {
    a | (b << 2) | (c << 4) | (d << 6)
}

/// Two 4-bit codes in one byte, the first in the lowest bits.
pub open spec fn pair(a: u8, b: u8) -> u8 {
    a | (b << 4)
}

/// The 2-bit code at index `i`.
pub open spec fn quad_at(packed: Seq<u8>, i: int) -> u8 {
    (packed[i / 4] >> ((2 * (i % 4)) as u32)) & 3
}

/// The 4-bit code at index `i`.
pub open spec fn pair_at(packed: Seq<u8>, i: int) -> u8 {
    (packed[i / 2] >> ((4 * (i % 2)) as u32)) & 0xF
}

proof fn lemma_quad(a: u8, b: u8, c: u8, d: u8)
    by (bit_vector)
    requires
        a < 4,
        b < 4,
        c < 4,
        d < 4,
    ensures
        (quad(a, b, c, d) >> 0u32) & 3 == a,
        (quad(a, b, c, d) >> 2u32) & 3 == b,
        (quad(a, b, c, d) >> 4u32) & 3 == c,
        (quad(a, b, c, d) >> 6u32) & 3 == d,
{
}

proof fn lemma_pair(a: u8, b: u8)
    by (bit_vector)
    requires
        a < 16,
        b < 16,
    ensures
        (pair(a, b) >> 0u32) & 0xF == a,
        (pair(a, b) >> 4u32) & 0xF == b,
{
}

/// Packs 2-bit codes four to a byte; codes past the last full group are
/// dropped. Every code of a full group can be read back.
pub fn pack_2bit(classes: &[u8]) -> (packed: Vec<u8>)
    requires
        forall|i: int| 0 <= i < classes@.len() ==> classes@[i] < 4,
    ensures
        packed@.len() == classes@.len() / 4,
        forall|i: int|
            0 <= i < packed@.len() ==> #[trigger] packed@[i] == quad(
                classes@[4 * i],
                classes@[4 * i + 1],
                classes@[4 * i + 2],
                classes@[4 * i + 3],
            ),
        forall|i: int|
            0 <= i < 4 * (classes@.len() / 4) ==> #[trigger] quad_at(packed@, i) == classes@[i],
{
    let mut packed: Vec<u8> = Vec::new();
    let n: usize = classes.len();
    let groups: usize = n / 4;
    let mut g: usize = 0;
    while g < groups
        invariant
            n == classes@.len(),
            groups == n / 4,
            g <= groups,
            packed@.len() == g,
            forall|i: int|
                0 <= i < g ==> #[trigger] packed@[i] == quad(
                    classes@[4 * i],
                    classes@[4 * i + 1],
                    classes@[4 * i + 2],
                    classes@[4 * i + 3],
                ),
        decreases groups - g,
    {
        packed.push(
            classes[4 * g] | (classes[4 * g + 1] << 2) | (classes[4 * g + 2] << 4) | (classes[4 * g
                + 3] << 6),
        );
        g += 1;
    }
    proof {
        assert forall|i: int| 0 <= i < 4 * (classes@.len() / 4) implies #[trigger] quad_at(
            packed@,
            i,
        ) == classes@[i] by {
            let k = i / 4;
            assert(i % 4 == 0 || i % 4 == 1 || i % 4 == 2 || i % 4 == 3);
            assert(i == 4 * k + i % 4);
            lemma_quad(
                classes@[4 * k],
                classes@[4 * k + 1],
                classes@[4 * k + 2],
                classes@[4 * k + 3],
            );
        }
    }
    packed
}

/// Packs 4-bit codes two to a byte; a last odd code is dropped. Every code of a
/// full pair can be read back.
pub fn pack_nibbles(classes: &[u8]) -> (packed: Vec<u8>)
    requires
        forall|i: int| 0 <= i < classes@.len() ==> classes@[i] < 16,
    ensures
        packed@.len() == classes@.len() / 2,
        forall|i: int|
            0 <= i < packed@.len() ==> #[trigger] packed@[i] == pair(
                classes@[2 * i],
                classes@[2 * i + 1],
            ),
        forall|i: int|
            0 <= i < 2 * (classes@.len() / 2) ==> #[trigger] pair_at(packed@, i) == classes@[i],
{
    let mut packed: Vec<u8> = Vec::new();
    let n: usize = classes.len();
    let groups: usize = n / 2;
    let mut g: usize = 0;
    while g < groups
        invariant
            n == classes@.len(),
            groups == n / 2,
            g <= groups,
            packed@.len() == g,
            forall|i: int|
                0 <= i < g ==> #[trigger] packed@[i] == pair(classes@[2 * i], classes@[2 * i + 1]),
        decreases groups - g,
    {
        packed.push(classes[2 * g] | (classes[2 * g + 1] << 4));
        g += 1;
    }
    proof {
        assert forall|i: int| 0 <= i < 2 * (classes@.len() / 2) implies #[trigger] pair_at(
            packed@,
            i,
        ) == classes@[i] by {
            let k = i / 2;
            assert(i % 2 == 0 || i % 2 == 1);
            assert(i == 2 * k + i % 2);
            lemma_pair(classes@[2 * k], classes@[2 * k + 1]);
        }
    }
    packed
}

/// Reads the 2-bit code at index `i`.
pub fn read_2bit(packed: &[u8], i: u32) -> (code: u8)
    requires
        i < 4 * packed@.len(),
    ensures
        code == quad_at(packed@, i as int),
        code < 4,
{
    assert(i >> 2u32 == i / 4) by (bit_vector);
    assert((i & 3) << 1u32 == 2 * (i % 4)) by (bit_vector);
    assert((i & 3) << 1u32 < 8) by (bit_vector);
    let shift: u32 = (i & 3) << 1;
    let byte: u8 = packed[(i >> 2) as usize];
    let code: u8 = (byte >> shift) & 3;
    assert(code < 4) by (bit_vector)
        requires
            code == (byte >> shift) & 3,
    ;
    code
}

/// Reads the 4-bit code at index `i`.
pub fn read_nibble(packed: &[u8], i: u32) -> (code: u8)
    requires
        i < 2 * packed@.len(),
    ensures
        code == pair_at(packed@, i as int),
        code < 16,
{
    assert(i >> 1u32 == i / 2) by (bit_vector);
    assert((i & 1) << 2u32 == 4 * (i % 2)) by (bit_vector);
    assert((i & 1) << 2u32 < 8) by (bit_vector);
    let shift: u32 = (i & 1) << 2;
    let byte: u8 = packed[(i >> 1) as usize];
    let code: u8 = (byte >> shift) & 0xF;
    assert(code < 16) by (bit_vector)
        requires
            code == (byte >> shift) & 0xF,
    ;
    code
}

} // verus!
