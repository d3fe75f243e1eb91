use vstd::arithmetic::div_mod::lemma_add_mod_noop;
use vstd::prelude::*;

verus! {

/// Byte that the fill patterns put at step `j` for `seed`: the low byte of
/// `j + seed`.
pub open spec fn pattern_byte(j: int, seed: int) -> u8 {
    ((j + seed) % 256) as u8
}

/// Writes the low byte of `j + seed` to `slice[j]` for every `j < until`.
pub fn write_linear(slice: &mut [u8], seed: usize, until: usize)
    requires
        until <= old(slice)@.len(),
    ensures
        final(slice)@.len() == old(slice)@.len(),
        forall|j: int| 0 <= j < until ==> #[trigger] final(slice)@[j] == pattern_byte(j, seed as int),
        forall|j: int| until <= j < old(slice)@.len() ==> #[trigger] final(slice)@[j] == old(slice)@[j],
{
    let mut j: usize = 0;
    while j < until
        invariant
            j <= until,
            until <= slice@.len(),
            slice@.len() == old(slice)@.len(),
            forall|i: int| 0 <= i < j ==> #[trigger] slice@[i] == pattern_byte(i, seed as int),
            forall|i: int| until <= i < slice@.len() ==> #[trigger] slice@[i] == old(slice)@[i],
        decreases until - j,
    {
        let b: u8 = ((j % 256 + seed % 256) % 256) as u8;
        proof {
            lemma_add_mod_noop(j as int, seed as int, 256);
        }
        slice[j] = b;
        j = j + 1;
    }
}

/// Writes the low byte of `j + seed` to `slice[len - 1 - j]` for every
/// `j < until`: the same pattern as `write_linear`, from the end backwards.
pub fn write_backwards(slice: &mut [u8], seed: usize, until: usize)
    requires
        until <= old(slice)@.len(),
    ensures
        final(slice)@.len() == old(slice)@.len(),
        forall|j: int|
            0 <= j < until ==> #[trigger] final(slice)@[old(slice)@.len() - 1 - j] == pattern_byte(
                j,
                seed as int,
            ),
        forall|i: int|
            0 <= i < old(slice)@.len() - until ==> #[trigger] final(slice)@[i] == old(slice)@[i],
{
    let len = slice.len();
    let mut j: usize = 0;
    while j < until
        invariant
            j <= until,
            until <= len,
            len == slice@.len(),
            slice@.len() == old(slice)@.len(),
            forall|i: int| 0 <= i < j ==> #[trigger] slice@[len - 1 - i] == pattern_byte(i, seed as int),
            forall|i: int| 0 <= i < len - until ==> #[trigger] slice@[i] == old(slice)@[i],
        decreases until - j,
    {
        let b: u8 = ((j % 256 + seed % 256) % 256) as u8;
        proof {
            lemma_add_mod_noop(j as int, seed as int, 256);
        }
        slice[len - 1 - j] = b;
        j = j + 1;
    }
}

} // verus!
