use vstd::prelude::*;

verus! {

/// Bytes in a machine word of the traced process (x86-64).
pub const WORD_BYTES: usize = 8;

/// Byte `k` (little-endian) of `w`.
pub open spec fn byte_of(w: u64, k: u64) -> u8 {
    ((w >> (8 * k)) & 0xff) as u8
}

/// Start of the word that holds `addr`.
pub fn align_addr_to_word(addr: usize) -> (r: usize)
    ensures
        r == addr - addr % WORD_BYTES,
        r % WORD_BYTES == 0,
{
    addr - addr % WORD_BYTES
}

/// Replaces byte `offset` of `word` by `val`; returns the byte it held and the new word.
pub fn patch_word(word: u64, offset: u64, val: u8) -> (r: (u8, u64))
    requires
        offset < 8,
    ensures
        r.0 == byte_of(word, offset),
        byte_of(r.1, offset) == val,
        forall|k: u64| k < 8 && k != offset ==> #[trigger] byte_of(r.1, k) == byte_of(word, k),
{
    let shift = 8 * offset;
    let orig_byte = ((word >> shift) & 0xff) as u8;
    let masked_word = word & !(0xffu64 << shift);
    let updated_word = masked_word | ((val as u64) << shift);
    assert(((updated_word >> shift) & 0xff) as u8 == val) by (bit_vector)
        requires
            shift == 8 * offset,
            offset < 8,
            masked_word == word & !(0xffu64 << shift),
            updated_word == masked_word | ((val as u64) << shift),
    ;
    assert forall|k: u64| k < 8 && k != offset implies #[trigger] byte_of(updated_word, k)
        == byte_of(word, k) by {
        assert(((updated_word >> (8 * k)) & 0xff) as u8 == ((word >> (8 * k)) & 0xff) as u8)
            by (bit_vector)
            requires
                k < 8,
                k != offset,
                shift == 8 * offset,
                offset < 8,
                masked_word == word & !(0xffu64 << shift),
                updated_word == masked_word | ((val as u64) << shift),
        ;
    }
    (orig_byte, updated_word)
}

} // verus!
