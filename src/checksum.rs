//! The frame checksum: CRC-8 with polynomial 0x4D, initial value 0, no
//! reflection and no final xor, taken over every byte before the checksum.
use vstd::prelude::*;

verus! {

/// The polynomial of the checksum, without its leading term.
pub const CRC_POLY: u8 = 0x4D;

/// One bit of the checksum register: shift the top bit out and fold in the
/// polynomial when it was set.
#[verifier::opaque]
pub open spec fn crc_shift(v: u8) -> u8 {
    if v & 0x80u8 != 0 {
        ((v << 1u8) ^ 0x4Du8) as u8
    } else {
        (v << 1u8) as u8
    }
}

/// The register after `n` bits have been shifted through it.
pub open spec fn crc_shifts(v: u8, n: nat) -> u8
    decreases n,
{
    if n == 0 {
        v
    } else {
        crc_shift(crc_shifts(v, (n - 1) as nat))
    }
}

/// The register after a whole byte has been shifted through it: the entry of
/// the usual 256-entry lookup table.
pub open spec fn crc_table_entry(v: u8) -> u8 {
    crc_shift(crc_shift(crc_shift(crc_shift(crc_shift(crc_shift(crc_shift(crc_shift(v))))))))
}

/// The checksum of a byte sequence.
pub open spec fn crc_of(s: Seq<u8>) -> u8
    decreases s.len(),
{
    if s.len() == 0 {
        0
    } else {
        crc_table_entry(crc_of(s.drop_last()) ^ s.last())
    }
}

proof fn lemma_crc_shift_injective(a: u8, b: u8)
    requires
        a != b,
    ensures
        crc_shift(a) != crc_shift(b),
{
    reveal(crc_shift);
    assert(((if a & 0x80u8 != 0 { (a << 1u8) ^ 0x4Du8 } else { a << 1u8 }) as u8) != ((if b
        & 0x80u8 != 0 { (b << 1u8) ^ 0x4Du8 } else { b << 1u8 }) as u8)) by (bit_vector)
        requires
            a != b,
    ;
}

proof fn lemma_crc_shifts_injective(a: u8, b: u8, n: nat)
    requires
        a != b,
    ensures
        crc_shifts(a, n) != crc_shifts(b, n),
    decreases n,
{
    if n > 0 {
        lemma_crc_shifts_injective(a, b, (n - 1) as nat);
        lemma_crc_shift_injective(crc_shifts(a, (n - 1) as nat), crc_shifts(b, (n - 1) as nat));
    }
}

proof fn lemma_crc_table_entry_injective(a: u8, b: u8)
    requires
        a != b,
    ensures
        crc_table_entry(a) != crc_table_entry(b),
{
    lemma_crc_shifts_injective(a, b, 8);
    reveal_with_fuel(crc_shifts, 9);
}

proof fn lemma_xor_injective(x: u8, y: u8, c: u8)
    requires
        x != y,
    ensures
        c ^ x != c ^ y,
        x ^ c != y ^ c,
{
    assert(c ^ x != c ^ y && x ^ c != y ^ c) by (bit_vector)
        requires
            x != y,
    ;
}

/// Two sequences of one length that differ in exactly one byte have different
/// checksums: the checksum detects every error confined to a single byte.
pub proof fn lemma_single_byte_change_detected(a: Seq<u8>, b: Seq<u8>, j: int)
    requires
        a.len() == b.len(),
        0 <= j < a.len(),
        a[j] != b[j],
        forall|k: int| 0 <= k < a.len() && k != j ==> a[k] == b[k],
    ensures
        crc_of(a) != crc_of(b),
    decreases a.len(),
{
    let n = a.len() - 1;
    if j == n {
        assert(a.drop_last() =~= b.drop_last());
    } else {
        lemma_single_byte_change_detected(a.drop_last(), b.drop_last(), j);
    }
    let sa = crc_of(a.drop_last());
    let sb = crc_of(b.drop_last());
    let la = a.last();
    let lb = b.last();
    assert(sa != sb || la != lb);
    if sa != sb {
        assert(la == lb);
        lemma_xor_injective(sa, sb, la);
    } else {
        lemma_xor_injective(la, lb, sa);
    }
    lemma_crc_table_entry_injective(sa ^ la, sb ^ lb);
}

/// Flipping any single bit of a byte sequence changes its checksum.
pub proof fn lemma_bit_flip_detected(s: Seq<u8>, i: int, bit: u8)
    requires
        0 <= i < s.len(),
        bit < 8,
    ensures
        crc_of(s.update(i, s[i] ^ (1u8 << bit))) != crc_of(s),
{
    let x = s[i];
    assert(x ^ (1u8 << bit) != x) by (bit_vector)
        requires
            bit < 8,
    ;
    lemma_single_byte_change_detected(s.update(i, s[i] ^ (1u8 << bit)), s, i);
}

fn crc_shift_exec(v: u8) -> (r: u8)
    ensures
        r == crc_shift(v),
{
    reveal(crc_shift);
    if v & 0x80 != 0 {
        (v << 1) ^ CRC_POLY
    } else {
        v << 1
    }
}

fn crc_table_entry_exec(v: u8) -> (r: u8)
    ensures
        r == crc_table_entry(v),
{
    crc_shift_exec(
        crc_shift_exec(
            crc_shift_exec(
                crc_shift_exec(crc_shift_exec(crc_shift_exec(crc_shift_exec(crc_shift_exec(v))))),
            ),
        ),
    )
}

/// The checksum of `data`, as the sensor computes it over a frame's body.
pub fn checksum(data: &[u8]) -> (r: u8)
    ensures
        r == crc_of(data@),
{
    let mut crc: u8 = 0;
    let mut i: usize = 0;
    while i < data.len()
        invariant
            i <= data@.len(),
            crc == crc_of(data@.subrange(0, i as int)),
        decreases data@.len() - i,
    {
        assert(data@.subrange(0, i as int + 1).drop_last() =~= data@.subrange(0, i as int));
        crc = crc_table_entry_exec(crc ^ data[i]);
        i = i + 1;
    }
    assert(data@.subrange(0, i as int) =~= data@);
    crc
}

} // verus!
