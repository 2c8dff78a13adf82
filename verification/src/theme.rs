//! The avatar palette: a deterministic color for each person, from a small
//! curated palette, keyed by a stable string (the DID when available) so
//! one person always paints the same.
use vstd::prelude::*;
use vstd::utf8::encode_utf8;

verus! {

/// The djb2 hash of `bytes`, in 32-bit wrapping arithmetic: start at 5381,
/// and for each byte multiply by 33 and add it.
pub open spec fn djb2(bytes: Seq<u8>) -> u32
    decreases bytes.len(),
{
    if bytes.len() == 0 {
        5381
    } else {
        ((djb2(bytes.drop_last()) as nat * 33 + bytes.last() as nat) % 0x1_0000_0000) as u32
    }
}

/// The avatar colors, as red, green and blue.
pub open spec fn avatar_palette() -> Seq<(u8, u8, u8)> {
    seq![
        (29u8, 155u8, 240u8),
        (0u8, 186u8, 124u8),
        (249u8, 24u8, 128u8),
        (255u8, 173u8, 31u8),
        (148u8, 116u8, 255u8),
        (255u8, 122u8, 89u8),
        (23u8, 191u8, 195u8),
        (230u8, 89u8, 143u8),
    ]
}

/// The color that paints `seed`: the palette entry at the hash of its
/// UTF-8 bytes modulo the palette's size.
pub fn avatar_color(seed: &str) -> (rgb: (u8, u8, u8))
    ensures
        rgb == avatar_palette()[(djb2(encode_utf8(seed@)) % 8) as int],
{
    let bytes = seed.as_bytes();
    let mut h: u32 = 5381;
    let mut i: usize = 0;
    assert(bytes@.take(0) =~= Seq::<u8>::empty());
    while i < bytes.len()
        invariant
            i <= bytes@.len(),
            h == djb2(bytes@.take(i as int)),
        decreases bytes@.len() - i,
    {
        proof {
            assert(bytes@.take(i + 1).drop_last() =~= bytes@.take(i as int));
            assert(bytes@.take(i + 1).last() == bytes@[i as int]);
        }
        h = ((h as u64 * 33 + bytes[i] as u64) % 0x1_0000_0000) as u32;
        i = i + 1;
    }
    assert(bytes@.take(i as int) =~= bytes@);
    let palette: [(u8, u8, u8); 8] = [
        (29, 155, 240),
        (0, 186, 124),
        (249, 24, 128),
        (255, 173, 31),
        (148, 116, 255),
        (255, 122, 89),
        (23, 191, 195),
        (230, 89, 143),
    ];
    assert(palette@ =~= avatar_palette());
    palette[(h % 8) as usize]
}

} // verus!
