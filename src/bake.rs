//! Pre-rendered text held as 4-bit-per-pixel tiles of 8x8 pixels: each tile
//! is eight `u32` rows, each row eight nibbles, the leftmost pixel in the
//! lowest nibble.
use vstd::prelude::*;

verus! {

/// Index of the row word that holds pixel `(x, y)` in a buffer `w` tiles wide.
pub open spec fn pixel_word(w: int, x: int, y: int) -> int {
    (x / 8 + (y / 8) * w) * 8 + y % 8
}

/// Bit offset of pixel `(x, _)` inside its row word.
pub open spec fn pixel_shift(x: int) -> u32 {
    ((x % 8) * 4) as u32
}

/// `word` with the nibble at `shift` replaced by `colour`.
pub open spec fn with_nibble(word: u32, shift: u32, colour: u32) -> u32 {
    (word & !(0xFu32 << shift)) | (colour << shift)
}

/// A tile buffer being drawn into.
pub struct TileCollection {
    tiles: Vec<u32>,
    width_tiles: usize,
}

impl TileCollection {
    pub closed spec fn tiles(&self) -> Seq<u32> {
        self.tiles@
    }

    pub closed spec fn width_tiles(&self) -> int {
        self.width_tiles as int
    }

    pub fn new(tiles: Vec<u32>, width_tiles: usize) -> (r: TileCollection)
        ensures
            r.tiles() == tiles@,
            r.width_tiles() == width_tiles,
    {
        TileCollection { tiles, width_tiles }
    }

    /// The buffer drawn so far.
    pub fn into_tiles(self) -> (r: Vec<u32>)
        ensures
            r@ == self.tiles(),
    {
        self.tiles
    }

    /// Sets pixel `(x, y)` to palette index `colour`; every other word is
    /// left alone, and with a colour below 16 every other pixel too.
    pub fn set_pixel(&mut self, x: i32, y: i32, colour: u32)
        requires
            old(self).width_tiles() > 0,
            0 <= x <= old(self).width_tiles() * 8,
            0 <= y <= old(self).tiles().len() as int / old(self).width_tiles(),
            pixel_word(old(self).width_tiles(), x as int, y as int) < old(self).tiles().len(),
        ensures
            final(self).width_tiles() == old(self).width_tiles(),
            ({
                let i = pixel_word(old(self).width_tiles(), x as int, y as int);
                let s = pixel_shift(x as int);
                &&& final(self).tiles() == old(self).tiles().update(i, with_nibble(old(self).tiles()[i], s, colour))
                &&& colour < 16 ==> (final(self).tiles()[i] >> s) & 0xF == colour
                &&& forall|t: u32|
                    t < 32 && t % 4 == 0 && t != s && colour < 16 ==> (#[trigger] (final(self).tiles()[i] >> t)) & 0xF
                        == (old(self).tiles()[i] >> t) & 0xF
            }),
    {
        let x = x as usize;
        let y = y as usize;
        let x_pixel = x % 8;
        let y_pixel = y % 8;
        let x_tile = x / 8;
        let y_tile = y / 8;
        let len = self.tiles.len();
        proof {
            let w = self.width_tiles as int;
            let pw = pixel_word(w, x as int, y as int);
            assert(pw == (x_tile as int + y_tile as int * w) * 8 + y_pixel as int);
            assert(y_tile as int * w >= 0) by (nonlinear_arith)
                requires
                    y_tile >= 0,
                    w >= 0,
            ;
            assert(y_tile as int * w <= pw) by (nonlinear_arith)
                requires
                    pw == (x_tile as int + y_tile as int * w) * 8 + y_pixel as int,
                    x_tile >= 0,
                    y_pixel >= 0,
                    y_tile as int * w >= 0,
            ;
            assert(pw < len);
        }
        let shift = (x_pixel * 4) as u32;
        let mask: u32 = 0xFu32 << shift;
        let idx = (x_tile + y_tile * self.width_tiles) * 8 + y_pixel;
        let word = self.tiles[idx];
        let new_word = (word & !mask) | (colour << shift);
        proof {
            assert(shift < 32 && shift % 4 == 0);
            if colour < 16 {
                assert((((word & !(0xFu32 << shift)) | (colour << shift)) >> shift) & 0xF == colour) by (bit_vector)
                    requires
                        colour < 16,
                        shift < 32,
                        shift % 4 == 0,
                ;
                assert forall|t: u32| t < 32 && t % 4 == 0 && t != shift implies #[trigger] ((new_word >> t)) & 0xF == (
                word >> t) & 0xF by {
                    assert((((word & !(0xFu32 << shift)) | (colour << shift)) >> t) & 0xF == (word >> t) & 0xF)
                        by (bit_vector)
                        requires
                            colour < 16,
                            shift < 32,
                            t < 32,
                            shift % 4 == 0,
                            t % 4 == 0,
                            t != shift,
                    ;
                }
            }
        }
        self.tiles.set(idx, new_word);
    }
}

/// Text rendered into tiles, `width` tiles across and `height` tiles down.
pub struct BakedText {
    width: usize,
    height: usize,
    tiles: Vec<u32>,
}

/// The bytes of `words`, each word least significant byte first.
pub open spec fn le_bytes(words: Seq<u32>) -> Seq<u8> {
    Seq::new(
        (4 * words.len()) as nat,
        |i: int| ((words[i / 4] >> ((i % 4) * 8) as u32) & 0xffu32) as u8,
    )
}

impl BakedText {
    pub closed spec fn tiles(&self) -> Seq<u32> {
        self.tiles@
    }

    pub closed spec fn width_spec(&self) -> int {
        self.width as int
    }

    pub closed spec fn height_spec(&self) -> int {
        self.height as int
    }

    pub fn new(tiles: Vec<u32>, width: usize, height: usize) -> (r: BakedText)
        ensures
            r.tiles() == tiles@,
            r.width_spec() == width,
            r.height_spec() == height,
    {
        BakedText { width, height, tiles }
    }

    /// The tile rows.
    pub fn data(&self) -> (r: &[u32])
        ensures
            r@ == self.tiles(),
    {
        self.tiles.as_slice()
    }

    /// The tile rows as bytes, in the target's little-endian order.
    pub fn data_bytes(&self) -> (r: Vec<u8>)
        requires
            4 * self.tiles().len() <= usize::MAX,
        ensures
            r@ == le_bytes(self.tiles()),
    {
        let mut out: Vec<u8> = Vec::new();
        let mut i: usize = 0;
        while i < self.tiles.len()
            invariant
                0 <= i <= self.tiles@.len(),
                out@.len() == 4 * i,
                forall|j: int| 0 <= j < 4 * i ==> #[trigger] out@[j] == le_bytes(self.tiles@)[j],
            decreases self.tiles@.len() - i,
        {
            let w = self.tiles[i];
            out.push((w & 0xff) as u8);
            out.push(((w >> 8u32) & 0xff) as u8);
            out.push(((w >> 16u32) & 0xff) as u8);
            out.push(((w >> 24u32) & 0xff) as u8);
            proof {
                assert forall|j: int| 0 <= j < 4 * (i + 1) implies #[trigger] out@[j] == le_bytes(self.tiles@)[j] by {
                    if j >= 4 * i {
                        assert(j / 4 == i);
                        assert(w >> 0u32 == w) by (bit_vector);
                    }
                }
            }
            i = i + 1;
        }
        proof {
            assert(out@ =~= le_bytes(self.tiles@));
        }
        out
    }

    /// Width in tiles.
    pub fn width(&self) -> (r: usize)
        ensures
            r == self.width_spec(),
    {
        self.width
    }

    /// Height in tiles.
    pub fn height(&self) -> (r: usize)
        ensures
            r == self.height_spec(),
    {
        self.height
    }
}

} // verus!
