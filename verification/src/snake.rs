use vstd::prelude::*;

use crate::bijection::{gray_decode, spec_gray_decode};

verus! {

/// Number of colours of the snake: one per 16-bit code.
pub const SNAKE_LEN: usize = 65536;

/// Position of a red/green pair in the reverse table.
pub open spec fn rg_index(r: int, g: int) -> int {
    r * 256 + g
}

/// `|a - b|` of two bytes.
pub open spec fn abs_diff(a: u8, b: u8) -> u8 {
    (if a >= b { a - b } else { b - a }) as u8
}

/// The colour of a red/green pair: blue is the distance between red and green.
pub open spec fn snake_color(p: (u8, u8)) -> (u8, u8, u8) {
    (p.0, p.1, abs_diff(p.0, p.1))
}

/// Whether no red/green pair occurs twice in `points`.
pub open spec fn distinct_pairs(points: Seq<(u8, u8)>) -> bool {
    forall|i: int, j: int| 0 <= i < j < points.len() ==> points[i] != points[j]
}

/// Whether `colors` and `reverse` form a snake table: 65536 colours, code 0
/// (silence) black, each colour with blue `|red - green|`, and the reverse
/// table giving back the code of each colour from its red and green.
pub open spec fn snake_tables_wf(colors: Seq<(u8, u8, u8)>, reverse: Seq<u16>) -> bool {
    &&& colors.len() == SNAKE_LEN
    &&& reverse.len() == SNAKE_LEN
    &&& colors[0] == (0u8, 0u8, 0u8)
    &&& forall|i: int|
        0 <= i < SNAKE_LEN ==> {
            let c = #[trigger] colors[i];
            &&& c.2 == abs_diff(c.0, c.1)
            &&& reverse[rg_index(c.0 as int, c.1 as int)] == i
        }
}

/// The geodesic snake: a walk through the red/green plane, as a table from
/// 16-bit codes to colours and a table from red/green pairs back to codes.
pub struct SnakeLut {
    colors: Vec<(u8, u8, u8)>,
    reverse_rg: Vec<u16>,
}

impl SnakeLut {
    /// The colour of each code.
    pub closed spec fn colors(&self) -> Seq<(u8, u8, u8)> {
        self.colors@
    }

    /// The code of each red/green pair, at [`rg_index`].
    pub closed spec fn reverse(&self) -> Seq<u16> {
        self.reverse_rg@
    }

    /// Whether the tables form a snake (see [`snake_tables_wf`]).
    pub open spec fn wf(&self) -> bool {
        snake_tables_wf(self.colors(), self.reverse())
    }

    /// The snake that visits the red/green pairs in the order of `points`:
    /// code `i` gets the colour of `points[i]`. `None` unless `points` holds
    /// 65536 pairs, none twice, starting at `(0, 0)` so that silence is black.
    pub fn from_points(points: &[(u8, u8)]) -> (res: Option<SnakeLut>)
        ensures
            res is Some <==> (points@.len() == SNAKE_LEN && points@[0] == (0u8, 0u8) && distinct_pairs(points@)),
            res matches Some(lut) ==> {
                &&& lut.wf()
                &&& forall|i: int| 0 <= i < SNAKE_LEN ==> #[trigger] lut.colors()[i] == snake_color(points@[i])
            },
    {
        if points.len() != SNAKE_LEN {
            return None;
        }
        if points[0].0 != 0 || points[0].1 != 0 {
            return None;
        }
        let mut colors: Vec<(u8, u8, u8)> = Vec::new();
        let mut reverse_rg: Vec<u16> = Vec::new();
        let mut k: usize = 0;
        while k < SNAKE_LEN
            invariant
                k <= SNAKE_LEN,
                reverse_rg@.len() == k,
            decreases SNAKE_LEN - k,
        {
            reverse_rg.push(0);
            k += 1;
        }
        let mut i: usize = 0;
        while i < SNAKE_LEN
            invariant
                points@.len() == SNAKE_LEN,
                points@[0] == (0u8, 0u8),
                i <= SNAKE_LEN,
                reverse_rg@.len() == SNAKE_LEN,
                colors@.len() == i,
                forall|j: int| 0 <= j < i ==> #[trigger] colors@[j] == snake_color(points@[j]),
                distinct_pairs(points@) ==> forall|j: int|
                    0 <= j < i ==> reverse_rg@[rg_index(points@[j].0 as int, points@[j].1 as int)] == j,
            decreases SNAKE_LEN - i,
        {
            let p = points[i];
            let b = if p.0 >= p.1 { p.0 - p.1 } else { p.1 - p.0 };
            colors.push((p.0, p.1, b));
            let idx = (p.0 as usize) * 256 + (p.1 as usize);
            reverse_rg.set(idx, i as u16);
            proof {
                if distinct_pairs(points@) {
                    assert forall|j: int| 0 <= j < i + 1 implies reverse_rg@[rg_index(
                        points@[j].0 as int,
                        points@[j].1 as int,
                    )] == j by {
                        if j < i {
                            assert(points@[j] != points@[i as int]);
                        }
                    }
                }
            }
            i += 1;
        }
        let mut ok = true;
        let mut j: usize = 0;
        while j < SNAKE_LEN
            invariant
                points@.len() == SNAKE_LEN,
                points@[0] == (0u8, 0u8),
                j <= SNAKE_LEN,
                reverse_rg@.len() == SNAKE_LEN,
                colors@.len() == SNAKE_LEN,
                forall|t: int| 0 <= t < SNAKE_LEN ==> #[trigger] colors@[t] == snake_color(points@[t]),
                distinct_pairs(points@) ==> forall|t: int|
                    0 <= t < SNAKE_LEN ==> reverse_rg@[rg_index(points@[t].0 as int, points@[t].1 as int)] == t,
                ok <==> forall|t: int|
                    0 <= t < j ==> reverse_rg@[rg_index(points@[t].0 as int, points@[t].1 as int)] == t,
            decreases SNAKE_LEN - j,
        {
            let p = points[j];
            let idx = (p.0 as usize) * 256 + (p.1 as usize);
            if reverse_rg[idx] as usize != j {
                ok = false;
            }
            j += 1;
        }
        if !ok {
            return None;
        }
        proof {
            assert forall|a: int, b: int| 0 <= a < b < points@.len() implies points@[a] != points@[b] by {
                if points@[a] == points@[b] {
                    assert(reverse_rg@[rg_index(points@[a].0 as int, points@[a].1 as int)] == a);
                    assert(reverse_rg@[rg_index(points@[b].0 as int, points@[b].1 as int)] == b);
                }
            }
            assert forall|t: int| 0 <= t < SNAKE_LEN implies {
                let c = #[trigger] colors@[t];
                &&& c.2 == abs_diff(c.0, c.1)
                &&& reverse_rg@[rg_index(c.0 as int, c.1 as int)] == t
            } by {
                assert(colors@[t] == snake_color(points@[t]));
            }
            assert(colors@[0] == snake_color(points@[0]));
        }
        Some(SnakeLut { colors, reverse_rg })
    }
}

/// Red of the colour of code `index`.
pub fn get_color_r(lut: &SnakeLut, index: u16) -> (res: u8)
    requires
        lut.wf(),
    ensures
        res == lut.colors()[index as int].0,
{
    lut.colors[index as usize].0
}

/// Green of the colour of code `index`.
pub fn get_color_g(lut: &SnakeLut, index: u16) -> (res: u8)
    requires
        lut.wf(),
    ensures
        res == lut.colors()[index as int].1,
{
    lut.colors[index as usize].1
}

/// Blue of the colour of code `index`.
pub fn get_color_b(lut: &SnakeLut, index: u16) -> (res: u8)
    requires
        lut.wf(),
    ensures
        res == lut.colors()[index as int].2,
{
    lut.colors[index as usize].2
}

/// The code of the colour with red `r` and green `g`.
pub fn decode_rg_to_coefficient_raw(lut: &SnakeLut, r: u8, g: u8) -> (res: u16)
    requires
        lut.wf(),
    ensures
        res == lut.reverse()[rg_index(r as int, g as int)],
{
    lut.reverse_rg[(r as usize) * 256 + (g as usize)]
}

/// The coefficient whose Gray-coded ZigZag word is the code of the colour
/// with red `r` and green `g`.
pub fn decode_rg_to_coefficient(lut: &SnakeLut, r: u8, g: u8) -> (res: i16)
    requires
        lut.wf(),
    ensures
        res == spec_gray_decode(lut.reverse()[rg_index(r as int, g as int)] as u32) as i16,
{
    let raw = decode_rg_to_coefficient_raw(lut, r, g);
    gray_decode(raw as u32) as i16
}

/// The code of the colour `(r, g, b)`: the code whose colour it is when
/// there is one, else the code of the colour with the same red and green.
/// Each red/green pair has one colour, so both are the code at `(r, g)`.
pub fn decode_color_to_coefficient_raw(lut: &SnakeLut, r: u8, g: u8, b: u8) -> (res: u16)
    requires
        lut.wf(),
    ensures
        res == lut.reverse()[rg_index(r as int, g as int)],
        forall|i: int| 0 <= i < SNAKE_LEN && #[trigger] lut.colors()[i] == (r, g, b) ==> res == i,
{
    decode_rg_to_coefficient_raw(lut, r, g)
}

/// The coefficient of the colour `(r, g, b)` (see [`decode_color_to_coefficient_raw`]).
pub fn decode_color_to_coefficient(lut: &SnakeLut, r: u8, g: u8, b: u8) -> (res: i16)
    requires
        lut.wf(),
    ensures
        res == spec_gray_decode(lut.reverse()[rg_index(r as int, g as int)] as u32) as i16,
{
    let raw = decode_color_to_coefficient_raw(lut, r, g, b);
    gray_decode(raw as u32) as i16
}

/// Code of the 16 by 16 block at `(block_r, block_c)` of the colour chart:
/// the blocks walk the rows of codes, odd rows right to left.
pub open spec fn chart_code(block_r: int, block_c: int) -> int {
    if block_r % 2 == 0 { block_r * 256 + block_c } else { block_r * 256 + (255 - block_c) }
}

/// Byte `j` of the 4096 by 4096 RGBA colour chart.
pub open spec fn chart_byte(colors: Seq<(u8, u8, u8)>, j: int) -> u8 {
    let px = j / 4;
    let c = colors[chart_code((px / 4096) / 16, (px % 4096) / 16)];
    let ch = j % 4;
    if ch == 0 { c.0 } else if ch == 1 { c.1 } else if ch == 2 { c.2 } else { 255 }
}

/// A 4096 by 4096 RGBA chart of the snake: 16 by 16 blocks, one per code,
/// the rows of blocks walked back and forth.
pub fn wasm_generate_color_chart_4096(lut: &SnakeLut) -> (res: Vec<u8>)
    requires
        lut.wf(),
    ensures
        res@ == Seq::new(4096 * 4096 * 4, |j: int| chart_byte(lut.colors(), j)),
{
    let ghost target = Seq::new(4096 * 4096 * 4, |j: int| chart_byte(lut.colors(), j));
    let mut output: Vec<u8> = Vec::new();
    let mut r: usize = 0;
    while r < 4096
        invariant
            r <= 4096,
            lut.wf(),
            target == Seq::new(4096 * 4096 * 4, |j: int| chart_byte(lut.colors(), j)),
            output@ =~= target.subrange(0, (r * 4096 * 4) as int),
        decreases 4096 - r,
    {
        let block_r = r / 16;
        let is_row_even = block_r % 2 == 0;
        let mut c: usize = 0;
        while c < 4096
            invariant
                r < 4096,
                c <= 4096,
                block_r == r / 16,
                is_row_even == (block_r % 2 == 0),
                lut.wf(),
                target == Seq::new(4096 * 4096 * 4, |j: int| chart_byte(lut.colors(), j)),
                output@ =~= target.subrange(0, (r * 4096 * 4 + c * 4) as int),
            decreases 4096 - c,
        {
            let block_c = c / 16;
            let color_index = if is_row_even { block_r * 256 + block_c } else { block_r * 256 + (255 - block_c) };
            let ci = color_index as u16;
            let ghost before = output@;
            output.push(get_color_r(lut, ci));
            output.push(get_color_g(lut, ci));
            output.push(get_color_b(lut, ci));
            output.push(255u8);
            proof {
                let px = (r * 4096 + c) as int;
                assert(px / 4096 == r);
                assert(px % 4096 == c);
                assert forall|t: int| 0 <= t < 4 implies #[trigger] output@[4 * px + t] == target[4 * px + t] by {
                    assert((4 * px + t) / 4 == px);
                    assert((4 * px + t) % 4 == t);
                }
                assert(output@ =~= target.subrange(0, (r * 4096 * 4 + (c + 1) * 4) as int));
            }
            c += 1;
        }
        r += 1;
    }
    output
}

/// The plain palette: code `i` has red `i % 256`, green `(i / 256) % 256`
/// and blue their distance.
pub fn generate_snake_palette_lut() -> (res: Vec<(u8, u8, u8)>)
    ensures
        res@.len() == SNAKE_LEN,
        forall|i: int|
            0 <= i < SNAKE_LEN ==> #[trigger] res@[i] == snake_color(((i % 256) as u8, ((i / 256) % 256) as u8)),
{
    let mut palette: Vec<(u8, u8, u8)> = Vec::new();
    let mut i: usize = 0;
    while i < SNAKE_LEN
        invariant
            i <= SNAKE_LEN,
            palette@.len() == i,
            forall|j: int|
                0 <= j < i ==> #[trigger] palette@[j] == snake_color(((j % 256) as u8, ((j / 256) % 256) as u8)),
        decreases SNAKE_LEN - i,
    {
        let r = (i % 256) as u8;
        let g = ((i / 256) % 256) as u8;
        let b = if r >= g { r - g } else { g - r };
        palette.push((r, g, b));
        i += 1;
    }
    palette
}

} // verus!
