use vstd::prelude::*;

use crate::color::{colormap, palette_color, Rgb};
use crate::config::GridConfig;
use crate::raster::{Assembler, Raster, RowResult};

verus! {

/// Computes every value of row `row_index`: entry `x` is `pixel(x, row_index)`.
pub fn compute_row<F: Fn(u32, u32) -> u32>(row_index: u32, width: u32, pixel: &F) -> (r: RowResult)
    requires
        forall|x: u32| x < width ==> pixel.requires((x, row_index)),
    ensures
        r.row_index == row_index,
        r.values@.len() == width,
        forall|x: int| 0 <= x < width ==> pixel.ensures((x as u32, row_index), #[trigger] r.values@[x]),
{
    let mut values: Vec<u32> = Vec::new();
    let mut x: u32 = 0;
    while x < width
        invariant
            forall|x: u32| x < width ==> pixel.requires((x, row_index)),
            x <= width,
            values@.len() == x,
            forall|i: int| 0 <= i < x ==> pixel.ensures((i as u32, row_index), #[trigger] values@[i]),
        decreases width - x,
    {
        let v = pixel(x, row_index);
        values.push(v);
        x = x + 1;
    }
    RowResult { row_index, values }
}

/// `cells` has `height` rows of `width` values, and the value at column `x`
/// of row `y` is one that `pixel(x, y)` returns.
pub open spec fn renders<F: Fn(u32, u32) -> u32>(
    pixel: F,
    width: nat,
    height: nat,
    cells: Seq<Seq<u32>>,
) -> bool {
    &&& cells.len() == height
    &&& forall|y: int| 0 <= y < height ==> (#[trigger] cells[y]).len() == width
    &&& forall|y: int, x: int|
        0 <= y < height && 0 <= x < width ==> pixel.ensures((x as u32, y as u32), #[trigger] cells[y][x])
}

/// Renders the raster row by row on the calling thread: each row is computed
/// as a row task and handed to an assembler.
pub fn render<F: Fn(u32, u32) -> u32>(config: &GridConfig, pixel: &F) -> (r: Raster)
    requires
        config.wf(),
        forall|x: u32, y: u32|
            x < config.width_spec() && y < config.height_spec() ==> pixel.requires((x, y)),
    ensures
        r.wf(),
        r.width_spec() == config.width_spec(),
        r.height_spec() == config.height_spec(),
        renders(*pixel, config.width_spec(), config.height_spec(), r@),
{
    let width = config.width();
    let height = config.height();
    let mut a = Assembler::new(width, height);
    let mut y: u32 = 0;
    while y < height
        invariant
            forall|x: u32, y: u32| x < width && y < height ==> pixel.requires((x, y)),
            y <= height,
            a.wf(),
            a.width_spec() == width,
            a.height_spec() == height,
            a@.len() == height,
            forall|i: int| y <= i < height ==> (#[trigger] a@[i]) is None,
            forall|i: int| 0 <= i < y ==> (#[trigger] a@[i]) is Some && a@[i]->0.len() == width,
            forall|i: int, x: int|
                0 <= i < y && 0 <= x < width ==> pixel.ensures((x as u32, i as u32), #[trigger] a@[i]->0[x]),
        decreases height - y,
    {
        let row = compute_row(y, width, pixel);
        let ghost values = row.values@;
        let ghost before = a@;
        let outcome = a.accept(row);
        assert(outcome is Ok);
        proof {
            assert forall|i: int, x: int|
                0 <= i < y + 1 && 0 <= x < width implies pixel.ensures((x as u32, i as u32), #[trigger] a@[i]->0[x]) by {
                if i < y {
                    assert(a@[i] == before[i]);
                } else {
                    assert(a@[i]->0 == values);
                }
            }
        }
        y = y + 1;
    }
    let ghost slots = a@;
    let r = a.finish();
    match r {
        Ok(raster) => {
            assert forall|i: int, x: int|
                0 <= i < height && 0 <= x < width implies pixel.ensures((x as u32, i as u32), #[trigger] raster@[i][x]) by {
                assert(raster@[i] == slots[i]->0);
            }
            raster
        },
        Err(_) => {
            assert(false);
            Raster::empty()
        },
    }
}

/// Each value of `pixel` is determined by its coordinates.
pub open spec fn pixel_deterministic<F: Fn(u32, u32) -> u32>(pixel: F) -> bool {
    forall|x: u32, y: u32, a: u32, b: u32|
        #[trigger] pixel.ensures((x, y), a) && #[trigger] pixel.ensures((x, y), b) ==> a == b
}

/// Rendering is idempotent: where each pixel's value is determined by its
/// coordinates, two renders of the same configuration give the same raster.
pub proof fn lemma_render_idempotent<F: Fn(u32, u32) -> u32>(
    pixel: F,
    width: nat,
    height: nat,
    first: Seq<Seq<u32>>,
    second: Seq<Seq<u32>>,
)
    requires
        width <= u32::MAX,
        height <= u32::MAX,
        pixel_deterministic(pixel),
        renders(pixel, width, height, first),
        renders(pixel, width, height, second),
    ensures
        first == second,
{
    assert forall|y: int| 0 <= y < height implies #[trigger] first[y] == second[y] by {
        assert forall|x: int| 0 <= x < width implies #[trigger] first[y][x] == second[y][x] by {
            assert(pixel.ensures((x as u32, y as u32), first[y][x]));
            assert(pixel.ensures((x as u32, y as u32), second[y][x]));
        }
        assert(first[y] =~= second[y]);
    }
    assert(first =~= second);
}

/// Maps every value of the raster onto the palette.
pub fn colorize(raster: &Raster) -> (colors: Vec<Vec<Rgb>>)
    requires
        raster.wf(),
    ensures
        colors@.len() == raster.height_spec(),
        forall|y: int| 0 <= y < colors@.len() ==> (#[trigger] colors@[y])@.len() == raster.width_spec(),
        forall|y: int, x: int|
            0 <= y < colors@.len() && 0 <= x < raster.width_spec() ==> #[trigger] colors@[y]@[x]
                == palette_color(raster@[y][x] as int),
{
    let width = raster.width();
    let height = raster.height();
    let mut colors: Vec<Vec<Rgb>> = Vec::new();
    let mut y: u32 = 0;
    while y < height
        invariant
            raster.wf(),
            width == raster.width_spec(),
            height == raster.height_spec(),
            y <= height,
            colors@.len() == y,
            forall|i: int| 0 <= i < y ==> (#[trigger] colors@[i])@.len() == width,
            forall|i: int, x: int|
                0 <= i < y && 0 <= x < width ==> #[trigger] colors@[i]@[x] == palette_color(raster@[i][x] as int),
        decreases height - y,
    {
        let mut line: Vec<Rgb> = Vec::new();
        let mut x: u32 = 0;
        while x < width
            invariant
                raster.wf(),
                width == raster.width_spec(),
                height == raster.height_spec(),
                y < height,
                x <= width,
                line@.len() == x,
                forall|j: int| 0 <= j < x ==> #[trigger] line@[j] == palette_color(raster@[y as int][j] as int),
            decreases width - x,
        {
            line.push(colormap(raster.get(x, y)));
            x = x + 1;
        }
        colors.push(line);
        y = y + 1;
    }
    colors
}

} // verus!
