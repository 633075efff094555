use crate::framebuffer::{after_writes, cell_after, lands_on, Framebuffer};
use vstd::prelude::*;
use vstd::arithmetic::div_mod::{lemma_fundamental_div_mod, lemma_fundamental_div_mod_converse};

verus! {

/// Edge length of the square tiles a frame is cut into.
pub const TILE_SIZE: usize = 16;

/// The half-open pixel rectangle `[x0, x1) x [y0, y1)`.
#[derive(Clone, Copy, Debug, PartialEq, Eq, Structural)]
pub struct Tile {
    pub x0: usize,
    pub y0: usize,
    pub x1: usize,
    pub y1: usize,
}

pub open spec fn covers(t: Tile, x: int, y: int) -> bool {
    t.x0 <= x < t.x1 && t.y0 <= y < t.y1
}

pub open spec fn min(a: int, b: int) -> int {
    if a <= b {
        a
    } else {
        b
    }
}

/// How many steps of `size` it takes to pass `n`: `n / size` rounded up.
pub open spec fn steps(n: nat, size: nat) -> nat {
    if size == 0 {
        0
    } else if n % size == 0 {
        n / size
    } else {
        n / size + 1
    }
}

/// The tile in tile-row `row` and tile-column `col` of a `width` x `height`
/// frame; tiles on the right and bottom edges are cut short.
pub open spec fn tile_at(width: nat, height: nat, size: nat, row: int, col: int) -> Tile {
    Tile {
        x0: (col * size) as usize,
        y0: (row * size) as usize,
        x1: min((col + 1) * size, width as int) as usize,
        y1: min((row + 1) * size, height as int) as usize,
    }
}

/// All tiles of a frame, row of tiles by row of tiles, left to right.
pub open spec fn grid(width: nat, height: nat, size: nat) -> Seq<Tile> {
    let cols = steps(width, size);
    Seq::new(
        cols * steps(height, size),
        |k: int| tile_at(width, height, size, k / cols as int, k % cols as int),
    )
}

/// The part `i` of `n` items split into `parts` runs of `steps(n, parts)`
/// items; the last runs may be short or empty.
pub open spec fn share(n: nat, parts: nat, i: int) -> (usize, usize) {
    let per = steps(n, parts) as int;
    (min(i * per, n as int) as usize, min((i + 1) * per, n as int) as usize)
}

proof fn lemma_step_below(n: nat, size: nat, c: nat)
    requires
        size > 0,
        c < steps(n, size),
    ensures
        c * size < n,
        c * size + size <= n + size,
{
    lemma_fundamental_div_mod(n as int, size as int);
    let q = n / size;
    let r = n % size;
    if c < q {
        assert(c * size + size <= q * size) by (nonlinear_arith)
            requires
                c < q,
                size > 0,
        ;
    } else {
        assert(c * size == q * size) by (nonlinear_arith)
            requires
                c == q,
        ;
    }
}

/// The number of pieces of size `size` that cover `n`, computed without
/// overflow.
fn count_steps(n: usize, size: usize) -> (r: usize)
    requires
        size > 0,
    ensures
        r == steps(n as nat, size as nat),
{
    if n % size == 0 {
        n / size
    } else {
        assert(n / size < n) by (nonlinear_arith)
            requires
                size > 0,
                n % size != 0,
        ;
        n / size + 1
    }
}

/// Cuts a `width` x `height` frame into `tile_size` x `tile_size` tiles,
/// row of tiles by row of tiles, left to right; the last tile of a row or
/// column is cut at the frame's edge.
pub fn tile_grid(width: usize, height: usize, tile_size: usize) -> (r: Vec<Tile>)
    requires
        tile_size > 0,
    ensures
        r@ == grid(width as nat, height as nat, tile_size as nat),
{
    let cols = count_steps(width, tile_size);
    let rows = count_steps(height, tile_size);
    let ghost g = grid(width as nat, height as nat, tile_size as nat);
    let mut tiles: Vec<Tile> = Vec::new();
    let mut row: usize = 0;
    while row < rows
        invariant
            tile_size > 0,
            cols == steps(width as nat, tile_size as nat),
            rows == steps(height as nat, tile_size as nat),
            g == grid(width as nat, height as nat, tile_size as nat),
            row <= rows,
            tiles@ == g.take(row * cols),
        decreases rows - row,
    {
        proof {
            lemma_step_below(height as nat, tile_size as nat, row as nat);
        }
        let y0 = row * tile_size;
        proof {
            assert((row + 1) * tile_size == row * tile_size + tile_size) by (nonlinear_arith);
        }
        let y1 = if height - y0 > tile_size {
            y0 + tile_size
        } else {
            height
        };
        let mut col: usize = 0;
        while col < cols
            invariant
                tile_size > 0,
                cols == steps(width as nat, tile_size as nat),
                rows == steps(height as nat, tile_size as nat),
                g == grid(width as nat, height as nat, tile_size as nat),
                row < rows,
                col <= cols,
                y0 == row * tile_size,
                y1 == min((row + 1) * tile_size, height as int),
                tiles@ == g.take(row * cols + col),
            decreases cols - col,
        {
            proof {
                lemma_step_below(width as nat, tile_size as nat, col as nat);
            }
            let x0 = col * tile_size;
            proof {
                assert((col + 1) * tile_size == col * tile_size + tile_size) by (nonlinear_arith);
            }
            let x1 = if width - x0 > tile_size {
                x0 + tile_size
            } else {
                width
            };
            let t = Tile { x0, y0, x1, y1 };
            proof {
                let k = row * cols + col;
                assert(k < cols * rows) by (nonlinear_arith)
                    requires
                        k == row * cols + col,
                        row < rows,
                        col < cols,
                ;
                lemma_fundamental_div_mod_converse(k, cols as int, row as int, col as int);
                assert(g[k] == t);
                assert(tiles@.push(t) =~= g.take(k + 1));
            }
            tiles.push(t);
            col = col + 1;
        }
        proof {
            assert(row * cols + cols == (row + 1) * cols) by (nonlinear_arith);
        }
        row = row + 1;
    }
    proof {
        assert(rows * cols == g.len()) by (nonlinear_arith)
            requires
                g.len() == cols * rows,
        ;
        assert(tiles@ =~= g);
    }
    tiles
}

/// Splits `n` items among `parts` workers: worker `i` takes the run
/// `share(n, parts, i)`. The runs follow one another without gap or
/// overlap, from `0` to `n`.
pub fn worker_ranges(n: usize, parts: usize) -> (r: Vec<(usize, usize)>)
    requires
        parts > 0,
    ensures
        r@.len() == parts,
        forall|i: int| 0 <= i < parts ==> #[trigger] r@[i] == share(n as nat, parts as nat, i),
        forall|i: int| 0 <= i < parts ==> r@[i].0 <= #[trigger] r@[i].1,
        r@[0].0 == 0,
        forall|i: int| 0 <= i < parts - 1 ==> #[trigger] r@[i].1 == r@[i + 1].0,
        r@[parts - 1].1 == n,
{
    let per = count_steps(n, parts);
    let mut ranges: Vec<(usize, usize)> = Vec::new();
    let mut start: usize = 0;
    let mut i: usize = 0;
    while i < parts
        invariant
            parts > 0,
            per == steps(n as nat, parts as nat),
            i <= parts,
            start == min(i * per, n as int),
            ranges@.len() == i,
            forall|k: int| 0 <= k < i ==> #[trigger] ranges@[k] == share(n as nat, parts as nat, k),
        decreases parts - i,
    {
        let end = if n - start > per {
            start + per
        } else {
            n
        };
        proof {
            assert((i + 1) * per == i * per + per) by (nonlinear_arith);
        }
        ranges.push((start, end));
        start = end;
        i = i + 1;
    }
    proof {
        lemma_fundamental_div_mod(n as int, parts as int);
        assert(parts * per >= n) by (nonlinear_arith)
            requires
                n == parts * (n / parts) + n % parts,
                0 <= n % parts < parts,
                per as int == if n % parts == 0 {
                    (n / parts) as int
                } else {
                    n / parts + 1
                },
                parts > 0,
        ;
        assert forall|i: int| 0 <= i < parts implies ranges@[i].0 <= #[trigger] ranges@[i].1 by {
            assert(i * per <= (i + 1) * per) by (nonlinear_arith)
                requires
                    i >= 0,
                    per >= 0,
            ;
        }
    }
    ranges
}

/// The pixels of a tile, row by row, left to right.
pub open spec fn tile_pixels(t: Tile) -> Seq<(usize, usize)> {
    let tw = t.x1 - t.x0;
    Seq::new(
        (tw * (t.y1 - t.y0)) as nat,
        |j: int| ((t.x0 + j % tw) as usize, (t.y0 + j / tw) as usize),
    )
}

/// The pixels of a run of tiles, tile after tile.
pub open spec fn run_pixels(ts: Seq<Tile>) -> Seq<(usize, usize)>
    decreases ts.len(),
{
    if ts.len() == 0 {
        Seq::empty()
    } else {
        run_pixels(ts.drop_last()) + tile_pixels(ts.last())
    }
}

/// The positions of a list of pixel writes.
pub open spec fn positions(ws: Seq<(usize, usize, u32)>) -> Seq<(usize, usize)> {
    ws.map_values(|p: (usize, usize, u32)| (p.0, p.1))
}

pub open spec fn well_formed(t: Tile) -> bool {
    t.x0 <= t.x1 && t.y0 <= t.y1
}

/// Every write holds a colour that `shade` may give for its position.
pub open spec fn all_shaded<F: Fn(usize, usize) -> u32>(
    shade: F,
    ws: Seq<(usize, usize, u32)>,
) -> bool {
    forall|j: int| 0 <= j < ws.len() ==> call_ensures(shade, (ws[j].0, ws[j].1), #[trigger] ws[j].2)
}

/// `shade` may be called on every pixel of `t`.
pub open spec fn shade_ready<F: Fn(usize, usize) -> u32>(shade: F, t: Tile) -> bool {
    forall|x: usize, y: usize| covers(t, x as int, y as int) ==> call_requires(shade, (x, y))
}

/// Shades every pixel of a tile, row by row, left to right, and returns
/// the writes (column, row, colour).
pub fn trace_tile<F: Fn(usize, usize) -> u32>(tile: Tile, shade: &F) -> (r: Vec<(usize, usize, u32)>)
    requires
        well_formed(tile),
        shade_ready(*shade, tile),
    ensures
        positions(r@) == tile_pixels(tile),
        all_shaded(*shade, r@),
{
    let tw = tile.x1 - tile.x0;
    let ghost px = tile_pixels(tile);
    let mut out: Vec<(usize, usize, u32)> = Vec::new();
    let mut y = tile.y0;
    while y < tile.y1
        invariant
            well_formed(tile),
            shade_ready(*shade, tile),
            tw == tile.x1 - tile.x0,
            px == tile_pixels(tile),
            tile.y0 <= y <= tile.y1,
            out@.len() == (y - tile.y0) * tw,
            out@.len() <= px.len(),
            forall|j: int| 0 <= j < out@.len() ==> (#[trigger] out@[j].0, out@[j].1) == px[j],
            all_shaded(*shade, out@),
        decreases tile.y1 - y,
    {
        let mut x = tile.x0;
        while x < tile.x1
            invariant
                well_formed(tile),
                shade_ready(*shade, tile),
                tw == tile.x1 - tile.x0,
                px == tile_pixels(tile),
                tile.y0 <= y < tile.y1,
                tile.x0 <= x <= tile.x1,
                out@.len() == (y - tile.y0) * tw + (x - tile.x0),
                out@.len() <= px.len(),
            forall|j: int| 0 <= j < out@.len() ==> (#[trigger] out@[j].0, out@[j].1) == px[j],
                all_shaded(*shade, out@),
            decreases tile.x1 - x,
        {
            proof {
                assert(covers(tile, x as int, y as int));
            }
            let c = (*shade)(x, y);
            proof {
                let j = (y - tile.y0) * tw + (x - tile.x0);
                lemma_fundamental_div_mod_converse(
                    j,
                    tw as int,
                    (y - tile.y0) as int,
                    (x - tile.x0) as int,
                );
                assert(j < px.len()) by (nonlinear_arith)
                    requires
                        j == (y - tile.y0) * tw + (x - tile.x0),
                        x < tile.x1,
                        y < tile.y1,
                        tw == tile.x1 - tile.x0,
                        px.len() == tw * (tile.y1 - tile.y0),
                ;
            }
            out.push((x, y, c));
            x = x + 1;
        }
        proof {
            assert((y - tile.y0) * tw + tw == (y + 1 - tile.y0) * tw) by (nonlinear_arith);
        }
        y = y + 1;
    }
    proof {
        assert(out@.len() == px.len()) by (nonlinear_arith)
            requires
                out@.len() == (tile.y1 - tile.y0) * tw,
                px.len() == tw * (tile.y1 - tile.y0),
        ;
        assert(positions(out@) =~= px);
    }
    out
}

/// Pixel `(x, y)` of tile `t` stands at place `(y - y0) * width + (x - x0)`
/// of the tile's pixel list.
proof fn lemma_tile_place(t: Tile, x: int, y: int)
    requires
        covers(t, x, y),
    ensures
        ({
            let j = (y - t.y0) * (t.x1 - t.x0) + (x - t.x0);
            0 <= j < tile_pixels(t).len() && tile_pixels(t)[j] == (x as usize, y as usize)
        }),
{
    let tw = t.x1 - t.x0;
    let j = (y - t.y0) * tw + (x - t.x0);
    lemma_fundamental_div_mod_converse(j, tw as int, y - t.y0, x - t.x0);
    assert(0 <= j < tw * (t.y1 - t.y0)) by (nonlinear_arith)
        requires
            j == (y - t.y0) * tw + (x - t.x0),
            t.x0 <= x < t.x1,
            t.y0 <= y < t.y1,
            tw == t.x1 - t.x0,
    ;
}

/// Shades every pixel of the tiles `start..end`, tile after tile, and
/// returns the writes (column, row, colour): the work of one worker.
pub fn trace_tiles<F: Fn(usize, usize) -> u32>(
    tiles: &Vec<Tile>,
    start: usize,
    end: usize,
    shade: &F,
) -> (r: Vec<(usize, usize, u32)>)
    requires
        start <= end <= tiles@.len(),
        forall|k: int| start <= k < end ==> well_formed(#[trigger] tiles@[k]),
        forall|k: int| start <= k < end ==> shade_ready(*shade, #[trigger] tiles@[k]),
    ensures
        positions(r@) == run_pixels(tiles@.subrange(start as int, end as int)),
        all_shaded(*shade, r@),
        forall|k: int, x: int, y: int|
            start <= k < end && #[trigger] covers(tiles@[k], x, y) ==> exists|j: int|
                0 <= j < r@.len() && r@[j].0 == x && r@[j].1 == y,
{
    let mut out: Vec<(usize, usize, u32)> = Vec::new();
    let mut k = start;
    while k < end
        invariant
            start <= k <= end <= tiles@.len(),
            forall|i: int| start <= i < end ==> well_formed(#[trigger] tiles@[i]),
            forall|i: int| start <= i < end ==> shade_ready(*shade, #[trigger] tiles@[i]),
            positions(out@) == run_pixels(tiles@.subrange(start as int, k as int)),
            all_shaded(*shade, out@),
            forall|i: int, x: int, y: int|
                start <= i < k && #[trigger] covers(tiles@[i], x, y) ==> exists|j: int|
                    0 <= j < out@.len() && out@[j].0 == x && out@[j].1 == y,
        decreases end - k,
    {
        let mut part = trace_tile(tiles[k], shade);
        let ghost before = out@;
        let ghost added = part@;
        out.append(&mut part);
        proof {
            let t = tiles@[k as int];
            assert(out@ =~= before + added);
            assert(tiles@.subrange(start as int, k + 1).drop_last() =~= tiles@.subrange(
                start as int,
                k as int,
            ));
            assert(positions(out@) =~= positions(before) + positions(added));
            assert forall|i: int, x: int, y: int|
                start <= i < k + 1 && #[trigger] covers(tiles@[i], x, y) implies exists|j: int|
                    0 <= j < out@.len() && out@[j].0 == x && out@[j].1 == y by {
                if i == k {
                    lemma_tile_place(t, x, y);
                    let j = (y - t.y0) * (t.x1 - t.x0) + (x - t.x0);
                    assert(positions(added)[j] == (added[j].0, added[j].1));
                    assert(out@[before.len() + j] == added[j]);
                } else {
                    let j = choose|j: int| 0 <= j < before.len() && before[j].0 == x && before[j].1 == y;
                    assert(out@[j] == before[j]);
                }
            }
            assert forall|j: int| 0 <= j < out@.len() implies call_ensures(
                *shade,
                (out@[j].0, out@[j].1),
                #[trigger] out@[j].2,
            ) by {
                if j < before.len() {
                    assert(out@[j] == before[j]);
                } else {
                    assert(out@[j] == added[j - before.len()]);
                }
            }
        }
        k = k + 1;
    }
    out
}

/// `c` is a colour that `shade` may give at the position of cell `i` of a
/// row-major frame `width` pixels wide.
pub open spec fn shaded_cell<F: Fn(usize, usize) -> u32>(width: nat, shade: F, i: int, c: u32) -> bool {
    call_ensures(shade, ((i % width as int) as usize, (i / width as int) as usize), c)
}

/// `pixels` is a `width` x `height` frame in which every cell holds a colour
/// that `shade` may give at its position.
pub open spec fn traced<F: Fn(usize, usize) -> u32>(
    width: nat,
    height: nat,
    shade: F,
    pixels: Seq<u32>,
) -> bool {
    &&& pixels.len() == width * height
    &&& forall|i: int| 0 <= i < pixels.len() ==> shaded_cell(width, shade, i, #[trigger] pixels[i])
}

/// `shade` may be called on every pixel of a `width` x `height` frame.
pub open spec fn frame_ready<F: Fn(usize, usize) -> u32>(width: nat, height: nat, shade: F) -> bool {
    forall|x: usize, y: usize| x < width && y < height ==> call_requires(shade, (x, y))
}

/// `shade` gives one colour per position: no hidden state, no chance.
pub open spec fn deterministic<F: Fn(usize, usize) -> u32>(shade: F) -> bool {
    forall|x: usize, y: usize, c1: u32, c2: u32|
        call_ensures(shade, (x, y), c1) && call_ensures(shade, (x, y), c2) ==> c1 == c2
}

/// Cell `y * width + x` of a row-major frame is pixel `(x, y)`.
proof fn lemma_cell(width: nat, height: nat, x: int, y: int, i: int)
    requires
        0 <= x < width,
        0 <= y < height,
        i == y * width + x,
    ensures
        i % width as int == x,
        i / width as int == y,
        0 <= i < width * height,
{
    lemma_fundamental_div_mod_converse(i, width as int, y, x);
    assert(0 <= i < width * height) by (nonlinear_arith)
        requires
            0 <= x < width,
            0 <= y < height,
            i == y * width + x,
    ;
}

/// Every cell `i` of a row-major frame is pixel `(i % width, i / width)`.
proof fn lemma_cell_pos(width: nat, height: nat, i: int)
    requires
        0 <= i < width * height,
    ensures
        0 <= (i % width as int) < width,
        0 <= (i / width as int) < height,
        i == (i / width as int) * width + i % width as int,
{
    assert(width > 0) by (nonlinear_arith)
        requires
            0 <= i < width * height,
    ;
    lemma_fundamental_div_mod(i, width as int);
    assert(i == (i / width as int) * width + i % width as int) by (nonlinear_arith)
        requires
            i == width * (i / width as int) + i % width as int,
    ;
    assert((i / width as int) < height) by (nonlinear_arith)
        requires
            i == width * (i / width as int) + i % width as int,
            0 <= i % width as int,
            i < width * height,
            width > 0,
    ;
}

/// Traces every pixel of the frame row by row, left to right, on the
/// calling thread.
pub fn render_single_threaded<F: Fn(usize, usize) -> u32>(fb: &mut Framebuffer, shade: &F)
    requires
        old(fb).wf(),
        frame_ready(old(fb).spec_width(), old(fb).spec_height(), *shade),
    ensures
        final(fb).wf(),
        final(fb).spec_width() == old(fb).spec_width(),
        final(fb).spec_height() == old(fb).spec_height(),
        traced(final(fb).spec_width(), final(fb).spec_height(), *shade, final(fb)@),
{
    let width = fb.width();
    let height = fb.height();
    let ghost w = width as nat;
    let ghost h = height as nat;
    let mut y: u32 = 0;
    while y < height
        invariant
            fb.wf(),
            fb.spec_width() == w,
            fb.spec_height() == h,
            width == w,
            height == h,
            fb@.len() == w * h,
            frame_ready(w, h, *shade),
            y <= height,
            forall|i: int| 0 <= i < y * w ==> shaded_cell(w, *shade, i, #[trigger] fb@[i]),
        decreases height - y,
    {
        let mut x: u32 = 0;
        while x < width
            invariant
                fb.wf(),
                fb.spec_width() == w,
                fb.spec_height() == h,
                width == w,
                height == h,
                fb@.len() == w * h,
                frame_ready(w, h, *shade),
                y < height,
                x <= width,
                forall|i: int| 0 <= i < y * w + x ==> shaded_cell(w, *shade, i, #[trigger] fb@[i]),
            decreases width - x,
        {
            let c = (*shade)(x as usize, y as usize);
            let ghost before = fb@;
            fb.set_pixel(x, y, c);
            proof {
                lemma_cell(w, h, x as int, y as int, y * w + x);
                assert forall|i: int| 0 <= i < y * w + x + 1 implies shaded_cell(
                    w,
                    *shade,
                    i,
                    #[trigger] fb@[i],
                ) by {
                    if i < y * w + x {
                        assert(fb@[i] == before[i]);
                    }
                }
            }
            x = x + 1;
        }
        proof {
            assert(y * w + w == (y + 1) * w) by (nonlinear_arith);
        }
        y = y + 1;
    }
    proof {
        assert(h * w == w * h) by (nonlinear_arith);
    }
}

/// The place in `grid(width, height, size)` of the tile holding pixel `(x, y)`.
pub open spec fn tile_index(width: nat, size: nat, x: int, y: int) -> int {
    (y / size as int) * steps(width, size) + x / size as int
}

/// A pixel's position divided by the tile size falls inside the tile grid.
proof fn lemma_step_of(n: nat, size: nat, x: int)
    requires
        size > 0,
        0 <= x < n,
    ensures
        0 <= x / (size as int) < steps(n, size),
        (x / (size as int)) * size <= x < (x / (size as int)) * size + size,
{
    let m = n as int;
    let d = size as int;
    lemma_fundamental_div_mod(x, d);
    lemma_fundamental_div_mod(m, d);
    assert(x / d <= m / d) by (nonlinear_arith)
        requires
            x < m,
            d > 0,
            x == d * (x / d) + x % d,
            m == d * (m / d) + m % d,
            0 <= x % d < d,
            0 <= m % d < d,
    ;
    if m % d == 0 {
        assert(x / d < m / d) by (nonlinear_arith)
            requires
                x < m,
                d > 0,
                x == d * (x / d) + x % d,
                m == d * (m / d),
                0 <= x % d < d,
        ;
    }
    assert((x / d) * d <= x < (x / d) * d + d) by (nonlinear_arith)
        requires
            x == d * (x / d) + x % d,
            0 <= x % d < d,
    ;
    assert(x / d >= 0) by (nonlinear_arith)
        requires
            x >= 0,
            d > 0,
    ;
}

/// Every pixel of the frame lies in the tile at its `tile_index`.
proof fn lemma_tile_of(width: nat, height: nat, size: nat, x: int, y: int)
    requires
        size > 0,
        width <= usize::MAX,
        height <= usize::MAX,
        0 <= x < width,
        0 <= y < height,
    ensures
        0 <= tile_index(width, size, x, y) < grid(width, height, size).len(),
        covers(grid(width, height, size)[tile_index(width, size, x, y)], x, y),
{
    let cols = steps(width, size);
    let rows = steps(height, size);
    let col = x / size as int;
    let row = y / size as int;
    lemma_step_of(width, size, x);
    lemma_step_of(height, size, y);
    let k = row * cols + col;
    assert(0 <= k < cols * rows) by (nonlinear_arith)
        requires
            k == row * cols + col,
            0 <= row < rows,
            0 <= col < cols,
    ;
    lemma_fundamental_div_mod_converse(k, cols as int, row, col);
    assert((col + 1) * size == col * size + size) by (nonlinear_arith);
    assert((row + 1) * size == row * size + size) by (nonlinear_arith);
}

/// Every tile of the grid is a well-formed rectangle inside the frame.
proof fn lemma_grid_tile(width: nat, height: nat, size: nat, k: int)
    requires
        size > 0,
        width <= usize::MAX,
        height <= usize::MAX,
        0 <= k < grid(width, height, size).len(),
    ensures
        well_formed(grid(width, height, size)[k]),
        grid(width, height, size)[k].x1 <= width,
        grid(width, height, size)[k].y1 <= height,
{
    let cols = steps(width, size);
    let rows = steps(height, size);
    assert(cols > 0 && (k / cols as int) < rows && 0 <= (k % cols as int) < cols) by {
        assert(cols > 0) by (nonlinear_arith)
            requires
                0 <= k < cols * rows,
        ;
        lemma_fundamental_div_mod(k, cols as int);
        assert((k / cols as int) < rows) by (nonlinear_arith)
            requires
                k == cols * (k / cols as int) + k % cols as int,
                0 <= k % cols as int,
                k < cols * rows,
                cols > 0,
        ;
    }
    assert(k / cols as int >= 0) by (nonlinear_arith)
        requires
            k >= 0,
            cols > 0,
    ;
    lemma_step_below(width, size, (k % cols as int) as nat);
    lemma_step_below(height, size, (k / cols as int) as nat);
    assert((k % cols as int + 1) * size == (k % cols as int) * size + size) by (nonlinear_arith);
    assert((k / cols as int + 1) * size == (k / cols as int) * size + size) by (nonlinear_arith);
}

/// `ranges` split the tiles `0..n` into runs that follow one another
/// without gap or overlap.
pub open spec fn partitions(ranges: Seq<(usize, usize)>, n: int) -> bool {
    &&& ranges.len() > 0
    &&& ranges[0].0 == 0
    &&& ranges[ranges.len() - 1].1 == n
    &&& forall|k: int| 0 <= k < ranges.len() ==> ranges[k].0 <= #[trigger] ranges[k].1
    &&& forall|k: int| 0 <= k < ranges.len() - 1 ==> #[trigger] ranges[k].1 == ranges[k + 1].0
}

/// `ws` is a worker's result for the tiles `start..end`, as `trace_tiles`
/// yields it: every write holds a colour `shade` may give at its position,
/// and every pixel of those tiles is written.
pub open spec fn run_traced<F: Fn(usize, usize) -> u32>(
    shade: F,
    tiles: Seq<Tile>,
    start: int,
    end: int,
    ws: Seq<(usize, usize, u32)>,
) -> bool {
    &&& all_shaded(shade, ws)
    &&& forall|k: int, x: int, y: int|
        start <= k < end && #[trigger] covers(tiles[k], x, y) ==> exists|j: int|
            0 <= j < ws.len() && ws[j].0 == x && ws[j].1 == y
}

/// Writes the workers' results into the frame buffer, one run after the
/// other. The runs cover the frame's `tile_size` tile grid, so afterwards
/// every cell holds a colour `shade` gives at its position, whatever the
/// buffer held before and in whatever order the workers finished.
pub fn write_worker_results<F: Fn(usize, usize) -> u32>(
    fb: &mut Framebuffer,
    tile_size: usize,
    ranges: &Vec<(usize, usize)>,
    results: &Vec<Vec<(usize, usize, u32)>>,
    shade: &F,
)
    requires
        old(fb).wf(),
        tile_size > 0,
        partitions(
            ranges@,
            grid(old(fb).spec_width(), old(fb).spec_height(), tile_size as nat).len() as int,
        ),
        results@.len() == ranges@.len(),
        forall|i: int|
            0 <= i < ranges@.len() ==> run_traced(
                *shade,
                grid(old(fb).spec_width(), old(fb).spec_height(), tile_size as nat),
                ranges@[i].0 as int,
                ranges@[i].1 as int,
                #[trigger] results@[i]@,
            ),
    ensures
        final(fb).wf(),
        final(fb).spec_width() == old(fb).spec_width(),
        final(fb).spec_height() == old(fb).spec_height(),
        traced(final(fb).spec_width(), final(fb).spec_height(), *shade, final(fb)@),
{
    let width = fb.width();
    let height = fb.height();
    let ghost w = width as nat;
    let ghost h = height as nat;
    let ghost ts = tile_size as nat;
    let ghost tiles = grid(w, h, ts);
    let n = ranges.len();
    let mut i: usize = 0;
    let mut done: usize = 0;
    while i < n
        invariant
            fb.wf(),
            fb.spec_width() == w,
            fb.spec_height() == h,
            width == w,
            height == h,
            fb@.len() == w * h,
            tile_size == ts,
            ts > 0,
            tiles == grid(w, h, ts),
            n == ranges@.len(),
            partitions(ranges@, tiles.len() as int),
            results@.len() == n,
            forall|k: int|
                0 <= k < n ==> run_traced(
                    *shade,
                    tiles,
                    ranges@[k].0 as int,
                    ranges@[k].1 as int,
                    #[trigger] results@[k]@,
                ),
            i <= n,
            i < n ==> done == ranges@[i as int].0,
            i == n ==> done == tiles.len(),
            forall|c: int|
                0 <= c < w * h && tile_index(w, ts, c % w as int, c / w as int) < done
                    ==> shaded_cell(w, *shade, c, #[trigger] fb@[c]),
        decreases n - i,
    {
        let start = ranges[i].0;
        let end = ranges[i].1;
        let writes = &results[i];
        let ghost before = fb@;
        proof {
            assert(run_traced(*shade, tiles, start as int, end as int, results@[i as int]@));
        }
        fb.write_pixels(writes);
        proof {
            assert forall|c: int|
                0 <= c < w * h && tile_index(w, ts, c % w as int, c / w as int) < end implies shaded_cell(
                w,
                *shade,
                c,
                #[trigger] fb@[c],
            ) by {
                lemma_cell_pos(w, h, c);
                let x = c % w as int;
                let y = c / w as int;
                assert(cell_after(w, h, before[c], writes@, writes@.len() as int, c, fb@[c]));
                if exists|k: int| 0 <= k < writes@.len() && lands_on(w, h, writes@[k], c) {
                    let k = choose|k: int|
                        0 <= k < writes@.len() && lands_on(w, h, writes@[k], c) && fb@[c]
                            == writes@[k].2 && forall|k2: int|
                            k < k2 < writes@.len() ==> !lands_on(w, h, #[trigger] writes@[k2], c);
                    lemma_cell(w, h, writes@[k].0 as int, writes@[k].1 as int, c);
                    assert(call_ensures(*shade, (writes@[k].0, writes@[k].1), writes@[k].2));
                } else {
                    assert(fb@[c] == before[c]);
                    let t = tile_index(w, ts, x, y);
                    if start <= t {
                        lemma_tile_of(w, h, ts, x, y);
                        assert(covers(tiles[t], x, y));
                        let j = choose|j: int|
                            0 <= j < writes@.len() && writes@[j].0 == x && writes@[j].1 == y;
                        assert(lands_on(w, h, writes@[j], c));
                    }
                }
            }
        }
        done = end;
        i = i + 1;
    }
    proof {
        assert forall|c: int| 0 <= c < fb@.len() implies shaded_cell(w, *shade, c, #[trigger] fb@[c]) by {
            lemma_cell_pos(w, h, c);
            lemma_tile_of(w, h, ts, c % w as int, c / w as int);
        }
    }
}

/// Traces the frame as the tiled renderer does, on the calling thread: cuts
/// it into `tile_size` x `tile_size` tiles, splits the tiles among
/// `workers` runs with `worker_ranges`, traces each run with `trace_tiles`
/// and writes the results with `write_worker_results`.
pub fn render_tiled<F: Fn(usize, usize) -> u32>(
    fb: &mut Framebuffer,
    tile_size: usize,
    workers: usize,
    shade: &F,
)
    requires
        old(fb).wf(),
        tile_size > 0,
        workers > 0,
        frame_ready(old(fb).spec_width(), old(fb).spec_height(), *shade),
    ensures
        final(fb).wf(),
        final(fb).spec_width() == old(fb).spec_width(),
        final(fb).spec_height() == old(fb).spec_height(),
        traced(final(fb).spec_width(), final(fb).spec_height(), *shade, final(fb)@),
{
    let width = fb.width();
    let height = fb.height();
    let ghost w = width as nat;
    let ghost h = height as nat;
    let ghost ts = tile_size as nat;
    let tiles = tile_grid(width as usize, height as usize, tile_size);
    let ranges = worker_ranges(tiles.len(), workers);
    proof {
        assert forall|k: int| 0 <= k < tiles@.len() implies well_formed(#[trigger] tiles@[k])
            && shade_ready(*shade, tiles@[k]) by {
            lemma_grid_tile(w, h, ts, k);
        }
    }
    let mut results: Vec<Vec<(usize, usize, u32)>> = Vec::new();
    let mut i: usize = 0;
    while i < workers
        invariant
            tiles@ == grid(w, h, ts),
            forall|k: int|
                0 <= k < tiles@.len() ==> well_formed(#[trigger] tiles@[k]) && shade_ready(
                    *shade,
                    tiles@[k],
                ),
            ranges@.len() == workers,
            forall|k: int|
                0 <= k < workers ==> #[trigger] ranges@[k] == share(tiles@.len(), workers as nat, k),
            forall|k: int| 0 <= k < workers ==> ranges@[k].0 <= #[trigger] ranges@[k].1,
            i <= workers,
            results@.len() == i,
            forall|k: int|
                0 <= k < i ==> run_traced(
                    *shade,
                    tiles@,
                    ranges@[k].0 as int,
                    ranges@[k].1 as int,
                    #[trigger] results@[k]@,
                ),
        decreases workers - i,
    {
        let (start, end) = ranges[i];
        let writes = trace_tiles(&tiles, start, end, shade);
        results.push(writes);
        i = i + 1;
    }
    write_worker_results(fb, tile_size, &ranges, &results, shade);
}

/// Two frames traced from one deterministic shading function are
/// identical, cell for cell: rendering twice on one thread, or once on one
/// thread and once in tiles, gives the same buffer.
pub proof fn lemma_same_frame<F: Fn(usize, usize) -> u32>(
    width: nat,
    height: nat,
    shade: F,
    a: Seq<u32>,
    b: Seq<u32>,
)
    requires
        deterministic(shade),
        traced(width, height, shade, a),
        traced(width, height, shade, b),
    ensures
        a == b,
{
    assert forall|i: int| 0 <= i < a.len() implies a[i] == b[i] by {
        assert(shaded_cell(width, shade, i, a[i]));
        assert(shaded_cell(width, shade, i, b[i]));
    }
    assert(a =~= b);
}

} // verus!
