use voxel_tracer::framebuffer::Framebuffer;
use voxel_tracer::tiles::{
    render_single_threaded, render_tiled, tile_grid, trace_tile, trace_tiles, worker_ranges,
    write_worker_results, Tile, TILE_SIZE,
};

fn shade(x: usize, y: usize) -> u32 {
    ((x as u32).wrapping_mul(2_654_435_761) ^ (y as u32).wrapping_mul(40_503)) | 0xFF00_0000
}

#[test]
fn grid_of_reference_frame() {
    let tiles = tile_grid(400, 300, TILE_SIZE);
    assert_eq!(tiles.len(), 25 * 19);
    assert_eq!(tiles[0], Tile { x0: 0, y0: 0, x1: 16, y1: 16 });
    assert_eq!(tiles[24], Tile { x0: 384, y0: 0, x1: 400, y1: 16 });
    assert_eq!(tiles[25], Tile { x0: 0, y0: 16, x1: 16, y1: 32 });
    assert_eq!(tiles[474], Tile { x0: 384, y0: 288, x1: 400, y1: 300 });
}

#[test]
fn grid_cuts_edge_tiles_short() {
    let tiles = tile_grid(20, 10, 16);
    assert_eq!(
        tiles,
        vec![Tile { x0: 0, y0: 0, x1: 16, y1: 10 }, Tile { x0: 16, y0: 0, x1: 20, y1: 10 }]
    );
}

#[test]
fn grid_of_empty_frame() {
    assert!(tile_grid(0, 10, 16).is_empty());
    assert!(tile_grid(10, 0, 16).is_empty());
}

#[test]
fn grid_covers_each_pixel_once() {
    let (w, h) = (37usize, 21usize);
    let tiles = tile_grid(w, h, 8);
    let mut seen = vec![0u32; w * h];
    for t in &tiles {
        for y in t.y0..t.y1 {
            for x in t.x0..t.x1 {
                seen[y * w + x] += 1;
            }
        }
    }
    assert!(seen.iter().all(|&n| n == 1));
}

#[test]
fn ranges_split_evenly() {
    assert_eq!(worker_ranges(5, 4), vec![(0, 2), (2, 4), (4, 5), (5, 5)]);
    assert_eq!(worker_ranges(8, 2), vec![(0, 4), (4, 8)]);
    assert_eq!(worker_ranges(0, 3), vec![(0, 0), (0, 0), (0, 0)]);
}

#[test]
fn ranges_with_more_workers_than_items() {
    let r = worker_ranges(5, 100);
    assert_eq!(r.len(), 100);
    assert_eq!(r[0], (0, 1));
    assert_eq!(r[4], (4, 5));
    assert_eq!(r[5], (5, 5));
    assert_eq!(r[99], (5, 5));
}

#[test]
fn ranges_partition_reference_tiles() {
    let r = worker_ranges(475, 16);
    assert_eq!(r[0].0, 0);
    assert_eq!(r[15].1, 475);
    for i in 0..15 {
        assert_eq!(r[i].1, r[i + 1].0);
        assert_eq!(r[i].1 - r[i].0, 30);
    }
}

#[test]
fn tile_is_traced_row_by_row() {
    let t = Tile { x0: 2, y0: 5, x1: 4, y1: 7 };
    let out = trace_tile(t, &shade);
    let pos: Vec<(usize, usize)> = out.iter().map(|p| (p.0, p.1)).collect();
    assert_eq!(pos, vec![(2, 5), (3, 5), (2, 6), (3, 6)]);
    assert!(out.iter().all(|p| p.2 == shade(p.0, p.1)));
}

#[test]
fn empty_tile_traces_nothing() {
    let t = Tile { x0: 3, y0: 3, x1: 3, y1: 9 };
    assert!(trace_tile(t, &shade).is_empty());
}

#[test]
fn run_of_tiles_is_traced_in_order() {
    let tiles = tile_grid(5, 2, 2);
    let out = trace_tiles(&tiles, 1, 3, &shade);
    let pos: Vec<(usize, usize)> = out.iter().map(|p| (p.0, p.1)).collect();
    assert_eq!(pos, vec![(2, 0), (3, 0), (2, 1), (3, 1), (4, 0), (4, 1)]);
}

#[test]
fn single_threaded_shades_every_pixel() {
    let mut fb = Framebuffer::new(7, 5);
    render_single_threaded(&mut fb, &shade);
    for y in 0..5u32 {
        for x in 0..7u32 {
            assert_eq!(fb.get_pixel(x, y), Some(shade(x as usize, y as usize)));
        }
    }
}

#[test]
fn rendering_twice_gives_identical_buffers() {
    let mut a = Framebuffer::new(33, 17);
    let mut b = Framebuffer::new(33, 17);
    b.clear(0x1234_5678);
    render_single_threaded(&mut a, &shade);
    render_single_threaded(&mut b, &shade);
    assert_eq!(a.pixels(), b.pixels());
}

#[test]
fn tiled_matches_single_threaded() {
    let mut a = Framebuffer::new(40, 30);
    render_single_threaded(&mut a, &shade);
    for &(tile, workers) in &[(16usize, 1usize), (16, 4), (7, 3), (1, 50), (64, 8)] {
        let mut b = Framebuffer::new(40, 30);
        b.clear(0xDEAD_BEEF);
        render_tiled(&mut b, tile, workers, &shade);
        assert_eq!(a.pixels(), b.pixels());
    }
}

#[test]
fn tiled_render_of_empty_frame() {
    let mut fb = Framebuffer::new(0, 0);
    render_tiled(&mut fb, 16, 4, &shade);
    assert!(fb.pixels().is_empty());
}

#[test]
fn worker_results_in_any_order_match_single_threaded() {
    let mut a = Framebuffer::new(45, 23);
    render_single_threaded(&mut a, &shade);
    let tiles = tile_grid(45, 23, TILE_SIZE);
    let ranges = worker_ranges(tiles.len(), 3);
    let results: Vec<Vec<(usize, usize, u32)>> =
        ranges.iter().map(|&(s, e)| trace_tiles(&tiles, s, e, &shade)).collect();
    let mut b = Framebuffer::new(45, 23);
    b.clear(7);
    write_worker_results(&mut b, TILE_SIZE, &ranges, &results, &shade);
    assert_eq!(a.pixels(), b.pixels());
}

#[test]
fn worker_results_with_idle_workers() {
    let mut a = Framebuffer::new(20, 20);
    render_single_threaded(&mut a, &shade);
    let tiles = tile_grid(20, 20, TILE_SIZE);
    let ranges = worker_ranges(tiles.len(), 9);
    let results: Vec<Vec<(usize, usize, u32)>> =
        ranges.iter().map(|&(s, e)| trace_tiles(&tiles, s, e, &shade)).collect();
    assert!(results[8].is_empty());
    let mut b = Framebuffer::new(20, 20);
    write_worker_results(&mut b, TILE_SIZE, &ranges, &results, &shade);
    assert_eq!(a.pixels(), b.pixels());
}
