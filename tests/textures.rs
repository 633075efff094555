use voxel_tracer::block_types::BlockType;
use voxel_tracer::color::Rgba;
use voxel_tracer::texture::{CpuTexture, TextureManager};

fn px(v: u8) -> Rgba {
    Rgba { r: v, g: v, b: v, a: 255 }
}

fn three_by_two() -> CpuTexture {
    CpuTexture::from_pixels(3, 2, (0..6).map(px).collect()).unwrap()
}

#[test]
fn zero_sized_texture_is_refused() {
    assert!(CpuTexture::from_pixels(0, 2, vec![]).is_none());
    assert!(CpuTexture::from_pixels(2, 0, vec![]).is_none());
    assert!(CpuTexture::from_pixels(1 << 31, 1, vec![]).is_none());
}

#[test]
fn texel_inside() {
    let t = three_by_two();
    assert_eq!(t.get_pixel_clamped(0, 0), px(0));
    assert_eq!(t.get_pixel_clamped(2, 0), px(2));
    assert_eq!(t.get_pixel_clamped(1, 1), px(4));
}

#[test]
fn texel_coordinates_clamp_to_edges() {
    let t = three_by_two();
    assert_eq!(t.get_pixel_clamped(-5, -5), px(0));
    assert_eq!(t.get_pixel_clamped(9, 0), px(2));
    assert_eq!(t.get_pixel_clamped(1, 9), px(4));
    assert_eq!(t.get_pixel_clamped(i32::MAX, i32::MIN), px(2));
}

#[test]
fn missing_texel_reads_white() {
    let t = CpuTexture::from_pixels(2, 2, vec![px(1), px(2), px(3)]).unwrap();
    assert_eq!(t.get_pixel_clamped(1, 1), Rgba::white());
    assert_eq!(t.get_pixel_clamped(0, 1), px(3));
}

#[test]
fn corners_step_right_and_down() {
    let t = three_by_two();
    assert_eq!(t.bilinear_corners(0, 0), (px(0), px(1), px(3), px(4)));
}

#[test]
fn corners_stop_at_last_column_and_row() {
    let t = three_by_two();
    assert_eq!(t.bilinear_corners(2, 1), (px(5), px(5), px(5), px(5)));
    assert_eq!(t.bilinear_corners(i32::MAX, 0), (px(2), px(2), px(5), px(5)));
}

#[test]
fn store_starts_empty() {
    let m = TextureManager::new();
    assert!(!m.contains("textures/dirt.jpg"));
    assert!(m.get("textures/dirt.jpg").is_none());
    assert_eq!(m.size_of("textures/dirt.jpg"), None);
    assert_eq!(m.width_of("textures/dirt.jpg"), 0);
    assert_eq!(m.height_of("textures/dirt.jpg"), 0);
    assert_eq!(m.get_pixel_color("textures/dirt.jpg", 0, 0), Rgba::white());
    let d = TextureManager::default();
    assert!(!d.contains("a"));
}

#[test]
fn store_finds_what_was_inserted() {
    let mut m = TextureManager::new();
    assert!(m.insert("textures/dirt.jpg", three_by_two()));
    assert!(m.contains("textures/dirt.jpg"));
    assert!(!m.contains("textures/stone.jpg"));
    assert_eq!(m.size_of("textures/dirt.jpg"), Some((3, 2)));
    assert_eq!(m.width_of("textures/dirt.jpg"), 3);
    assert_eq!(m.height_of("textures/dirt.jpg"), 2);
    assert_eq!(m.get_pixel_color("textures/dirt.jpg", 2, 1), px(5));
    assert_eq!(m.get("textures/dirt.jpg").unwrap().width(), 3);
}

#[test]
fn second_insert_is_a_no_op() {
    let mut m = TextureManager::new();
    assert!(m.insert("p", three_by_two()));
    let other = CpuTexture::from_pixels(1, 1, vec![px(9)]).unwrap();
    assert!(!m.insert("p", other));
    assert_eq!(m.size_of("p"), Some((3, 2)));
    assert_eq!(m.get_pixel_color("p", 0, 0), px(0));
}

#[test]
fn several_paths_are_kept_apart() {
    let mut m = TextureManager::new();
    assert!(m.insert("a", three_by_two()));
    assert!(m.insert("b", CpuTexture::from_pixels(1, 1, vec![px(9)]).unwrap()));
    assert_eq!(m.get_pixel_color("a", 1, 0), px(1));
    assert_eq!(m.get_pixel_color("b", 1, 0), px(9));
    assert_eq!(m.size_of("b"), Some((1, 1)));
}

#[test]
fn block_textures() {
    assert_eq!(BlockType::Grass.texture().as_deref(), Some("textures/grass_top.jpg"));
    assert_eq!(BlockType::Cobble.texture().as_deref(), Some("textures/cobble.png"));
    assert_eq!(BlockType::Glass.texture().as_deref(), Some("textures/glass.png"));
    assert_eq!(BlockType::Metal.texture(), None);
    assert_eq!(BlockType::Sun.texture(), None);
}

#[test]
fn only_the_sun_glows() {
    assert!(BlockType::Sun.is_emissive());
    assert!(!BlockType::Grass.is_emissive());
    assert!(!BlockType::Metal.is_emissive());
    assert!(!BlockType::Glass.is_emissive());
}
