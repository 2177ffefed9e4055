use rugs::{closest_color, color_distance, quantize, ComperssionAmnt, Image, Rgba};
use std::collections::HashSet;

fn px(r: u8, g: u8, b: u8, a: u8) -> Rgba {
    Rgba { r, g, b, a }
}

fn many_colors(width: u32, height: u32) -> Image {
    let mut image_data = Vec::new();
    for i in 0..width * height {
        image_data.push(px((i % 256) as u8, ((i / 7) % 256) as u8, ((i * 31) % 256) as u8, 255));
    }
    Image { width, height, image_data }
}

fn distinct_count(pixels: &[Rgba]) -> usize {
    pixels.iter().copied().collect::<HashSet<Rgba>>().len()
}

#[test]
fn minority_color_goes_to_the_sole_survivor() {
    let a = px(10, 20, 30, 255);
    let b = px(200, 100, 50, 255);
    let out = quantize(&vec![a, a, a, b], 1);
    assert_eq!(out, vec![a, a, a, a]);
}

#[test]
fn equal_counts_keep_the_first_seen() {
    let a = px(0, 0, 0, 255);
    let b = px(0, 0, 10, 255);
    let c = px(0, 0, 200, 255);
    let out = quantize(&vec![b, a, a, b, c], 1);
    assert_eq!(out, vec![b; 5]);
    let out2 = quantize(&vec![b, a, a, b, c], 2);
    assert_eq!(out2, vec![b, a, a, b, b]);
}

#[test]
fn zero_budget_changes_nothing() {
    let img = many_colors(20, 20);
    assert_eq!(quantize(&img.image_data, 0), img.image_data);
    let mut copy = Image { width: 20, height: 20, image_data: img.image_data.clone() };
    copy.lossy_compress(ComperssionAmnt::NONE).unwrap();
    assert_eq!(copy.image_data, img.image_data);
}

#[test]
fn empty_image_quantizes_to_empty() {
    assert!(quantize(&vec![], 250).is_empty());
    let mut img = Image { width: 0, height: 0, image_data: vec![] };
    img.lossy_compress(ComperssionAmnt::ULTRA).unwrap();
    assert!(img.image_data.is_empty());
}

#[test]
fn budget_larger_than_palette_keeps_colors() {
    let pixels = vec![px(1, 1, 1, 1), px(2, 2, 2, 2), px(1, 1, 1, 1)];
    assert_eq!(quantize(&pixels, 5000), pixels);
}

#[test]
fn quantization_keeps_dimensions() {
    let mut img = many_colors(40, 25);
    img.lossy_compress(ComperssionAmnt::ULTRA).unwrap();
    assert_eq!(img.width, 40);
    assert_eq!(img.height, 25);
    assert_eq!(img.image_data.len(), 1000);
}

#[test]
fn palette_is_bounded_by_budget() {
    let img = many_colors(40, 25);
    let before = distinct_count(&img.image_data);
    assert!(before > 250);
    let mut ultra = Image { width: 40, height: 25, image_data: img.image_data.clone() };
    ultra.lossy_compress(ComperssionAmnt::ULTRA).unwrap();
    assert!(distinct_count(&ultra.image_data) <= 250);
    let out = quantize(&img.image_data, 3);
    assert!(distinct_count(&out) <= 3);
    let few = vec![px(1, 1, 1, 1), px(2, 2, 2, 2)];
    assert!(distinct_count(&quantize(&few, 10)) <= 2);
}

#[test]
fn stronger_level_does_not_grow_the_file() {
    let img = many_colors(100, 60);
    let mut ultra = Image { width: 100, height: 60, image_data: img.image_data.clone() };
    ultra.lossy_compress(ComperssionAmnt::ULTRA).unwrap();
    let mut min = Image { width: 100, height: 60, image_data: img.image_data.clone() };
    min.lossy_compress(ComperssionAmnt::MIN).unwrap();
    assert!(ultra.deserialize().len() <= min.deserialize().len());
}

#[test]
fn level_budgets() {
    assert_eq!(ComperssionAmnt::ULTRA.palette_budget(), 250);
    assert_eq!(ComperssionAmnt::HIGH.palette_budget(), 1000);
    assert_eq!(ComperssionAmnt::MED.palette_budget(), 2000);
    assert_eq!(ComperssionAmnt::MIN.palette_budget(), 5000);
    assert_eq!(ComperssionAmnt::NONE.palette_budget(), 0);
}

#[test]
fn squared_distance_over_four_channels() {
    assert_eq!(color_distance(&px(0, 0, 0, 0), &px(1, 2, 3, 4)), 30);
    assert_eq!(color_distance(&px(255, 255, 255, 255), &px(0, 0, 0, 0)), 4 * 255 * 255);
    assert_eq!(color_distance(&px(7, 7, 7, 7), &px(7, 7, 7, 7)), 0);
}

#[test]
fn closest_prefers_first_on_tie() {
    let palette = [px(0, 0, 0, 0), px(10, 0, 0, 0), px(20, 0, 0, 0)];
    assert_eq!(closest_color(&px(5, 0, 0, 0), &palette), px(0, 0, 0, 0));
    assert_eq!(closest_color(&px(16, 0, 0, 0), &palette), px(20, 0, 0, 0));
    assert_eq!(closest_color(&px(11, 0, 0, 0), &palette), px(10, 0, 0, 0));
}

#[test]
fn stopwatch_starts() {
    let t = rugs::TimingDebugger::new();
    assert!(t.start_time <= std::time::SystemTime::now());
}
