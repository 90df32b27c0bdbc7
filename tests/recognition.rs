use nzm_visual::binarize::otsu_binarize;
use nzm_visual::distance::bidirectional_distance_transform;
use nzm_visual::gallery::{attack_level_values, initialize, TemplateGallery};
use nzm_visual::matcher::{classify, template_match, TemplateEntry};
use nzm_visual::processor::Processor;
use nzm_visual::raster::GrayImage;
use nzm_visual::recognizer::{crop_columns, recognize_attack, recognize_money};
use nzm_visual::segment::{vertical_digit_divide, vertical_number_divide};

const DIGIT_W: u32 = 5;
const DIGIT_H: u32 = 7;

fn image(width: u32, height: u32, data: Vec<u8>) -> GrayImage {
    GrayImage::from_vec(width, height, data).unwrap()
}

/// A 5x7 glyph: a full top row plus one marker cell per digit, so that every
/// column holds ink and every digit differs.
fn digit_pixels(d: u32) -> Vec<u8> {
    let mut px = vec![0u8; (DIGIT_W * DIGIT_H) as usize];
    for x in 0..DIGIT_W {
        px[x as usize] = 255;
    }
    let x = d % DIGIT_W;
    let y = 1 + d / DIGIT_W;
    px[(y * DIGIT_W + x) as usize] = 255;
    px[(6 * DIGIT_W + x) as usize] = 255;
    px
}

fn digit_templates() -> Vec<GrayImage> {
    (0..10).map(|d| image(DIGIT_W, DIGIT_H, digit_pixels(d))).collect()
}

/// An attack template `w` wide and 5 high with ink in columns `0..ink`.
fn block(w: u32, ink: u32) -> GrayImage {
    let h = 5u32;
    let mut px = vec![0u8; (w * h) as usize];
    for y in 0..h {
        for x in 0..ink {
            px[(y * w + x) as usize] = 255;
        }
    }
    image(w, h, px)
}

/// 29 attack templates, 20 columns wide: narrow ones carry 2, 3 or 5 columns of
/// ink, medium ones 10 (level 100 only 4), wide ones 18.
fn attack_templates() -> Vec<GrayImage> {
    attack_level_values()
        .iter()
        .map(|&level| {
            if level <= 75 {
                block(
                    20,
                    match level {
                        25 => 2,
                        50 => 3,
                        _ => 5,
                    },
                )
            } else if level == 100 {
                block(20, 4)
            } else if level <= 800 {
                block(20, 10)
            } else {
                block(20, 18)
            }
        })
        .collect()
}

fn gallery() -> TemplateGallery {
    initialize(&digit_templates(), &attack_templates()).unwrap()
}

/// A strip holding the given glyphs, each followed by `gap` blank columns,
/// after one leading blank column, with a 2-px blip at the end.
fn strip(digits: &[u32], gap: u32, blip: bool) -> GrayImage {
    let glyphs: Vec<Vec<u8>> = digits.iter().map(|&d| digit_pixels(d)).collect();
    let width = 1 + digits.len() as u32 * (DIGIT_W + gap) + if blip { 4 } else { 0 };
    let mut px = vec![0u8; (width * DIGIT_H) as usize];
    let mut x0 = 1u32;
    for g in &glyphs {
        for y in 0..DIGIT_H {
            for x in 0..DIGIT_W {
                px[(y * width + x0 + x) as usize] = g[(y * DIGIT_W + x) as usize];
            }
        }
        x0 += DIGIT_W + gap;
    }
    if blip {
        for x in x0..x0 + 2 {
            px[((DIGIT_H - 1) * width + x) as usize] = 255;
        }
    }
    image(width, DIGIT_H, px)
}

#[test]
fn bimodal_image_splits_at_the_two_clusters() {
    let data: Vec<u8> = (0..40).map(|i| if i % 3 == 0 { 200 } else { 10 }).collect();
    let img = image(8, 5, data.clone());
    let b = otsu_binarize(&img);
    assert_eq!(b.width, 8);
    assert_eq!(b.height, 5);
    for (i, &v) in data.iter().enumerate() {
        assert_eq!(b.data[i], if v == 200 { 255 } else { 0 });
    }
}

#[test]
fn uniform_image_is_all_foreground() {
    // No threshold separates the pixels: it stays 0, and every pixel is above it.
    let img = image(4, 2, vec![77; 8]);
    assert_eq!(otsu_binarize(&img).data, vec![255; 8]);
}

#[test]
fn binary_image_is_kept_by_binarization() {
    let data = vec![0, 255, 255, 0, 0, 0, 255, 0, 255];
    let img = image(3, 3, data.clone());
    assert_eq!(otsu_binarize(&img).data, data);
}

#[test]
fn grayscale_threshold_between_three_levels() {
    // Intensities 0, 100 and 250: the first maximal split is above 100.
    let img = image(3, 2, vec![0, 0, 100, 100, 250, 250]);
    assert_eq!(otsu_binarize(&img).data, vec![0, 0, 0, 0, 255, 255]);
}

#[test]
fn distance_fields_vanish_on_their_own_class() {
    let data = vec![
        0, 0, 0, 0, 0, //
        0, 255, 0, 0, 0, //
        0, 0, 0, 0, 0, //
        0, 0, 0, 0, 255,
    ];
    let img = image(5, 4, data.clone());
    let (fg, bg) = bidirectional_distance_transform(&img);
    for i in 0..data.len() {
        if data[i] == 255 {
            assert_eq!(fg.data[i], 0);
            assert!(bg.data[i] > 0);
        } else {
            assert_eq!(bg.data[i], 0);
            assert!(fg.data[i] > 0);
        }
    }
    // City-block distances to the nearest foreground pixel.
    assert_eq!(
        fg.data,
        vec![
            2, 1, 2, 3, 3, //
            1, 0, 1, 2, 2, //
            2, 1, 2, 2, 1, //
            3, 2, 2, 1, 0,
        ]
    );
}

#[test]
fn distance_field_saturates_without_targets() {
    let img = image(3, 1, vec![0, 0, 0]);
    let (fg, bg) = bidirectional_distance_transform(&img);
    assert_eq!(fg.data, vec![255, 255, 255]);
    assert_eq!(bg.data, vec![0, 0, 0]);
}

#[test]
fn moving_away_from_template_ink_never_lowers_the_cost() {
    let mut t = vec![0u8; 25];
    t[12] = 255;
    let (fg, _) = bidirectional_distance_transform(&image(5, 5, t));
    // Along row 2, moving right from the centre.
    assert!(fg.data[12] <= fg.data[13]);
    assert!(fg.data[13] <= fg.data[14]);
    assert_eq!((fg.data[12], fg.data[13], fg.data[14]), (0, 1, 2));
}

#[test]
fn three_blocks_and_a_blip() {
    let width = 30u32;
    let mut px = vec![0u8; (width * 2) as usize];
    for &(b, e) in &[(1u32, 6u32), (10, 15), (19, 24), (27, 29)] {
        for x in b..e {
            px[x as usize] = 255;
            px[(width + x) as usize] = 255;
        }
    }
    let img = image(width, 2, px);
    assert_eq!(vertical_digit_divide(&img), vec![(1, 6), (10, 15), (19, 24)]);
}

#[test]
fn run_open_at_the_last_column_closes_one_before_the_edge() {
    let mut px = vec![0u8; 10];
    for x in 4..10 {
        px[x] = 255;
    }
    assert_eq!(vertical_digit_divide(&image(10, 1, px)), vec![(4, 9)]);
}

#[test]
fn empty_strip_has_no_intervals() {
    assert_eq!(vertical_digit_divide(&image(6, 2, vec![0; 12])), vec![]);
    assert_eq!(vertical_number_divide(&image(6, 2, vec![0; 12])), (0, 0));
}

#[test]
fn number_extent_spans_all_ink() {
    let mut px = vec![0u8; 12];
    px[2] = 255;
    px[6 + 4] = 255;
    assert_eq!(vertical_number_divide(&image(6, 2, px)), (2, 5));
}

#[test]
fn identical_query_scores_zero() {
    let t = image(DIGIT_W, DIGIT_H, digit_pixels(3));
    let (fg, bg) = bidirectional_distance_transform(&t);
    assert_eq!(template_match(&t, &fg, &bg), 0);
    let other = image(DIGIT_W, DIGIT_H, digit_pixels(4));
    assert_eq!(template_match(&other, &fg, &bg), 4);
}

#[test]
fn classify_keeps_the_first_of_equal_scores() {
    let t = image(2, 1, vec![255, 0]);
    let (fg, bg) = bidirectional_distance_transform(&t);
    let entries = vec![
        TemplateEntry { label: 7, fg: fg.clone(), bg: bg.clone() },
        TemplateEntry { label: 9, fg, bg },
    ];
    assert_eq!(classify(&t, &entries, 0, 2), (7, 0));
    assert_eq!(classify(&t, &entries, 1, 2), (9, 0));
}

#[test]
fn crop_takes_full_height_columns() {
    let img = image(4, 2, vec![1, 2, 3, 4, 5, 6, 7, 8]);
    let c = crop_columns(&img, 1, 3);
    assert_eq!((c.width, c.height), (2, 2));
    assert_eq!(c.data, vec![2, 3, 6, 7]);
}

#[test]
fn money_strip_spells_1234() {
    let g = gallery();
    assert_eq!(recognize_money(&g, &strip(&[1, 2, 3, 4], 4, true)), (1234, 0));
}

#[test]
fn money_strip_without_glyphs_reads_zero() {
    let g = gallery();
    assert_eq!(recognize_money(&g, &image(12, DIGIT_H, vec![0; 12 * 7])), (0, 0));
}

#[test]
fn wider_glyphs_are_resampled_to_the_template_size() {
    let g = gallery();
    // Each glyph 10 columns wide: resampled to 5 columns by nearest neighbour.
    let src = strip(&[8], 4, false);
    let mut wide = vec![0u8; (src.width * 2 * DIGIT_H) as usize];
    for y in 0..DIGIT_H {
        for x in 0..src.width * 2 {
            wide[(y * src.width * 2 + x) as usize] = src.data[(y * src.width + x / 2) as usize];
        }
    }
    let r = recognize_money(&g, &image(src.width * 2, DIGIT_H, wide));
    assert_eq!(r.0, 8);
}

#[test]
fn narrow_numeral_is_matched_against_the_narrow_levels_only() {
    let g = gallery();
    assert_eq!(g.widths, vec![3, 10, 18]);
    // Identical to the template of level 100, but its width of 4 is nearest to
    // the narrow bucket.
    let (level, _) = recognize_attack(&g, &block(20, 4));
    assert!([25u16, 50, 75].contains(&level));
    assert_eq!(level, 50);
}

#[test]
fn wide_numeral_reads_its_level() {
    let g = gallery();
    assert_eq!(recognize_attack(&g, &block(20, 18)), (1000, 0));
}

#[test]
fn gallery_needs_every_template() {
    let mut digits = digit_templates();
    assert!(initialize(&digits, &attack_templates()).is_some());
    digits.pop();
    assert!(initialize(&digits, &attack_templates()).is_none());
    let mut attack = attack_templates();
    attack.pop();
    assert!(initialize(&digit_templates(), &attack).is_none());
    let mut digits = digit_templates();
    digits[3] = image(4, DIGIT_H, vec![0; 28]);
    assert!(initialize(&digits, &attack_templates()).is_none());
}

#[test]
fn image_buffer_must_match_its_size() {
    assert!(GrayImage::from_vec(3, 2, vec![0; 6]).is_some());
    assert!(GrayImage::from_vec(3, 2, vec![0; 5]).is_none());
}

#[test]
fn distrusted_attack_reading_projects_from_zero() {
    // 150 > 100: the reading is treated as level 0, from which nothing is bought.
    let p = Processor::new();
    assert_eq!(p.process((3000, 0), (200, 150)), (3000, 0));
}

#[test]
fn trusted_attack_reading_buys_one_level() {
    let p = Processor::new();
    assert_eq!(p.process((3000, 0), (200, 50)), (900, 225));
}

#[test]
fn projection_from_zero_buys_nothing() {
    let p = Processor::new();
    assert_eq!(p.process((1000, 0), (0, 0)), (1000, 0));
}

#[test]
fn unknown_level_passes_through() {
    let p = Processor::new();
    assert_eq!(p.process((5000, 7), (30, 0)), (5000, 30));
}

#[test]
fn last_level_stops_the_projection() {
    let p = Processor::new();
    assert_eq!(p.process((1_000_000, 0), (1200, 100)), (920_200, 1500));
}

#[test]
fn rgba_pixels_become_luma() {
    let rgba = vec![0, 0, 0, 255, 255, 255, 255, 255, 10, 10, 10, 255];
    let g = GrayImage::from_rgba(3, 1, &rgba).unwrap();
    assert_eq!((g.width, g.height), (3, 1));
    assert_eq!(g.data, vec![0, 255, 10]);
    assert!(GrayImage::from_rgba(2, 1, &rgba).is_none());
    // (2126 * 100 + 7152 * 50 + 722 * 200) / 10000 = 71
    let g = GrayImage::from_rgba(1, 1, &vec![100, 50, 200, 0]).unwrap();
    assert_eq!(g.data, vec![71]);
}

#[test]
fn projection_from_a_trusted_level_climbs_several_rows() {
    let p = Processor::new();
    // 25 -> 50 costs 500, 50 -> 75 costs 600, 75 -> 100 costs 800 > 400.
    assert_eq!(p.process((1500, 0), (25, 100)), (400, 75));
}

#[test]
fn large_image_is_binarized() {
    let data: Vec<u8> = (0..300 * 300).map(|i| if i % 7 == 0 { 200 } else { 10 }).collect();
    let b = otsu_binarize(&image(300, 300, data.clone()));
    for (i, &v) in data.iter().enumerate() {
        assert_eq!(b.data[i], if v == 200 { 255 } else { 0 });
    }
}

#[test]
fn zero_area_templates_are_refused() {
    let mut digits = digit_templates();
    digits[0] = image(0, DIGIT_H, vec![]);
    assert!(initialize(&digits, &attack_templates()).is_none());
    let mut attack = attack_templates();
    attack[5] = image(20, 0, vec![]);
    assert!(initialize(&digit_templates(), &attack).is_none());
}

#[test]
fn taller_glyphs_of_template_width_are_resampled() {
    let g = gallery();
    // The strip is twice as tall as the templates, each glyph row doubled.
    let src = strip(&[6], 4, false);
    let mut tall = vec![0u8; (src.width * DIGIT_H * 2) as usize];
    for y in 0..DIGIT_H * 2 {
        for x in 0..src.width {
            tall[(y * src.width + x) as usize] = src.data[((y / 2) * src.width + x) as usize];
        }
    }
    assert_eq!(recognize_money(&g, &image(src.width, DIGIT_H * 2, tall)).0, 6);
}
