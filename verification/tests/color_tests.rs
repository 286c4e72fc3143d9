use tile_render::{Color, Color3, Factor};

fn rgba(r: u8, g: u8, b: u8, a: u8) -> Color {
    Color { r, g, b, a }
}

fn rgb(r: u8, g: u8, b: u8) -> Color3 {
    Color3 { r, g, b }
}

fn some_factors() -> Vec<Factor> {
    vec![
        Factor::Ratio { num: 0, den: 1 },
        Factor::Ratio { num: 1, den: 3 },
        Factor::Ratio { num: 1, den: 2 },
        Factor::Ratio { num: 254, den: 255 },
        Factor::Ratio { num: 7, den: 7 },
        Factor::Ratio { num: 9, den: 2 },
        Factor::Ratio { num: 5, den: 0 },
        Factor::Ratio { num: u32::MAX - 1, den: u32::MAX },
        Factor::Falloff { dist_sq: 0, reach: 10 },
        Factor::Falloff { dist_sq: 32, reach: 12 },
        Factor::Falloff { dist_sq: 99, reach: 10 },
        Factor::Falloff { dist_sq: 100, reach: 10 },
        Factor::Falloff { dist_sq: 5, reach: 0 },
        Factor::Falloff { dist_sq: u64::MAX, reach: u32::MAX },
        Factor::Falloff { dist_sq: (u32::MAX as u64) * (u32::MAX as u64) - 1, reach: u32::MAX },
    ]
}

#[test]
fn blend_of_a_color_with_itself_is_that_color() {
    for factor in some_factors() {
        for v in 0..=255u8 {
            let c = rgba(v, 255 - v, v / 2, 255);
            assert_eq!(c.blend(c, factor), c);
            let d = rgb(v, 255 - v, v / 3);
            assert_eq!(d.blend(d, factor), d);
        }
    }
}

#[test]
fn blend_with_factor_zero_returns_the_other_color() {
    let c = rgba(10, 20, 30, 40);
    let other = rgba(200, 100, 50, 25);
    assert_eq!(c.blend(other, Factor::Ratio { num: 0, den: 1 }), other);
    assert_eq!(c.blend(other, Factor::Ratio { num: 0, den: 255 }), other);
    assert_eq!(c.blend(other, Factor::Falloff { dist_sq: 100, reach: 10 }), other);
    assert_eq!(c.blend(other, Factor::Falloff { dist_sq: 101, reach: 10 }), other);
    assert_eq!(c.blend(other, Factor::Falloff { dist_sq: 0, reach: 0 }), other);
}

#[test]
fn blend_with_factor_one_returns_the_color_itself() {
    let c = rgba(10, 20, 30, 40);
    let other = rgba(200, 100, 50, 25);
    assert_eq!(c.blend(other, Factor::Ratio { num: 1, den: 1 }), c);
    assert_eq!(c.blend(other, Factor::Ratio { num: 3, den: 2 }), c);
    assert_eq!(c.blend(other, Factor::Ratio { num: 0, den: 0 }), c);
    assert_eq!(c.blend(other, Factor::Falloff { dist_sq: 0, reach: 7 }), c);
}

#[test]
fn blend_by_a_ratio_rounds_down() {
    let c = rgba(255, 0, 10, 255);
    let other = rgba(0, 255, 21, 0);
    // (255 + 0) / 2, (0 + 255) / 2, (10 + 21) / 2, (255 + 0) / 2
    assert_eq!(c.blend(other, Factor::Ratio { num: 1, den: 2 }), rgba(127, 127, 15, 127));
    // (255 * 1 + 0 * 2) / 3 = 85, (0 + 510) / 3 = 170, (10 + 42) / 3 = 17
    assert_eq!(c.blend(other, Factor::Ratio { num: 1, den: 3 }), rgba(85, 170, 17, 85));
    // (255 * 254 + 0) / 255 = 254, 255 / 255 = 1, (2540 + 21) / 255 = 10
    assert_eq!(c.blend(other, Factor::Ratio { num: 254, den: 255 }), rgba(254, 1, 10, 254));
}

#[test]
fn blend_by_a_falloff_is_the_floor_of_the_exact_value() {
    let white = rgb(255, 255, 255);
    let black = rgb(0, 0, 0);
    // distance 8 of 12: factor 1/3, 255 / 3 = 85 and 255 * 2 / 3 = 170
    assert_eq!(white.blend(black, Factor::Falloff { dist_sq: 64, reach: 12 }), rgb(85, 85, 85));
    assert_eq!(black.blend(white, Factor::Falloff { dist_sq: 64, reach: 12 }), rgb(170, 170, 170));
    // distance sqrt(32) of 12: 255 * (1 - 0.47140...) = 134.79..., 255 * 0.47140... = 120.20...
    assert_eq!(white.blend(black, Factor::Falloff { dist_sq: 32, reach: 12 }), rgb(134, 134, 134));
    assert_eq!(black.blend(white, Factor::Falloff { dist_sq: 32, reach: 12 }), rgb(120, 120, 120));
    // distance 3 of 4: 100 * 1/4 + 200 * 3/4 = 175, 200 * 1/4 + 100 * 3/4 = 125
    let a = rgb(100, 200, 7);
    let b = rgb(200, 100, 7);
    assert_eq!(a.blend(b, Factor::Falloff { dist_sq: 9, reach: 4 }), rgb(175, 125, 7));
}

#[test]
fn blend_by_a_falloff_agrees_with_floating_point_away_from_whole_values() {
    for reach in [3u32, 12, 80, 1000] {
        let reach_sq = reach as u64 * reach as u64;
        let mut dist_sq = 1u64;
        while dist_sq < reach_sq {
            for (first, second) in [(255u8, 0u8), (0, 255), (13, 200), (201, 14)] {
                let t = (dist_sq as f64).sqrt() / reach as f64;
                let exact = first as f64 * (1.0 - t) + second as f64 * t;
                let got = Factor::Falloff { dist_sq, reach }.mix(first, second);
                if (exact - exact.round()).abs() > 1e-6 {
                    assert_eq!(got, exact.floor() as u8, "{first} {second} {dist_sq} {reach}");
                } else {
                    assert!((got as f64 - exact).abs() < 1.0 + 1e-6);
                }
            }
            dist_sq += 1 + dist_sq / 7;
        }
    }
}

#[test]
fn mix_with_extreme_factors_stays_between_the_values() {
    for factor in some_factors() {
        for (first, second) in [(0u8, 255u8), (255, 0), (100, 101), (7, 7)] {
            let got = factor.mix(first, second);
            assert!(got >= first.min(second) && got <= first.max(second));
        }
    }
}

#[test]
fn brighten_by_zero_is_the_identity() {
    for v in 0..=255u8 {
        let c = rgba(v, 255 - v, v ^ 0x55, v);
        assert_eq!(c.brighten(0), c);
        let d = rgb(v, 255 - v, v ^ 0x55);
        assert_eq!(d.brighten(0), d);
    }
}

#[test]
fn brighten_adds_and_clamps_and_keeps_alpha() {
    let c = rgba(10, 200, 250, 77);
    assert_eq!(c.brighten(10), rgba(20, 210, 255, 77));
    assert_eq!(c.brighten(-20), rgba(0, 180, 230, 77));
    assert_eq!(c.brighten(i32::MAX), rgba(255, 255, 255, 77));
    assert_eq!(c.brighten(i32::MIN), rgba(0, 0, 0, 77));
    assert_eq!(rgb(10, 200, 250).brighten(10), rgb(20, 210, 255));
    assert_eq!(rgb(10, 200, 250).brighten(i32::MIN), rgb(0, 0, 0));
}

#[test]
fn brighten_is_undone_only_without_clamping() {
    let c = rgba(10, 100, 245, 9);
    assert_eq!(c.brighten(10).brighten(-10), c);
    assert_eq!(c.brighten(-10).brighten(10), c);
    // 245 + 11 is clamped to 255, and 255 - 11 is not 245
    assert_eq!(c.brighten(11).brighten(-11), rgba(10, 100, 244, 9));
    // 10 - 11 is clamped to 0, and 0 + 11 is not 10
    assert_eq!(c.brighten(-11).brighten(11), rgba(11, 100, 245, 9));
}

#[test]
fn brighten_past_both_ends_comes_back_to_an_end_value() {
    let c = rgba(0, 0, 0, 1);
    assert_eq!(c.brighten(300).brighten(-300), c);
    let d = rgba(255, 255, 255, 1);
    assert_eq!(d.brighten(-256).brighten(256), d);
    let e = rgba(0, 1, 0, 1);
    assert_eq!(e.brighten(300).brighten(-300), rgba(0, 0, 0, 1));
}

#[test]
fn invert_twice_is_the_identity() {
    for v in 0..=255u8 {
        let c = rgba(v, 255 - v, v ^ 0x3c, v);
        assert_eq!(c.invert().invert(), c);
        let d = rgb(v, 255 - v, v ^ 0x3c);
        assert_eq!(d.invert().invert(), d);
    }
}

#[test]
fn invert_mirrors_each_channel_and_keeps_alpha() {
    assert_eq!(rgba(0, 255, 100, 42).invert(), rgba(255, 0, 155, 42));
    assert_eq!(rgb(1, 254, 128).invert(), rgb(254, 1, 127));
}

#[test]
fn grayscale_is_the_luminance_rounded_down() {
    // 2.99 + 11.74 + 3.42 = 18.15
    assert_eq!(rgba(10, 20, 30, 99).grayscale(), rgba(18, 18, 18, 99));
    assert_eq!(rgb(10, 20, 30).grayscale(), rgb(18, 18, 18));
    // 76.245, 149.685, 29.07
    assert_eq!(rgb(255, 0, 0).grayscale(), rgb(76, 76, 76));
    assert_eq!(rgb(0, 255, 0).grayscale(), rgb(149, 149, 149));
    assert_eq!(rgb(0, 0, 255).grayscale(), rgb(29, 29, 29));
    assert_eq!(rgb(0, 0, 0).grayscale(), rgb(0, 0, 0));
}

#[test]
fn grayscale_of_a_gray_is_that_gray() {
    for v in 0..=255u8 {
        assert_eq!(rgb(v, v, v).grayscale(), rgb(v, v, v));
        assert_eq!(rgba(v, v, v, 3).grayscale(), rgba(v, v, v, 3));
    }
}

#[test]
fn with_alpha_sets_only_alpha() {
    assert_eq!(rgba(1, 2, 3, 4).with_alpha(200), rgba(1, 2, 3, 200));
    assert_eq!(rgb(1, 2, 3).with_alpha(200), rgba(1, 2, 3, 200));
}

#[test]
fn adjust_alpha_adds_and_clamps() {
    let c = rgba(1, 2, 3, 100);
    assert_eq!(c.adjust_alpha(50), rgba(1, 2, 3, 150));
    assert_eq!(c.adjust_alpha(-50), rgba(1, 2, 3, 50));
    assert_eq!(c.adjust_alpha(156), rgba(1, 2, 3, 255));
    assert_eq!(c.adjust_alpha(-101), rgba(1, 2, 3, 0));
    assert_eq!(c.adjust_alpha(i32::MAX), rgba(1, 2, 3, 255));
    assert_eq!(c.adjust_alpha(i32::MIN), rgba(1, 2, 3, 0));
    assert_eq!(c.adjust_alpha(0), c);
}

#[test]
fn tuples_round_trip() {
    assert_eq!(rgba(1, 2, 3, 4).to_rgba(), (1, 2, 3, 4));
    assert_eq!(Color::from_rgba((1, 2, 3, 4)), rgba(1, 2, 3, 4));
    assert_eq!(Color::from_rgba(rgba(9, 8, 7, 6).to_rgba()), rgba(9, 8, 7, 6));
    assert_eq!(rgb(1, 2, 3).to_rgb(), (1, 2, 3));
    assert_eq!(Color3::from_rgb((1, 2, 3)), rgb(1, 2, 3));
}

#[test]
fn interpolate_runs_from_self_to_other() {
    let c = rgba(10, 20, 30, 40);
    let other = rgba(200, 100, 51, 25);
    assert_eq!(c.interpolate(other, Factor::Ratio { num: 0, den: 1 }), c);
    assert_eq!(c.interpolate(other, Factor::Ratio { num: 1, den: 1 }), other);
    // (10 + 200) / 2, (20 + 100) / 2, (30 + 51) / 2, (40 + 25) / 2
    assert_eq!(c.interpolate(other, Factor::Ratio { num: 1, den: 2 }), rgba(105, 60, 40, 32));
    // a quarter of the way: (3 * 10 + 200) / 4 = 57, (60 + 100) / 4 = 40, (90 + 51) / 4 = 35
    assert_eq!(c.interpolate(other, Factor::Ratio { num: 1, den: 4 }), rgba(57, 40, 35, 36));
    assert_eq!(
        rgb(10, 20, 30).interpolate(other, Factor::Ratio { num: 1, den: 4 }),
        rgb(57, 40, 35)
    );
    assert_eq!(rgb(10, 20, 30).interpolate(other, Factor::Ratio { num: 1, den: 1 }), rgb(200, 100, 51));
}

#[test]
fn interpolate_and_blend_use_opposite_conventions() {
    let c = rgba(10, 20, 30, 40);
    let other = rgba(200, 100, 51, 25);
    for factor in some_factors() {
        assert_eq!(c.interpolate(other, factor), other.blend(c, factor));
    }
}
