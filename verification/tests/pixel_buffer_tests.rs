use tile_render::{BufferError, Color, Color3, ColorSpace, ColorTrait, PixelBuffer};

fn rgba(r: u8, g: u8, b: u8, a: u8) -> Color {
    Color { r, g, b, a }
}

fn rgb(r: u8, g: u8, b: u8) -> Color3 {
    Color3 { r, g, b }
}

/// A 3 by 2 buffer whose pixel (x, y) is (10 * y + x, 100 + x, 200 + y).
fn sample_rgb() -> PixelBuffer<Color3> {
    let mut bytes = Vec::new();
    for y in 0..2u8 {
        for x in 0..3u8 {
            bytes.push(10 * y + x);
            bytes.push(100 + x);
            bytes.push(200 + y);
        }
    }
    PixelBuffer::<Color3>::from_buffer(bytes, 3, 2).unwrap()
}

/// A 3 by 2 buffer whose pixel (x, y) is (10 * y + x, 100 + x, 200 + y, 50 * x).
fn sample_rgba() -> PixelBuffer<Color> {
    let mut bytes = Vec::new();
    for y in 0..2u8 {
        for x in 0..3u8 {
            bytes.push(10 * y + x);
            bytes.push(100 + x);
            bytes.push(200 + y);
            bytes.push(50 * x);
        }
    }
    PixelBuffer::<Color>::from_buffer(bytes, 3, 2).unwrap()
}

#[test]
fn color_spaces_have_three_and_four_channels() {
    assert_eq!(ColorSpace::RGB.channel_count(), 3);
    assert_eq!(ColorSpace::RGBA.channel_count(), 4);
    assert_eq!(<Color3 as ColorTrait>::color_space(), ColorSpace::RGB);
    assert_eq!(<Color as ColorTrait>::color_space(), ColorSpace::RGBA);
}

#[test]
fn new_rgba_buffer_is_black_and_opaque() {
    let buf = PixelBuffer::<Color>::new(3, 2).unwrap();
    assert_eq!(buf.width(), 3);
    assert_eq!(buf.height(), 2);
    assert_eq!(buf.buffer().len(), 24);
    for y in 0..2 {
        for x in 0..3 {
            assert_eq!(buf.get(x, y), Ok(rgba(0, 0, 0, 255)));
        }
    }
    assert_eq!(buf.buffer()[..8].to_vec(), vec![0, 0, 0, 255, 0, 0, 0, 255]);
}

#[test]
fn new_rgb_buffer_is_black() {
    let buf = PixelBuffer::<Color3>::new(3, 2).unwrap();
    assert_eq!(buf.width(), 3);
    assert_eq!(buf.height(), 2);
    assert_eq!(buf.buffer().clone(), vec![0u8; 18]);
    assert_eq!(buf.get(2, 1), Ok(rgb(0, 0, 0)));
}

#[test]
fn new_refuses_a_zero_side() {
    assert!(matches!(PixelBuffer::<Color>::new(0, 2), Err(BufferError::ZeroDimension)));
    assert!(matches!(PixelBuffer::<Color>::new(2, 0), Err(BufferError::ZeroDimension)));
    assert!(matches!(PixelBuffer::<Color3>::new(0, 0), Err(BufferError::ZeroDimension)));
    assert!(matches!(PixelBuffer::<Color3>::new(5, 0), Err(BufferError::ZeroDimension)));
}

#[test]
fn new_refuses_a_size_beyond_the_address_range() {
    assert!(matches!(PixelBuffer::<Color>::new(u64::MAX, 2), Err(BufferError::TooLarge)));
    assert!(matches!(PixelBuffer::<Color>::new(1 << 62, 1), Err(BufferError::TooLarge)));
    assert!(matches!(PixelBuffer::<Color3>::new(u64::MAX, u64::MAX), Err(BufferError::TooLarge)));
    assert!(matches!(PixelBuffer::<Color3>::new(u64::MAX / 3 + 1, 1), Err(BufferError::TooLarge)));
}

#[test]
fn from_buffer_takes_the_width_first() {
    let buf = sample_rgb();
    assert_eq!(buf.width(), 3);
    assert_eq!(buf.height(), 2);
    assert_eq!(buf.get(2, 1), Ok(rgb(12, 102, 201)));
    assert_eq!(buf.get(0, 1), Ok(rgb(10, 100, 201)));
    let wide = sample_rgba();
    assert_eq!(wide.width(), 3);
    assert_eq!(wide.height(), 2);
    assert_eq!(wide.get(2, 1), Ok(rgba(12, 102, 201, 100)));
}

#[test]
fn from_buffer_refuses_a_wrong_byte_count() {
    assert!(matches!(
        PixelBuffer::<Color>::from_buffer(vec![0; 23], 3, 2),
        Err(BufferError::SizeMismatch)
    ));
    assert!(matches!(
        PixelBuffer::<Color>::from_buffer(vec![0; 25], 3, 2),
        Err(BufferError::SizeMismatch)
    ));
    assert!(matches!(
        PixelBuffer::<Color>::from_buffer(vec![0; 18], 3, 2),
        Err(BufferError::SizeMismatch)
    ));
    assert!(matches!(
        PixelBuffer::<Color3>::from_buffer(vec![0; 24], 3, 2),
        Err(BufferError::SizeMismatch)
    ));
    assert!(matches!(
        PixelBuffer::<Color3>::from_buffer(vec![0; 3], u64::MAX, u64::MAX),
        Err(BufferError::SizeMismatch)
    ));
    assert!(PixelBuffer::<Color3>::from_buffer(vec![0; 18], 3, 2).is_ok());
    assert!(PixelBuffer::<Color>::from_buffer(vec![0; 24], 3, 2).is_ok());
}

#[test]
fn from_buffer_refuses_a_zero_side() {
    assert!(matches!(
        PixelBuffer::<Color>::from_buffer(Vec::new(), 0, 3),
        Err(BufferError::ZeroDimension)
    ));
    assert!(matches!(
        PixelBuffer::<Color3>::from_buffer(Vec::new(), 3, 0),
        Err(BufferError::ZeroDimension)
    ));
    assert!(matches!(
        PixelBuffer::<Color3>::from_buffer(vec![1, 2, 3], 0, 0),
        Err(BufferError::ZeroDimension)
    ));
}

#[test]
fn get_outside_the_buffer_is_an_error() {
    let buf = sample_rgb();
    assert_eq!(buf.get(3, 0), Err(BufferError::OutOfBounds));
    assert_eq!(buf.get(0, 2), Err(BufferError::OutOfBounds));
    assert_eq!(buf.get(u64::MAX, u64::MAX), Err(BufferError::OutOfBounds));
    let wide = sample_rgba();
    assert_eq!(wide.get(3, 1), Err(BufferError::OutOfBounds));
    assert_eq!(wide.get(2, 2), Err(BufferError::OutOfBounds));
}

#[test]
fn set_stores_one_pixel_and_leaves_the_others() {
    let mut buf = sample_rgb();
    let before = sample_rgb();
    assert_eq!(buf.set(1, 1, rgb(7, 8, 9)), Ok(()));
    for y in 0..2 {
        for x in 0..3 {
            if (x, y) == (1, 1) {
                assert_eq!(buf.get(x, y), Ok(rgb(7, 8, 9)));
            } else {
                assert_eq!(buf.get(x, y), before.get(x, y));
            }
        }
    }
    assert_eq!(buf.buffer()[12..15].to_vec(), vec![7, 8, 9]);

    let mut wide = sample_rgba();
    let wide_before = sample_rgba();
    assert_eq!(wide.set(2, 0, rgba(7, 8, 9, 10)), Ok(()));
    for y in 0..2 {
        for x in 0..3 {
            if (x, y) == (2, 0) {
                assert_eq!(wide.get(x, y), Ok(rgba(7, 8, 9, 10)));
            } else {
                assert_eq!(wide.get(x, y), wide_before.get(x, y));
            }
        }
    }
}

#[test]
fn set_outside_the_buffer_is_an_error_and_changes_nothing() {
    let mut buf = sample_rgb();
    assert_eq!(buf.set(3, 1, rgb(7, 8, 9)), Err(BufferError::OutOfBounds));
    assert_eq!(buf.set(1, 2, rgb(7, 8, 9)), Err(BufferError::OutOfBounds));
    assert_eq!(buf.buffer().clone(), sample_rgb().buffer().clone());
    let mut wide = sample_rgba();
    assert_eq!(wide.set(0, 2, rgba(7, 8, 9, 1)), Err(BufferError::OutOfBounds));
    assert_eq!(wide.buffer().clone(), sample_rgba().buffer().clone());
}

#[test]
fn upscale_turns_each_pixel_into_a_block() {
    for k in 1..=4u64 {
        let source = sample_rgb();
        let mut buf = sample_rgb();
        assert_eq!(buf.upscale(k), Ok(()));
        assert_eq!(buf.width(), 3 * k);
        assert_eq!(buf.height(), 2 * k);
        assert_eq!(buf.buffer().len() as u64, 18 * k * k);
        for y in 0..2 * k {
            for x in 0..3 * k {
                assert_eq!(buf.get(x, y), source.get(x / k, y / k));
            }
        }
        for sy in 0..2 {
            for sx in 0..3 {
                for dy in 0..k {
                    for dx in 0..k {
                        assert_eq!(buf.get(sx * k + dx, sy * k + dy), source.get(sx, sy));
                    }
                }
            }
        }
    }
}

#[test]
fn upscale_of_an_rgba_buffer_keeps_four_channels() {
    let source = sample_rgba();
    let mut buf = sample_rgba();
    assert_eq!(buf.upscale(3), Ok(()));
    assert_eq!(buf.width(), 9);
    assert_eq!(buf.height(), 6);
    assert_eq!(buf.buffer().len(), 24 * 9);
    for y in 0..6 {
        for x in 0..9 {
            assert_eq!(buf.get(x, y), source.get(x / 3, y / 3));
        }
    }
}

#[test]
fn upscale_by_two_gives_the_expected_bytes() {
    let mut buf = PixelBuffer::<Color3>::from_buffer(vec![1, 2, 3, 4, 5, 6], 2, 1).unwrap();
    assert_eq!(buf.upscale(2), Ok(()));
    assert_eq!(
        buf.buffer().clone(),
        vec![1, 2, 3, 1, 2, 3, 4, 5, 6, 4, 5, 6, 1, 2, 3, 1, 2, 3, 4, 5, 6, 4, 5, 6]
    );
}

#[test]
fn upscale_by_one_changes_nothing() {
    let mut buf = sample_rgb();
    assert_eq!(buf.upscale(1), Ok(()));
    assert_eq!(buf.buffer().clone(), sample_rgb().buffer().clone());
    assert_eq!(buf.width(), 3);
    assert_eq!(buf.height(), 2);
}

#[test]
fn upscale_refuses_zero_and_too_large_factors() {
    let mut buf = sample_rgb();
    assert_eq!(buf.upscale(0), Err(BufferError::ZeroDimension));
    assert_eq!(buf.upscale(u64::MAX), Err(BufferError::TooLarge));
    assert_eq!(buf.upscale(1 << 40), Err(BufferError::TooLarge));
    assert_eq!(buf.buffer().clone(), sample_rgb().buffer().clone());
    assert_eq!(buf.width(), 3);
    assert_eq!(buf.height(), 2);
    let mut wide = sample_rgba();
    assert_eq!(wide.upscale(0), Err(BufferError::ZeroDimension));
    assert_eq!(wide.upscale(u64::MAX / 2), Err(BufferError::TooLarge));
    assert_eq!(wide.buffer().clone(), sample_rgba().buffer().clone());
}

#[test]
fn merge_of_a_transparent_overlay_leaves_the_base_unchanged() {
    let mut base = sample_rgb();
    let mut bytes = Vec::new();
    for i in 0..6u8 {
        bytes.push(255 - i);
        bytes.push(i * 40);
        bytes.push(77);
        bytes.push(0);
    }
    let overlay = PixelBuffer::<Color>::from_buffer(bytes, 3, 2).unwrap();
    assert_eq!(base.merge(overlay), Ok(()));
    assert_eq!(base.buffer().clone(), sample_rgb().buffer().clone());
}

#[test]
fn merge_of_an_opaque_overlay_replaces_the_base() {
    let mut base = sample_rgb();
    let mut overlay = PixelBuffer::<Color>::new(3, 2).unwrap();
    for y in 0..2 {
        for x in 0..3 {
            overlay.set(x, y, rgba(x as u8, y as u8, 9, 255)).unwrap();
        }
    }
    assert_eq!(base.merge(overlay), Ok(()));
    for y in 0..2 {
        for x in 0..3 {
            assert_eq!(base.get(x, y), Ok(rgb(x as u8, y as u8, 9)));
        }
    }
}

#[test]
fn merge_blends_by_the_overlay_alpha() {
    let mut base = PixelBuffer::<Color3>::from_buffer(vec![100, 0, 255, 10, 20, 30], 2, 1).unwrap();
    let overlay =
        PixelBuffer::<Color>::from_buffer(vec![200, 255, 0, 51, 255, 255, 255, 128], 2, 1).unwrap();
    assert_eq!(base.merge(overlay), Ok(()));
    // alpha 51 is a fifth: (200 + 4 * 100) / 5, (255 + 0) / 5, (0 + 4 * 255) / 5
    assert_eq!(base.get(0, 0), Ok(rgb(120, 51, 204)));
    // alpha 128: (255 * 128 + 10 * 127) / 255 = 132, (32640 + 2540) / 255 = 137,
    // (32640 + 3810) / 255 = 142
    assert_eq!(base.get(1, 0), Ok(rgb(132, 137, 142)));
}

#[test]
fn merge_refuses_another_size() {
    let mut base = sample_rgb();
    let overlay = PixelBuffer::<Color>::new(2, 3).unwrap();
    assert_eq!(base.merge(overlay), Err(BufferError::DimensionMismatch));
    let overlay = PixelBuffer::<Color>::new(3, 3).unwrap();
    assert_eq!(base.merge(overlay), Err(BufferError::DimensionMismatch));
    let overlay = PixelBuffer::<Color>::new(6, 1).unwrap();
    assert_eq!(base.merge(overlay), Err(BufferError::DimensionMismatch));
    assert_eq!(base.buffer().clone(), sample_rgb().buffer().clone());
}

#[test]
fn iteration_hands_out_every_pixel_in_row_major_order() {
    let mut buf = sample_rgb();
    let mut seen = Vec::new();
    while let Some(c) = buf.next() {
        seen.push(c);
    }
    assert_eq!(
        seen,
        vec![
            rgb(0, 100, 200),
            rgb(1, 101, 200),
            rgb(2, 102, 200),
            rgb(10, 100, 201),
            rgb(11, 101, 201),
            rgb(12, 102, 201),
        ]
    );
    assert_eq!(buf.next(), None);
    assert_eq!(buf.next(), None);

    let mut wide = sample_rgba();
    let mut count = 0;
    while let Some(c) = wide.next() {
        assert_eq!(c, sample_rgba().get(count % 3, count / 3).unwrap());
        count += 1;
    }
    assert_eq!(count, 6);
}

#[test]
fn clear_iter_restarts_the_iteration() {
    let mut buf = sample_rgb();
    assert_eq!(buf.next(), Some(rgb(0, 100, 200)));
    assert_eq!(buf.next(), Some(rgb(1, 101, 200)));
    buf.clear_iter();
    assert_eq!(buf.next(), Some(rgb(0, 100, 200)));
    while buf.next().is_some() {}
    buf.clear_iter();
    assert_eq!(buf.next(), Some(rgb(0, 100, 200)));
}

#[test]
fn buffer_mut_writes_through() {
    let mut buf = sample_rgb();
    buf.buffer_mut()[3] = 99;
    assert_eq!(buf.get(1, 0), Ok(rgb(99, 101, 200)));
    assert_eq!(buf.buffer()[3], 99);
}

#[test]
fn duplicate_is_an_equal_buffer_of_its_own() {
    let mut buf = sample_rgba();
    buf.next();
    let mut copy = buf.duplicate();
    assert_eq!(copy.width(), 3);
    assert_eq!(copy.height(), 2);
    assert_eq!(copy.buffer().clone(), buf.buffer().clone());
    assert_eq!(copy.next(), buf.next());
    copy.set(0, 0, rgba(1, 1, 1, 1)).unwrap();
    assert_eq!(buf.get(0, 0), Ok(rgba(0, 100, 200, 0)));
}

#[test]
fn a_buffer_is_well_formed_until_its_byte_count_changes() {
    let mut buf = sample_rgb();
    assert!(buf.is_well_formed());
    buf.buffer_mut()[0] = 200;
    assert!(buf.is_well_formed());
    buf.buffer_mut().push(0);
    assert!(!buf.is_well_formed());
    buf.buffer_mut().pop();
    assert!(buf.is_well_formed());
    buf.buffer_mut().clear();
    assert!(!buf.is_well_formed());
    let mut wide = PixelBuffer::<Color>::new(5, 4).unwrap();
    assert!(wide.is_well_formed());
    while wide.next().is_some() {}
    assert!(wide.is_well_formed());
    wide.buffer_mut().truncate(79);
    assert!(!wide.is_well_formed());
}

#[test]
fn from_buffer_of_24_bytes_two_wide_and_three_high() {
    let bytes: Vec<u8> = (0..24).collect();
    let buf = PixelBuffer::<Color>::from_buffer(bytes, 2, 3).unwrap();
    assert_eq!(buf.width(), 2);
    assert_eq!(buf.height(), 3);
    assert_eq!(buf.buffer().len(), 24);
    // the pixel in column 1 of row 2 is the sixth one
    assert_eq!(buf.get(1, 2), Ok(rgba(20, 21, 22, 23)));
    assert_eq!(buf.get(2, 1), Err(BufferError::OutOfBounds));
    let bytes: Vec<u8> = (0..18).collect();
    let buf = PixelBuffer::<Color3>::from_buffer(bytes, 2, 3).unwrap();
    assert_eq!((buf.width(), buf.height()), (2, 3));
    assert_eq!(buf.get(1, 2), Ok(rgb(15, 16, 17)));
    assert_eq!(buf.get(2, 1), Err(BufferError::OutOfBounds));
}
