use kit_ais_dataset::{
    rectangle, render, Box, Decimal, Frame, Image, Object, ObjectList, Rect, RenderError,
    Representation, RepresentationType, Timestamp,
};

fn dec(mantissa: i64, scale: u8) -> Decimal {
    Decimal { mantissa, scale }
}

fn boxed(xc: Decimal, yc: Decimal, w: Decimal, h: Decimal) -> Box {
    Box { xc, yc, w, h }
}

fn frame_with(b: Box) -> Frame {
    Frame {
        number: 0,
        file: String::from("a.png"),
        utc: Timestamp { year: 2017, month: 3, day: 3, hour: 14, minute: 5, second: 11, nanosecond: 0 },
        color: None,
        depth: None,
        gsd: None,
        x: dec(0, 0),
        y: dec(0, 0),
        lat: dec(0, 0),
        lon: dec(0, 0),
        sunny: true,
        object_list: ObjectList {
            objects: vec![Object {
                id: 1,
                bbox: b,
                representation: Representation {
                    kind: RepresentationType::RotatedRectangle,
                    xc: b.xc,
                    yc: b.yc,
                    w: b.w,
                    h: b.h,
                    o: dec(0, 0),
                },
            }],
        },
    }
}

#[test]
fn rectangle_from_center_box() {
    let r = rectangle(&boxed(dec(100, 0), dec(50, 0), dec(40, 0), dec(20, 0)));
    assert_eq!(r, Rect { x: 80, y: 40, width: 40, height: 20 });
}

#[test]
fn rectangle_truncates_toward_zero() {
    let r = rectangle(&boxed(dec(1007, 1), dec(-25, 1), dec(405, 1), dec(99, 1)));
    // x = 100.7 - 20.25 = 80.45, y = -2.5 - 4.95 = -7.45
    assert_eq!(r, Rect { x: 80, y: -7, width: 40, height: 9 });
}

#[test]
fn rectangle_saturates_like_a_cast() {
    let r = rectangle(&boxed(dec(9_000_000_000_000, 0), dec(0, 0), dec(2, 0), dec(2, 0)));
    assert_eq!(r.x, i32::MAX);
}

#[test]
fn degenerate_rectangle_is_a_render_failure() {
    let mut image = Image { width: 4, height: 4, channels: 1, data: vec![0; 16] };
    let f = frame_with(boxed(dec(2, 0), dec(2, 0), dec(0, 0), dec(2, 0)));
    assert_eq!(
        render(&f, &mut image),
        Err(RenderError::Degenerate { rect: Rect { x: 2, y: 1, width: 0, height: 2 } })
    );
    assert_eq!(image, Image { width: 4, height: 4, channels: 1, data: vec![0; 16] });
    let f = frame_with(boxed(dec(2, 0), dec(2, 0), dec(2, 0), dec(5, 1)));
    assert!(matches!(render(&f, &mut image), Err(RenderError::Degenerate { .. })));
}

#[test]
fn mismatched_buffer_is_a_render_failure() {
    let mut image = Image { width: 4, height: 4, channels: 1, data: vec![0; 15] };
    let f = frame_with(boxed(dec(2, 0), dec(2, 0), dec(2, 0), dec(2, 0)));
    assert_eq!(render(&f, &mut image), Err(RenderError::BadImage));
}

fn pixel(image: &Image, x: usize, y: usize) -> [u8; 3] {
    let k = 3 * (y * image.width + x);
    [image.data[k], image.data[k + 1], image.data[k + 2]]
}

#[test]
fn grayscale_image_gets_green_stroke() {
    let (w, h) = (200usize, 100usize);
    let mut image = Image { width: w, height: h, channels: 1, data: vec![7; w * h] };
    let f = frame_with(boxed(dec(100, 0), dec(50, 0), dec(40, 0), dec(20, 0)));
    assert_eq!(render(&f, &mut image), Ok(()));
    assert_eq!(image.channels, 3);
    assert_eq!(image.data.len(), w * h * 3);
    let green = [0, 255, 0];
    let grey = [7, 7, 7];
    for y in 0..h {
        for x in 0..w {
            let inside = (80..=120).contains(&x) && (40..=60).contains(&y);
            let border = x < 82 || x > 118 || y < 42 || y > 58;
            let want = if inside && border { green } else { grey };
            assert_eq!(pixel(&image, x, y), want, "pixel ({}, {})", x, y);
        }
    }
}

#[test]
fn color_image_passes_through_unchanged_off_stroke() {
    let (w, h) = (10usize, 10usize);
    let data: Vec<u8> = (0..w * h * 3).map(|i| (i % 251) as u8).collect();
    let mut image = Image { width: w, height: h, channels: 3, data: data.clone() };
    let f = frame_with(boxed(dec(5, 0), dec(5, 0), dec(4, 0), dec(4, 0)));
    assert_eq!(render(&f, &mut image), Ok(()));
    assert_eq!(pixel(&image, 3, 3), [0, 255, 0]);
    assert_eq!(pixel(&image, 7, 5), [0, 255, 0]);
    assert_eq!(pixel(&image, 5, 5), [data[165], data[166], data[167]]);
    assert_eq!(pixel(&image, 0, 0), [data[0], data[1], data[2]]);
}
