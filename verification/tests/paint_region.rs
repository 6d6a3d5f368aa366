use softraster::buffer::PaintBuffer;
use softraster::depth::FAR_DEPTH;
use std::cell::Cell;

fn bits(z: f64) -> u64 {
    z.to_bits()
}

#[test]
fn paints_the_covered_pixels_of_the_rectangle() {
    let mut buffer = PaintBuffer::new(4, 3);
    buffer.clear(0x111111);
    buffer.paint_region(
        1..3,
        0..2,
        |x, y| if x == y { None } else { Some(bits(2.0)) },
        |x, y| 0x100 * x + y,
    );
    assert_eq!(
        buffer.pixel_buffer,
        vec![
            0x111111, 0x000100, 0x000200, 0x111111, //
            0x111111, 0x111111, 0x000201, 0x111111, //
            0x111111, 0x111111, 0x111111, 0x111111,
        ]
    );
    let far = FAR_DEPTH;
    let two = bits(2.0);
    assert_eq!(
        buffer.z_buffer,
        vec![
            far, two, two, far, //
            far, far, two, far, //
            far, far, far, far,
        ]
    );
}

#[test]
fn an_empty_rectangle_paints_nothing() {
    let mut buffer = PaintBuffer::new(3, 3);
    buffer.clear(5);
    let asked = Cell::new(0u32);
    buffer.paint_region(
        2..2,
        0..3,
        |_, _| {
            asked.set(asked.get() + 1);
            Some(bits(1.0))
        },
        |_, _| 9,
    );
    buffer.paint_region(
        0..3,
        2..1,
        |_, _| {
            asked.set(asked.get() + 1);
            Some(bits(1.0))
        },
        |_, _| 9,
    );
    assert_eq!(asked.get(), 0);
    assert_eq!(buffer.pixel_buffer, vec![5; 9]);
    assert_eq!(buffer.z_buffer, vec![FAR_DEPTH; 9]);
}

#[test]
fn a_shape_that_covers_nothing_leaves_the_buffer_as_it_was() {
    let mut buffer = PaintBuffer::new(3, 2);
    buffer.clear(0x111111);
    assert!(buffer.plot(1, 1, bits(4.0), 0xAA));
    let pixels = buffer.pixel_buffer.clone();
    let depths = buffer.z_buffer.clone();
    buffer.paint_region(0..3, 0..2, |_, _| None, |_, _| 0xFFFFFF);
    assert_eq!(buffer.pixel_buffer, pixels);
    assert_eq!(buffer.z_buffer, depths);
}

#[test]
fn pixels_below_the_frame_are_skipped() {
    let mut buffer = PaintBuffer::new(2, 2);
    let asked = Cell::new(0u32);
    buffer.paint_region(
        0..2,
        1..5,
        |_, _| {
            asked.set(asked.get() + 1);
            Some(bits(1.0))
        },
        |_, _| 3,
    );
    assert_eq!(asked.get(), 2);
    assert_eq!(buffer.pixel_buffer, vec![0, 0, 3, 3]);
}

#[test]
fn the_colour_is_asked_only_where_the_depth_test_passes() {
    let mut buffer = PaintBuffer::new(3, 1);
    assert!(buffer.plot(0, 0, bits(1.0), 1));
    assert!(buffer.plot(1, 0, bits(3.0), 1));
    let shaded = Cell::new(Vec::new());
    buffer.paint_region(
        0..3,
        0..1,
        |_, _| Some(bits(2.0)),
        |x, y| {
            let mut seen = shaded.take();
            seen.push((x, y));
            shaded.set(seen);
            7
        },
    );
    assert_eq!(shaded.take(), vec![(1, 0), (2, 0)]);
    assert_eq!(buffer.pixel_buffer, vec![1, 7, 7]);
    assert_eq!(buffer.z_buffer, vec![bits(1.0), bits(2.0), bits(2.0)]);
}

#[test]
fn rows_are_walked_from_the_top_and_each_row_from_the_left() {
    let mut buffer = PaintBuffer::new(4, 4);
    let walk = Cell::new(Vec::new());
    buffer.paint_region(
        1..3,
        2..4,
        |x, y| {
            let mut seen = walk.take();
            seen.push((x, y));
            walk.set(seen);
            None
        },
        |_, _| 0,
    );
    assert_eq!(walk.take(), vec![(1, 2), (2, 2), (1, 3), (2, 3)]);
}

#[test]
fn a_depth_that_is_no_number_is_never_stored() {
    let mut buffer = PaintBuffer::new(2, 1);
    buffer.paint_region(0..2, 0..1, |_, _| Some(bits(f64::NAN)), |_, _| 9);
    assert_eq!(buffer.pixel_buffer, vec![0, 0]);
    assert_eq!(buffer.z_buffer, vec![FAR_DEPTH; 2]);
}

fn square(buffer: &mut PaintBuffer, left: u32, top: u32, depth: f64, color: u32) {
    buffer.paint_region(left..left + 3, top..top + 3, |_, _| Some(bits(depth)), |_, _| color);
}

#[test]
fn the_nearer_shape_shows_whichever_is_drawn_first() {
    let mut near_first = PaintBuffer::new(5, 5);
    near_first.clear(0x111111);
    square(&mut near_first, 0, 0, 2.0, 0xFF0000);
    square(&mut near_first, 1, 1, 3.0, 0x0000FF);

    let mut far_first = PaintBuffer::new(5, 5);
    far_first.clear(0x111111);
    square(&mut far_first, 1, 1, 3.0, 0x0000FF);
    square(&mut far_first, 0, 0, 2.0, 0xFF0000);

    assert_eq!(near_first.pixel_buffer, far_first.pixel_buffer);
    assert_eq!(near_first.z_buffer, far_first.z_buffer);
    let r = 0xFF0000;
    let b = 0x0000FF;
    let g = 0x111111;
    assert_eq!(
        near_first.pixel_buffer,
        vec![
            r, r, r, g, g, //
            r, r, r, b, g, //
            r, r, r, b, g, //
            g, b, b, b, g, //
            g, g, g, g, g,
        ]
    );
    for y in 1..3 {
        for x in 1..3 {
            assert_eq!(near_first.z_buffer[x + 5 * y], bits(2.0));
        }
    }
}

#[test]
fn at_equal_depth_the_first_drawn_keeps_the_pixel() {
    let mut buffer = PaintBuffer::new(5, 5);
    square(&mut buffer, 0, 0, 2.0, 0xFF0000);
    square(&mut buffer, 1, 1, 2.0, 0x0000FF);
    assert_eq!(buffer.pixel_buffer[1 + 5 * 1], 0xFF0000);
    assert_eq!(buffer.pixel_buffer[3 + 5 * 3], 0x0000FF);
}

#[test]
fn the_same_scene_gives_the_same_picture() {
    let draw = |buffer: &mut PaintBuffer| {
        buffer.clear(0x111111);
        buffer.paint_region(
            0..7,
            1..6,
            |x, y| if (x + y) % 3 == 0 { None } else { Some(bits(1.0 + (x as f64) / 8.0)) },
            |x, y| 0x010000 * x + 0x000100 * y,
        );
        buffer.paint_region(
            2..9,
            0..4,
            |x, y| if x > y { Some(bits(1.5)) } else { None },
            |_, _| 0x00FF00,
        );
    };
    let mut first = PaintBuffer::new(8, 6);
    let mut second = PaintBuffer::new(8, 6);
    draw(&mut first);
    draw(&mut second);
    assert_eq!(first.pixel_buffer, second.pixel_buffer);
    assert_eq!(first.z_buffer, second.z_buffer);
}

#[test]
fn drawing_a_shape_again_changes_nothing() {
    let mut buffer = PaintBuffer::new(6, 6);
    buffer.clear(0x111111);
    square(&mut buffer, 1, 2, 2.0, 0xABCDEF);
    let pixels = buffer.pixel_buffer.clone();
    let depths = buffer.z_buffer.clone();
    let shaded = Cell::new(0u32);
    buffer.paint_region(
        1..4,
        2..5,
        |_, _| Some(bits(2.0)),
        |_, _| {
            shaded.set(shaded.get() + 1);
            0x123456
        },
    );
    assert_eq!(shaded.get(), 0);
    assert_eq!(buffer.pixel_buffer, pixels);
    assert_eq!(buffer.z_buffer, depths);
}
