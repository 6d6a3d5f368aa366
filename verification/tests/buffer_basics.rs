use softraster::buffer::{frame_size, PaintBuffer};
use softraster::depth::FAR_DEPTH;

#[test]
fn new_buffer_is_black_and_far() {
    let buffer = PaintBuffer::new(4, 3);
    assert_eq!(buffer.width, 4);
    assert_eq!(buffer.height, 3);
    assert_eq!(buffer.pixel_buffer, vec![0u32; 12]);
    assert_eq!(buffer.z_buffer, vec![FAR_DEPTH; 12]);
    assert_eq!(f64::from_bits(buffer.z_buffer[0]), f64::INFINITY);
}

#[test]
fn new_buffer_may_be_empty() {
    let buffer = PaintBuffer::new(0, 7);
    assert_eq!(buffer.pixel_buffer.len(), 0);
    assert_eq!(buffer.z_buffer.len(), 0);
    let buffer = PaintBuffer::new(7, 0);
    assert_eq!(buffer.pixel_buffer.len(), 0);
}

#[test]
fn frame_size_is_the_product() {
    assert_eq!(frame_size(100, 100), Some(10_000));
    assert_eq!(frame_size(0, 5), Some(0));
    assert_eq!(frame_size(1920, 1080), Some(2_073_600));
    assert_eq!(frame_size(65_536, 65_535), Some(4_294_901_760));
}

#[test]
fn frame_size_beyond_the_address_space_is_none() {
    let product = (u32::MAX as u128) * (u32::MAX as u128);
    let expected = if product <= usize::MAX as u128 { Some(product as usize) } else { None };
    assert_eq!(frame_size(u32::MAX, u32::MAX), expected);
}

#[test]
fn clear_sets_background_and_far_depth() {
    let mut buffer = PaintBuffer::new(3, 2);
    assert!(buffer.plot(1, 1, 2.0f64.to_bits(), 0xABCDEF));
    buffer.clear(0x111111);
    assert_eq!(buffer.width, 3);
    assert_eq!(buffer.height, 2);
    assert_eq!(buffer.pixel_buffer, vec![0x111111u32; 6]);
    assert_eq!(buffer.z_buffer, vec![FAR_DEPTH; 6]);
}

#[test]
fn pixel_index_is_row_major() {
    let buffer = PaintBuffer::new(5, 4);
    assert_eq!(buffer.pixel_index(0, 0), Some(0));
    assert_eq!(buffer.pixel_index(4, 0), Some(4));
    assert_eq!(buffer.pixel_index(0, 1), Some(5));
    assert_eq!(buffer.pixel_index(3, 2), Some(13));
    assert_eq!(buffer.pixel_index(4, 3), Some(19));
}

#[test]
fn pixel_index_beyond_the_buffer_is_none() {
    let buffer = PaintBuffer::new(5, 4);
    assert_eq!(buffer.pixel_index(0, 4), None);
    assert_eq!(buffer.pixel_index(5, 3), None);
    assert_eq!(buffer.pixel_index(u32::MAX, u32::MAX), None);
    // a column right of the frame shares its place with a pixel of the next row
    assert_eq!(buffer.pixel_index(6, 0), Some(6));
}

#[test]
fn plot_stores_a_nearer_fragment() {
    let mut buffer = PaintBuffer::new(2, 2);
    assert!(buffer.plot(1, 0, 5.0f64.to_bits(), 0x0000FF));
    assert_eq!(buffer.pixel_buffer, vec![0, 0x0000FF, 0, 0]);
    assert_eq!(buffer.z_buffer[1], 5.0f64.to_bits());
    assert!(buffer.plot(1, 0, 2.5f64.to_bits(), 0x00FF00));
    assert_eq!(buffer.pixel_buffer, vec![0, 0x00FF00, 0, 0]);
    assert_eq!(buffer.z_buffer[1], 2.5f64.to_bits());
}

#[test]
fn plot_keeps_the_pixel_against_a_farther_fragment() {
    let mut buffer = PaintBuffer::new(2, 2);
    assert!(buffer.plot(0, 1, 2.5f64.to_bits(), 0x00FF00));
    assert!(!buffer.plot(0, 1, 5.0f64.to_bits(), 0x0000FF));
    assert_eq!(buffer.pixel_buffer, vec![0, 0, 0x00FF00, 0]);
    assert_eq!(buffer.z_buffer[2], 2.5f64.to_bits());
}

#[test]
fn plot_keeps_the_first_of_two_equal_depths() {
    let mut buffer = PaintBuffer::new(1, 1);
    assert!(buffer.plot(0, 0, 1.0f64.to_bits(), 7));
    assert!(!buffer.plot(0, 0, 1.0f64.to_bits(), 8));
    assert_eq!(buffer.pixel_buffer, vec![7]);
    assert!(buffer.plot(0, 0, 0.0f64.to_bits(), 9));
    assert!(!buffer.plot(0, 0, (-0.0f64).to_bits(), 10));
    assert_eq!(buffer.pixel_buffer, vec![9]);
}

#[test]
fn plot_ignores_what_is_no_number_and_what_is_off_the_frame() {
    let mut buffer = PaintBuffer::new(2, 1);
    assert!(!buffer.plot(0, 0, f64::NAN.to_bits(), 1));
    assert!(!buffer.plot(0, 0, f64::INFINITY.to_bits(), 1));
    assert!(!buffer.plot(0, 1, 1.0f64.to_bits(), 1));
    assert!(!buffer.plot(2, 0, 1.0f64.to_bits(), 1));
    assert_eq!(buffer.pixel_buffer, vec![0, 0]);
    assert_eq!(buffer.z_buffer, vec![FAR_DEPTH; 2]);
    assert!(buffer.plot(1, 0, (-3.0f64).to_bits(), 2));
    assert_eq!(buffer.pixel_buffer, vec![0, 2]);
}

#[test]
fn a_buffer_is_well_formed_while_lengths_match_dimensions() {
    let mut buffer = PaintBuffer::new(3, 2);
    assert!(buffer.is_wf());
    buffer.width = 2;
    assert!(!buffer.is_wf());
    buffer.height = 3;
    assert!(buffer.is_wf());
    buffer.z_buffer.pop();
    assert!(!buffer.is_wf());
    buffer.z_buffer.push(FAR_DEPTH);
    buffer.pixel_buffer.push(0);
    assert!(!buffer.is_wf());
    buffer.width = u32::MAX;
    buffer.height = u32::MAX;
    assert!(!buffer.is_wf());
}

#[test]
fn a_region_fits_while_its_last_pixel_has_a_place() {
    let buffer = PaintBuffer::new(5, 4);
    assert!(buffer.region_fits(&(0..5), &(0..4)));
    assert!(buffer.region_fits(&(2..3), &(1..2)));
    assert!(!buffer.region_fits(&(0..5), &(0..5)));
    assert!(!buffer.region_fits(&(0..6), &(0..4)));
    // beyond the right rim, yet every place lies in the buffers
    assert!(buffer.region_fits(&(0..6), &(0..3)));
    // nothing to fit
    assert!(buffer.region_fits(&(9..9), &(0..100)));
    assert!(buffer.region_fits(&(0..100), &(7..2)));
    assert!(PaintBuffer::new(0, 0).region_fits(&(0..0), &(0..0)));
    assert!(!PaintBuffer::new(0, 0).region_fits(&(0..1), &(0..1)));
}
