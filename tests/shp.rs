use ra2::{decompress_rle_data, read_file_header, Palette, Ra2Error, ShpFrame, ShpReader};

fn frame_header(x: u16, y: u16, w: u16, h: u16, flags: u8, offset: u32) -> Vec<u8> {
    let mut b = Vec::new();
    b.extend_from_slice(&x.to_le_bytes());
    b.extend_from_slice(&y.to_le_bytes());
    b.extend_from_slice(&w.to_le_bytes());
    b.extend_from_slice(&h.to_le_bytes());
    b.push(flags);
    b.extend_from_slice(&[0, 0, 0]);
    b.extend_from_slice(&0u32.to_le_bytes());
    b.extend_from_slice(&[0, 0, 0, 0]);
    b.extend_from_slice(&offset.to_le_bytes());
    b
}

fn sprite(width: u16, height: u16, frames: &[Vec<u8>], payload: &[u8]) -> Vec<u8> {
    let mut b = Vec::new();
    b.extend_from_slice(&0u16.to_le_bytes());
    b.extend_from_slice(&width.to_le_bytes());
    b.extend_from_slice(&height.to_le_bytes());
    b.extend_from_slice(&(frames.len() as u16).to_le_bytes());
    for f in frames {
        b.extend_from_slice(f);
    }
    b.extend_from_slice(payload);
    b
}

fn palette() -> Palette {
    let bytes: Vec<u8> = (0..768).map(|i| (i % 64) as u8).collect();
    Palette::from_bytes(&bytes).unwrap()
}

#[test]
fn header_fields() {
    let data = sprite(30, 40, &[frame_header(0, 0, 1, 1, 0, 0)], &[]);
    let header = read_file_header(&data).unwrap();
    assert_eq!((header.reserved, header.width, header.height, header.number_of_frames), (0, 30, 40, 1));
    assert!(matches!(read_file_header(&data[..7]), Err(Ra2Error::InvalidFormat { .. })));
    let reader = ShpReader::from_bytes(data).unwrap();
    assert_eq!(reader.animation_frames(), 1);
    assert_eq!(reader.animation_width(), 30);
    assert_eq!(reader.animation_height(), 40);
}

#[test]
fn empty_frame_renders_transparent() {
    let data = sprite(10, 10, &[frame_header(0, 0, 10, 10, 0, 0)], &[]);
    let reader = ShpReader::from_bytes(data).unwrap();
    let frame = reader.get_frame(0).unwrap();
    assert_eq!(frame.buffer.len(), 100);
    let image = frame.render(&palette(), 10, 10).unwrap();
    assert_eq!((image.width, image.height), (10, 10));
    assert_eq!(image.pixels.len(), 400);
    assert!(image.pixels.iter().all(|&b| b == 0));
}

#[test]
fn rle_row_is_padded() {
    let data = [6u8, 0, 3, 1, 2, 3];
    assert_eq!(decompress_rle_data(&data, 0, 5, 1).unwrap(), vec![3, 1, 2, 3, 0]);
    let data = [5u8, 0, 3, 1, 2, 3];
    assert_eq!(decompress_rle_data(&data, 0, 5, 1).unwrap(), vec![3, 1, 2, 0, 0]);
}

#[test]
fn rle_runs_and_truncation() {
    let data = [7u8, 0, 4, 0, 3, 9, 8, 4, 0, 0, 4];
    assert_eq!(decompress_rle_data(&data, 0, 3, 2).unwrap(), vec![4, 0, 0, 0, 0, 0]);
    assert!(matches!(decompress_rle_data(&data, 0, 3, 3), Err(Ra2Error::InvalidFormat { .. })));
    assert!(matches!(decompress_rle_data(&[9u8, 0, 1], 0, 3, 1), Err(Ra2Error::InvalidFormat { .. })));
}

#[test]
fn raw_and_compressed_frames_have_full_size() {
    let header_len = 8 + 24 * 2;
    let raw_offset = header_len as u32;
    let rle_offset = raw_offset + 6;
    let mut payload = vec![1u8, 2, 3, 4, 5, 6];
    payload.extend_from_slice(&[4, 0, 7, 7]);
    payload.extend_from_slice(&[4, 0, 0, 2]);
    let data = sprite(
        4,
        4,
        &[frame_header(0, 0, 3, 2, 0, raw_offset), frame_header(1, 1, 3, 2, 2, rle_offset)],
        &payload,
    );
    let reader = ShpReader::from_bytes(data).unwrap();
    let raw = reader.get_frame(0).unwrap();
    assert_eq!(raw.buffer, vec![1, 2, 3, 4, 5, 6]);
    let rle = reader.get_frame(1).unwrap();
    assert_eq!(rle.buffer, vec![7, 7, 0, 0, 0, 0]);
    assert_eq!((rle.x, rle.y, rle.width, rle.height, rle.flags), (1, 1, 3, 2, 2));
    assert!(matches!(reader.get_frame(2), Err(Ra2Error::OutOfBoundary { .. })));
}

#[test]
fn one_pixel_render_uses_palette() {
    let pal = palette();
    for i in [0u8, 1, 63, 200, 255] {
        let frame = ShpFrame {
            x: 0,
            y: 0,
            width: 1,
            height: 1,
            flags: 0,
            reserved1: [0; 3],
            color: 0,
            reserved2: [0; 4],
            offset: 0,
            buffer: vec![i],
        };
        let image = frame.render(&pal, 1, 1).unwrap();
        let c = pal.colors[i as usize];
        let expected = if i == 0 {
            vec![0, 0, 0, 0]
        } else {
            vec![
                (c.red as u32 * 255 / 63) as u8,
                (c.green as u32 * 255 / 63) as u8,
                (c.blue as u32 * 255 / 63) as u8,
                255,
            ]
        };
        assert_eq!(image.pixels, expected);
    }
}

#[test]
fn frame_is_placed_in_the_image() {
    let frame = ShpFrame {
        x: 1,
        y: 0,
        width: 1,
        height: 2,
        flags: 0,
        reserved1: [0; 3],
        color: 0,
        reserved2: [0; 4],
        offset: 0,
        buffer: vec![1, 0],
    };
    let image = frame.render(&palette(), 2, 2).unwrap();
    assert_eq!(image.pixels, vec![0, 0, 0, 0, 12, 16, 20, 255, 0, 0, 0, 0, 0, 0, 0, 0]);
    assert!(matches!(frame.render(&palette(), 1, 2), Err(Ra2Error::OutOfBoundary { .. })));
    let mut bad = frame.clone();
    bad.buffer = vec![1];
    assert!(matches!(bad.render(&palette(), 2, 2), Err(Ra2Error::InvalidFormat { .. })));
}
