use ra2::{convert_6bit_to_8bit, convert_8bit_to_5or6bit, Palette, Ra2Color, Ra2Error};

#[test]
fn ready() {
    println!("it works!")
}

fn sample_bytes() -> Vec<u8> {
    (0..768).map(|i| (i % 64) as u8).collect()
}

#[test]
fn palette_reads_triples() {
    let bytes = sample_bytes();
    let palette = Palette::from_bytes(&bytes).unwrap();
    assert_eq!(palette.colors[0], Ra2Color { red: 0, green: 1, blue: 2 });
    assert_eq!(palette.colors[255], Ra2Color { red: bytes[765], green: bytes[766], blue: bytes[767] });
    assert_eq!(palette.get_color(1).unwrap(), Ra2Color { red: 3, green: 4, blue: 5 });
    let decoded = Palette::decode(&bytes).unwrap();
    assert_eq!(decoded.colors, palette.colors);
}

#[test]
fn palette_rejects_wrong_size() {
    assert!(matches!(Palette::from_bytes(&[0u8; 767]), Err(Ra2Error::InvalidFormat { .. })));
    assert!(matches!(Palette::from_bytes(&[0u8; 769]), Err(Ra2Error::InvalidFormat { .. })));
    assert!(matches!(Palette::decode(&[]), Err(Ra2Error::InvalidFormat { .. })));
}

#[test]
fn channel_conversions() {
    assert_eq!(convert_6bit_to_8bit(0), 0);
    assert_eq!(convert_6bit_to_8bit(63), 255);
    assert_eq!(convert_6bit_to_8bit(32), 129);
    assert_eq!(convert_6bit_to_8bit(64), 3);
    assert_eq!(convert_8bit_to_5or6bit(255, true), 63);
    assert_eq!(convert_8bit_to_5or6bit(255, false), 31);
    assert_eq!(convert_8bit_to_5or6bit(100, true), 25);
}

#[test]
fn color_to_rgba() {
    assert_eq!(Ra2Color { red: 63, green: 0, blue: 21 }.to_rgba(), [255, 0, 85, 255]);
}
