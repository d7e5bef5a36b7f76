use rain2d::color::{black, white, Color};

#[test]
fn test_color_from_rgb() {
    let color = Color::rgb(128, 255, 50);
    assert_eq!(color, Color { r: 128, g: 255, b: 50, a: 255 });
}

#[test]
fn test_color_from_rgba() {
    let color = Color::rgba(128, 255, 50, 150);
    assert_eq!(color, Color { r: 128, g: 255, b: 50, a: 150 });
}

#[test]
fn test_color_to_u32() {
    let color: u32 = Color { r: 124, g: 58, b: 231, a: 255 }.to_u32();
    assert_eq!(color, 0xFF7C_3AE7);
}

#[test]
fn test_u32_to_color() {
    let color: Color = Color::from_u32(0x237C_FF7E);
    assert_eq!(color, Color { r: 124, g: 255, b: 126, a: 35 });
}

#[test]
fn test_pack_unpack_round_trip() {
    let samples = vec![
        Color { r: 0, g: 0, b: 0, a: 0 },
        Color { r: 255, g: 255, b: 255, a: 255 },
        Color { r: 124, g: 58, b: 231, a: 255 },
        Color { r: 1, g: 2, b: 3, a: 4 },
        Color { r: 0, g: 255, b: 0, a: 128 },
        Color { r: 255, g: 0, b: 255, a: 1 },
    ];
    for c in samples {
        assert_eq!(Color::from_u32(c.to_u32()), c);
    }
}

#[test]
fn test_unpack_pack_round_trip() {
    let samples: Vec<u32> = vec![0, 1, 0xFFFF_FFFF, 0xFF7C_3AE7, 0x237C_FF7E, 0x8000_0001];
    for n in samples {
        assert_eq!(Color::from_u32(n).to_u32(), n);
    }
}

#[test]
fn test_named_colors() {
    assert_eq!(white(), Color { r: 255, g: 255, b: 255, a: 255 });
    assert_eq!(black(), Color { r: 0, g: 0, b: 0, a: 255 });
    assert_eq!(rain2d::none().to_u32(), 0);
    assert_eq!(rain2d::red(), Color::rgb(255, 0, 0));
    assert_eq!(rain2d::green(), Color::rgb(0, 255, 0));
    assert_eq!(rain2d::blue(), Color::rgb(0, 0, 255));
    assert_eq!(rain2d::yellow(), Color::rgb(255, 255, 0));
    assert_eq!(rain2d::cyan(), Color::rgb(0, 255, 255));
    assert_eq!(rain2d::magenta(), Color::rgb(255, 0, 255));
}
