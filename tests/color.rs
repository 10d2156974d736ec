use renderer::color::{Ergbcolor, RgbColor};

#[test]
fn test_rgb() {
    let rgb: RgbColor = RgbColor { red: 255, green: 255, blue: 255 };
    println!("Rgb: {:06X}", rgb.value());
    assert_eq!(rgb.value(), 0xFFFFFF);
    let rgb: RgbColor = RgbColor { red: 255, green: 0, blue: 0 };
    println!("Rgb: {:06X}", rgb.value());
    assert_eq!(rgb.value(), 0xFF0000);
    let rgb: RgbColor = RgbColor { red: 0, green: 255, blue: 0 };
    println!("Rgb: {:06X}", rgb.value());
    assert_eq!(rgb.value(), 0x00FF00);
    let rgb: RgbColor = RgbColor { red: 0, green: 0, blue: 255 };
    println!("Rgb: {:06X}", rgb.value());
    assert_eq!(rgb.value(), 0x0000FF);
    let rgb: RgbColor = RgbColor { red: 16, green: 16, blue: 16 };
    println!("Rgb: {:06X}", rgb.value());
    assert_eq!(rgb.value(), 0x101010);
}

#[test]
fn palette_colors() {
    assert_eq!(RgbColor::new(Ergbcolor::RED).value(), 0xFF0000);
    assert_eq!(RgbColor::new(Ergbcolor::GREEN).value(), 0x00FF00);
    assert_eq!(RgbColor::new(Ergbcolor::BLUE).value(), 0xFF00FF);
    assert_eq!(RgbColor::new(Ergbcolor::ICE).value(), 0xC3CBD9);
    assert_eq!(RgbColor::new(Ergbcolor::ICEBLUE).value(), 0x07F3E5);
    assert_eq!(RgbColor::new(Ergbcolor::WHITE).value(), 0xFFFFFF);
    assert_eq!(RgbColor::new(Ergbcolor::GRAY).value(), 0x808080);
    assert_eq!(RgbColor::new(Ergbcolor::DARKGRAY).value(), 0x404040);
    assert_eq!(RgbColor::new(Ergbcolor::BLACK).value(), 0x000000);
}

#[test]
fn palette_channels() {
    let c = RgbColor::new(Ergbcolor::ICEBLUE);
    assert_eq!((c.red, c.green, c.blue), (0x07, 0xF3, 0xE5));
}
