use vstd::prelude::*;

verus! {

/// Named colors of the palette.
pub enum Ergbcolor {
    RED,
    GREEN,
    BLUE,
    ICE,
    ICEBLUE,
    WHITE,
    GRAY,
    DARKGRAY,
    BLACK,
}

/// A color as three byte channels.
#[derive(Clone, Copy, Debug, PartialEq, Eq, Structural)]
pub struct RgbColor {
    pub red: u8,
    pub green: u8,
    pub blue: u8,
}

/// The channels of each named color.
pub open spec fn palette(color: Ergbcolor) -> (u8, u8, u8) {
    match color {
        Ergbcolor::RED => (0xFF, 0x00, 0x00),
        Ergbcolor::GREEN => (0x00, 0xFF, 0x00),
        Ergbcolor::BLUE => (0xFF, 0x00, 0xFF),
        Ergbcolor::ICE => (0xC3, 0xCB, 0xD9),
        Ergbcolor::ICEBLUE => (0x07, 0xF3, 0xE5),
        Ergbcolor::WHITE => (0xFF, 0xFF, 0xFF),
        Ergbcolor::GRAY => (0x80, 0x80, 0x80),
        Ergbcolor::DARKGRAY => (0x40, 0x40, 0x40),
        Ergbcolor::BLACK => (0x00, 0x00, 0x00),
    }
}

/// The packed 24-bit value `0xRRGGBB` of three channels.
pub open spec fn packed(red: u8, green: u8, blue: u8) -> int {
    red as int * 65536 + green as int * 256 + blue as int
}

impl RgbColor {
    pub fn new(color: Ergbcolor) -> (r: RgbColor)
        ensures
            (r.red, r.green, r.blue) == palette(color),
    {
        match color {
            Ergbcolor::RED => RgbColor { red: 0xFF, green: 0x00, blue: 0x00 },
            Ergbcolor::GREEN => RgbColor { red: 0x00, green: 0xFF, blue: 0x00 },
            Ergbcolor::BLUE => RgbColor { red: 0xFF, green: 0x00, blue: 0xFF },
            Ergbcolor::ICE => RgbColor { red: 0xC3, green: 0xCB, blue: 0xD9 },
            Ergbcolor::ICEBLUE => RgbColor { red: 0x07, green: 0xF3, blue: 0xE5 },
            Ergbcolor::WHITE => RgbColor { red: 0xFF, green: 0xFF, blue: 0xFF },
            Ergbcolor::GRAY => RgbColor { red: 0x80, green: 0x80, blue: 0x80 },
            Ergbcolor::DARKGRAY => RgbColor { red: 0x40, green: 0x40, blue: 0x40 },
            Ergbcolor::BLACK => RgbColor { red: 0x00, green: 0x00, blue: 0x00 },
        }
    }

    /// The color packed as `0xRRGGBB`.
    pub fn value(&self) -> (r: u32)
        ensures
            r as int == packed(self.red, self.green, self.blue),
            r < 0x100_0000,
    {
        let mut result: u32 = self.red as u32 * 256;
        result = (result + self.green as u32) * 256;
        result + self.blue as u32
    }
}

} // verus!
