use vstd::prelude::*;
use vstd::string::{is_ascii_spec_bytes, StringSliceAdditionalSpecFns};

verus! {

/// How strongly a style property holds when styles nest.
#[derive(Clone, Copy, Debug, PartialEq, Eq, Structural)]
pub enum Priority {
    High,
    Low,
}

/// Which half of the cursor a character is styled as.
#[derive(Clone, Copy, Debug, PartialEq, Eq, Structural)]
pub enum CursorHalf {
    Left,
    Right,
}

/// A 24-bit RGB color.
#[derive(Clone, Copy, Debug, PartialEq, Eq, Structural)]
pub struct Rgb {
    pub red: u8,
    pub green: u8,
    pub blue: u8,
}

/// The sixteen color names of a Base16 color scheme.
#[derive(Clone, Copy, Debug, PartialEq, Eq, Structural)]
pub enum Base16Color {
    /// Default Background
    Base00,
    /// Lighter Background (Used for status bars)
    Base01,
    /// Selection Background
    Base02,
    /// Comments, Invisibles, Line Highlighting
    Base03,
    /// Dark Foreground (Used for status bars)
    Base04,
    /// Default Foreground, Caret, Delimiters, Operators
    Base05,
    /// Light Foreground (Not often used)
    Base06,
    /// Light Background (Not often used)
    Base07,
    /// Variables, XML Tags, Markup Link Text, Markup Lists, Diff Deleted
    Base08,
    /// Integers, Boolean, Constants, XML Attributes, Markup Link Url
    Base09,
    /// Classes, Markup Bold, Search Text Background
    Base0A,
    /// Strings, Inherited Class, Markup Code, Diff Inserted
    Base0B,
    /// Support, Regular Expressions, Escape Characters, Markup Quotes
    Base0C,
    /// Functions, Methods, Attribute IDs, Headings
    Base0D,
    /// Keywords, Storage, Selector, Markup Italic, Diff Changed
    Base0E,
    /// Deprecated, Opening/Closing Embedded Language Tags, e.g. <?php ?>
    Base0F,
}

/// A set of style properties, each optional and each with a priority.
#[derive(Clone, Copy, Debug)]
pub struct Style {
    pub color: Option<(Base16Color, Priority)>,
    pub bold: Option<(bool, Priority)>,
    pub italic: Option<(bool, Priority)>,
    pub underlined: Option<(bool, Priority)>,
    pub cursor: Option<CursorHalf>,
}

/// Style labels attached to a document: the two cursor boundaries, or a
/// set of properties.
#[derive(Clone, Copy, Debug)]
pub enum StyleLabel {
    Open,
    Close,
    Properties {
        color: Option<Base16Color>,
        bold: Option<bool>,
        italic: Option<bool>,
        underlined: Option<bool>,
        priority: Priority,
    },
}

/// The property that wins when an `outer` style encloses an `inner` one: a
/// missing property yields to the other; a high-priority outer property
/// beats a low-priority inner one; otherwise the inner one wins.
pub open spec fn winner<T>(outer: Option<(T, Priority)>, inner: Option<(T, Priority)>) -> Option<
    (T, Priority),
> {
    match (outer, inner) {
        (None, _) => inner,
        (_, None) => outer,
        (Some((_, Priority::High)), Some((_, Priority::Low))) => outer,
        _ => inner,
    }
}

pub fn prioritize<T>(outer: Option<(T, Priority)>, inner: Option<(T, Priority)>) -> (r: Option<
    (T, Priority),
>)
    ensures
        r == winner(outer, inner),
{
    match (outer, inner) {
        (None, inner) => inner,
        (outer, None) => outer,
        (Some((o, Priority::Low)), Some(i)) => Some(i),
        (Some((o, Priority::High)), Some((i, Priority::Low))) => Some((o, Priority::High)),
        (Some((o, Priority::High)), Some((i, Priority::High))) => Some((i, Priority::High)),
    }
}

impl Style {
    pub open spec fn spec_combine(outer: Style, inner: Style) -> Style {
        Style {
            cursor: match outer.cursor {
                Some(c) => Some(c),
                None => inner.cursor,
            },
            color: winner(outer.color, inner.color),
            bold: winner(outer.bold, inner.bold),
            italic: winner(outer.italic, inner.italic),
            underlined: winner(outer.underlined, inner.underlined),
        }
    }

    /// The style of text that `inner` applies to inside text styled `outer`.
    pub fn combine(outer: &Style, inner: &Style) -> (r: Style)
        ensures
            r == Style::spec_combine(*outer, *inner),
    {
        Style {
            cursor: match outer.cursor {
                Some(c) => Some(c),
                None => inner.cursor,
            },
            color: prioritize(outer.color, inner.color),
            bold: prioritize(outer.bold, inner.bold),
            italic: prioritize(outer.italic, inner.italic),
            underlined: prioritize(outer.underlined, inner.underlined),
        }
    }
}

impl Default for Style {
    fn default() -> (r: Style)
        ensures
            r == (Style {
                color: None,
                bold: None,
                italic: None,
                underlined: None,
                cursor: None,
            }),
    {
        Style { color: None, bold: None, italic: None, underlined: None, cursor: None }
    }
}

/// The value of an ASCII hexadecimal digit.
pub open spec fn hex_digit(b: u8) -> Option<int> {
    if 48 <= b <= 57 {
        Some(b - 48)
    } else if 97 <= b <= 102 {
        Some(b - 87)
    } else if 65 <= b <= 70 {
        Some(b - 55)
    } else {
        None
    }
}

/// The byte that two bytes of text denote in base 16: two digits, or a
/// plus sign and one digit.
pub open spec fn hex_byte(hi: u8, lo: u8) -> Option<u8> {
    match (hex_digit(hi), hex_digit(lo)) {
        (Some(h), Some(l)) => Some((16 * h + l) as u8),
        (None, Some(l)) => if hi == 43 {
            Some(l as u8)
        } else {
            None
        },
        _ => None,
    }
}

/// The color written as `#rrggbb`: the bytes after the first, in pairs.
/// Anything after the seventh byte is not read.
pub open spec fn hex_color(b: Seq<u8>) -> Option<Rgb> {
    if b.len() < 7 {
        None
    } else {
        match (hex_byte(b[1], b[2]), hex_byte(b[3], b[4]), hex_byte(b[5], b[6])) {
            (Some(red), Some(green), Some(blue)) => Some(Rgb { red, green, blue }),
            _ => None,
        }
    }
}

fn hex_digit_value(b: u8) -> (r: Option<u8>)
    ensures
        r matches Some(v) <==> hex_digit(b) matches Some(_),
        r matches Some(v) ==> hex_digit(b) == Some(v as int),
{
    if 48 <= b && b <= 57 {
        Some(b - 48)
    } else if 97 <= b && b <= 102 {
        Some(b - 87)
    } else if 65 <= b && b <= 70 {
        Some(b - 55)
    } else {
        None
    }
}

fn hex_pair(hi: u8, lo: u8) -> (r: Option<u8>)
    ensures
        r == hex_byte(hi, lo),
{
    match (hex_digit_value(hi), hex_digit_value(lo)) {
        (Some(h), Some(l)) => Some(16 * h + l),
        (None, Some(l)) => if hi == 43 {
            Some(l)
        } else {
            None
        },
        _ => None,
    }
}

impl Rgb {
    /// Construct an Rgb color from a string of the form "#FFFFFF".
    pub fn from_hex(hex_color_text: &str) -> (r: Option<Rgb>)
        ensures
            r == hex_color(hex_color_text.spec_bytes()),
    {
        let b = hex_color_text.as_bytes();
        if b.len() < 7 {
            return None;
        }
        let red = match hex_pair(b[1], b[2]) {
            Some(v) => v,
            None => return None,
        };
        let green = match hex_pair(b[3], b[4]) {
            Some(v) => v,
            None => return None,
        };
        let blue = match hex_pair(b[5], b[6]) {
            Some(v) => v,
            None => return None,
        };
        Some(Rgb { red, green, blue })
    }
}

/// A color theme that maps Base16 color names to RGB color values.
#[derive(Clone, Copy, Debug)]
#[allow(non_snake_case)]
pub struct ColorTheme {
    /// Default Background
    pub base00: Rgb,
    /// Lighter Background (Used for status bars)
    pub base01: Rgb,
    /// Selection Background
    pub base02: Rgb,
    /// Comments, Invisibles, Line Highlighting
    pub base03: Rgb,
    /// Dark Foreground (Used for status bars)
    pub base04: Rgb,
    /// Default Foreground, Caret, Delimiters, Operators
    pub base05: Rgb,
    /// Light Foreground (Not often used)
    pub base06: Rgb,
    /// Light Background (Not often used)
    pub base07: Rgb,
    /// Variables, XML Tags, Markup Link Text, Markup Lists, Diff Deleted
    pub base08: Rgb,
    /// Integers, Boolean, Constants, XML Attributes, Markup Link Url
    pub base09: Rgb,
    /// Classes, Markup Bold, Search Text Background
    pub base0A: Rgb,
    /// Strings, Inherited Class, Markup Code, Diff Inserted
    pub base0B: Rgb,
    /// Support, Regular Expressions, Escape Characters, Markup Quotes
    pub base0C: Rgb,
    /// Functions, Methods, Attribute IDs, Headings
    pub base0D: Rgb,
    /// Keywords, Storage, Selector, Markup Italic, Diff Changed
    pub base0E: Rgb,
    /// Deprecated, Opening/Closing Embedded Language Tags, e.g. <?php ?>
    pub base0F: Rgb,
}

/// A color of a built-in theme, written as `#rrggbb`.
fn theme_color(hex: &str) -> (r: Rgb)
    requires
        hex_color(hex.spec_bytes()) is Some,
    ensures
        Some(r) == hex_color(hex.spec_bytes()),
{
    match Rgb::from_hex(hex) {
        Some(c) => c,
        None => {
            assert(false);
            Rgb { red: 0, green: 0, blue: 0 }
        },
    }
}

impl ColorTheme {
    pub open spec fn spec_color(self, color: Base16Color) -> Rgb {
        match color {
            Base16Color::Base00 => self.base00,
            Base16Color::Base01 => self.base01,
            Base16Color::Base02 => self.base02,
            Base16Color::Base03 => self.base03,
            Base16Color::Base04 => self.base04,
            Base16Color::Base05 => self.base05,
            Base16Color::Base06 => self.base06,
            Base16Color::Base07 => self.base07,
            Base16Color::Base08 => self.base08,
            Base16Color::Base09 => self.base09,
            Base16Color::Base0A => self.base0A,
            Base16Color::Base0B => self.base0B,
            Base16Color::Base0C => self.base0C,
            Base16Color::Base0D => self.base0D,
            Base16Color::Base0E => self.base0E,
            Base16Color::Base0F => self.base0F,
        }
    }

    /// The "default dark" Base16 colorscheme, by Chris Kempson.
    pub open spec fn spec_default_dark() -> ColorTheme {
        ColorTheme {
            base00: Rgb { red: 0x18, green: 0x18, blue: 0x18 },
            base01: Rgb { red: 0x28, green: 0x28, blue: 0x28 },
            base02: Rgb { red: 0x38, green: 0x38, blue: 0x38 },
            base03: Rgb { red: 0x58, green: 0x58, blue: 0x58 },
            base04: Rgb { red: 0xb8, green: 0xb8, blue: 0xb8 },
            base05: Rgb { red: 0xd8, green: 0xd8, blue: 0xd8 },
            base06: Rgb { red: 0xe8, green: 0xe8, blue: 0xe8 },
            base07: Rgb { red: 0xf8, green: 0xf8, blue: 0xf8 },
            base08: Rgb { red: 0xab, green: 0x46, blue: 0x42 },
            base09: Rgb { red: 0xdc, green: 0x96, blue: 0x56 },
            base0A: Rgb { red: 0xf7, green: 0xca, blue: 0x88 },
            base0B: Rgb { red: 0xa1, green: 0xb5, blue: 0x6c },
            base0C: Rgb { red: 0x86, green: 0xc1, blue: 0xb9 },
            base0D: Rgb { red: 0x7c, green: 0xaf, blue: 0xc2 },
            base0E: Rgb { red: 0xba, green: 0x8b, blue: 0xaf },
            base0F: Rgb { red: 0xa1, green: 0x69, blue: 0x46 },
        }
    }

    /// The "default dark" Base16 colorscheme, by Chris Kempson.
    pub fn default_dark() -> (r: ColorTheme)
        ensures
            r == Self::spec_default_dark(),
    {
        proof {
            reveal_strlit("#181818");
            is_ascii_spec_bytes("#181818");
            reveal_strlit("#282828");
            is_ascii_spec_bytes("#282828");
            reveal_strlit("#383838");
            is_ascii_spec_bytes("#383838");
            reveal_strlit("#585858");
            is_ascii_spec_bytes("#585858");
            reveal_strlit("#b8b8b8");
            is_ascii_spec_bytes("#b8b8b8");
            reveal_strlit("#d8d8d8");
            is_ascii_spec_bytes("#d8d8d8");
            reveal_strlit("#e8e8e8");
            is_ascii_spec_bytes("#e8e8e8");
            reveal_strlit("#f8f8f8");
            is_ascii_spec_bytes("#f8f8f8");
            reveal_strlit("#ab4642");
            is_ascii_spec_bytes("#ab4642");
            reveal_strlit("#dc9656");
            is_ascii_spec_bytes("#dc9656");
            reveal_strlit("#f7ca88");
            is_ascii_spec_bytes("#f7ca88");
            reveal_strlit("#a1b56c");
            is_ascii_spec_bytes("#a1b56c");
            reveal_strlit("#86c1b9");
            is_ascii_spec_bytes("#86c1b9");
            reveal_strlit("#7cafc2");
            is_ascii_spec_bytes("#7cafc2");
            reveal_strlit("#ba8baf");
            is_ascii_spec_bytes("#ba8baf");
            reveal_strlit("#a16946");
            is_ascii_spec_bytes("#a16946");
        }
        let base00 = theme_color("#181818");
        let base01 = theme_color("#282828");
        let base02 = theme_color("#383838");
        let base03 = theme_color("#585858");
        let base04 = theme_color("#b8b8b8");
        let base05 = theme_color("#d8d8d8");
        let base06 = theme_color("#e8e8e8");
        let base07 = theme_color("#f8f8f8");
        let base08 = theme_color("#ab4642");
        let base09 = theme_color("#dc9656");
        let base0a = theme_color("#f7ca88");
        let base0b = theme_color("#a1b56c");
        let base0c = theme_color("#86c1b9");
        let base0d = theme_color("#7cafc2");
        let base0e = theme_color("#ba8baf");
        let base0f = theme_color("#a16946");
        ColorTheme {
            base00: base00,
            base01: base01,
            base02: base02,
            base03: base03,
            base04: base04,
            base05: base05,
            base06: base06,
            base07: base07,
            base08: base08,
            base09: base09,
            base0A: base0a,
            base0B: base0b,
            base0C: base0c,
            base0D: base0d,
            base0E: base0e,
            base0F: base0f,
        }
    }

    /// The RGB value of a color name in this theme.
    pub fn color(&self, color: Base16Color) -> (r: Rgb)
        ensures
            r == self.spec_color(color),
    {
        match color {
            Base16Color::Base00 => self.base00,
            Base16Color::Base01 => self.base01,
            Base16Color::Base02 => self.base02,
            Base16Color::Base03 => self.base03,
            Base16Color::Base04 => self.base04,
            Base16Color::Base05 => self.base05,
            Base16Color::Base06 => self.base06,
            Base16Color::Base07 => self.base07,
            Base16Color::Base08 => self.base08,
            Base16Color::Base09 => self.base09,
            Base16Color::Base0A => self.base0A,
            Base16Color::Base0B => self.base0B,
            Base16Color::Base0C => self.base0C,
            Base16Color::Base0D => self.base0D,
            Base16Color::Base0E => self.base0E,
            Base16Color::Base0F => self.base0F,
        }
    }
}

} // verus!
