//! Tools and the modes that they can be in.

use vstd::prelude::*;

verus! {

/// Whether `code` is the code point of a character: anything but a surrogate,
/// up to 10FFFF.
pub open spec fn is_scalar(code: int) -> bool {
    0 <= code < 0xD800 || 0xE000 <= code <= 0x10FFFF
}

/// `char::from_u32` gives the character with that code point, and `None` where
/// there is no such character: above 10FFFF and among the surrogates.
pub assume_specification[ char::from_u32 ](code: u32) -> (ch: Option<char>)
    ensures
        ch == if is_scalar(code as int) {
            Some(code as char)
        } else {
            None
        },
;

/// Whether two strings hold the same characters.
pub fn same_text(a: &str, b: &str) -> (same: bool)
    ensures
        same == (a@ == b@),
{
    a.to_owned() == b.to_owned()
}

// ---------------------------------------------------------------------------
// Modes
// ---------------------------------------------------------------------------

/// How paint meets cells that already hold something.
#[derive(Clone, Copy, PartialEq, Eq, Structural, Debug)]
pub enum BlendMode {
    /// Every cell is painted.
    Overwrite,
    /// Only blank cells are painted.
    Stamp,
    /// Reserved; paints like Overwrite.
    Combine,
    /// Reserved; paints like Overwrite.
    Difference,
}

impl BlendMode {
    /// The icon, as text.
    pub open spec fn icon_text(self) -> Seq<char> {
        match self {
            BlendMode::Overwrite => "▊"@,
            BlendMode::Stamp => "⬚"@,
            BlendMode::Combine => "┼"@,
            BlendMode::Difference => "∖"@,
        }
    }

    /// The name, as text.
    pub open spec fn name_text(self) -> Seq<char> {
        match self {
            BlendMode::Overwrite => "Overwrite"@,
            BlendMode::Stamp => "Stamp"@,
            BlendMode::Combine => "Combine"@,
            BlendMode::Difference => "Difference"@,
        }
    }

    /// The mode after this one. The reserved modes are never next.
    pub open spec fn next(self) -> BlendMode {
        if self == BlendMode::Overwrite {
            BlendMode::Stamp
        } else {
            BlendMode::Overwrite
        }
    }

    /// Icon of the mode.
    pub fn icon(&self) -> (icon: &'static str)
        ensures
            icon@ == self.icon_text(),
    {
        match self {
            BlendMode::Overwrite => "▊",
            BlendMode::Stamp => "⬚",
            BlendMode::Combine => "┼",
            BlendMode::Difference => "∖",
        }
    }

    /// Name of the mode.
    pub fn name(&self) -> (name: &'static str)
        ensures
            name@ == self.name_text(),
    {
        match self {
            BlendMode::Overwrite => "Overwrite",
            BlendMode::Stamp => "Stamp",
            BlendMode::Combine => "Combine",
            BlendMode::Difference => "Difference",
        }
    }

    /// The mode after this one: Overwrite and Stamp take turns.
    pub fn cycle(&self) -> (mode: BlendMode)
        ensures
            mode == self.next(),
    {
        match self {
            BlendMode::Overwrite => BlendMode::Stamp,
            _ => BlendMode::Overwrite,
        }
    }
}

/// What the line tool draws with.
#[derive(Clone, Copy, PartialEq, Eq, Structural, Debug)]
pub enum LineMode {
    /// The brush character.
    Character,
    /// The stroke that fits the direction of each step.
    Art,
}

impl LineMode {
    /// The icon, as text.
    pub open spec fn icon_text(self) -> Seq<char> {
        match self {
            LineMode::Character => "╲"@,
            LineMode::Art => "📐"@,
        }
    }

    /// The mode after this one.
    pub open spec fn next(self) -> LineMode {
        match self {
            LineMode::Character => LineMode::Art,
            LineMode::Art => LineMode::Character,
        }
    }

    /// Icon of the mode.
    pub fn icon(&self) -> (icon: &'static str)
        ensures
            icon@ == self.icon_text(),
    {
        match self {
            LineMode::Character => "╲",
            LineMode::Art => "📐",
        }
    }

    /// The mode after this one.
    pub fn cycle(&self) -> (mode: LineMode)
        ensures
            mode == self.next(),
    {
        match self {
            LineMode::Character => LineMode::Art,
            LineMode::Art => LineMode::Character,
        }
    }
}

/// What the pencil draws with.
#[derive(Clone, Copy, PartialEq, Eq, Structural, Debug)]
pub enum PencilMode {
    /// The brush character.
    Normal,
    /// The stroke that fits the direction of each step.
    Art,
}

impl PencilMode {
    /// The icon, as text.
    pub open spec fn icon_text(self) -> Seq<char> {
        match self {
            PencilMode::Normal => "✎"@,
            PencilMode::Art => "~"@,
        }
    }

    /// The mode after this one.
    pub open spec fn next(self) -> PencilMode {
        match self {
            PencilMode::Normal => PencilMode::Art,
            PencilMode::Art => PencilMode::Normal,
        }
    }

    /// Icon of the mode.
    pub fn icon(&self) -> (icon: &'static str)
        ensures
            icon@ == self.icon_text(),
    {
        match self {
            PencilMode::Normal => "✎",
            PencilMode::Art => "~",
        }
    }

    /// The mode after this one.
    pub fn cycle(&self) -> (mode: PencilMode)
        ensures
            mode == self.next(),
    {
        match self {
            PencilMode::Normal => PencilMode::Art,
            PencilMode::Art => PencilMode::Normal,
        }
    }
}

/// Which neighbours the fill tool spreads to.
#[derive(Clone, Copy, PartialEq, Eq, Structural, Debug)]
pub enum FillMode {
    /// The four at the sides: does not leak through diagonal gaps.
    Flood4,
    /// All eight, corners included.
    Flood8,
}

impl FillMode {
    /// The icon, as text.
    pub open spec fn icon_text(self) -> Seq<char> {
        match self {
            FillMode::Flood4 => "✣"@,
            FillMode::Flood8 => "❊"@,
        }
    }

    /// The name, as text.
    pub open spec fn name_text(self) -> Seq<char> {
        match self {
            FillMode::Flood4 => "Fill (4-adjacent)"@,
            FillMode::Flood8 => "Fill (8-adjacent)"@,
        }
    }

    /// The mode after this one.
    pub open spec fn next(self) -> FillMode {
        match self {
            FillMode::Flood4 => FillMode::Flood8,
            FillMode::Flood8 => FillMode::Flood4,
        }
    }

    /// Icon of the mode.
    pub fn icon(&self) -> (icon: &'static str)
        ensures
            icon@ == self.icon_text(),
    {
        match self {
            FillMode::Flood4 => "✣",
            FillMode::Flood8 => "❊",
        }
    }

    /// Name of the mode.
    pub fn name(&self) -> (name: &'static str)
        ensures
            name@ == self.name_text(),
    {
        match self {
            FillMode::Flood4 => "Fill (4-adjacent)",
            FillMode::Flood8 => "Fill (8-adjacent)",
        }
    }

    /// The mode after this one.
    pub fn cycle(&self) -> (mode: FillMode)
        ensures
            mode == self.next(),
    {
        match self {
            FillMode::Flood4 => FillMode::Flood8,
            FillMode::Flood8 => FillMode::Flood4,
        }
    }
}

/// What is shown of the background image.
#[derive(Clone, Copy, PartialEq, Eq, Structural, Debug)]
pub enum BgOutlineMode {
    /// Its luminance.
    Original,
    /// Its edges, bright on dark.
    WhiteOnBlack,
    /// Its edges, dark on bright.
    BlackOnWhite,
}

impl BgOutlineMode {
    /// The icon, as text.
    pub open spec fn icon_text(self) -> Seq<char> {
        match self {
            BgOutlineMode::Original => "▒"@,
            BgOutlineMode::WhiteOnBlack => "┼"@,
            BgOutlineMode::BlackOnWhite => "╬"@,
        }
    }

    /// The name, as text.
    pub open spec fn name_text(self) -> Seq<char> {
        match self {
            BgOutlineMode::Original => "Original"@,
            BgOutlineMode::WhiteOnBlack => "White on black"@,
            BgOutlineMode::BlackOnWhite => "Black on white"@,
        }
    }

    /// The mode after this one.
    pub open spec fn next(self) -> BgOutlineMode {
        match self {
            BgOutlineMode::Original => BgOutlineMode::WhiteOnBlack,
            BgOutlineMode::WhiteOnBlack => BgOutlineMode::BlackOnWhite,
            BgOutlineMode::BlackOnWhite => BgOutlineMode::Original,
        }
    }

    /// Icon of the mode.
    pub fn icon(&self) -> (icon: &'static str)
        ensures
            icon@ == self.icon_text(),
    {
        match self {
            BgOutlineMode::Original => "▒",
            BgOutlineMode::WhiteOnBlack => "┼",
            BgOutlineMode::BlackOnWhite => "╬",
        }
    }

    /// Name of the mode.
    pub fn name(&self) -> (name: &'static str)
        ensures
            name@ == self.name_text(),
    {
        match self {
            BgOutlineMode::Original => "Original",
            BgOutlineMode::WhiteOnBlack => "White on black",
            BgOutlineMode::BlackOnWhite => "Black on white",
        }
    }

    /// The mode after this one.
    pub fn cycle(&self) -> (mode: BgOutlineMode)
        ensures
            mode == self.next(),
    {
        match self {
            BgOutlineMode::Original => BgOutlineMode::WhiteOnBlack,
            BgOutlineMode::WhiteOnBlack => BgOutlineMode::BlackOnWhite,
            BgOutlineMode::BlackOnWhite => BgOutlineMode::Original,
        }
    }
}

/// The characters that image matching draws from.
#[derive(Clone, Copy, PartialEq, Eq, Structural, Debug)]
pub enum AaCharset {
    /// Printable ASCII, from the space on.
    Ascii7,
    /// The braille patterns, from U+2800 on.
    Braille,
}

impl AaCharset {
    /// The icon, as text.
    pub open spec fn icon_text(self) -> Seq<char> {
        match self {
            AaCharset::Ascii7 => "a"@,
            AaCharset::Braille => "⠵"@,
        }
    }

    /// The character set after this one.
    pub open spec fn next(self) -> AaCharset {
        match self {
            AaCharset::Ascii7 => AaCharset::Braille,
            AaCharset::Braille => AaCharset::Ascii7,
        }
    }

    /// Whether entry `idx` of a catalogue has a character.
    pub open spec fn has_entry(self, idx: int) -> bool {
        match self {
            AaCharset::Ascii7 => 0 <= idx && idx % 256 < 224,
            AaCharset::Braille => 0 <= idx <= u32::MAX - 0x2800,
        }
    }

    /// The character of entry `idx` of a catalogue.
    pub open spec fn entry(self, idx: int) -> char {
        match self {
            AaCharset::Ascii7 => (idx % 256 + 32) as char,
            AaCharset::Braille => if is_scalar(0x2800 + idx) {
                (0x2800 + idx) as char
            } else {
                '\u{2800}'
            },
        }
    }

    /// The first and the last code point of the character set.
    pub open spec fn code_range(self) -> (u32, u32) {
        match self {
            AaCharset::Ascii7 => (32, 126),
            AaCharset::Braille => (0x2800, 0x28ff),
        }
    }

    /// The first and the last code point of the character set.
    pub fn codes(&self) -> (range: (u32, u32))
        ensures
            range == self.code_range(),
    {
        match self {
            AaCharset::Ascii7 => (32, 126),
            AaCharset::Braille => (0x2800, 0x28ff),
        }
    }

    /// Icon of the character set.
    pub fn icon(&self) -> (icon: &'static str)
        ensures
            icon@ == self.icon_text(),
    {
        match self {
            AaCharset::Ascii7 => "a",
            AaCharset::Braille => "⠵",
        }
    }

    /// The character set after this one.
    pub fn cycle(&self) -> (charset: AaCharset)
        ensures
            charset == self.next(),
    {
        match self {
            AaCharset::Ascii7 => AaCharset::Braille,
            AaCharset::Braille => AaCharset::Ascii7,
        }
    }

    /// The character of a catalogue entry.
    pub fn char_from_idx(&self, idx: usize) -> (ch: char)
        requires
            self.has_entry(idx as int),
        ensures
            ch == self.entry(idx as int),
    {
        match self {
            AaCharset::Ascii7 => {
                let low: u8 = (idx % 256) as u8;
                (low + 32) as char
            },
            AaCharset::Braille => match char::from_u32(0x2800 + idx as u32) {
                Some(ch) => ch,
                None => '\u{2800}',
            },
        }
    }
}

/// The axis that a stroke under Shift keeps to.
#[derive(Clone, Copy, PartialEq, Eq, Structural, Debug)]
pub enum Axis {
    Horizontal,
    Vertical,
}

// ---------------------------------------------------------------------------
// Tools
// ---------------------------------------------------------------------------

/// The tools of the toolbar.
#[derive(Clone, Copy, PartialEq, Eq, Structural, Debug)]
pub enum Tool {
    Pencil,
    Eraser,
    Select,
    Fill,
    Text,
    Line,
    Rect,
    RectFill,
    Oval,
    OvalFill,
    /// Moves and scales the background image; does not paint.
    BgMove,
}

impl Tool {
    /// The attribute value that stands for the tool.
    pub open spec fn attr(self) -> Seq<char> {
        match self {
            Tool::Pencil => "pencil"@,
            Tool::Eraser => "eraser"@,
            Tool::Select => "select"@,
            Tool::Fill => "fill"@,
            Tool::Text => "text"@,
            Tool::Line => "line"@,
            Tool::Rect => "rect"@,
            Tool::RectFill => "rect-fill"@,
            Tool::Oval => "oval"@,
            Tool::OvalFill => "oval-fill"@,
            Tool::BgMove => "bg-move"@,
        }
    }

    /// The attribute value that stands for the tool.
    pub fn data_attr(&self) -> (attr: &'static str)
        ensures
            attr@ == self.attr(),
    {
        match self {
            Tool::Pencil => "pencil",
            Tool::Eraser => "eraser",
            Tool::Select => "select",
            Tool::Fill => "fill",
            Tool::Text => "text",
            Tool::Line => "line",
            Tool::Rect => "rect",
            Tool::RectFill => "rect-fill",
            Tool::Oval => "oval",
            Tool::OvalFill => "oval-fill",
            Tool::BgMove => "bg-move",
        }
    }

    /// The tool that an attribute value stands for, if there is one.
    pub fn from_data_attr(s: &str) -> (tool: Option<Tool>)
        ensures
            match tool {
                Some(t) => t.attr() == s@,
                None => forall|t: Tool| #[trigger] t.attr() != s@,
            },
    {
        if same_text(s, "pencil") {
            Some(Tool::Pencil)
        } else if same_text(s, "eraser") {
            Some(Tool::Eraser)
        } else if same_text(s, "select") {
            Some(Tool::Select)
        } else if same_text(s, "fill") {
            Some(Tool::Fill)
        } else if same_text(s, "text") {
            Some(Tool::Text)
        } else if same_text(s, "line") {
            Some(Tool::Line)
        } else if same_text(s, "rect") {
            Some(Tool::Rect)
        } else if same_text(s, "rect-fill") {
            Some(Tool::RectFill)
        } else if same_text(s, "oval") {
            Some(Tool::Oval)
        } else if same_text(s, "oval-fill") {
            Some(Tool::OvalFill)
        } else if same_text(s, "bg-move") {
            Some(Tool::BgMove)
        } else {
            None
        }
    }
}

// ---------------------------------------------------------------------------
// Directions
// ---------------------------------------------------------------------------

/// The stroke that fits a step: `-` and `|` along the axes, `\` where both
/// coordinates go the same way, `/` otherwise.
pub open spec fn stroke_of(dc: int, dr: int) -> char {
    if dr == 0 && dc != 0 {
        '-'
    } else if dc == 0 && dr != 0 {
        '|'
    } else if dc > 0 && dr > 0 || dc < 0 && dr < 0 {
        '\\'
    } else {
        '/'
    }
}

/// The stroke that fits a step of `dc` columns and `dr` rows.
pub fn art_char(dc: i32, dr: i32) -> (ch: char)
    ensures
        ch == stroke_of(dc as int, dr as int),
{
    if dr == 0 && dc != 0 {
        '-'
    } else if dc == 0 && dr != 0 {
        '|'
    } else if (dc > 0 && dr > 0) || (dc < 0 && dr < 0) {
        '\\'
    } else {
        '/'
    }
}

// ---------------------------------------------------------------------------
// Laws
// ---------------------------------------------------------------------------

/// Different tools have different attribute values, so a tool is found again
/// by its value.
pub proof fn law_attr_identifies_tool(a: Tool, b: Tool)
    requires
        a.attr() == b.attr(),
    ensures
        a == b,
{
    reveal_strlit("pencil");
    reveal_strlit("eraser");
    reveal_strlit("select");
    reveal_strlit("fill");
    reveal_strlit("text");
    reveal_strlit("line");
    reveal_strlit("rect");
    reveal_strlit("rect-fill");
    reveal_strlit("oval");
    reveal_strlit("oval-fill");
    reveal_strlit("bg-move");
    let s = a.attr();
    let t = b.attr();
    assert(s.len() == t.len() && s[0] == t[0] && s[1] == t[1]);
}

/// Cycling through the blend modes never reaches a reserved one, and two steps
/// lead back from Overwrite and from Stamp.
pub proof fn law_blend_cycle(mode: BlendMode)
    ensures
        mode.next() == BlendMode::Overwrite || mode.next() == BlendMode::Stamp,
        mode == BlendMode::Overwrite || mode == BlendMode::Stamp ==> mode.next().next() == mode,
{
}

/// The modes of the line, the pencil and the fill, and the character sets, come
/// in pairs: two steps lead back, one does not.
pub proof fn law_pairs_cycle(line: LineMode, pencil: PencilMode, fill: FillMode, charset: AaCharset)
    ensures
        line.next() != line && line.next().next() == line,
        pencil.next() != pencil && pencil.next().next() == pencil,
        fill.next() != fill && fill.next().next() == fill,
        charset.next() != charset && charset.next().next() == charset,
{
}

/// A catalogue with one sprite per code point gives each character back by its
/// index.
pub proof fn law_entries_follow_codes(charset: AaCharset, idx: int)
    requires
        0 <= idx <= charset.code_range().1 - charset.code_range().0,
    ensures
        charset.has_entry(idx),
        charset.entry(idx) as int == charset.code_range().0 + idx,
{
}

/// The outline modes come round after three steps.
pub proof fn law_outline_cycle(mode: BgOutlineMode)
    ensures
        mode.next() != mode,
        mode.next().next() != mode,
        mode.next().next().next() == mode,
{
}

/// A step and its reverse have the same stroke.
pub proof fn law_stroke_has_no_sense(dc: int, dr: int)
    ensures
        stroke_of(dc, dr) == stroke_of(-dc, -dr),
{
}

} // verus!
