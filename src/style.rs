use vstd::prelude::*;
use crate::text::{split, split_spec, parse_i32, parse_i32_spec, parse_u32, parse_u32_spec};

verus! {

/// Position of each style value in a `;`-separated style record.
#[allow(non_camel_case_types)]
pub enum StyleIndex {
    border_bottom_width,
    border_left_width,
    border_right_width,
    border_top_width,
    font_size,
    font_weight,
    padding_bottom,
    padding_left,
    padding_right,
    padding_top,
    display,
    float_,
    overflow_x,
    overflow_y,
    position,
    color,
    text_align,
    text_indent,
    z_index,
}

impl StyleIndex {
    pub open spec fn spec_index(&self) -> usize {
        match self {
            StyleIndex::border_bottom_width => 8,
            StyleIndex::border_left_width => 11,
            StyleIndex::border_right_width => 14,
            StyleIndex::border_top_width => 17,
            StyleIndex::font_size => 22,
            StyleIndex::font_weight => 24,
            StyleIndex::padding_bottom => 30,
            StyleIndex::padding_left => 31,
            StyleIndex::padding_right => 32,
            StyleIndex::padding_top => 33,
            StyleIndex::display => 39,
            StyleIndex::float_ => 40,
            StyleIndex::overflow_x => 41,
            StyleIndex::overflow_y => 42,
            StyleIndex::position => 43,
            StyleIndex::color => 44,
            StyleIndex::text_align => 46,
            StyleIndex::text_indent => 47,
            StyleIndex::z_index => 50,
        }
    }

    pub fn index(&self) -> (r: usize)
        ensures
            r == self.spec_index(),
    {
        match self {
            StyleIndex::border_bottom_width => 8,
            StyleIndex::border_left_width => 11,
            StyleIndex::border_right_width => 14,
            StyleIndex::border_top_width => 17,
            StyleIndex::font_size => 22,
            StyleIndex::font_weight => 24,
            StyleIndex::padding_bottom => 30,
            StyleIndex::padding_left => 31,
            StyleIndex::padding_right => 32,
            StyleIndex::padding_top => 33,
            StyleIndex::display => 39,
            StyleIndex::float_ => 40,
            StyleIndex::overflow_x => 41,
            StyleIndex::overflow_y => 42,
            StyleIndex::position => 43,
            StyleIndex::color => 44,
            StyleIndex::text_align => 46,
            StyleIndex::text_indent => 47,
            StyleIndex::z_index => 50,
        }
    }
}

#[derive(Clone, Copy, PartialEq, Eq, Structural, Debug)]
pub enum Display {
    Inline,
    DisplayNone,
    Block,
    InlineBlock,
    ListItem,
    RunIn,
    Compact,
    Marker,
    Table,
    InlineTable,
    TableRowGrouP,
    TableHeaderGroup,
    TableFooterGroup,
    TableRow,
    TableColumnGroup,
    TableColumn,
    TableCell,
    TableCaption,
    Inherit,
}

impl Display {
    /// The value with code `x`, if any.
    pub open spec fn from_code(x: u32) -> Option<Display> {
        match x {
            0 => Some(Display::Inline),
            1 => Some(Display::DisplayNone),
            2 => Some(Display::Block),
            3 => Some(Display::InlineBlock),
            4 => Some(Display::ListItem),
            5 => Some(Display::RunIn),
            6 => Some(Display::Compact),
            7 => Some(Display::Marker),
            8 => Some(Display::Table),
            9 => Some(Display::InlineTable),
            10 => Some(Display::TableRowGrouP),
            11 => Some(Display::TableHeaderGroup),
            12 => Some(Display::TableFooterGroup),
            13 => Some(Display::TableRow),
            14 => Some(Display::TableColumnGroup),
            15 => Some(Display::TableColumn),
            16 => Some(Display::TableCell),
            17 => Some(Display::TableCaption),
            18 => Some(Display::Inherit),
            _ => None,
        }
    }

    pub fn from_u32(x: u32) -> (r: Option<Display>)
        ensures
            r == Display::from_code(x),
    {
        match x {
            0 => Some(Display::Inline),
            1 => Some(Display::DisplayNone),
            2 => Some(Display::Block),
            3 => Some(Display::InlineBlock),
            4 => Some(Display::ListItem),
            5 => Some(Display::RunIn),
            6 => Some(Display::Compact),
            7 => Some(Display::Marker),
            8 => Some(Display::Table),
            9 => Some(Display::InlineTable),
            10 => Some(Display::TableRowGrouP),
            11 => Some(Display::TableHeaderGroup),
            12 => Some(Display::TableFooterGroup),
            13 => Some(Display::TableRow),
            14 => Some(Display::TableColumnGroup),
            15 => Some(Display::TableColumn),
            16 => Some(Display::TableCell),
            17 => Some(Display::TableCaption),
            18 => Some(Display::Inherit),
            _ => None,
        }
    }

    /// The value a style field reads from text: its code, else the default.
    pub open spec fn of_text(t: Seq<char>) -> Display {
        match parse_u32_spec(t) {
            Some(x) => match Display::from_code(x) {
                Some(v) => v,
                None => Display::Inline,
            },
            None => Display::Inline,
        }
    }

    pub fn from_text(t: &str) -> (r: Display)
        ensures
            r == Display::of_text(t@),
    {
        match parse_u32(t) {
            Some(x) => match Display::from_u32(x) {
                Some(v) => v,
                None => Display::Inline,
            },
            None => Display::Inline,
        }
    }
}

impl Default for Display {
    fn default() -> (r: Display)
        ensures
            r == Display::Inline,
    {
        Display::Inline
    }
}

#[derive(Clone, Copy, PartialEq, Eq, Structural, Debug)]
pub enum Float {
    FloatNone,
    Left,
    Right,
    Inherit,
}

impl Float {
    /// The value with code `x`, if any.
    pub open spec fn from_code(x: u32) -> Option<Float> {
        match x {
            0 => Some(Float::FloatNone),
            1 => Some(Float::Left),
            2 => Some(Float::Right),
            3 => Some(Float::Inherit),
            _ => None,
        }
    }

    pub fn from_u32(x: u32) -> (r: Option<Float>)
        ensures
            r == Float::from_code(x),
    {
        match x {
            0 => Some(Float::FloatNone),
            1 => Some(Float::Left),
            2 => Some(Float::Right),
            3 => Some(Float::Inherit),
            _ => None,
        }
    }

    /// The value a style field reads from text: its code, else the default.
    pub open spec fn of_text(t: Seq<char>) -> Float {
        match parse_u32_spec(t) {
            Some(x) => match Float::from_code(x) {
                Some(v) => v,
                None => Float::FloatNone,
            },
            None => Float::FloatNone,
        }
    }

    pub fn from_text(t: &str) -> (r: Float)
        ensures
            r == Float::of_text(t@),
    {
        match parse_u32(t) {
            Some(x) => match Float::from_u32(x) {
                Some(v) => v,
                None => Float::FloatNone,
            },
            None => Float::FloatNone,
        }
    }
}

impl Default for Float {
    fn default() -> (r: Float)
        ensures
            r == Float::FloatNone,
    {
        Float::FloatNone
    }
}

#[derive(Clone, Copy, PartialEq, Eq, Structural, Debug)]
pub enum Overflow {
    Visible,
    Hidden,
    Scroll,
    Auto,
    NoDisplay,
    NoContent,
}

impl Overflow {
    /// The value with code `x`, if any.
    pub open spec fn from_code(x: u32) -> Option<Overflow> {
        match x {
            0 => Some(Overflow::Visible),
            1 => Some(Overflow::Hidden),
            2 => Some(Overflow::Scroll),
            3 => Some(Overflow::Auto),
            4 => Some(Overflow::NoDisplay),
            5 => Some(Overflow::NoContent),
            _ => None,
        }
    }

    pub fn from_u32(x: u32) -> (r: Option<Overflow>)
        ensures
            r == Overflow::from_code(x),
    {
        match x {
            0 => Some(Overflow::Visible),
            1 => Some(Overflow::Hidden),
            2 => Some(Overflow::Scroll),
            3 => Some(Overflow::Auto),
            4 => Some(Overflow::NoDisplay),
            5 => Some(Overflow::NoContent),
            _ => None,
        }
    }

    /// The value a style field reads from text: its code, else the default.
    pub open spec fn of_text(t: Seq<char>) -> Overflow {
        match parse_u32_spec(t) {
            Some(x) => match Overflow::from_code(x) {
                Some(v) => v,
                None => Overflow::Visible,
            },
            None => Overflow::Visible,
        }
    }

    pub fn from_text(t: &str) -> (r: Overflow)
        ensures
            r == Overflow::of_text(t@),
    {
        match parse_u32(t) {
            Some(x) => match Overflow::from_u32(x) {
                Some(v) => v,
                None => Overflow::Visible,
            },
            None => Overflow::Visible,
        }
    }
}

impl Default for Overflow {
    fn default() -> (r: Overflow)
        ensures
            r == Overflow::Visible,
    {
        Overflow::Visible
    }
}

#[derive(Clone, Copy, PartialEq, Eq, Structural, Debug)]
pub enum Position {
    Static,
    Absolute,
    Fixed,
    Relative,
    Inherit,
}

impl Position {
    /// The value with code `x`, if any.
    pub open spec fn from_code(x: u32) -> Option<Position> {
        match x {
            0 => Some(Position::Static),
            1 => Some(Position::Absolute),
            2 => Some(Position::Fixed),
            3 => Some(Position::Relative),
            4 => Some(Position::Inherit),
            _ => None,
        }
    }

    pub fn from_u32(x: u32) -> (r: Option<Position>)
        ensures
            r == Position::from_code(x),
    {
        match x {
            0 => Some(Position::Static),
            1 => Some(Position::Absolute),
            2 => Some(Position::Fixed),
            3 => Some(Position::Relative),
            4 => Some(Position::Inherit),
            _ => None,
        }
    }

    /// The value a style field reads from text: its code, else the default.
    pub open spec fn of_text(t: Seq<char>) -> Position {
        match parse_u32_spec(t) {
            Some(x) => match Position::from_code(x) {
                Some(v) => v,
                None => Position::Static,
            },
            None => Position::Static,
        }
    }

    pub fn from_text(t: &str) -> (r: Position)
        ensures
            r == Position::of_text(t@),
    {
        match parse_u32(t) {
            Some(x) => match Position::from_u32(x) {
                Some(v) => v,
                None => Position::Static,
            },
            None => Position::Static,
        }
    }
}

impl Default for Position {
    fn default() -> (r: Position)
        ensures
            r == Position::Static,
    {
        Position::Static
    }
}

#[derive(Clone, Copy, PartialEq, Eq, Structural, Debug)]
pub enum TextAlign {
    Left,
    Right,
    Center,
    Justify,
    TextAlignInherit,
}

impl TextAlign {
    /// The value with code `x`, if any.
    pub open spec fn from_code(x: u32) -> Option<TextAlign> {
        match x {
            0 => Some(TextAlign::Left),
            1 => Some(TextAlign::Right),
            2 => Some(TextAlign::Center),
            3 => Some(TextAlign::Justify),
            4 => Some(TextAlign::TextAlignInherit),
            _ => None,
        }
    }

    pub fn from_u32(x: u32) -> (r: Option<TextAlign>)
        ensures
            r == TextAlign::from_code(x),
    {
        match x {
            0 => Some(TextAlign::Left),
            1 => Some(TextAlign::Right),
            2 => Some(TextAlign::Center),
            3 => Some(TextAlign::Justify),
            4 => Some(TextAlign::TextAlignInherit),
            _ => None,
        }
    }

    /// The value a style field reads from text: its code, else the default.
    pub open spec fn of_text(t: Seq<char>) -> TextAlign {
        match parse_u32_spec(t) {
            Some(x) => match TextAlign::from_code(x) {
                Some(v) => v,
                None => TextAlign::Left,
            },
            None => TextAlign::Left,
        }
    }

    pub fn from_text(t: &str) -> (r: TextAlign)
        ensures
            r == TextAlign::of_text(t@),
    {
        match parse_u32(t) {
            Some(x) => match TextAlign::from_u32(x) {
                Some(v) => v,
                None => TextAlign::Left,
            },
            None => TextAlign::Left,
        }
    }
}

impl Default for TextAlign {
    fn default() -> (r: TextAlign)
        ensures
            r == TextAlign::Left,
    {
        TextAlign::Left
    }
}

pub open spec fn int_of_text(t: Seq<char>) -> i32 {
    match parse_i32_spec(t) {
        Some(v) => v,
        None => 0,
    }
}

fn int_from_text(t: &str) -> (r: i32)
    ensures
        r == int_of_text(t@),
{
    match parse_i32(t) {
        Some(v) => v,
        None => 0,
    }
}

/// Layout and style values of a rendered element.
#[derive(Clone, Copy, PartialEq, Eq, Structural, Debug)]
pub struct StyleInfo {
    pub border_bottom_width: i32,
    pub border_left_width: i32,
    pub border_right_width: i32,
    pub border_top_width: i32,
    pub font_size: i32,
    pub font_weight: i32,
    pub padding_bottom: i32,
    pub padding_left: i32,
    pub padding_right: i32,
    pub padding_top: i32,
    pub display: Display,
    pub float_: Float,
    pub overflow_x: Overflow,
    pub overflow_y: Overflow,
    pub position: Position,
    pub color: i32,
    pub text_align: TextAlign,
    pub text_indent: i32,
    pub z_index: i32,
}

impl Default for StyleInfo {
    fn default() -> (r: StyleInfo)
        ensures
            r == StyleInfo::zero(),
    {
        StyleInfo {
            border_bottom_width: 0,
            border_left_width: 0,
            border_right_width: 0,
            border_top_width: 0,
            font_size: 0,
            font_weight: 0,
            padding_bottom: 0,
            padding_left: 0,
            padding_right: 0,
            padding_top: 0,
            display: Display::Inline,
            float_: Float::FloatNone,
            overflow_x: Overflow::Visible,
            overflow_y: Overflow::Visible,
            position: Position::Static,
            color: 0,
            text_align: TextAlign::Left,
            text_indent: 0,
            z_index: 0,
        }
    }
}

impl StyleInfo {
    /// All numbers zero, every kind at its first value.
    pub open spec fn zero() -> StyleInfo {
        StyleInfo {
            border_bottom_width: 0,
            border_left_width: 0,
            border_right_width: 0,
            border_top_width: 0,
            font_size: 0,
            font_weight: 0,
            padding_bottom: 0,
            padding_left: 0,
            padding_right: 0,
            padding_top: 0,
            display: Display::Inline,
            float_: Float::FloatNone,
            overflow_x: Overflow::Visible,
            overflow_y: Overflow::Visible,
            position: Position::Static,
            color: 0,
            text_align: TextAlign::Left,
            text_indent: 0,
            z_index: 0,
        }
    }
}

/// `old` with each field that `items` reaches replaced by the value read
/// from the item at the field's index.
pub open spec fn style_from(items: Seq<Seq<char>>, old: StyleInfo) -> StyleInfo {
    StyleInfo {
        border_bottom_width: if items.len() > StyleIndex::border_bottom_width.spec_index() { int_of_text(items[StyleIndex::border_bottom_width.spec_index() as int]) } else { old.border_bottom_width },
        border_left_width: if items.len() > StyleIndex::border_left_width.spec_index() { int_of_text(items[StyleIndex::border_left_width.spec_index() as int]) } else { old.border_left_width },
        border_right_width: if items.len() > StyleIndex::border_right_width.spec_index() { int_of_text(items[StyleIndex::border_right_width.spec_index() as int]) } else { old.border_right_width },
        border_top_width: if items.len() > StyleIndex::border_top_width.spec_index() { int_of_text(items[StyleIndex::border_top_width.spec_index() as int]) } else { old.border_top_width },
        font_size: if items.len() > StyleIndex::font_size.spec_index() { int_of_text(items[StyleIndex::font_size.spec_index() as int]) } else { old.font_size },
        font_weight: if items.len() > StyleIndex::font_weight.spec_index() { int_of_text(items[StyleIndex::font_weight.spec_index() as int]) } else { old.font_weight },
        padding_bottom: if items.len() > StyleIndex::padding_bottom.spec_index() { int_of_text(items[StyleIndex::padding_bottom.spec_index() as int]) } else { old.padding_bottom },
        padding_left: if items.len() > StyleIndex::padding_left.spec_index() { int_of_text(items[StyleIndex::padding_left.spec_index() as int]) } else { old.padding_left },
        padding_right: if items.len() > StyleIndex::padding_right.spec_index() { int_of_text(items[StyleIndex::padding_right.spec_index() as int]) } else { old.padding_right },
        padding_top: if items.len() > StyleIndex::padding_top.spec_index() { int_of_text(items[StyleIndex::padding_top.spec_index() as int]) } else { old.padding_top },
        display: if items.len() > StyleIndex::display.spec_index() { Display::of_text(items[StyleIndex::display.spec_index() as int]) } else { old.display },
        float_: if items.len() > StyleIndex::float_.spec_index() { Float::of_text(items[StyleIndex::float_.spec_index() as int]) } else { old.float_ },
        overflow_x: if items.len() > StyleIndex::overflow_x.spec_index() { Overflow::of_text(items[StyleIndex::overflow_x.spec_index() as int]) } else { old.overflow_x },
        overflow_y: if items.len() > StyleIndex::overflow_y.spec_index() { Overflow::of_text(items[StyleIndex::overflow_y.spec_index() as int]) } else { old.overflow_y },
        position: if items.len() > StyleIndex::position.spec_index() { Position::of_text(items[StyleIndex::position.spec_index() as int]) } else { old.position },
        color: if items.len() > StyleIndex::color.spec_index() { int_of_text(items[StyleIndex::color.spec_index() as int]) } else { old.color },
        text_align: if items.len() > StyleIndex::text_align.spec_index() { TextAlign::of_text(items[StyleIndex::text_align.spec_index() as int]) } else { old.text_align },
        text_indent: if items.len() > StyleIndex::text_indent.spec_index() { int_of_text(items[StyleIndex::text_indent.spec_index() as int]) } else { old.text_indent },
        z_index: if items.len() > StyleIndex::z_index.spec_index() { int_of_text(items[StyleIndex::z_index.spec_index() as int]) } else { old.z_index },
    }
}

fn read_i32(items: &Vec<String>, k: usize, old: i32) -> (r: i32)
    ensures
        r == if items@.map_values(|p: String| p@).len() > k { int_of_text(items@.map_values(|p: String| p@)[k as int]) } else { old },
{
    if items.len() > k {
        int_from_text(items[k].as_str())
    } else {
        old
    }
}

fn read_display(items: &Vec<String>, k: usize, old: Display) -> (r: Display)
    ensures
        r == if items@.map_values(|p: String| p@).len() > k { Display::of_text(items@.map_values(|p: String| p@)[k as int]) } else { old },
{
    if items.len() > k {
        Display::from_text(items[k].as_str())
    } else {
        old
    }
}

fn read_float(items: &Vec<String>, k: usize, old: Float) -> (r: Float)
    ensures
        r == if items@.map_values(|p: String| p@).len() > k { Float::of_text(items@.map_values(|p: String| p@)[k as int]) } else { old },
{
    if items.len() > k {
        Float::from_text(items[k].as_str())
    } else {
        old
    }
}

fn read_overflow(items: &Vec<String>, k: usize, old: Overflow) -> (r: Overflow)
    ensures
        r == if items@.map_values(|p: String| p@).len() > k { Overflow::of_text(items@.map_values(|p: String| p@)[k as int]) } else { old },
{
    if items.len() > k {
        Overflow::from_text(items[k].as_str())
    } else {
        old
    }
}

fn read_position(items: &Vec<String>, k: usize, old: Position) -> (r: Position)
    ensures
        r == if items@.map_values(|p: String| p@).len() > k { Position::of_text(items@.map_values(|p: String| p@)[k as int]) } else { old },
{
    if items.len() > k {
        Position::from_text(items[k].as_str())
    } else {
        old
    }
}

fn read_textalign(items: &Vec<String>, k: usize, old: TextAlign) -> (r: TextAlign)
    ensures
        r == if items@.map_values(|p: String| p@).len() > k { TextAlign::of_text(items@.map_values(|p: String| p@)[k as int]) } else { old },
{
    if items.len() > k {
        TextAlign::from_text(items[k].as_str())
    } else {
        old
    }
}

/// Reads a `;`-separated style record into `style`. A field whose index is
/// past the end of the record keeps its value; an unreadable number gives 0,
/// an unreadable or unknown kind gives that kind's default.
pub fn parse_style_info(s: &str, style: &mut StyleInfo)
    ensures
        *final(style) == style_from(split_spec(s@, ';'), *old(style)),
{
    let items = split(s, ';');
    let old = *style;
    *style = StyleInfo {
        border_bottom_width: read_i32(&items, StyleIndex::border_bottom_width.index(), old.border_bottom_width),
        border_left_width: read_i32(&items, StyleIndex::border_left_width.index(), old.border_left_width),
        border_right_width: read_i32(&items, StyleIndex::border_right_width.index(), old.border_right_width),
        border_top_width: read_i32(&items, StyleIndex::border_top_width.index(), old.border_top_width),
        font_size: read_i32(&items, StyleIndex::font_size.index(), old.font_size),
        font_weight: read_i32(&items, StyleIndex::font_weight.index(), old.font_weight),
        padding_bottom: read_i32(&items, StyleIndex::padding_bottom.index(), old.padding_bottom),
        padding_left: read_i32(&items, StyleIndex::padding_left.index(), old.padding_left),
        padding_right: read_i32(&items, StyleIndex::padding_right.index(), old.padding_right),
        padding_top: read_i32(&items, StyleIndex::padding_top.index(), old.padding_top),
        display: read_display(&items, StyleIndex::display.index(), old.display),
        float_: read_float(&items, StyleIndex::float_.index(), old.float_),
        overflow_x: read_overflow(&items, StyleIndex::overflow_x.index(), old.overflow_x),
        overflow_y: read_overflow(&items, StyleIndex::overflow_y.index(), old.overflow_y),
        position: read_position(&items, StyleIndex::position.index(), old.position),
        color: read_i32(&items, StyleIndex::color.index(), old.color),
        text_align: read_textalign(&items, StyleIndex::text_align.index(), old.text_align),
        text_indent: read_i32(&items, StyleIndex::text_indent.index(), old.text_indent),
        z_index: read_i32(&items, StyleIndex::z_index.index(), old.z_index),
    };
}

} // verus!
