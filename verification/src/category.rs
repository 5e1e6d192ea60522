use vstd::prelude::*;
use crate::text::{decimal, pad_left, push_char, push_decimal, push_str};

verus! {

/// A grapheme cluster break category, in the order that numbers them.
#[derive(Clone, Copy, Debug, PartialEq, Eq)]
pub enum GraphemeCat {
    Any,
    Cr,
    Control,
    Extend,
    ExtendedPictographic,
    InCbConsonant,
    L,
    Lf,
    Lv,
    Lvt,
    Prepend,
    RegionalIndicator,
    SpacingMark,
    T,
    V,
    Zwj,
}

impl GraphemeCat {
    /// The category's number: its place in the order.
    pub open spec fn number(self) -> u8 {
        match self {
            GraphemeCat::Any => 0,
            GraphemeCat::Cr => 1,
            GraphemeCat::Control => 2,
            GraphemeCat::Extend => 3,
            GraphemeCat::ExtendedPictographic => 4,
            GraphemeCat::InCbConsonant => 5,
            GraphemeCat::L => 6,
            GraphemeCat::Lf => 7,
            GraphemeCat::Lv => 8,
            GraphemeCat::Lvt => 9,
            GraphemeCat::Prepend => 10,
            GraphemeCat::RegionalIndicator => 11,
            GraphemeCat::SpacingMark => 12,
            GraphemeCat::T => 13,
            GraphemeCat::V => 14,
            GraphemeCat::Zwj => 15,
        }
    }

    /// The category's name, as the tables list it.
    pub open spec fn label(self) -> Seq<char> {
        match self {
            GraphemeCat::Any => "GC_Any"@,
            GraphemeCat::Cr => "GC_CR"@,
            GraphemeCat::Control => "GC_Control"@,
            GraphemeCat::Extend => "GC_Extend"@,
            GraphemeCat::ExtendedPictographic => "GC_Extended_Pictographic"@,
            GraphemeCat::InCbConsonant => "GC_InCB_Consonant"@,
            GraphemeCat::L => "GC_L"@,
            GraphemeCat::Lf => "GC_LF"@,
            GraphemeCat::Lv => "GC_LV"@,
            GraphemeCat::Lvt => "GC_LVT"@,
            GraphemeCat::Prepend => "GC_Prepend"@,
            GraphemeCat::RegionalIndicator => "GC_Regional_Indicator"@,
            GraphemeCat::SpacingMark => "GC_SpacingMark"@,
            GraphemeCat::T => "GC_T"@,
            GraphemeCat::V => "GC_V"@,
            GraphemeCat::Zwj => "GC_ZWJ"@,
        }
    }

    /// The category's number.
    pub fn index(&self) -> (n: u8)
        ensures
            n == self.number(),
    {
        match self {
            GraphemeCat::Any => 0,
            GraphemeCat::Cr => 1,
            GraphemeCat::Control => 2,
            GraphemeCat::Extend => 3,
            GraphemeCat::ExtendedPictographic => 4,
            GraphemeCat::InCbConsonant => 5,
            GraphemeCat::L => 6,
            GraphemeCat::Lf => 7,
            GraphemeCat::Lv => 8,
            GraphemeCat::Lvt => 9,
            GraphemeCat::Prepend => 10,
            GraphemeCat::RegionalIndicator => 11,
            GraphemeCat::SpacingMark => 12,
            GraphemeCat::T => 13,
            GraphemeCat::V => 14,
            GraphemeCat::Zwj => 15,
        }
    }

    /// The category's name.
    pub fn name(&self) -> (s: &'static str)
        ensures
            s@ == self.label(),
    {
        match self {
            GraphemeCat::Any => "GC_Any",
            GraphemeCat::Cr => "GC_CR",
            GraphemeCat::Control => "GC_Control",
            GraphemeCat::Extend => "GC_Extend",
            GraphemeCat::ExtendedPictographic => "GC_Extended_Pictographic",
            GraphemeCat::InCbConsonant => "GC_InCB_Consonant",
            GraphemeCat::L => "GC_L",
            GraphemeCat::Lf => "GC_LF",
            GraphemeCat::Lv => "GC_LV",
            GraphemeCat::Lvt => "GC_LVT",
            GraphemeCat::Prepend => "GC_Prepend",
            GraphemeCat::RegionalIndicator => "GC_Regional_Indicator",
            GraphemeCat::SpacingMark => "GC_SpacingMark",
            GraphemeCat::T => "GC_T",
            GraphemeCat::V => "GC_V",
            GraphemeCat::Zwj => "GC_ZWJ",
        }
    }
}

/// The names of every a grapheme cluster break category, in order.
pub open spec fn grapheme_labels() -> Seq<Seq<char>> {
    seq![
        "GC_Any"@,
        "GC_CR"@,
        "GC_Control"@,
        "GC_Extend"@,
        "GC_Extended_Pictographic"@,
        "GC_InCB_Consonant"@,
        "GC_L"@,
        "GC_LF"@,
        "GC_LV"@,
        "GC_LVT"@,
        "GC_Prepend"@,
        "GC_Regional_Indicator"@,
        "GC_SpacingMark"@,
        "GC_T"@,
        "GC_V"@,
        "GC_ZWJ"@,
    ]
}

/// The names of every a grapheme cluster break category, in order.
pub fn grapheme_names() -> (v: Vec<&'static str>)
    ensures
        v@.map_values(|s: &str| s@) == grapheme_labels(),
{
    let v = vec![
        "GC_Any",
        "GC_CR",
        "GC_Control",
        "GC_Extend",
        "GC_Extended_Pictographic",
        "GC_InCB_Consonant",
        "GC_L",
        "GC_LF",
        "GC_LV",
        "GC_LVT",
        "GC_Prepend",
        "GC_Regional_Indicator",
        "GC_SpacingMark",
        "GC_T",
        "GC_V",
        "GC_ZWJ",
    ];
    assert(v@.map_values(|s: &str| s@) =~= grapheme_labels());
    v
}

/// A word break category, in the order that numbers them.
#[derive(Clone, Copy, Debug, PartialEq, Eq)]
pub enum WordCat {
    ALetter,
    Any,
    Cr,
    DoubleQuote,
    Extend,
    ExtendNumLet,
    Format,
    HebrewLetter,
    Katakana,
    Lf,
    MidLetter,
    MidNum,
    MidNumLet,
    Newline,
    Numeric,
    RegionalIndicator,
    SingleQuote,
    WSegSpace,
    Zwj,
}

impl WordCat {
    /// The category's number: its place in the order.
    pub open spec fn number(self) -> u8 {
        match self {
            WordCat::ALetter => 0,
            WordCat::Any => 1,
            WordCat::Cr => 2,
            WordCat::DoubleQuote => 3,
            WordCat::Extend => 4,
            WordCat::ExtendNumLet => 5,
            WordCat::Format => 6,
            WordCat::HebrewLetter => 7,
            WordCat::Katakana => 8,
            WordCat::Lf => 9,
            WordCat::MidLetter => 10,
            WordCat::MidNum => 11,
            WordCat::MidNumLet => 12,
            WordCat::Newline => 13,
            WordCat::Numeric => 14,
            WordCat::RegionalIndicator => 15,
            WordCat::SingleQuote => 16,
            WordCat::WSegSpace => 17,
            WordCat::Zwj => 18,
        }
    }

    /// The category's name, as the tables list it.
    pub open spec fn label(self) -> Seq<char> {
        match self {
            WordCat::ALetter => "WC_ALetter"@,
            WordCat::Any => "WC_Any"@,
            WordCat::Cr => "WC_CR"@,
            WordCat::DoubleQuote => "WC_Double_Quote"@,
            WordCat::Extend => "WC_Extend"@,
            WordCat::ExtendNumLet => "WC_ExtendNumLet"@,
            WordCat::Format => "WC_Format"@,
            WordCat::HebrewLetter => "WC_Hebrew_Letter"@,
            WordCat::Katakana => "WC_Katakana"@,
            WordCat::Lf => "WC_LF"@,
            WordCat::MidLetter => "WC_MidLetter"@,
            WordCat::MidNum => "WC_MidNum"@,
            WordCat::MidNumLet => "WC_MidNumLet"@,
            WordCat::Newline => "WC_Newline"@,
            WordCat::Numeric => "WC_Numeric"@,
            WordCat::RegionalIndicator => "WC_Regional_Indicator"@,
            WordCat::SingleQuote => "WC_Single_Quote"@,
            WordCat::WSegSpace => "WC_WSegSpace"@,
            WordCat::Zwj => "WC_ZWJ"@,
        }
    }

    /// The category's number.
    pub fn index(&self) -> (n: u8)
        ensures
            n == self.number(),
    {
        match self {
            WordCat::ALetter => 0,
            WordCat::Any => 1,
            WordCat::Cr => 2,
            WordCat::DoubleQuote => 3,
            WordCat::Extend => 4,
            WordCat::ExtendNumLet => 5,
            WordCat::Format => 6,
            WordCat::HebrewLetter => 7,
            WordCat::Katakana => 8,
            WordCat::Lf => 9,
            WordCat::MidLetter => 10,
            WordCat::MidNum => 11,
            WordCat::MidNumLet => 12,
            WordCat::Newline => 13,
            WordCat::Numeric => 14,
            WordCat::RegionalIndicator => 15,
            WordCat::SingleQuote => 16,
            WordCat::WSegSpace => 17,
            WordCat::Zwj => 18,
        }
    }

    /// The category's name.
    pub fn name(&self) -> (s: &'static str)
        ensures
            s@ == self.label(),
    {
        match self {
            WordCat::ALetter => "WC_ALetter",
            WordCat::Any => "WC_Any",
            WordCat::Cr => "WC_CR",
            WordCat::DoubleQuote => "WC_Double_Quote",
            WordCat::Extend => "WC_Extend",
            WordCat::ExtendNumLet => "WC_ExtendNumLet",
            WordCat::Format => "WC_Format",
            WordCat::HebrewLetter => "WC_Hebrew_Letter",
            WordCat::Katakana => "WC_Katakana",
            WordCat::Lf => "WC_LF",
            WordCat::MidLetter => "WC_MidLetter",
            WordCat::MidNum => "WC_MidNum",
            WordCat::MidNumLet => "WC_MidNumLet",
            WordCat::Newline => "WC_Newline",
            WordCat::Numeric => "WC_Numeric",
            WordCat::RegionalIndicator => "WC_Regional_Indicator",
            WordCat::SingleQuote => "WC_Single_Quote",
            WordCat::WSegSpace => "WC_WSegSpace",
            WordCat::Zwj => "WC_ZWJ",
        }
    }
}

/// The names of every a word break category, in order.
pub open spec fn word_labels() -> Seq<Seq<char>> {
    seq![
        "WC_ALetter"@,
        "WC_Any"@,
        "WC_CR"@,
        "WC_Double_Quote"@,
        "WC_Extend"@,
        "WC_ExtendNumLet"@,
        "WC_Format"@,
        "WC_Hebrew_Letter"@,
        "WC_Katakana"@,
        "WC_LF"@,
        "WC_MidLetter"@,
        "WC_MidNum"@,
        "WC_MidNumLet"@,
        "WC_Newline"@,
        "WC_Numeric"@,
        "WC_Regional_Indicator"@,
        "WC_Single_Quote"@,
        "WC_WSegSpace"@,
        "WC_ZWJ"@,
    ]
}

/// The names of every a word break category, in order.
pub fn word_names() -> (v: Vec<&'static str>)
    ensures
        v@.map_values(|s: &str| s@) == word_labels(),
{
    let v = vec![
        "WC_ALetter",
        "WC_Any",
        "WC_CR",
        "WC_Double_Quote",
        "WC_Extend",
        "WC_ExtendNumLet",
        "WC_Format",
        "WC_Hebrew_Letter",
        "WC_Katakana",
        "WC_LF",
        "WC_MidLetter",
        "WC_MidNum",
        "WC_MidNumLet",
        "WC_Newline",
        "WC_Numeric",
        "WC_Regional_Indicator",
        "WC_Single_Quote",
        "WC_WSegSpace",
        "WC_ZWJ",
    ];
    assert(v@.map_values(|s: &str| s@) =~= word_labels());
    v
}

/// A sentence break category, in the order that numbers them.
#[derive(Clone, Copy, Debug, PartialEq, Eq)]
pub enum SentenceCat {
    ATerm,
    Any,
    Cr,
    Close,
    Extend,
    Format,
    Lf,
    Lower,
    Numeric,
    OLetter,
    SContinue,
    STerm,
    Sep,
    Sp,
    Upper,
}

impl SentenceCat {
    /// The category's number: its place in the order.
    pub open spec fn number(self) -> u8 {
        match self {
            SentenceCat::ATerm => 0,
            SentenceCat::Any => 1,
            SentenceCat::Cr => 2,
            SentenceCat::Close => 3,
            SentenceCat::Extend => 4,
            SentenceCat::Format => 5,
            SentenceCat::Lf => 6,
            SentenceCat::Lower => 7,
            SentenceCat::Numeric => 8,
            SentenceCat::OLetter => 9,
            SentenceCat::SContinue => 10,
            SentenceCat::STerm => 11,
            SentenceCat::Sep => 12,
            SentenceCat::Sp => 13,
            SentenceCat::Upper => 14,
        }
    }

    /// The category's name, as the tables list it.
    pub open spec fn label(self) -> Seq<char> {
        match self {
            SentenceCat::ATerm => "SC_ATerm"@,
            SentenceCat::Any => "SC_Any"@,
            SentenceCat::Cr => "SC_CR"@,
            SentenceCat::Close => "SC_Close"@,
            SentenceCat::Extend => "SC_Extend"@,
            SentenceCat::Format => "SC_Format"@,
            SentenceCat::Lf => "SC_LF"@,
            SentenceCat::Lower => "SC_Lower"@,
            SentenceCat::Numeric => "SC_Numeric"@,
            SentenceCat::OLetter => "SC_OLetter"@,
            SentenceCat::SContinue => "SC_SContinue"@,
            SentenceCat::STerm => "SC_STerm"@,
            SentenceCat::Sep => "SC_Sep"@,
            SentenceCat::Sp => "SC_Sp"@,
            SentenceCat::Upper => "SC_Upper"@,
        }
    }

    /// The category's number.
    pub fn index(&self) -> (n: u8)
        ensures
            n == self.number(),
    {
        match self {
            SentenceCat::ATerm => 0,
            SentenceCat::Any => 1,
            SentenceCat::Cr => 2,
            SentenceCat::Close => 3,
            SentenceCat::Extend => 4,
            SentenceCat::Format => 5,
            SentenceCat::Lf => 6,
            SentenceCat::Lower => 7,
            SentenceCat::Numeric => 8,
            SentenceCat::OLetter => 9,
            SentenceCat::SContinue => 10,
            SentenceCat::STerm => 11,
            SentenceCat::Sep => 12,
            SentenceCat::Sp => 13,
            SentenceCat::Upper => 14,
        }
    }

    /// The category's name.
    pub fn name(&self) -> (s: &'static str)
        ensures
            s@ == self.label(),
    {
        match self {
            SentenceCat::ATerm => "SC_ATerm",
            SentenceCat::Any => "SC_Any",
            SentenceCat::Cr => "SC_CR",
            SentenceCat::Close => "SC_Close",
            SentenceCat::Extend => "SC_Extend",
            SentenceCat::Format => "SC_Format",
            SentenceCat::Lf => "SC_LF",
            SentenceCat::Lower => "SC_Lower",
            SentenceCat::Numeric => "SC_Numeric",
            SentenceCat::OLetter => "SC_OLetter",
            SentenceCat::SContinue => "SC_SContinue",
            SentenceCat::STerm => "SC_STerm",
            SentenceCat::Sep => "SC_Sep",
            SentenceCat::Sp => "SC_Sp",
            SentenceCat::Upper => "SC_Upper",
        }
    }
}

/// The names of every a sentence break category, in order.
pub open spec fn sentence_labels() -> Seq<Seq<char>> {
    seq![
        "SC_ATerm"@,
        "SC_Any"@,
        "SC_CR"@,
        "SC_Close"@,
        "SC_Extend"@,
        "SC_Format"@,
        "SC_LF"@,
        "SC_Lower"@,
        "SC_Numeric"@,
        "SC_OLetter"@,
        "SC_SContinue"@,
        "SC_STerm"@,
        "SC_Sep"@,
        "SC_Sp"@,
        "SC_Upper"@,
    ]
}

/// The names of every a sentence break category, in order.
pub fn sentence_names() -> (v: Vec<&'static str>)
    ensures
        v@.map_values(|s: &str| s@) == sentence_labels(),
{
    let v = vec![
        "SC_ATerm",
        "SC_Any",
        "SC_CR",
        "SC_Close",
        "SC_Extend",
        "SC_Format",
        "SC_LF",
        "SC_Lower",
        "SC_Numeric",
        "SC_OLetter",
        "SC_SContinue",
        "SC_STerm",
        "SC_Sep",
        "SC_Sp",
        "SC_Upper",
    ];
    assert(v@.map_values(|s: &str| s@) =~= sentence_labels());
    v
}

/// An emoji category, in the order that numbers them.
#[derive(Clone, Copy, Debug, PartialEq, Eq)]
pub enum EmojiCat {
    Any,
    ExtendedPictographic,
}

impl EmojiCat {
    /// The category's number: its place in the order.
    pub open spec fn number(self) -> u8 {
        match self {
            EmojiCat::Any => 0,
            EmojiCat::ExtendedPictographic => 1,
        }
    }

    /// The category's name, as the tables list it.
    pub open spec fn label(self) -> Seq<char> {
        match self {
            EmojiCat::Any => "EC_Any"@,
            EmojiCat::ExtendedPictographic => "EC_Extended_Pictographic"@,
        }
    }

    /// The category's number.
    pub fn index(&self) -> (n: u8)
        ensures
            n == self.number(),
    {
        match self {
            EmojiCat::Any => 0,
            EmojiCat::ExtendedPictographic => 1,
        }
    }

    /// The category's name.
    pub fn name(&self) -> (s: &'static str)
        ensures
            s@ == self.label(),
    {
        match self {
            EmojiCat::Any => "EC_Any",
            EmojiCat::ExtendedPictographic => "EC_Extended_Pictographic",
        }
    }
}

/// The names of every an emoji category, in order.
pub open spec fn emoji_labels() -> Seq<Seq<char>> {
    seq![
        "EC_Any"@,
        "EC_Extended_Pictographic"@,
    ]
}

/// The names of every an emoji category, in order.
pub fn emoji_names() -> (v: Vec<&'static str>)
    ensures
        v@.map_values(|s: &str| s@) == emoji_labels(),
{
    let v = vec![
        "EC_Any",
        "EC_Extended_Pictographic",
    ];
    assert(v@.map_values(|s: &str| s@) =~= emoji_labels());
    v
}

/// The grapheme category the cursor uses for `c`, where `table` is the
/// category the property table gives: the table, except for ASCII, which is
/// decided by hand (and the same way).
pub open spec fn grapheme_value(c: char, table: GraphemeCat) -> u8 {
    if c <= '\u{7e}' {
        if c >= '\u{20}' {
            GraphemeCat::Any.number()
        } else if c == '\n' {
            GraphemeCat::Lf.number()
        } else if c == '\r' {
            GraphemeCat::Cr.number()
        } else {
            GraphemeCat::Control.number()
        }
    } else {
        table.number()
    }
}

/// ASCII is categorised by hand, whatever the table says: a line feed is
/// LF, a carriage return CR, the other characters below a space are
/// controls and the printable ones Any; every other character has the
/// table's category.
pub proof fn lemma_grapheme_value_ascii(c: char, table: GraphemeCat)
    ensures
        c == '\n' ==> grapheme_value(c, table) == GraphemeCat::Lf.number(),
        c == '\r' ==> grapheme_value(c, table) == GraphemeCat::Cr.number(),
        (c as u32) < 0x20 && c != '\n' && c != '\r' ==> grapheme_value(c, table)
            == GraphemeCat::Control.number(),
        0x20 <= (c as u32) < 0x7f ==> grapheme_value(c, table) == GraphemeCat::Any.number(),
        0x7f <= (c as u32) ==> grapheme_value(c, table) == table.number(),
{
}

/// The grapheme category number of `c`, given the category `table` that the
/// property table has for it.
pub fn grapheme_cat(c: char, table: GraphemeCat) -> (n: u8)
    ensures
        n == grapheme_value(c, table),
        n <= 15,
{
    if c <= '\u{7e}' {
        let cat = if c >= '\u{20}' {
            GraphemeCat::Any
        } else if c == '\n' {
            GraphemeCat::Lf
        } else if c == '\r' {
            GraphemeCat::Cr
        } else {
            GraphemeCat::Control
        };
        cat.index()
    } else {
        table.index()
    }
}

/// The word category number of a character whose table category is `table`.
pub fn word_cat(table: WordCat) -> (n: u8)
    ensures
        n == table.number(),
{
    table.index()
}

/// The sentence category number of a character whose table category is
/// `table`.
pub fn sentence_cat(table: SentenceCat) -> (n: u8)
    ensures
        n == table.number(),
{
    table.index()
}

/// Whether a character of emoji category `cat` is Extended_Pictographic.
pub fn is_pictographic(cat: EmojiCat) -> (b: bool)
    ensures
        b == (cat == EmojiCat::ExtendedPictographic),
{
    match cat {
        EmojiCat::ExtendedPictographic => true,
        EmojiCat::Any => false,
    }
}

/// The characters with Indic_Conjunct_Break=Linker: the viramas of the
/// scripts that form conjuncts.
pub open spec fn incb_linker(c: char) -> bool {
    c == '\u{94D}' || c == '\u{9CD}' || c == '\u{ACD}' || c == '\u{B4D}' || c == '\u{C4D}' || c
        == '\u{D4D}' || c == '\u{1039}' || c == '\u{17D2}' || c == '\u{1A60}' || c == '\u{1B44}'
        || c == '\u{1BAB}' || c == '\u{A9C0}' || c == '\u{AAF6}' || c == '\u{10A3F}' || c
        == '\u{11133}' || c == '\u{113D0}' || c == '\u{1193E}' || c == '\u{11A47}' || c
        == '\u{11A99}' || c == '\u{11F42}'
}

/// Whether `c` has Indic_Conjunct_Break=Linker.
pub fn is_incb_linker(c: char) -> (b: bool)
    ensures
        b == incb_linker(c),
{
    c == '\u{94D}' || c == '\u{9CD}' || c == '\u{ACD}' || c == '\u{B4D}' || c == '\u{C4D}' || c
        == '\u{D4D}' || c == '\u{1039}' || c == '\u{17D2}' || c == '\u{1A60}' || c == '\u{1B44}'
        || c == '\u{1BAB}' || c == '\u{A9C0}' || c == '\u{AAF6}' || c == '\u{10A3F}' || c
        == '\u{11133}' || c == '\u{113D0}' || c == '\u{1193E}' || c == '\u{11A47}' || c
        == '\u{11A99}' || c == '\u{11F42}'
}

/// The start of each line of a category listing.
pub open spec fn listing_prefix() -> Seq<char> {
    seq!['-', '-', ' ', ' ', ' ']
}

/// The listing line of the category numbered `i` and named `name`:
/// `--   ` and the number right-aligned in two columns, a space, the name.
pub open spec fn name_line(i: nat, name: Seq<char>) -> Seq<char> {
    listing_prefix() + pad_left(decimal(i), 2) + seq![' '] + name
}

/// A listing line below a hundred: `--`, three spaces, the number in two
/// columns (a space before a single digit), a space and the name.
pub proof fn lemma_name_line_columns(i: nat, name: Seq<char>)
    requires
        i < 100,
    ensures
        i < 10 ==> name_line(i, name) == seq!['-', '-', ' ', ' ', ' ', ' ', (48 + i) as char, ' '] + name,
        10 <= i ==> name_line(i, name) == seq!['-', '-', ' ', ' ', ' ', (48 + i / 10) as char, (48 + i % 10) as char, ' '] + name,
{
    if i < 10 {
        assert(decimal(i) == seq![crate::text::decimal_digit(i)]);
        assert(pad_left(decimal(i), 2) =~= seq![' ', (48 + i) as char]);
    } else {
        assert(decimal(i / 10) == seq![crate::text::decimal_digit(i / 10)]);
        assert(decimal(i) == decimal(i / 10).push(crate::text::decimal_digit(i % 10)));
        assert(pad_left(decimal(i), 2) =~= seq![(48 + i / 10) as char, (48 + i % 10) as char]);
    }
    assert(name_line(i, name) =~= seq!['-', '-', ' ', ' ', ' '] + pad_left(decimal(i), 2) + seq![' '] + name);
}

/// The listing of `names`, numbered from 0 in order, one per line.
pub open spec fn name_listing(names: Seq<Seq<char>>) -> Seq<char>
    decreases names.len(),
{
    if names.len() == 0 {
        seq![]
    } else if names.len() == 1 {
        name_line(0, names[0])
    } else {
        name_listing(names.drop_last()) + seq!['\n'] + name_line(
            (names.len() - 1) as nat,
            names.last(),
        )
    }
}

/// Enum names in declaration order, which is what the numbers go by: one
/// numbered line each.
pub fn names(all: &[&str]) -> (out: String)
    ensures
        out@ == name_listing(all@.map_values(|s: &str| s@)),
{
    let ghost labels = all@.map_values(|s: &str| s@);
    let mut out = String::new();
    let mut i: usize = 0;
    while i < all.len()
        invariant
            0 <= i <= all@.len(),
            labels == all@.map_values(|s: &str| s@),
            out@ == name_listing(labels.take(i as int)),
        decreases all@.len() - i,
    {
        let ghost before = out@;
        if i > 0 {
            push_char(&mut out, '\n');
        }
        push_char(&mut out, '-');
        push_char(&mut out, '-');
        push_char(&mut out, ' ');
        push_char(&mut out, ' ');
        push_char(&mut out, ' ');
        let ghost mid = out@;
        if i < 10 {
            push_char(&mut out, ' ');
        }
        push_decimal(&mut out, i as u64);
        proof {
            if i < 10 {
                assert(decimal(i as nat) == seq![crate::text::decimal_digit(i as nat)]);
                assert(out@ == mid + pad_left(decimal(i as nat), 2));
            } else {
                lemma_decimal_len(i as nat);
                assert(out@ == mid + pad_left(decimal(i as nat), 2));
            }
        }
        push_char(&mut out, ' ');
        push_str(&mut out, all[i]);
        proof {
            let t = labels.take(i + 1);
            assert(t.drop_last() == labels.take(i as int));
            assert(t.last() == all@[i as int]@);
            if i == 0 {
                assert(out@ == name_line(0, t[0]));
            } else {
                assert(out@ == before + seq!['\n'] + name_line(i as nat, t.last()));
            }
        }
        i += 1;
    }
    proof {
        assert(labels.take(i as int) == labels);
    }
    out
}

proof fn lemma_decimal_len(n: nat)
    requires
        n >= 10,
    ensures
        decimal(n).len() >= 2,
    decreases n,
{
    if n / 10 >= 10 {
        lemma_decimal_len(n / 10);
    } else {
        assert(decimal(n / 10) == seq![crate::text::decimal_digit(n / 10)]);
    }
    assert(decimal(n) == decimal(n / 10).push(crate::text::decimal_digit(n % 10)));
}

/// The listing order is the numbering: the grapheme category numbered `n`
/// is listed `n`-th.
pub proof fn lemma_grapheme_numbering(c: GraphemeCat)
    ensures
        c.number() < grapheme_labels().len(),
        grapheme_labels()[c.number() as int] == c.label(),
{
}

/// The listing order is the numbering for word categories.
pub proof fn lemma_word_numbering(c: WordCat)
    ensures
        c.number() < word_labels().len(),
        word_labels()[c.number() as int] == c.label(),
{
}

/// The listing order is the numbering for sentence categories.
pub proof fn lemma_sentence_numbering(c: SentenceCat)
    ensures
        c.number() < sentence_labels().len(),
        sentence_labels()[c.number() as int] == c.label(),
{
}

/// The Indic_Conjunct_Break=Linker code points of Unicode 17: the viramas
/// of Devanagari, Bengali, Gujarati, Oriya, Telugu, Malayalam, Myanmar,
/// Khmer, Tai Tham, Balinese, Sundanese, Javanese, Meetei Mayek,
/// Kharoshthi, Chakma, Tulu-Tigalari, Dives Akuru, Zanabazar Square,
/// Soyombo and Kawi.
pub open spec fn linker_viramas() -> Seq<char> {
    seq![
        '\u{094D}', '\u{09CD}', '\u{0ACD}', '\u{0B4D}', '\u{0C4D}', '\u{0D4D}', '\u{1039}',
        '\u{17D2}', '\u{1A60}', '\u{1B44}', '\u{1BAB}', '\u{A9C0}', '\u{AAF6}', '\u{10A3F}',
        '\u{11133}', '\u{113D0}', '\u{1193E}', '\u{11A47}', '\u{11A99}', '\u{11F42}',
    ]
}

/// Indic_Conjunct_Break=Linker holds for exactly the twenty viramas, the
/// Gujarati sign virama U+0ACD among them.
pub proof fn lemma_incb_linker_exact()
    ensures
        forall|c: char| incb_linker(c) <==> linker_viramas().contains(c),
        linker_viramas().len() == 20,
        incb_linker('\u{0ACD}'),
{
    let v = linker_viramas();
    assert forall|c: char| incb_linker(c) <==> v.contains(c) by {
        if incb_linker(c) {
            if c == '\u{094D}' { assert(v[0] == c); }
            else if c == '\u{09CD}' { assert(v[1] == c); }
            else if c == '\u{0ACD}' { assert(v[2] == c); }
            else if c == '\u{0B4D}' { assert(v[3] == c); }
            else if c == '\u{0C4D}' { assert(v[4] == c); }
            else if c == '\u{0D4D}' { assert(v[5] == c); }
            else if c == '\u{1039}' { assert(v[6] == c); }
            else if c == '\u{17D2}' { assert(v[7] == c); }
            else if c == '\u{1A60}' { assert(v[8] == c); }
            else if c == '\u{1B44}' { assert(v[9] == c); }
            else if c == '\u{1BAB}' { assert(v[10] == c); }
            else if c == '\u{A9C0}' { assert(v[11] == c); }
            else if c == '\u{AAF6}' { assert(v[12] == c); }
            else if c == '\u{10A3F}' { assert(v[13] == c); }
            else if c == '\u{11133}' { assert(v[14] == c); }
            else if c == '\u{113D0}' { assert(v[15] == c); }
            else if c == '\u{1193E}' { assert(v[16] == c); }
            else if c == '\u{11A47}' { assert(v[17] == c); }
            else if c == '\u{11A99}' { assert(v[18] == c); }
            else { assert(v[19] == c); }
        }
        if v.contains(c) {
            let k = choose|k: int| 0 <= k < v.len() && v[k] == c;
            assert(0 <= k < 20);
        }
    }
}

} // verus!
