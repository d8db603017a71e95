//! The atomic unit of a document: a span of text with a semantic kind,
//! and a one-slot memory of a prior kind for reversible re-tagging.
use vstd::prelude::*;
use vstd::string::StrSliceExecFns;

verus! {

/// Structural side-channel data carried by non-rendered words.
#[derive(Debug, Clone, Copy, PartialEq, Eq, Structural)]
pub enum MetaData {
    UList,
    OList,
    PLanguage,
    Other,
    ColumnsCount,
    Important,
    Note,
    Tip,
    Warning,
    Caution,
    HeadingLevel(u8),
}

/// The color of a code-block span: the terminal default, or an entry of
/// the highlighter's palette, by index.  The palette itself lives with
/// the rendering backend.
#[derive(Debug, Clone, Copy, PartialEq, Eq, Structural)]
pub enum CodeColor {
    Reset,
    Palette(usize),
}

/// Semantic classification of a word.
#[derive(Debug, Clone, Copy, PartialEq, Eq, Structural)]
pub enum WordType {
    Bold,
    BoldItalic,
    Code,
    CodeBlock(CodeColor),
    Footnote,
    FootnoteData,
    FootnoteInline,
    Italic,
    Link,
    LinkData,
    ListMarker,
    MetaInfo(MetaData),
    Normal,
    Selected,
    Strikethrough,
    White,
}

/// The closed vocabulary of token kinds that the parser hands in.
/// Container kinds must be resolved to leaf kinds before they reach
/// this crate; handing one to `WordType::from_token` is a caller error.
#[derive(Debug, Clone, Copy, PartialEq, Eq, Structural)]
pub enum MdParseEnum {
    AltText,
    BlockSeparator,
    Bold,
    BoldItalic,
    BoldItalicStr,
    BoldStr,
    Caution,
    Code,
    CodeBlock,
    CodeBlockStr,
    CodeBlockStrSpaceIndented,
    CodeStr,
    Digit,
    Footnote,
    FootnoteRef,
    Heading,
    HorizontalSeparator,
    Image,
    Imortant,
    Indent,
    InlineLink,
    Italic,
    ItalicStr,
    Link,
    LinkData,
    ListContainer,
    Note,
    OrderedList,
    Paragraph,
    PLanguage,
    Quote,
    Sentence,
    Strikethrough,
    StrikethroughStr,
    Table,
    TableCell,
    TableSeparator,
    Task,
    TaskClosed,
    TaskOpen,
    Tip,
    UnorderedList,
    Warning,
    WikiLink,
    Word,
}

impl MdParseEnum {
    /// Container kinds: those the parser must resolve into leaf tokens.
    pub open spec fn spec_is_container(self) -> bool {
        self is Heading || self is BoldItalicStr || self is BoldStr || self is CodeBlock
            || self is CodeStr || self is Image || self is ItalicStr || self is ListContainer
            || self is OrderedList || self is StrikethroughStr || self is Footnote
            || self is Table || self is TableCell || self is Task || self is UnorderedList
            || self is TableSeparator
    }

    pub fn is_container(self) -> (r: bool)
        ensures
            r == self.spec_is_container(),
    {
        match self {
            MdParseEnum::Heading
            | MdParseEnum::BoldItalicStr
            | MdParseEnum::BoldStr
            | MdParseEnum::CodeBlock
            | MdParseEnum::CodeStr
            | MdParseEnum::Image
            | MdParseEnum::ItalicStr
            | MdParseEnum::ListContainer
            | MdParseEnum::OrderedList
            | MdParseEnum::StrikethroughStr
            | MdParseEnum::Footnote
            | MdParseEnum::Table
            | MdParseEnum::TableCell
            | MdParseEnum::Task
            | MdParseEnum::UnorderedList
            | MdParseEnum::TableSeparator => true,
            _ => false,
        }
    }
}

/// The word kind a leaf token kind classifies to.
pub open spec fn spec_word_type_of(value: MdParseEnum) -> WordType {
    match value {
        MdParseEnum::PLanguage
        | MdParseEnum::BlockSeparator
        | MdParseEnum::TaskOpen
        | MdParseEnum::TaskClosed
        | MdParseEnum::Indent
        | MdParseEnum::HorizontalSeparator => WordType::MetaInfo(MetaData::Other),
        MdParseEnum::FootnoteRef => WordType::FootnoteInline,
        MdParseEnum::Code => WordType::Code,
        MdParseEnum::Bold => WordType::Bold,
        MdParseEnum::Italic => WordType::Italic,
        MdParseEnum::Strikethrough => WordType::Strikethrough,
        MdParseEnum::Link | MdParseEnum::WikiLink | MdParseEnum::InlineLink => WordType::Link,
        MdParseEnum::BoldItalic => WordType::BoldItalic,
        MdParseEnum::Digit => WordType::ListMarker,
        MdParseEnum::Paragraph
        | MdParseEnum::AltText
        | MdParseEnum::Quote
        | MdParseEnum::Sentence
        | MdParseEnum::Word => WordType::Normal,
        MdParseEnum::LinkData => WordType::LinkData,
        MdParseEnum::Imortant => WordType::MetaInfo(MetaData::Important),
        MdParseEnum::Note => WordType::MetaInfo(MetaData::Note),
        MdParseEnum::Tip => WordType::MetaInfo(MetaData::Tip),
        MdParseEnum::Warning => WordType::MetaInfo(MetaData::Warning),
        MdParseEnum::Caution => WordType::MetaInfo(MetaData::Caution),
        MdParseEnum::CodeBlockStr | MdParseEnum::CodeBlockStrSpaceIndented => WordType::CodeBlock(
            CodeColor::Reset,
        ),
        _ => WordType::Normal,
    }
}

impl WordType {
    /// Classify a leaf token from the parser.  Container kinds are a
    /// parser-contract violation and are excluded by precondition.
    pub fn from_token(value: MdParseEnum) -> (r: WordType)
        requires
            !value.spec_is_container(),
        ensures
            r == spec_word_type_of(value),
    {
        match value {
            MdParseEnum::PLanguage
            | MdParseEnum::BlockSeparator
            | MdParseEnum::TaskOpen
            | MdParseEnum::TaskClosed
            | MdParseEnum::Indent
            | MdParseEnum::HorizontalSeparator => WordType::MetaInfo(MetaData::Other),
            MdParseEnum::FootnoteRef => WordType::FootnoteInline,
            MdParseEnum::Code => WordType::Code,
            MdParseEnum::Bold => WordType::Bold,
            MdParseEnum::Italic => WordType::Italic,
            MdParseEnum::Strikethrough => WordType::Strikethrough,
            MdParseEnum::Link | MdParseEnum::WikiLink | MdParseEnum::InlineLink => WordType::Link,
            MdParseEnum::BoldItalic => WordType::BoldItalic,
            MdParseEnum::Digit => WordType::ListMarker,
            MdParseEnum::Paragraph
            | MdParseEnum::AltText
            | MdParseEnum::Quote
            | MdParseEnum::Sentence
            | MdParseEnum::Word => WordType::Normal,
            MdParseEnum::LinkData => WordType::LinkData,
            MdParseEnum::Imortant => WordType::MetaInfo(MetaData::Important),
            MdParseEnum::Note => WordType::MetaInfo(MetaData::Note),
            MdParseEnum::Tip => WordType::MetaInfo(MetaData::Tip),
            MdParseEnum::Warning => WordType::MetaInfo(MetaData::Warning),
            MdParseEnum::Caution => WordType::MetaInfo(MetaData::Caution),
            MdParseEnum::CodeBlockStr | MdParseEnum::CodeBlockStrSpaceIndented => {
                WordType::CodeBlock(CodeColor::Reset)
            },
            _ => WordType::Normal,
        }
    }
}

/// A word is renderable unless its kind is pure metadata: a link
/// target, a footnote definition id, or a structural marker.
pub open spec fn spec_is_renderable(t: WordType) -> bool {
    !(t is MetaInfo || t is LinkData || t is FootnoteData)
}

/// The mathematical image of a [`Word`]: its text as a character
/// sequence, its kind, and the saved kind.
pub ghost struct WordM {
    pub content: Seq<char>,
    pub kind: WordType,
    pub prev: Option<WordType>,
}

/// A span of text with its semantic kind.  `previous_type` remembers at
/// most one overwritten kind: `set_kind` fills it, `clear_kind` restores
/// and empties it.  A second `set_kind` before `clear_kind` discards the
/// first saved kind; selection highlighting relies on the single slot
/// being enough.
#[derive(Debug)]
pub struct Word {
    pub content: String,
    pub word_type: WordType,
    pub previous_type: Option<WordType>,
}

impl View for Word {
    type V = WordM;

    open spec fn view(&self) -> WordM {
        WordM { content: self.content@, kind: self.word_type, prev: self.previous_type }
    }
}

impl Clone for Word {
    fn clone(&self) -> (r: Self)
        ensures
            r == *self,
    {
        Word {
            content: self.content.clone(),
            word_type: self.word_type,
            previous_type: self.previous_type,
        }
    }
}

impl Word {
    pub fn new(content: String, word_type: WordType) -> (r: Self)
        ensures
            r.content == content,
            r.word_type == word_type,
            r.previous_type is None,
    {
        Self { word_type, previous_type: None, content }
    }

    /// The kind this word had before a re-tag, or the current kind when
    /// no re-tag is pending.
    pub fn previous_type(&self) -> (r: WordType)
        ensures
            r == self.spec_previous_type(),
    {
        match self.previous_type {
            Some(t) => t,
            None => self.word_type,
        }
    }

    pub open spec fn spec_previous_type(&self) -> WordType {
        match self.previous_type {
            Some(t) => t,
            None => self.word_type,
        }
    }

    pub fn content(&self) -> (r: &str)
        ensures
            r@ == self.content@,
    {
        self.content.as_str()
    }

    pub fn set_content(&mut self, content: String)
        ensures
            final(self).content == content,
            final(self).word_type == old(self).word_type,
            final(self).previous_type == old(self).previous_type,
    {
        self.content = content;
    }

    pub fn kind(&self) -> (r: WordType)
        ensures
            r == self.word_type,
    {
        self.word_type
    }

    /// Re-tag the word, saving the current kind in the single undo slot.
    pub fn set_kind(&mut self, kind: WordType)
        ensures
            final(self).word_type == kind,
            final(self).previous_type == Some(old(self).word_type),
            final(self).content == old(self).content,
    {
        self.previous_type = Some(self.word_type);
        self.word_type = kind;
    }

    /// Restore the saved kind and empty the undo slot; without a saved
    /// kind this only empties the slot.
    pub fn clear_kind(&mut self)
        ensures
            final(self).word_type == old(self).spec_previous_type(),
            final(self).previous_type is None,
            final(self).content == old(self).content,
    {
        self.word_type = match self.previous_type {
            Some(t) => t,
            None => self.word_type,
        };
        self.previous_type = None;
    }

    pub fn is_renderable(&self) -> (r: bool)
        ensures
            r == spec_is_renderable(self.word_type),
    {
        !(matches!(self.word_type, WordType::MetaInfo(_) | WordType::LinkData | WordType::FootnoteData))
    }

    /// Split the text at character position `at`: this word keeps the
    /// first `at` characters, the returned word takes the rest, with the
    /// same kind and saved kind.
    pub fn split_off(&mut self, at: usize) -> (r: Word)
        requires
            at <= old(self).content@.len(),
        ensures
            final(self).content@ == old(self).content@.subrange(0, at as int),
            final(self).word_type == old(self).word_type,
            final(self).previous_type == old(self).previous_type,
            r.content@ == old(self).content@.subrange(at as int, old(self).content@.len() as int),
            r.word_type == old(self).word_type,
            r.previous_type == old(self).previous_type,
    {
        let n = self.content.as_str().unicode_len();
        let head = self.content.as_str().substring_char(0, at).to_owned();
        let tail = self.content.as_str().substring_char(at, n).to_owned();
        self.content = head;
        Word { content: tail, word_type: self.word_type, previous_type: self.previous_type }
    }
}

} // verus!
