use mdt::word::CodeColor;
use mdt::word::MdParseEnum;
use mdt::word::MetaData;
use mdt::word::Word;
use mdt::word::WordType;

#[test]
fn word_new_sets_type() {
    let w = Word::new("hello".into(), WordType::Bold);
    assert_eq!(w.content(), "hello");
    assert_eq!(w.kind(), WordType::Bold);
    assert_eq!(w.previous_type(), WordType::Bold); // no previous -> falls back to current
}

#[test]
fn word_set_kind_preserves_previous() {
    let mut w = Word::new("x".into(), WordType::Normal);
    w.set_kind(WordType::Selected);
    assert_eq!(w.kind(), WordType::Selected);
    assert_eq!(w.previous_type(), WordType::Normal);

    w.clear_kind();
    assert_eq!(w.kind(), WordType::Normal);
    assert!(w.previous_type.is_none());
}

#[test]
fn word_clear_kind_without_previous() {
    let mut w = Word::new("x".into(), WordType::Italic);
    // No set_kind called, so the saved slot is empty
    w.clear_kind();
    assert_eq!(w.kind(), WordType::Italic); // unchanged
    assert!(w.previous_type.is_none());
}

#[test]
fn word_is_renderable() {
    // Renderable variants
    let renderable = [
        WordType::Bold,
        WordType::BoldItalic,
        WordType::Code,
        WordType::CodeBlock(CodeColor::Reset),
        WordType::Footnote,
        WordType::FootnoteInline,
        WordType::Italic,
        WordType::Link,
        WordType::ListMarker,
        WordType::Normal,
        WordType::Selected,
        WordType::Strikethrough,
        WordType::White,
    ];
    for wt in renderable {
        let w = Word::new(String::new(), wt);
        assert!(w.is_renderable(), "{wt:?} should be renderable");
    }

    // Non-renderable variants
    let non_renderable = [
        WordType::MetaInfo(MetaData::Other),
        WordType::MetaInfo(MetaData::UList),
        WordType::MetaInfo(MetaData::OList),
        WordType::MetaInfo(MetaData::PLanguage),
        WordType::MetaInfo(MetaData::ColumnsCount),
        WordType::MetaInfo(MetaData::Important),
        WordType::MetaInfo(MetaData::Note),
        WordType::MetaInfo(MetaData::Tip),
        WordType::MetaInfo(MetaData::Warning),
        WordType::MetaInfo(MetaData::Caution),
        WordType::MetaInfo(MetaData::HeadingLevel(1)),
        WordType::LinkData,
        WordType::FootnoteData,
    ];
    for wt in non_renderable {
        let w = Word::new(String::new(), wt);
        assert!(!w.is_renderable(), "{wt:?} should NOT be renderable");
    }
}

#[test]
fn word_split_off() {
    let mut w = Word::new("hello world".into(), WordType::Bold);
    w.set_kind(WordType::Selected);
    let right = w.split_off(5);

    assert_eq!(w.content(), "hello");
    assert_eq!(w.kind(), WordType::Selected);
    assert_eq!(w.previous_type(), WordType::Bold);

    assert_eq!(right.content(), " world");
    assert_eq!(right.kind(), WordType::Selected);
    assert_eq!(right.previous_type(), WordType::Bold);
}

#[test]
fn wordtype_from_mdparseenum() {
    // Exhaustive mapping of every non-container variant
    let cases: &[(MdParseEnum, WordType)] = &[
        (MdParseEnum::PLanguage, WordType::MetaInfo(MetaData::Other)),
        (MdParseEnum::BlockSeparator, WordType::MetaInfo(MetaData::Other)),
        (MdParseEnum::TaskOpen, WordType::MetaInfo(MetaData::Other)),
        (MdParseEnum::TaskClosed, WordType::MetaInfo(MetaData::Other)),
        (MdParseEnum::Indent, WordType::MetaInfo(MetaData::Other)),
        (MdParseEnum::HorizontalSeparator, WordType::MetaInfo(MetaData::Other)),
        (MdParseEnum::FootnoteRef, WordType::FootnoteInline),
        (MdParseEnum::Code, WordType::Code),
        (MdParseEnum::Bold, WordType::Bold),
        (MdParseEnum::Italic, WordType::Italic),
        (MdParseEnum::Strikethrough, WordType::Strikethrough),
        (MdParseEnum::Link, WordType::Link),
        (MdParseEnum::WikiLink, WordType::Link),
        (MdParseEnum::InlineLink, WordType::Link),
        (MdParseEnum::BoldItalic, WordType::BoldItalic),
        (MdParseEnum::Digit, WordType::ListMarker),
        (MdParseEnum::Paragraph, WordType::Normal),
        (MdParseEnum::AltText, WordType::Normal),
        (MdParseEnum::Quote, WordType::Normal),
        (MdParseEnum::Sentence, WordType::Normal),
        (MdParseEnum::Word, WordType::Normal),
        (MdParseEnum::LinkData, WordType::LinkData),
        (MdParseEnum::Imortant, WordType::MetaInfo(MetaData::Important)),
        (MdParseEnum::Note, WordType::MetaInfo(MetaData::Note)),
        (MdParseEnum::Tip, WordType::MetaInfo(MetaData::Tip)),
        (MdParseEnum::Warning, WordType::MetaInfo(MetaData::Warning)),
        (MdParseEnum::Caution, WordType::MetaInfo(MetaData::Caution)),
        (MdParseEnum::CodeBlockStr, WordType::CodeBlock(CodeColor::Reset)),
        (MdParseEnum::CodeBlockStrSpaceIndented, WordType::CodeBlock(CodeColor::Reset)),
    ];

    for &(input, expected) in cases {
        let actual = WordType::from_token(input);
        assert_eq!(actual, expected, "{input:?} should map to {expected:?}");
        assert!(!input.is_container());
    }
}
