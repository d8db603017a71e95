//! The code-block transform: maps a syntax highlighter's event stream
//! onto colored word spans and re-splits them on line boundaries.
//!
//! The highlighter itself lives outside this crate: the caller runs it
//! over the block's bytes and hands in either `Unhighlighted` or an
//! ordered event stream whose source ranges are character offsets into
//! the block's joined text.
use vstd::prelude::*;
use vstd::string::StrSliceExecFns;
use vstd::string::StringExecFns;

use crate::component::TextComponent;
use crate::word::CodeColor;
use crate::word::Word;
use crate::word::WordM;
use crate::word::WordType;
use crate::wrap::line_view;
use crate::wrap::view_lines;

verus! {

/// One event of the highlighter's stream: a source span under the
/// current color, or a push/pop of the active palette entry.
#[derive(Debug, Clone, Copy, PartialEq, Eq, Structural)]
pub enum HighlightEvent {
    Source { start: usize, end: usize },
    HighlightStart(usize),
    HighlightEnd,
}

/// What the highlighter returned for a block.
#[derive(Debug, Clone)]
pub enum HighlightInfo {
    Unhighlighted,
    Highlighted(Vec<HighlightEvent>),
}

/// Source ranges must lie inside the text and be properly ordered.
pub open spec fn events_wf(events: Seq<HighlightEvent>, text_len: nat) -> bool {
    forall|i: int|
        0 <= i < events.len() ==> match #[trigger] events[i] {
            HighlightEvent::Source { start, end } => start <= end <= text_len,
            _ => true,
        }
}

/// The colored spans an event stream produces: each source range
/// becomes one code word under the color most recently started.
pub open spec fn spec_spans(
    events: Seq<HighlightEvent>,
    text: Seq<char>,
    color: CodeColor,
) -> Seq<WordM>
    decreases events.len(),
{
    if events.len() == 0 {
        Seq::empty()
    } else {
        match events[0] {
            HighlightEvent::Source { start, end } => seq![
                WordM {
                    content: text.subrange(start as int, end as int),
                    kind: WordType::CodeBlock(color),
                    prev: None,
                },
            ] + spec_spans(events.skip(1), text, color),
            HighlightEvent::HighlightStart(idx) => spec_spans(
                events.skip(1),
                text,
                CodeColor::Palette(idx),
            ),
            HighlightEvent::HighlightEnd => spec_spans(events.skip(1), text, CodeColor::Reset),
        }
    }
}

/// The color left active after the whole stream.
pub open spec fn spec_final_color(events: Seq<HighlightEvent>, color: CodeColor) -> CodeColor
    decreases events.len(),
{
    if events.len() == 0 {
        color
    } else {
        match events[0] {
            HighlightEvent::Source { start, end } => spec_final_color(events.skip(1), color),
            HighlightEvent::HighlightStart(idx) => spec_final_color(
                events.skip(1),
                CodeColor::Palette(idx),
            ),
            HighlightEvent::HighlightEnd => spec_final_color(events.skip(1), CodeColor::Reset),
        }
    }
}

/// Splitting state: finished lines and the line being assembled.
pub ghost struct NlState {
    pub lines: Seq<Seq<WordM>>,
    pub inner: Seq<WordM>,
}

/// One span's effect on the line split: a span without newlines joins
/// the open line; one with newlines is cut at each of them.
pub open spec fn spec_split_word(st: NlState, w: WordM) -> NlState {
    if exists|i: int| 0 <= i < w.content.len() && w.content[i] == '\n' {
        spec_split_chars(st, w.content, w.kind, 0, 0)
    } else {
        NlState { lines: st.lines, inner: st.inner.push(w) }
    }
}

/// The character walk of one newline-holding word: every `\n` closes a
/// line; a trailing fragment joins the open line.
pub open spec fn spec_split_chars(
    st: NlState,
    content: Seq<char>,
    kind: WordType,
    start: int,
    i: int,
) -> NlState
    decreases content.len() - i,
{
    if i < 0 || start < 0 || start > i || i >= content.len() {
        st
    } else if content[i] == '\n' {
        let w = WordM { content: content.subrange(start, i), kind, prev: None };
        spec_split_chars(
            NlState { lines: st.lines.push(st.inner.push(w)), inner: Seq::empty() },
            content,
            kind,
            i + 1,
            i + 1,
        )
    } else if i == content.len() - 1 {
        let w = WordM {
            content: content.subrange(start, content.len() as int),
            kind,
            prev: None,
        };
        NlState { lines: st.lines, inner: st.inner.push(w) }
    } else {
        spec_split_chars(st, content, kind, start, i + 1)
    }
}

pub open spec fn spec_split_words(st: NlState, ws: Seq<WordM>) -> NlState
    decreases ws.len(),
{
    if ws.len() == 0 {
        st
    } else {
        spec_split_words(spec_split_word(st, ws[0]), ws.skip(1))
    }
}

pub proof fn lemma_split_words_snoc(st: NlState, s: Seq<WordM>, x: WordM)
    ensures
        spec_split_words(st, s.push(x)) == spec_split_word(spec_split_words(st, s), x),
    decreases s.len(),
{
    reveal_with_fuel(spec_split_words, 3);
    if s.len() == 0 {
        assert(s.push(x)[0] == x);
        assert(s.push(x).skip(1) =~= Seq::<WordM>::empty());
    } else {
        assert(s.push(x)[0] == s[0]);
        assert(s.push(x).skip(1) =~= s.skip(1).push(x));
        lemma_split_words_snoc(spec_split_word(st, s[0]), s.skip(1), x);
    }
}

fn str_contains_nl(s: &str) -> (r: bool)
    ensures
        r == exists|i: int| 0 <= i < s@.len() && s@[i] == '\n',
{
    let n = s.unicode_len();
    let mut i: usize = 0;
    while i < n
        invariant
            0 <= i <= n,
            n == s@.len(),
            forall|j: int| 0 <= j < i ==> s@[j] != '\n',
        decreases n - i,
    {
        if s.get_char(i) == '\n' {
            return true;
        }
        i = i + 1;
    }
    false
}

impl TextComponent {
    /// Re-color and re-split a code block from the highlighter's
    /// answer.  A block without a language tag gets an empty leading
    /// line first.  An unhighlighted block keeps its content; a
    /// highlighted one is rebuilt from the event stream's spans over
    /// the joined text, split at embedded newlines, with one empty
    /// color-tagged word closing the final line.  The height becomes
    /// the resulting line count.
    pub fn transform_codeblock(&mut self, highlight: HighlightInfo)
        requires
            old(self).kind is CodeBlock,
            ({
                let texts = crate::component::spec_content_lines(
                    old(self).kind,
                    old(self).content@,
                );
                highlight matches HighlightInfo::Highlighted(events) ==> events_wf(
                    events@,
                    crate::component::join_texts(texts, Seq::empty()).len(),
                )
            }),
            old(self).content@.len() < 0xFFFF,
        ensures
            final(self).kind == old(self).kind,
            final(self).meta_info == old(self).meta_info,
            final(self).offset == old(self).offset,
            final(self).scroll_offset == old(self).scroll_offset,
            final(self).focused == old(self).focused,
            final(self).focused_index == old(self).focused_index,
            ({
                let texts = crate::component::spec_content_lines(
                    old(self).kind,
                    old(self).content@,
                );
                let joined = crate::component::join_texts(texts, Seq::empty());
                let with_lead = if old(self).meta_info@.len() == 0 {
                    view_lines(old(self).content@).insert(
                        0,
                        seq![
                            WordM {
                                content: Seq::empty(),
                                kind: WordType::CodeBlock(CodeColor::Reset),
                                prev: None,
                            },
                        ],
                    )
                } else {
                    view_lines(old(self).content@)
                };
                match highlight {
                    HighlightInfo::Unhighlighted => view_lines(final(self).content@) == with_lead
                        && final(self).height == with_lead.len(),
                    HighlightInfo::Highlighted(events) => {
                        let spans = spec_spans(events@, joined, CodeColor::Reset);
                        let st = spec_split_words(
                            NlState { lines: Seq::empty(), inner: Seq::empty() },
                            spans,
                        );
                        let closing = WordM {
                            content: Seq::empty(),
                            kind: WordType::CodeBlock(spec_final_color(events@, CodeColor::Reset)),
                            prev: None,
                        };
                        let out = st.lines.push(st.inner.push(closing));
                        view_lines(final(self).content@) == out && (out.len() <= 0xFFFF
                            ==> final(self).height == out.len())
                    },
                }
            }),
    {
        let lines_text = self.content_as_lines();
        let mut joined = String::new();
        let mut i: usize = 0;
        let ghost texts = crate::component::spec_content_lines(self.kind, self.content@);
        proof {
            assert(texts.len() == lines_text@.len());
            assert(forall|q: int| 0 <= q < texts.len() ==> texts[q] == (#[trigger] lines_text@[
            q])@);
            assert(texts.take(0) =~= Seq::<Seq<char>>::empty());
        }
        while i < lines_text.len()
            invariant
                0 <= i <= lines_text@.len(),
                texts.len() == lines_text@.len(),
                forall|q: int| 0 <= q < texts.len() ==> texts[q] == (#[trigger] lines_text@[q])@,
                joined@ == crate::component::join_texts(texts.take(i as int), Seq::empty()),
            decreases lines_text@.len() - i,
        {
            let ghost o0 = joined@;
            joined.append(lines_text[i].as_str());
            proof {
                assert(texts.take(i + 1).drop_last() =~= texts.take(i as int));
                assert(texts.take(i + 1).last() == texts[i as int]);
                if i > 0 {
                    assert(crate::component::join_texts(texts.take(i + 1), Seq::empty())
                        == crate::component::join_texts(texts.take(i as int), Seq::empty())
                        + Seq::<char>::empty() + texts[i as int]);
                    assert(joined@ =~= (o0 + Seq::<char>::empty()) + texts[i as int]);
                    assert((o0 + Seq::<char>::empty()) + texts[i as int] =~= o0 + Seq::<
                        char,
                    >::empty() + texts[i as int]);
                } else {
                    assert(joined@ =~= texts[0]);
                }
            }
            i = i + 1;
        }
        proof {
            assert(texts.take(texts.len() as int) =~= texts);
        }
        let has_language = self.meta_info.len() > 0;
        if !has_language {
            let mut lead: Vec<Word> = Vec::new();
            lead.push(Word::new(String::new(), WordType::CodeBlock(CodeColor::Reset)));
            let ghost leadv = lead;
            self.content.insert(0, lead);
            proof {
                assert(line_view(leadv@) =~= seq![
                    WordM {
                        content: Seq::empty(),
                        kind: WordType::CodeBlock(CodeColor::Reset),
                        prev: None,
                    },
                ]);
                assert(view_lines(self.content@) =~~= view_lines(old(self).content@).insert(
                    0,
                    seq![
                        WordM {
                            content: Seq::empty(),
                            kind: WordType::CodeBlock(CodeColor::Reset),
                            prev: None,
                        },
                    ],
                ));
            }
        }
        match highlight {
            HighlightInfo::Unhighlighted => {
                let h = self.content.len();
                if h <= 0xFFFF {
                    self.height = h as u16;
                } else {
                    self.height = 0xFFFF;
                }
            },
            HighlightInfo::Highlighted(events) => {
                let ghost joinedv = joined@;
                // build the colored spans
                let mut spans: Vec<Word> = Vec::new();
                let mut color: CodeColor = CodeColor::Reset;
                let mut e: usize = 0;
                let ghost ev = events@;
                proof {
                    assert(ev.skip(0) =~= ev);
                    assert(crate::wrap::view_words(spans@) =~= Seq::<WordM>::empty());
                }
                while e < events.len()
                    invariant
                        0 <= e <= ev.len(),
                        ev == events@,
                        joinedv == joined@,
                        events_wf(ev, joinedv.len()),
                        spec_spans(ev, joinedv, CodeColor::Reset) == crate::wrap::view_words(
                            spans@,
                        ) + spec_spans(ev.skip(e as int), joinedv, color),
                        spec_final_color(ev, CodeColor::Reset) == spec_final_color(
                            ev.skip(e as int),
                            color,
                        ),
                    decreases ev.len() - e,
                {
                    proof {
                        assert(ev.skip(e as int)[0] == ev[e as int]);
                        assert(ev.skip(e as int).skip(1) =~= ev.skip(e + 1));
                    }
                    let ghost spans0 = spans@;
                    match events[e] {
                        HighlightEvent::Source { start, end } => {
                            let frag = joined.as_str().substring_char(start, end).to_owned();
                            spans.push(Word::new(frag, WordType::CodeBlock(color)));
                            proof {
                                assert(crate::wrap::view_words(spans@) =~= crate::wrap::view_words(
                                    spans0,
                                ).push(
                                    WordM {
                                        content: joinedv.subrange(start as int, end as int),
                                        kind: WordType::CodeBlock(color),
                                        prev: None,
                                    },
                                ));
                                assert(crate::wrap::view_words(spans0).push(
                                    WordM {
                                        content: joinedv.subrange(start as int, end as int),
                                        kind: WordType::CodeBlock(color),
                                        prev: None,
                                    },
                                ) + spec_spans(ev.skip(e + 1), joinedv, color)
                                    =~= crate::wrap::view_words(spans0) + (seq![
                                    WordM {
                                        content: joinedv.subrange(start as int, end as int),
                                        kind: WordType::CodeBlock(color),
                                        prev: None,
                                    },
                                ] + spec_spans(ev.skip(e + 1), joinedv, color)));
                            }
                        },
                        HighlightEvent::HighlightStart(idx) => {
                            color = CodeColor::Palette(idx);
                        },
                        HighlightEvent::HighlightEnd => {
                            color = CodeColor::Reset;
                        },
                    }
                    e = e + 1;
                }
                proof {
                    assert(ev.skip(ev.len() as int) =~= Seq::<HighlightEvent>::empty());
                    assert(crate::wrap::view_words(spans@) + Seq::<WordM>::empty()
                        =~= crate::wrap::view_words(spans@));
                    assert(crate::wrap::view_words(spans@) == spec_spans(
                        ev,
                        joinedv,
                        CodeColor::Reset,
                    ));
                }
                // split the spans at their newlines
                let ghost spansv = crate::wrap::view_words(spans@);
                let ghost target = spec_split_words(
                    NlState { lines: Seq::empty(), inner: Seq::empty() },
                    spansv,
                );
                let mut out: Vec<Vec<Word>> = Vec::new();
                let mut inner: Vec<Word> = Vec::new();
                let mut s: usize = 0;
                proof {
                    assert(spansv.take(0) =~= Seq::<WordM>::empty());
                    assert(view_lines(out@) =~= Seq::<Seq<WordM>>::empty());
                    assert(line_view(inner@) =~= Seq::<WordM>::empty());
                }
                while s < spans.len()
                    invariant
                        0 <= s <= spans@.len(),
                        spansv == crate::wrap::view_words(spans@),
                        view_lines(out@) == spec_split_words(
                            NlState { lines: Seq::empty(), inner: Seq::empty() },
                            spansv.take(s as int),
                        ).lines,
                        line_view(inner@) == spec_split_words(
                            NlState { lines: Seq::empty(), inner: Seq::empty() },
                            spansv.take(s as int),
                        ).inner,
                    decreases spans@.len() - s,
                {
                    let ghost st = spec_split_words(
                        NlState { lines: Seq::empty(), inner: Seq::empty() },
                        spansv.take(s as int),
                    );
                    proof {
                        assert(spansv.take(s + 1) =~= spansv.take(s as int).push(
                            spansv[s as int],
                        ));
                        lemma_split_words_snoc(
                            NlState { lines: Seq::empty(), inner: Seq::empty() },
                            spansv.take(s as int),
                            spansv[s as int],
                        );
                        assert(spans@[s as int]@ == spansv[s as int]);
                    }
                    let word = &spans[s];
                    if str_contains_nl(word.content()) {
                        let kind = word.kind();
                        let text = word.content();
                        let n2 = text.unicode_len();
                        let mut start: usize = 0;
                        let mut ci: usize = 0;
                        let ghost wc = spansv[s as int].content;
                        while ci < n2
                            invariant
                                0 <= start <= ci <= n2,
                                n2 == wc.len(),
                                wc == text@,
                                kind == spansv[s as int].kind,
                                spec_split_chars(
                                    NlState {
                                        lines: view_lines(out@),
                                        inner: line_view(inner@),
                                    },
                                    wc,
                                    kind,
                                    start as int,
                                    ci as int,
                                ) == spec_split_word(st, spansv[s as int]),
                            decreases n2 - ci,
                        {
                            let ghost out0 = out@;
                            let ghost inner0v = line_view(inner@);
                            let c = text.get_char(ci);
                            if c == '\n' {
                                let frag = text.substring_char(start, ci).to_owned();
                                let ghost fragv = frag@;
                                inner.push(Word::new(frag, kind));
                                let ghost innerp = inner;
                                out.push(inner);
                                inner = Vec::new();
                                proof {
                                    assert(line_view(innerp@) =~= inner0v.push(
                                        WordM { content: fragv, kind, prev: None },
                                    ));
                                    crate::wrap::lemma_view_lines_push(out0, innerp);
                                    assert(line_view(inner@) =~= Seq::<WordM>::empty());
                                    assert(fragv == wc.subrange(start as int, ci as int));
                                }
                                start = ci + 1;
                            } else if ci == n2 - 1 {
                                let frag = text.substring_char(start, n2).to_owned();
                                let ghost fragv = frag@;
                                inner.push(Word::new(frag, kind));
                                proof {
                                    assert(line_view(inner@) =~= inner0v.push(
                                        WordM { content: fragv, kind, prev: None },
                                    ));
                                    assert(fragv == wc.subrange(start as int, n2 as int));
                                }
                            }
                            ci = ci + 1;
                        }
                        proof {
                            assert(spec_split_chars(
                                NlState { lines: view_lines(out@), inner: line_view(inner@) },
                                wc,
                                kind,
                                start as int,
                                n2 as int,
                            ) == NlState {
                                lines: view_lines(out@),
                                inner: line_view(inner@),
                            });
                        }
                    } else {
                        let ghost inner0v = line_view(inner@);
                        inner.push(word.clone());
                        proof {
                            assert(line_view(inner@) =~= inner0v.push(spansv[s as int]));
                        }
                    }
                    s = s + 1;
                }
                proof {
                    assert(spansv.take(spansv.len() as int) =~= spansv);
                }
                let ghost inner_fin = line_view(inner@);
                let ghost out_fin = out@;
                let closing_text = String::new();
                inner.push(Word::new(closing_text, WordType::CodeBlock(color)));
                let ghost innerp2 = inner;
                out.push(inner);
                proof {
                    assert(line_view(innerp2@) =~= inner_fin.push(
                        WordM {
                            content: Seq::empty(),
                            kind: WordType::CodeBlock(color),
                            prev: None,
                        },
                    ));
                    crate::wrap::lemma_view_lines_push(out_fin, innerp2);
                }
                let h = out.len();
                if h <= 0xFFFF {
                    self.height = h as u16;
                } else {
                    self.height = 0xFFFF;
                }
                self.content = out;
                proof {
                    assert(view_lines(self.content@) =~~= target.lines.push(
                        target.inner.push(
                            WordM {
                                content: Seq::empty(),
                                kind: WordType::CodeBlock(
                                    spec_final_color(ev, CodeColor::Reset),
                                ),
                                prev: None,
                            },
                        ),
                    ));
                }
            },
        }
    }
}

} // verus!
