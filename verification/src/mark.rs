use crate::encoder::{Encode, EncodeContext, Encoder};
use crate::id::IdRange;
use crate::text::decimal;
use vstd::prelude::*;

verus! {

/// A formatting mark that can be put on a range of text.
#[derive(Debug, Default, PartialEq, Eq, Hash)]
pub enum Mark {
    Bold,
    Italic,
    Underline,
    StrikeThrough,
    Code,
    Subscript,
    Superscript,
    Color(String),
    Background(String),
    Link(String),
    Custom(String, String),
    #[default]
    NoMark,
    Id(u32),
}

impl Clone for Mark {
    fn clone(&self) -> (r: Self)
        ensures
            r == *self,
    {
        match self {
            Mark::Bold => Mark::Bold,
            Mark::Italic => Mark::Italic,
            Mark::Underline => Mark::Underline,
            Mark::StrikeThrough => Mark::StrikeThrough,
            Mark::Code => Mark::Code,
            Mark::Subscript => Mark::Subscript,
            Mark::Superscript => Mark::Superscript,
            Mark::Color(c) => Mark::Color(c.clone()),
            Mark::Background(c) => Mark::Background(c.clone()),
            Mark::Link(u) => Mark::Link(u.clone()),
            Mark::Custom(n, j) => Mark::Custom(n.clone(), j.clone()),
            Mark::NoMark => Mark::NoMark,
            Mark::Id(id) => Mark::Id(*id),
        }
    }
}

/// The name a mark is known by: its own for a custom mark, `_` for none.
pub open spec fn mark_key(m: Mark) -> Seq<char> {
    match m {
        Mark::Bold => "bold"@,
        Mark::Italic => "italic"@,
        Mark::Underline => "underline"@,
        Mark::StrikeThrough => "strikethrough"@,
        Mark::Code => "code"@,
        Mark::Subscript => "subscript"@,
        Mark::Superscript => "superscript"@,
        Mark::Color(_) => "color"@,
        Mark::Background(_) => "background"@,
        Mark::Link(_) => "link"@,
        Mark::Custom(name, _) => name@,
        Mark::Id(_) => "id"@,
        Mark::NoMark => "_"@,
    }
}

/// The value a mark is shown with next to its name: on or off marks as set, with or
/// without the text of their range; text marks by their text; the id mark by its number.
#[derive(Debug, Clone, PartialEq, Eq)]
pub enum MarkValue {
    Flag,
    RangedFlag(String),
    Text(String),
    Number(u32),
    Null,
}

/// A mark value with its texts as character sequences.
pub enum MarkValueView {
    Flag,
    RangedFlag(Seq<char>),
    Text(Seq<char>),
    Number(u32),
    Null,
}

impl View for MarkValue {
    type V = MarkValueView;

    open spec fn view(&self) -> MarkValueView {
        match self {
            MarkValue::Flag => MarkValueView::Flag,
            MarkValue::RangedFlag(t) => MarkValueView::RangedFlag(t@),
            MarkValue::Text(t) => MarkValueView::Text(t@),
            MarkValue::Number(n) => MarkValueView::Number(*n),
            MarkValue::Null => MarkValueView::Null,
        }
    }
}

/// The text of a range: `(client, start, end)`.
pub open spec fn range_text(r: IdRange) -> Seq<char> {
    seq!['('] + decimal(r.client) + seq![',', ' '] + decimal(r.start) + seq![',', ' '] + decimal(
        r.end,
    ) + seq![')']
}

/// The value a mark is shown with: on or off marks as set, paired with the range's text when
/// `ranged`; colours, backgrounds and links by their text; a custom mark by its JSON text;
/// the id mark by its number; no mark by nothing.
pub open spec fn mark_value(m: Mark, range: IdRange, ranged: bool) -> MarkValueView {
    match m {
        Mark::Bold | Mark::Italic | Mark::Underline | Mark::StrikeThrough | Mark::Code
        | Mark::Subscript | Mark::Superscript => if ranged {
            MarkValueView::RangedFlag(range_text(range))
        } else {
            MarkValueView::Flag
        },
        Mark::Color(c) => MarkValueView::Text(c@),
        Mark::Background(c) => MarkValueView::Text(c@),
        Mark::Link(u) => MarkValueView::Text(u@),
        Mark::Custom(_, json) => MarkValueView::Text(json@),
        Mark::Id(id) => MarkValueView::Number(id),
        Mark::NoMark => MarkValueView::Null,
    }
}

/// A mark over a range of ids.
#[derive(Debug, Clone, Default)]
pub struct MarkContent {
    pub range: IdRange,
    pub data: Mark,
}

impl MarkContent {
    pub fn new(range: IdRange, data: Mark) -> (r: Self)
        ensures
            r.range == range,
            r.data == data,
    {
        MarkContent { range, data }
    }

    /// The number of ids the mark covers.
    pub fn size(&self) -> (r: u32)
        requires
            self.range.start <= self.range.end,
            self.range.end - self.range.start + 1 <= u32::MAX,
        ensures
            r == self.range.spec_size(),
    {
        self.range.size()
    }

    /// The mark cut in two at `offset` ids from its start, both halves carrying the mark.
    pub fn split(&self, offset: u32) -> (r: (MarkContent, MarkContent))
        requires
            self.range.start <= self.range.end,
            self.range.end - self.range.start + 1 <= u32::MAX,
            0 < offset < self.range.spec_size(),
        ensures
            r.0.range.client == self.range.client && r.1.range.client == self.range.client,
            r.0.range.start == self.range.start && r.0.range.end == self.range.start + offset - 1,
            r.1.range.start == self.range.start + offset && r.1.range.end == self.range.end,
            r.0.data == self.data && r.1.data == self.data,
    {
        let (ld, rd) = self.range.split(offset).unwrap();
        let left = MarkContent::new(ld, self.data.clone());
        let right = MarkContent::new(rd, self.data.clone());
        (left, right)
    }

    /// The name of the mark with its value and the text of its range.
    pub fn key_value_with_range(&self) -> (r: (String, MarkValue))
        ensures
            r.0@ == mark_key(self.data),
            r.1@ == mark_value(self.data, self.range, true),
            is_flag(self.data) ==> r.1@ == MarkValueView::RangedFlag(
                seq!['('] + decimal(self.range.client) + seq![',', ' '] + decimal(self.range.start)
                    + seq![',', ' '] + decimal(self.range.end) + seq![')'],
            ),
    {
        let key = self.get_key();
        let value = match &self.data {
            Mark::Bold | Mark::Italic | Mark::Underline | Mark::StrikeThrough | Mark::Code
            | Mark::Subscript | Mark::Superscript => MarkValue::RangedFlag(self.range.to_string()),
            Mark::Color(c) => MarkValue::Text(c.clone()),
            Mark::Background(c) => MarkValue::Text(c.clone()),
            Mark::Link(u) => MarkValue::Text(u.clone()),
            Mark::Custom(_, json) => MarkValue::Text(json.clone()),
            Mark::Id(id) => MarkValue::Number(*id),
            Mark::NoMark => MarkValue::Null,
        };
        (key, value)
    }

    /// The name of the mark with its value.
    pub fn key_value_without_range(&self) -> (r: (String, MarkValue))
        ensures
            r.0@ == mark_key(self.data),
            r.1@ == mark_value(self.data, self.range, false),
            is_flag(self.data) ==> r.1@ == MarkValueView::Flag,
    {
        let key = self.get_key();
        let value = match &self.data {
            Mark::Bold | Mark::Italic | Mark::Underline | Mark::StrikeThrough | Mark::Code
            | Mark::Subscript | Mark::Superscript => MarkValue::Flag,
            Mark::Color(c) => MarkValue::Text(c.clone()),
            Mark::Background(c) => MarkValue::Text(c.clone()),
            Mark::Link(u) => MarkValue::Text(u.clone()),
            Mark::Custom(_, json) => MarkValue::Text(json.clone()),
            Mark::Id(id) => MarkValue::Number(*id),
            Mark::NoMark => MarkValue::Null,
        };
        (key, value)
    }

    /// The name of the mark with its value and the text of its range.
    pub fn get_key_value(&self) -> (r: (String, MarkValue))
        ensures
            r.0@ == mark_key(self.data),
            r.1@ == mark_value(self.data, self.range, true),
    {
        self.key_value_with_range()
    }

    /// The name of the mark.
    pub fn get_key(&self) -> (r: String)
        ensures
            r@ == mark_key(self.data),
    {
        match &self.data {
            Mark::Bold => "bold".to_owned(),
            Mark::Italic => "italic".to_owned(),
            Mark::Underline => "underline".to_owned(),
            Mark::StrikeThrough => "strikethrough".to_owned(),
            Mark::Code => "code".to_owned(),
            Mark::Subscript => "subscript".to_owned(),
            Mark::Superscript => "superscript".to_owned(),
            Mark::Color(_) => "color".to_owned(),
            Mark::Background(_) => "background".to_owned(),
            Mark::Link(_) => "link".to_owned(),
            Mark::Custom(name, _) => name.clone(),
            Mark::Id(_) => "id".to_owned(),
            Mark::NoMark => "_".to_owned(),
        }
    }
}

/// A mark writes nothing of its own.
impl Encode for Mark {
    open spec fn encoding(&self) -> Seq<u8> {
        Seq::empty()
    }

    open spec fn encodable(&self) -> bool {
        true
    }

    fn encode<E: Encoder>(&self, e: &mut E, _cx: &mut EncodeContext) {
        assert(e.written() =~= old(e).written() + self.encoding());
    }
}

/// A mark over a range is written as its range followed by its mark.
impl Encode for MarkContent {
    open spec fn encoding(&self) -> Seq<u8> {
        self.range.encoding() + self.data.encoding()
    }

    open spec fn encodable(&self) -> bool {
        self.range.encodable()
    }

    fn encode<E: Encoder>(&self, e: &mut E, cx: &mut EncodeContext) {
        self.range.encode(e, cx);
        self.data.encode(e, cx);
        assert(e.written() =~= old(e).written() + self.encoding());
    }
}

/// The on or off marks: bold, italic, underline, strikethrough, code, subscript and
/// superscript.
pub open spec fn is_flag(m: Mark) -> bool {
    ||| m is Bold
    ||| m is Italic
    ||| m is Underline
    ||| m is StrikeThrough
    ||| m is Code
    ||| m is Subscript
    ||| m is Superscript
}

/// Flag law: every on or off mark is shown alike: as set, and with its range the text
/// `(client, start, end)` of the range; every other mark is shown the same with or without
/// its range.
pub proof fn lemma_flag_marks_alike(m: Mark, range: IdRange)
    ensures
        is_flag(m) ==> mark_value(m, range, false) == MarkValueView::Flag,
        is_flag(m) ==> mark_value(m, range, true) == MarkValueView::RangedFlag(
            seq!['('] + decimal(range.client) + seq![',', ' '] + decimal(range.start) + seq![
                ',',
                ' ',
            ] + decimal(range.end) + seq![')'],
        ),
        !is_flag(m) ==> mark_value(m, range, true) == mark_value(m, range, false),
{
}

} // verus!
