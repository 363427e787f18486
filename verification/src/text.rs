//! Reading bytes: spans of a text, white space, words and tokens.

use vstd::prelude::*;

verus! {

/// A stretch of a text: the bytes from `start` up to, not including, `end`.
#[derive(Debug, Copy, Clone, PartialEq, Eq)]
pub struct Span {
    pub start: usize,
    pub end: usize,
}

impl Span {
    /// Whether the span lies within a text.
    pub open spec fn within(self, text: Seq<u8>) -> bool {
        self.start <= self.end <= text.len()
    }

    /// The bytes of the span.
    pub open spec fn of(self, text: Seq<u8>) -> Seq<u8> {
        text.subrange(self.start as int, self.end as int)
    }

    /// Whether the span lies within another.
    pub open spec fn inside(self, outer: Span) -> bool {
        outer.start <= self.start <= self.end <= outer.end
    }
}

/// Whether a byte is white space: a blank, or one of the control bytes from
/// the tabulator to the carriage return.
pub open spec fn is_space(byte: u8) -> bool {
    byte == 32 || (9 <= byte <= 13)
}

/// The first place from `from` on, before `to`, that holds no white space;
/// `to` where there is none.
pub open spec fn skip_spaces(text: Seq<u8>, from: int, to: int) -> int
    decreases to - from,
{
    if from < to && is_space(text[from]) {
        skip_spaces(text, from + 1, to)
    } else {
        from
    }
}

/// The end of the text between `from` and `to` once the white space at its
/// end is taken off.
pub open spec fn drop_spaces(text: Seq<u8>, from: int, to: int) -> int
    decreases to - from,
{
    if from < to && is_space(text[to - 1]) {
        drop_spaces(text, from, to - 1)
    } else {
        to
    }
}

/// The first place from `from` on, before `to`, that holds `byte`; `to`
/// where there is none.
pub open spec fn find(text: Seq<u8>, byte: u8, from: int, to: int) -> int
    decreases to - from,
{
    if from < to && text[from] != byte {
        find(text, byte, from + 1, to)
    } else {
        from
    }
}

/// The first place from `from` on, before `to`, that holds white space; `to`
/// where there is none.
pub open spec fn word_end(text: Seq<u8>, from: int, to: int) -> int
    decreases to - from,
{
    if from < to && !is_space(text[from]) {
        word_end(text, from + 1, to)
    } else {
        from
    }
}

/// The span without the white space at its two ends.
pub open spec fn trim(text: Seq<u8>, span: Span) -> Span {
    let start = skip_spaces(text, span.start as int, span.end as int);
    Span { start: start as usize, end: drop_spaces(text, start, span.end as int) as usize }
}

/// Whether the span holds `byte`.
pub open spec fn has(text: Seq<u8>, byte: u8, span: Span) -> bool {
    find(text, byte, span.start as int, span.end as int) < span.end
}

/// Whether the text of the span begins with `word`.
pub open spec fn begins_with(text: Seq<u8>, span: Span, word: Seq<u8>) -> bool {
    &&& span.start + word.len() <= span.end
    &&& text.subrange(span.start as int, span.start + word.len()) == word
}

/// The tokens between `from` and `to`: the longest stretches without white
/// space, in their order.
pub open spec fn tokens(text: Seq<u8>, from: int, to: int) -> Seq<Span>
    decreases to - from,
{
    let start = skip_spaces(text, from, to);
    let end = word_end(text, start, to);
    if from <= start && start < end && end <= to {
        seq![Span { start: start as usize, end: end as usize }] + tokens(text, end, to)
    } else {
        Seq::empty()
    }
}

/// Whether a byte is white space.
pub fn is_whitespace(byte: u8) -> (space: bool)
    ensures
        space == is_space(byte),
{
    byte == 32 || (9 <= byte && byte <= 13)
}

/// The first place from `from` on, before `to`, that holds no white space.
pub fn skip_whitespace(text: &[u8], from: usize, to: usize) -> (at: usize)
    requires
        from <= to <= text.len(),
    ensures
        at == skip_spaces(text@, from as int, to as int),
        from <= at <= to,
{
    let mut at = from;
    while at < to && is_whitespace(text[at])
        invariant
            from <= at <= to <= text.len(),
            skip_spaces(text@, from as int, to as int) == skip_spaces(text@, at as int, to as int),
        decreases to - at,
    {
        at = at + 1;
    }
    at
}

/// The end of the text between `from` and `to` without the white space at
/// its end.
pub fn drop_whitespace(text: &[u8], from: usize, to: usize) -> (at: usize)
    requires
        from <= to <= text.len(),
    ensures
        at == drop_spaces(text@, from as int, to as int),
        from <= at <= to,
{
    let mut at = to;
    while from < at && is_whitespace(text[at - 1])
        invariant
            from <= at <= to <= text.len(),
            drop_spaces(text@, from as int, to as int) == drop_spaces(
                text@,
                from as int,
                at as int,
            ),
        decreases at - from,
    {
        at = at - 1;
    }
    at
}

/// The first place from `from` on, before `to`, that holds `byte`.
pub fn find_byte(text: &[u8], byte: u8, from: usize, to: usize) -> (at: usize)
    requires
        from <= to <= text.len(),
    ensures
        at == find(text@, byte, from as int, to as int),
        from <= at <= to,
{
    let mut at = from;
    while at < to && text[at] != byte
        invariant
            from <= at <= to <= text.len(),
            find(text@, byte, from as int, to as int) == find(text@, byte, at as int, to as int),
        decreases to - at,
    {
        at = at + 1;
    }
    at
}

/// The first place from `from` on, before `to`, that holds white space.
pub fn end_of_word(text: &[u8], from: usize, to: usize) -> (at: usize)
    requires
        from <= to <= text.len(),
    ensures
        at == word_end(text@, from as int, to as int),
        from <= at <= to,
{
    let mut at = from;
    while at < to && !is_whitespace(text[at])
        invariant
            from <= at <= to <= text.len(),
            word_end(text@, from as int, to as int) == word_end(text@, at as int, to as int),
        decreases to - at,
    {
        at = at + 1;
    }
    at
}

/// The span without the white space at its two ends.
pub fn trim_span(text: &[u8], span: Span) -> (trimmed: Span)
    requires
        span.within(text@),
    ensures
        trimmed == trim(text@, span),
        trimmed.inside(span),
{
    let start = skip_whitespace(text, span.start, span.end);
    let end = drop_whitespace(text, start, span.end);
    Span { start, end }
}

/// Whether the span holds `byte`.
pub fn contains_byte(text: &[u8], byte: u8, span: Span) -> (found: bool)
    requires
        span.within(text@),
    ensures
        found == has(text@, byte, span),
{
    find_byte(text, byte, span.start, span.end) < span.end
}

/// Whether the bytes of `text` from `from` on are those of `word`.
fn matches_at(text: &[u8], from: usize, word: &[u8]) -> (same: bool)
    requires
        from + word.len() <= text.len(),
    ensures
        same == (text@.subrange(from as int, from + word.len()) == word@),
{
    let mut i: usize = 0;
    while i < word.len()
        invariant
            i <= word.len(),
            from + word.len() <= text.len(),
            text@.subrange(from as int, from + i) == word@.take(i as int),
        decreases word.len() - i,
    {
        if text[from + i] != word[i] {
            proof {
                assert(text@.subrange(from as int, from + word.len())[i as int] != word@[i as int]);
            }
            return false;
        }
        proof {
            assert(text@.subrange(from as int, from + i + 1) =~= text@.subrange(
                from as int,
                from + i,
            ).push(text@[from + i]));
            assert(word@.take(i as int + 1) =~= word@.take(i as int).push(word@[i as int]));
        }
        i = i + 1;
    }
    proof {
        assert(word@.take(word.len() as int) =~= word@);
    }
    true
}

/// Whether the text of the span begins with `word`.
pub fn starts_with(text: &[u8], span: Span, word: &[u8]) -> (begins: bool)
    requires
        span.within(text@),
    ensures
        begins == begins_with(text@, span, word@),
{
    if word.len() > span.end - span.start {
        return false;
    }
    matches_at(text, span.start, word)
}

/// Whether the text of the span is `word`.
pub fn is_word(text: &[u8], span: Span, word: &[u8]) -> (same: bool)
    requires
        span.within(text@),
    ensures
        same == (span.of(text@) == word@),
{
    if word.len() != span.end - span.start {
        return false;
    }
    matches_at(text, span.start, word)
}

/// Whether two spans hold the same text.
pub fn same_text(text: &[u8], a: Span, b: Span) -> (same: bool)
    requires
        a.within(text@),
        b.within(text@),
    ensures
        same == (a.of(text@) == b.of(text@)),
{
    if a.end - a.start != b.end - b.start {
        proof {
            assert(a.of(text@).len() != b.of(text@).len());
        }
        return false;
    }
    let length = a.end - a.start;
    let mut i: usize = 0;
    while i < length
        invariant
            i <= length,
            length == a.end - a.start,
            length == b.end - b.start,
            a.within(text@),
            b.within(text@),
            a.of(text@).take(i as int) == b.of(text@).take(i as int),
        decreases length - i,
    {
        if text[a.start + i] != text[b.start + i] {
            proof {
                assert(a.of(text@)[i as int] != b.of(text@)[i as int]);
            }
            return false;
        }
        proof {
            assert(a.of(text@).take(i as int + 1) =~= a.of(text@).take(i as int).push(
                a.of(text@)[i as int],
            ));
            assert(b.of(text@).take(i as int + 1) =~= b.of(text@).take(i as int).push(
                b.of(text@)[i as int],
            ));
        }
        i = i + 1;
    }
    proof {
        assert(a.of(text@).take(length as int) =~= a.of(text@));
        assert(b.of(text@).take(length as int) =~= b.of(text@));
    }
    true
}

/// The tokens of a span.
pub fn split_tokens(text: &[u8], span: Span) -> (list: Vec<Span>)
    requires
        span.within(text@),
    ensures
        list@ == tokens(text@, span.start as int, span.end as int),
        forall|i: int|
            0 <= i < list.len() ==> (#[trigger] list[i]).inside(span) && list[i].start
                < list[i].end,
{
    let mut list: Vec<Span> = Vec::new();
    let mut at = span.start;
    loop
        invariant
            span.within(text@),
            span.start <= at <= span.end,
            list@ + tokens(text@, at as int, span.end as int) == tokens(
                text@,
                span.start as int,
                span.end as int,
            ),
            forall|i: int|
                0 <= i < list.len() ==> (#[trigger] list[i]).inside(span) && list[i].start
                    < list[i].end,
        ensures
            list@ == tokens(text@, span.start as int, span.end as int),
            forall|i: int|
                0 <= i < list.len() ==> (#[trigger] list[i]).inside(span) && list[i].start
                    < list[i].end,
        decreases span.end - at,
    {
        let start = skip_whitespace(text, at, span.end);
        let end = end_of_word(text, start, span.end);
        if start >= end {
            proof {
                assert(tokens(text@, at as int, span.end as int) =~= Seq::<Span>::empty());
                assert(list@ + Seq::<Span>::empty() =~= list@);
            }
            break;
        }
        proof {
            let rest = tokens(text@, end as int, span.end as int);
            assert(tokens(text@, at as int, span.end as int) == seq![Span { start, end }] + rest);
            assert(list@.push(Span { start, end }) + rest =~= list@ + (seq![Span { start, end }]
                + rest));
        }
        list.push(Span { start, end });
        at = end;
    }
    list
}

} // verus!
