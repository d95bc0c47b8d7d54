use vstd::prelude::*;
use vstd::string::{StringExecFns, StringSliceAdditionalSpecFns};

use crate::source::{Span, Spanned, TextMap};

use super::Element;

verus! {

/// The text of a translated program: each element on a line of its own.
pub open spec fn listing(elements: Seq<Spanned<Element>>) -> Seq<char>
    decreases elements.len(),
{
    if elements.len() == 0 {
        Seq::empty()
    } else {
        listing(elements.drop_last()) + elements.last().node.spec_text() + seq!['\n']
    }
}

/// The number of bytes of a text in UTF-8.
pub open spec fn byte_length(text: Seq<char>) -> nat {
    vstd::utf8::encode_utf8(text).len()
}

/// Maps positions in a translated program back to the source spans that its
/// lines came from.
#[derive(Debug)]
pub struct TranslationMap {
    ranges: Vec<(usize, Span)>,
    text_map: TextMap,
}

impl TranslationMap {
    /// For each line, the byte offset at which it ends and the span it came from.
    pub closed spec fn spec_ranges(&self) -> Seq<(usize, Span)> {
        self.ranges@
    }

    pub closed spec fn spec_text_map(&self) -> TextMap {
        self.text_map
    }

    /// The span of the first line that ends at or beyond a byte offset.
    pub open spec fn spec_highest_span(&self, index: usize) -> Span {
        let i = choose|i: int| 0 <= i < self.spec_ranges().len() && self.spec_ranges()[i].0 >= index
            && forall|j: int| 0 <= j < i ==> self.spec_ranges()[j].0 < index;
        self.spec_ranges()[i].1
    }

    /// Whether some line ends at or beyond a byte offset.
    pub open spec fn covers(&self, index: usize) -> bool {
        exists|i: int| 0 <= i < self.spec_ranges().len() && #[trigger] self.spec_ranges()[i].0 >= index
    }

    /// Writes the elements one to a line and records where each line ends.
    pub fn new(elements: Vec<Spanned<Element>>) -> (map: TranslationMap)
        ensures
            map.spec_text_map().spec_text() == listing(elements@),
            map.spec_ranges().len() == elements@.len(),
            forall|i: int| 0 <= i < elements@.len() ==> #[trigger] map.spec_ranges()[i] == (
                byte_length(listing(elements@.subrange(0, i + 1))) as usize,
                elements@[i].span,
            ),
    {
        let mut ranges: Vec<(usize, Span)> = Vec::new();
        let mut text = String::new();
        let mut index: usize = 0;
        while index < elements.len()
            invariant
                index <= elements@.len(),
                text@ == listing(elements@.subrange(0, index as int)),
                ranges@.len() == index,
                forall|i: int| 0 <= i < index ==> #[trigger] ranges@[i] == (
                    byte_length(listing(elements@.subrange(0, i + 1))) as usize,
                    elements@[i].span,
                ),
            decreases elements@.len() - index,
        {
            let line = elements[index].node.text();
            text.append(line.as_str());
            proof {
                reveal_strlit("\n");
            }
            text.append("\n");
            assert(elements@.subrange(0, index + 1).drop_last() =~= elements@.subrange(0, index as int));
            assert(text@ =~= listing(elements@.subrange(0, index + 1)));
            ranges.push((text.as_str().len(), elements[index].span));
            index += 1;
        }
        assert(elements@.subrange(0, elements@.len() as int) =~= elements@);
        TranslationMap { ranges, text_map: TextMap::new(text) }
    }

    pub fn text_map(&self) -> (text_map: &TextMap)
        ensures
            *text_map == self.spec_text_map(),
    {
        &self.text_map
    }

    /// Replaces the span of an element of the translated program with the
    /// source span it came from.
    pub fn translate<T>(&self, element: &mut Spanned<T>)
        requires
            self.covers(old(element).span.byte_start),
            self.covers(old(element).span.byte_end),
        ensures
            final(element).node == old(element).node,
            final(element).span == self.spec_translate_span(old(element).span),
    {
        element.span = self.translate_span(element.span);
    }

    /// The source span of a span of the translated program: from the start of
    /// the span of the line holding its start to the end of the span of the
    /// line holding its end.
    pub open spec fn spec_translate_span(&self, span: Span) -> Span {
        Span {
            byte_start: self.spec_highest_span(span.byte_start).byte_start,
            byte_end: self.spec_highest_span(span.byte_end).byte_end,
        }
    }

    pub fn translate_span(&self, span: Span) -> (translated: Span)
        requires
            self.covers(span.byte_start),
            self.covers(span.byte_end),
        ensures
            translated == self.spec_translate_span(span),
    {
        let lowest = self.highest_span(span.byte_start);
        let highest = self.highest_span(span.byte_end);
        Span::new(lowest.byte_start, highest.byte_end)
    }

    /// Finds the span of the first line that ends at or beyond a byte offset.
    pub fn highest_span(&self, index: usize) -> (span: Span)
        requires
            self.covers(index),
        ensures
            span == self.spec_highest_span(index),
    {
        let mut position: usize = 0;
        while position < self.ranges.len()
            invariant
                position <= self.ranges@.len(),
                forall|j: int| 0 <= j < position ==> self.ranges@[j].0 < index,
                self.covers(index),
            decreases self.ranges@.len() - position,
        {
            if self.ranges[position].0 >= index {
                proof {
                    let i = choose|i: int| 0 <= i < self.spec_ranges().len() && self.spec_ranges()[i].0 >= index
                        && forall|j: int| 0 <= j < i ==> self.spec_ranges()[j].0 < index;
                    if i < position {
                    } else if i > position {
                        assert(self.spec_ranges()[position as int].0 >= index);
                    }
                }
                return self.ranges[position].1;
            }
            position += 1;
        }
        proof {
            let i = choose|i: int| 0 <= i < self.spec_ranges().len() && #[trigger] self.spec_ranges()[i].0 >= index;
            assert(self.ranges@[i].0 < index);
        }
        self.ranges[0].1
    }
}

} // verus!
