//! Byte-indexed cursor movement over text, and the text click event.

use vstd::prelude::*;
use vstd::utf8::{decode_utf8, encode_utf8, is_char_boundary};
use vstd::string::StringSliceAdditionalSpecFns;
use unicode_segmentation::UnicodeSegmentation;

verus! {

/// Click event reporting the byte range of the clicked grapheme.
pub struct TextClickEvent {
    /// Start byte index of the clicked grapheme in the underlying text.
    pub start_index: usize,
    /// End byte index of the clicked grapheme in the underlying text.
    pub end_index: usize,
}

/// The first extended grapheme cluster of a non-empty text, as the segmentation library
/// reports it.
pub uninterp spec fn first_grapheme(s: Seq<char>) -> Seq<char>;

/// The last extended grapheme cluster of a non-empty text, as the segmentation library
/// reports it.
pub uninterp spec fn last_grapheme(s: Seq<char>) -> Seq<char>;

/// The first extended grapheme cluster of `s`, from `UnicodeSegmentation::graphemes(s, true)`
/// and `Iterator::next`: `None` exactly for the empty text; otherwise a non-empty prefix of
/// `s`, the library's cluster. Which prefix it is follows Unicode's segmentation rules and is
/// not stated beyond its name.
#[verifier::external_body]
fn grapheme_first(s: &str) -> (r: Option<&str>)
    ensures
        r is None <==> s@.len() == 0,
        r matches Some(g) ==> {
            &&& g@ == first_grapheme(s@)
            &&& 0 < g@.len() <= s@.len()
            &&& g@ == s@.subrange(0, g@.len() as int)
        },
{
    s.graphemes(true).next()
}

/// The last extended grapheme cluster of `s`, from `UnicodeSegmentation::graphemes(s, true)`
/// and `DoubleEndedIterator::next_back`: `None` exactly for the empty text; otherwise a
/// non-empty suffix of `s`, the library's cluster. Which suffix it is follows Unicode's
/// segmentation rules and is not stated beyond its name.
#[verifier::external_body]
fn grapheme_last(s: &str) -> (r: Option<&str>)
    ensures
        r is None <==> s@.len() == 0,
        r matches Some(g) ==> {
            &&& g@ == last_grapheme(s@)
            &&& 0 < g@.len() <= s@.len()
            &&& g@ == s@.subrange(s@.len() - g@.len(), s@.len() as int)
        },
{
    s.graphemes(true).next_back()
}

/// The encoding of two texts one after the other is the encodings one after the other.
pub proof fn lemma_encode_concat(a: Seq<char>, b: Seq<char>)
    ensures
        encode_utf8(a + b) == encode_utf8(a) + encode_utf8(b),
    decreases a.len(),
{
    if a.len() == 0 {
        assert(a + b =~= b);
        assert(encode_utf8(a) =~= Seq::<u8>::empty());
        assert(encode_utf8(a) + encode_utf8(b) =~= encode_utf8(b));
    } else {
        lemma_encode_concat(a.drop_first(), b);
        assert((a + b).drop_first() =~= a.drop_first() + b);
        assert((a + b)[0] == a[0]);
        assert(encode_scalar_seq(a[0]) + (encode_utf8(a.drop_first()) + encode_utf8(b)) =~= (
        encode_scalar_seq(a[0]) + encode_utf8(a.drop_first())) + encode_utf8(b));
    }
}

/// The encoding of a single character.
pub open spec fn encode_scalar_seq(c: char) -> Seq<u8> {
    vstd::utf8::encode_scalar(c as u32)
}

/// The characters of `text` from byte `index` on.
pub open spec fn chars_from(text: &str, index: int) -> Seq<char> {
    decode_utf8(text.spec_bytes().subrange(index, text.spec_bytes().len() as int))
}

/// The characters of `text` before byte `index`.
pub open spec fn chars_before(text: &str, index: int) -> Seq<char> {
    decode_utf8(text.spec_bytes().subrange(0, index))
}

/// The position just after the last newline byte before `index`, or zero when there is none.
pub open spec fn line_start_before(bytes: Seq<u8>, index: int) -> int
    decreases index,
{
    if index <= 0 {
        0
    } else if bytes[index - 1] == 10 {
        index
    } else {
        line_start_before(bytes, index - 1)
    }
}

/// The position of the first newline byte at or after `index`, or the end of the text.
pub open spec fn newline_from(bytes: Seq<u8>, index: int) -> int
    decreases bytes.len() - index,
{
    if index >= bytes.len() || index < 0 {
        bytes.len() as int
    } else if bytes[index] == 10 {
        index
    } else {
        newline_from(bytes, index + 1)
    }
}

/// Whether `needle` occurs in `bytes` at position `at`.
pub open spec fn occurs_at(bytes: Seq<u8>, needle: Seq<u8>, at: int) -> bool {
    0 <= at && at + needle.len() <= bytes.len() && bytes.subrange(at, at + needle.len()) == needle
}

/// The first position at or after `from` where `needle` occurs and ends by `end`, if any.
pub open spec fn find_from(bytes: Seq<u8>, needle: Seq<u8>, from: int, end: int) -> Option<int>
    decreases end + 1 - from,
{
    if from < 0 || from + needle.len() > end {
        None
    } else if occurs_at(bytes, needle, from) {
        Some(from)
    } else {
        find_from(bytes, needle, from + 1, end)
    }
}

/// The last position at or before `at` where `needle` occurs and ends by `end`, if any.
pub open spec fn rfind_upto(bytes: Seq<u8>, needle: Seq<u8>, at: int, end: int) -> Option<int>
    decreases at + 1,
{
    if at < 0 {
        None
    } else if at + needle.len() <= end && occurs_at(bytes, needle, at) {
        Some(at)
    } else {
        rfind_upto(bytes, needle, at - 1, end)
    }
}

/// The nearest character boundary strictly before `index`, or zero.
pub open spec fn prev_boundary(bytes: Seq<u8>, index: int) -> int
    decreases index,
{
    if index <= 1 {
        0
    } else if is_char_boundary(bytes, index - 1) {
        index - 1
    } else {
        prev_boundary(bytes, index - 1)
    }
}

/// The start of the line before the one holding `index`: zero on the first line.
pub open spec fn prev_line_start_of(bytes: Seq<u8>, index: int) -> int {
    let ls = line_start_before(bytes, index);
    if ls == 0 {
        0
    } else {
        line_start_before(bytes, ls - 1)
    }
}

/// `pos` moved down to the nearest character boundary, when it lies within the text.
pub open spec fn snap_to_boundary(bytes: Seq<u8>, pos: int) -> int
    decreases pos,
{
    if pos > 0 && pos <= bytes.len() && !is_char_boundary(bytes, pos) {
        snap_to_boundary(bytes, pos - 1)
    } else {
        pos
    }
}

/// Byte-indexed cursor into a text.
#[derive(Clone, Copy, Debug, PartialEq, Eq, PartialOrd, Ord)]
pub struct TextCursor {
    /// The byte index.
    pub index: usize,
}

impl TextCursor {
    /// Creates a cursor at byte `index`.
    pub fn new(index: usize) -> (r: TextCursor)
        ensures
            r.index == index,
    {
        TextCursor { index }
    }

    /// Returns the byte index.
    pub fn get_index(&self) -> (r: usize)
        ensures
            r == self.index,
    {
        self.index
    }

    /// Moves to `pos`, stepping back to the nearest character boundary when `pos` lies inside
    /// the text.
    pub fn set_index(&mut self, text: &str, pos: usize)
        ensures
            final(self).index == snap_to_boundary(text.spec_bytes(), pos as int),
    {
        self.index = pos;
        let len = text.as_bytes().len();
        while self.index > 0 && self.index <= len && !text.is_char_boundary(self.index)
            invariant
                len == text.spec_bytes().len(),
                snap_to_boundary(text.spec_bytes(), self.index as int) == snap_to_boundary(
                    text.spec_bytes(),
                    pos as int,
                ),
            decreases self.index,
        {
            self.index -= 1;
        }
    }

    /// Moves to the start of the text.
    pub fn document_start(&mut self)
        ensures
            final(self).index == 0,
    {
        self.index = 0;
    }

    /// Moves to the end of the text.
    pub fn document_end(&mut self, text: &str)
        ensures
            final(self).index == text.spec_bytes().len(),
    {
        self.index = text.as_bytes().len();
    }

    /// Moves past the grapheme cluster after the cursor, if any.
    pub fn next_grapheme(&mut self, text: &str)
        requires
            old(self).index <= text.spec_bytes().len(),
            is_char_boundary(text.spec_bytes(), old(self).index as int),
        ensures
            chars_from(text, old(self).index as int).len() == 0 ==> final(self).index == old(
                self,
            ).index,
            chars_from(text, old(self).index as int).len() > 0 ==> final(self).index == old(
                self,
            ).index + encode_utf8(first_grapheme(chars_from(text, old(self).index as int))).len(),
            final(self).index <= text.spec_bytes().len(),
    {
        let total = text.as_bytes().len();
        let (_, rest) = text.split_at(self.index);
        proof {
            vstd::utf8::encode_utf8_decode_utf8(rest@);
            assert(rest@ == chars_from(text, self.index as int));
            assert(rest.spec_bytes().len() == total - self.index);
        }
        if let Some(g) = grapheme_first(rest) {
            proof {
                let k = g@.len() as int;
                assert(rest@ =~= g@ + rest@.subrange(k, rest@.len() as int));
                lemma_encode_concat(g@, rest@.subrange(k, rest@.len() as int));
                assert(g.spec_bytes().len() <= total - self.index);
            }
            self.step_over(g);
        }
    }

    /// Moves past `cluster`, the grapheme cluster that starts at the cursor.
    pub fn step_over(&mut self, cluster: &str)
        requires
            old(self).index + cluster.spec_bytes().len() <= usize::MAX,
        ensures
            final(self).index == old(self).index + cluster.spec_bytes().len(),
    {
        self.index = self.index + cluster.len();
    }

    /// Moves back over `cluster`, the grapheme cluster that ends at the cursor.
    pub fn step_back(&mut self, cluster: &str)
        requires
            cluster.spec_bytes().len() <= old(self).index,
        ensures
            final(self).index == old(self).index - cluster.spec_bytes().len(),
    {
        self.index = self.index - cluster.len();
    }

    /// Moves back over the grapheme cluster before the cursor, if any.
    pub fn prev_grapheme(&mut self, text: &str)
        requires
            old(self).index <= text.spec_bytes().len(),
            is_char_boundary(text.spec_bytes(), old(self).index as int),
        ensures
            chars_before(text, old(self).index as int).len() == 0 ==> final(self).index == old(
                self,
            ).index,
            chars_before(text, old(self).index as int).len() > 0 ==> final(self).index + encode_utf8(
                last_grapheme(chars_before(text, old(self).index as int)),
            ).len() == old(self).index,
    {
        let (head, _) = text.split_at(self.index);
        proof {
            vstd::utf8::encode_utf8_decode_utf8(head@);
            assert(head@ == chars_before(text, self.index as int));
        }
        if let Some(g) = grapheme_last(head) {
            proof {
                let k = head@.len() - g@.len();
                assert(head@ =~= head@.subrange(0, k) + g@);
                lemma_encode_concat(head@.subrange(0, k), g@);
            }
            self.step_back(g);
        }
    }

    /// Moves past the character after the cursor, if any.
    pub fn next_char(&mut self, text: &str)
        requires
            old(self).index <= text.spec_bytes().len(),
            is_char_boundary(text.spec_bytes(), old(self).index as int),
        ensures
            chars_from(text, old(self).index as int).len() == 0 ==> final(self).index == old(
                self,
            ).index,
            chars_from(text, old(self).index as int).len() > 0 ==> final(self).index == old(
                self,
            ).index + encode_scalar_seq(chars_from(text, old(self).index as int)[0]).len(),
            final(self).index <= text.spec_bytes().len(),
    {
        let total = text.as_bytes().len();
        let (_, rest) = text.split_at(self.index);
        proof {
            vstd::utf8::encode_utf8_decode_utf8(rest@);
            assert(rest@ == chars_from(text, self.index as int));
            assert(rest.spec_bytes().len() == total - self.index);
        }
        let bytes = rest.as_bytes();
        if bytes.len() > 0 {
            proof {
                assert(rest@.len() > 0);
                let c = rest@[0];
                assert(encode_utf8(rest@) == encode_scalar_seq(c) + encode_utf8(rest@.drop_first()));
            }
            let w = char_width(rest);
            self.index = self.index + w;
        }
    }
    /// Moves back over the character before the cursor, if any, to the previous character
    /// boundary.
    pub fn prev_char(&mut self, text: &str)
        requires
            old(self).index <= text.spec_bytes().len(),
            is_char_boundary(text.spec_bytes(), old(self).index as int),
        ensures
            final(self).index == prev_boundary(text.spec_bytes(), old(self).index as int),
    {
        if self.index > 0 {
            let mut i = self.index - 1;
            proof {
                vstd::utf8::encode_utf8_valid_utf8(text@);
                vstd::utf8::is_char_boundary_start_end_of_seq(text.spec_bytes());
            }
            while i > 0 && !text.is_char_boundary(i)
                invariant
                    i < self.index <= text.spec_bytes().len(),
                    prev_boundary(text.spec_bytes(), i as int + 1) == prev_boundary(
                        text.spec_bytes(),
                        self.index as int,
                    ),
                decreases i,
            {
                i = i - 1;
            }
            self.index = i;
        }
    }

    /// Returns the character at the cursor, or `'\0'` at or past the end of the text.
    pub fn get_char(&self, text: &str) -> (r: char)
        requires
            self.index >= text.spec_bytes().len() || is_char_boundary(
                text.spec_bytes(),
                self.index as int,
            ),
        ensures
            self.index >= text.spec_bytes().len() ==> r == '\0',
            self.index < text.spec_bytes().len() ==> r == chars_from(text, self.index as int)[0],
    {
        let total = text.as_bytes().len();
        if self.index >= total {
            return '\0';
        }
        let (_, rest) = text.split_at(self.index);
        proof {
            vstd::utf8::encode_utf8_decode_utf8(rest@);
            assert(rest@ == chars_from(text, self.index as int));
            assert(rest.spec_bytes().len() > 0);
        }
        let mut it = rest.chars();
        proof {
            broadcast use vstd::string::axiom_spec_iter;
        }
        let next = it.next();
        proof {
            broadcast use vstd::string::next_postcondition;
        }
        match next {
            Some(c) => c,
            None => '\0',
        }
    }

    /// Moves to the start of the line holding the cursor.
    pub fn line_start(&mut self, text: &str)
        requires
            old(self).index <= text.spec_bytes().len(),
        ensures
            final(self).index == line_start_before(text.spec_bytes(), old(self).index as int),
    {
        if self.index > 0 {
            self.index = line_start_at(text.as_bytes(), self.index);
        }
    }

    /// Moves to the newline that ends the cursor's line, or to the end of the text.
    pub fn line_end(&mut self, text: &str)
        requires
            old(self).index <= text.spec_bytes().len(),
        ensures
            final(self).index == newline_from(text.spec_bytes(), old(self).index as int),
    {
        let bytes = text.as_bytes();
        match find_newline(bytes, self.index) {
            Some(p) => self.index = p,
            None => self.index = bytes.len(),
        }
    }

    /// Moves past the newline that ends the cursor's line; on the last line, to one past the
    /// end of the text.
    pub fn linewise_end(&mut self, text: &str)
        requires
            old(self).index <= text.spec_bytes().len() < usize::MAX,
        ensures
            final(self).index == newline_from(text.spec_bytes(), old(self).index as int) + 1,
    {
        let bytes = text.as_bytes();
        match find_newline(bytes, self.index) {
            Some(p) => self.index = p + 1,
            None => self.index = bytes.len() + 1,
        }
    }

    /// Moves to the start of the next line, or to the end of the text on the last line.
    pub fn next_line_start(&mut self, text: &str)
        requires
            old(self).index <= text.spec_bytes().len(),
        ensures
            newline_from(text.spec_bytes(), old(self).index as int) < text.spec_bytes().len()
                ==> final(self).index == newline_from(text.spec_bytes(), old(self).index as int)
                + 1,
            newline_from(text.spec_bytes(), old(self).index as int) == text.spec_bytes().len()
                ==> final(self).index == text.spec_bytes().len(),
    {
        let bytes = text.as_bytes();
        let total = bytes.len();
        match find_newline(bytes, self.index) {
            Some(p) => self.index = p + 1,
            None => self.index = total,
        }
    }

    /// Moves to the start of the previous line, or to the start of the text on the first line.
    pub fn prev_line_start(&mut self, text: &str)
        requires
            old(self).index <= text.spec_bytes().len(),
        ensures
            final(self).index == prev_line_start_of(text.spec_bytes(), old(self).index as int),
    {
        if self.index > 0 {
            let bytes = text.as_bytes();
            let ls = line_start_at(bytes, self.index);
            if ls == 0 {
                self.index = 0;
            } else {
                self.index = line_start_at(bytes, ls - 1);
            }
        }
    }

    /// Moves to the next occurrence of `ch` at or after the cursor, if any.
    pub fn find_char_forward(&mut self, text: &str, ch: char)
        requires
            old(self).index <= text.spec_bytes().len(),
        ensures
            final(self).index == (match find_from(
                text.spec_bytes(),
                encode_scalar_seq(ch),
                old(self).index as int,
                text.spec_bytes().len() as int,
            ) {
                Some(p) => p,
                None => old(self).index as int,
            }),
    {
        let needle = char_bytes(ch);
        let bytes = text.as_bytes();
        if let Some(p) = find_bytes(bytes, needle.as_slice(), self.index, bytes.len()) {
            self.index = p;
        }
    }

    /// Moves to the last occurrence of `ch` that ends before the cursor, if any.
    pub fn find_char_backward(&mut self, text: &str, ch: char)
        requires
            old(self).index <= text.spec_bytes().len(),
        ensures
            final(self).index == (match rfind_upto(
                text.spec_bytes(),
                encode_scalar_seq(ch),
                old(self).index as int,
                old(self).index as int,
            ) {
                Some(p) => p,
                None => old(self).index as int,
            }),
    {
        let needle = char_bytes(ch);
        let bytes = text.as_bytes();
        if let Some(p) = rfind_bytes(bytes, needle.as_slice(), self.index, self.index) {
            self.index = p;
        }
    }

    /// Moves to the next occurrence of `needle` at or after the cursor, if any.
    pub fn find_str_forward(&mut self, text: &str, needle: &str)
        requires
            old(self).index <= text.spec_bytes().len(),
        ensures
            final(self).index == (match find_from(
                text.spec_bytes(),
                needle.spec_bytes(),
                old(self).index as int,
                text.spec_bytes().len() as int,
            ) {
                Some(p) => p,
                None => old(self).index as int,
            }),
    {
        let bytes = text.as_bytes();
        if let Some(p) = find_bytes(bytes, needle.as_bytes(), self.index, bytes.len()) {
            self.index = p;
        }
    }

    /// Moves to the last occurrence of `needle` that ends by the cursor, if any.
    pub fn find_str_backward(&mut self, text: &str, needle: &str)
        requires
            old(self).index <= text.spec_bytes().len(),
        ensures
            final(self).index == (match rfind_upto(
                text.spec_bytes(),
                needle.spec_bytes(),
                old(self).index as int,
                old(self).index as int,
            ) {
                Some(p) => p,
                None => old(self).index as int,
            }),
    {
        let bytes = text.as_bytes();
        if let Some(p) = rfind_bytes(bytes, needle.as_bytes(), self.index, self.index) {
            self.index = p;
        }
    }

    /// Returns whether the text at the cursor starts with `needle`.
    pub fn matches(&self, text: &str, needle: &str) -> (r: bool)
        requires
            self.index <= text.spec_bytes().len(),
        ensures
            r == occurs_at(text.spec_bytes(), needle.spec_bytes(), self.index as int),
    {
        let bytes = text.as_bytes();
        let nb = needle.as_bytes();
        if nb.len() <= bytes.len() - self.index {
            occurs_at_exec(bytes, nb, self.index)
        } else {
            false
        }
    }
}

/// The byte length of the first character of a non-empty text.
fn char_width(s: &str) -> (r: usize)
    requires
        s@.len() > 0,
    ensures
        r == encode_scalar_seq(s@[0]).len(),
{
    let b = s.as_bytes();
    proof {
        assert(encode_utf8(s@) == encode_scalar_seq(s@[0]) + encode_utf8(s@.drop_first()));
        assert(b@[0] == encode_scalar_seq(s@[0])[0]);
        vstd::utf8::char_is_scalar(s@[0]);
        lemma_lead_byte_width(s@[0] as u32);
    }
    let lead = b[0];
    if lead < 0x80 {
        1
    } else if lead < 0xE0 {
        2
    } else if lead < 0xF0 {
        3
    } else {
        4
    }
}

proof fn lemma_lead_byte_width(c: u32)
    requires
        vstd::utf8::is_scalar(c),
    ensures
        ({
            let e = vstd::utf8::encode_scalar(c);
            let lead = e[0];
            &&& lead < 0x80 ==> e.len() == 1
            &&& 0x80 <= lead < 0xE0 ==> e.len() == 2
            &&& 0xE0 <= lead < 0xF0 ==> e.len() == 3
            &&& 0xF0 <= lead ==> e.len() == 4
        }),
{
    if vstd::utf8::has_width_1_encoding(c) {
        assert(((c & 0x7Fu32) as u8) < 0x80u8) by (bit_vector);
    } else if vstd::utf8::has_width_2_encoding(c) {
        assert(0xC0u8 <= (0xC0u8 | ((c >> 6u32) & 0x1Fu32) as u8) && (0xC0u8 | ((c >> 6u32)
            & 0x1Fu32) as u8) < 0xE0u8) by (bit_vector);
    } else if vstd::utf8::has_width_3_encoding(c) {
        assert(0xE0u8 <= (0xE0u8 | ((c >> 12u32) & 0x0Fu32) as u8) && (0xE0u8 | ((c >> 12u32)
            & 0x0Fu32) as u8) < 0xF0u8) by (bit_vector);
    } else {
        assert(0xF0u8 <= (0xF0u8 | ((c >> 18u32) & 0x7u32) as u8)) by (bit_vector);
    }
}

/// The first newline at or after `from`, if any.
fn find_newline(bytes: &[u8], from: usize) -> (r: Option<usize>)
    requires
        from <= bytes@.len(),
    ensures
        r matches Some(p) ==> p == newline_from(bytes@, from as int) && p < bytes@.len(),
        r is None ==> newline_from(bytes@, from as int) == bytes@.len(),
{
    let mut i = from;
    while i < bytes.len()
        invariant
            from <= i <= bytes@.len(),
            newline_from(bytes@, i as int) == newline_from(bytes@, from as int),
        decreases bytes@.len() - i,
    {
        if bytes[i] == 10 {
            return Some(i);
        }
        i = i + 1;
    }
    None
}

/// The position just after the last newline before `index`, or zero.
fn line_start_at(bytes: &[u8], index: usize) -> (r: usize)
    requires
        index <= bytes@.len(),
    ensures
        r == line_start_before(bytes@, index as int),
        r <= index,
{
    let mut i = index;
    while i > 0 && bytes[i - 1] != 10
        invariant
            i <= index <= bytes@.len(),
            line_start_before(bytes@, i as int) == line_start_before(bytes@, index as int),
        decreases i,
    {
        i = i - 1;
    }
    i
}

/// Whether `needle` occurs in `hay` at byte `at`.
fn occurs_at_exec(hay: &[u8], needle: &[u8], at: usize) -> (r: bool)
    requires
        at + needle@.len() <= hay@.len(),
    ensures
        r == occurs_at(hay@, needle@, at as int),
{
    let n = needle.len();
    let hl = hay.len();
    let mut j: usize = 0;
    while j < n
        invariant
            j <= n == needle@.len(),
            hl == hay@.len(),
            at + n <= hay@.len(),
            forall|k: int| 0 <= k < j ==> hay@[at + k] == needle@[k],
        decreases n - j,
    {
        if hay[at + j] != needle[j] {
            assert(hay@.subrange(at as int, at + n)[j as int] != needle@[j as int]);
            return false;
        }
        j = j + 1;
    }
    assert(hay@.subrange(at as int, at + n) =~= needle@);
    true
}

/// The first occurrence of `needle` in `hay` at or after `from` that ends by `end`.
fn find_bytes(hay: &[u8], needle: &[u8], from: usize, end: usize) -> (r: Option<usize>)
    requires
        from <= end <= hay@.len(),
    ensures
        r matches Some(p) ==> find_from(hay@, needle@, from as int, end as int) == Some(p as int),
        r is None ==> find_from(hay@, needle@, from as int, end as int) is None,
{
    let n = needle.len();
    let mut i = from;
    while i <= end && n <= end - i
        invariant
            from <= i,
            end <= hay@.len(),
            n == needle@.len(),
            find_from(hay@, needle@, i as int, end as int) == find_from(
                hay@,
                needle@,
                from as int,
                end as int,
            ),
        decreases end + 1 - i,
    {
        if occurs_at_exec(hay, needle, i) {
            return Some(i);
        }
        if i == end {
            assert(find_from(hay@, needle@, i + 1, end as int) is None);
            return None;
        }
        i = i + 1;
    }
    None
}

/// The last occurrence of `needle` in `hay` at or before `at` that ends by `end`.
fn rfind_bytes(hay: &[u8], needle: &[u8], at: usize, end: usize) -> (r: Option<usize>)
    requires
        end <= hay@.len(),
    ensures
        r matches Some(p) ==> rfind_upto(hay@, needle@, at as int, end as int) == Some(p as int),
        r is None ==> rfind_upto(hay@, needle@, at as int, end as int) is None,
{
    let n = needle.len();
    let mut b = at;
    loop
        invariant
            b <= at,
            end <= hay@.len(),
            n == needle@.len(),
            rfind_upto(hay@, needle@, b as int, end as int) == rfind_upto(
                hay@,
                needle@,
                at as int,
                end as int,
            ),
        decreases b,
    {
        if b <= end && n <= end - b && occurs_at_exec(hay, needle, b) {
            return Some(b);
        }
        if b == 0 {
            assert(rfind_upto(hay@, needle@, -1, end as int) is None);
            return None;
        }
        b = b - 1;
    }
}

/// The UTF-8 encoding of `c`.
fn char_bytes(c: char) -> (r: Vec<u8>)
    ensures
        r@ == encode_scalar_seq(c),
{
    let v = c as u32;
    proof {
        vstd::utf8::char_is_scalar(c);
    }
    if v <= 0x7F {
        vec![(v & 0x7F) as u8]
    } else if v <= 0x7FF {
        vec![0xC0 | ((v >> 6) & 0x1F) as u8, 0x80 | (v & 0x3F) as u8]
    } else if v <= 0xFFFF {
        vec![
            0xE0 | ((v >> 12) & 0x0F) as u8,
            0x80 | ((v >> 6) & 0x3F) as u8,
            0x80 | (v & 0x3F) as u8,
        ]
    } else {
        vec![
            0xF0 | ((v >> 18) & 0x7) as u8,
            0x80 | ((v >> 12) & 0x3F) as u8,
            0x80 | ((v >> 6) & 0x3F) as u8,
            0x80 | (v & 0x3F) as u8,
        ]
    }
}

} // verus!
