//! Reading fields out of text: runs of bytes set apart by white space,
//! and the whole numbers that they spell. The text is taken as bytes in
//! UTF-8.

use vstd::prelude::*;

verus! {

/// Where a field stands in the text: from the byte `start` up to, and
/// not including, the byte `end`.
#[derive(Clone, Copy, Debug, PartialEq, Eq, Structural)]
pub struct Span {
    pub start: usize,
    pub end: usize,
}

/// Blank, tab, line feed, vertical tab, form feed and carriage return:
/// the white space that takes up one byte.
pub open spec fn is_space(b: u8) -> bool {
    b == 32 || (9 <= b && b <= 13)
}

/// The white space that takes up three bytes: the Ogham space mark, the
/// spaces of fixed width from the en quad to the hair space, the line
/// and the paragraph separator, the narrow no-break space, the medium
/// mathematical space and the ideographic space.
pub open spec fn is_wide_space(a: u8, b: u8, c: u8) -> bool {
    ||| a == 0xE1 && b == 0x9A && c == 0x80
    ||| a == 0xE2 && b == 0x80 && ((0x80 <= c && c <= 0x8A) || c == 0xA8 || c == 0xA9 || c == 0xAF)
    ||| a == 0xE2 && b == 0x81 && c == 0x9F
    ||| a == 0xE3 && b == 0x80 && c == 0x80
}

/// How many bytes the white-space character takes up that begins at
/// `at`; zero where none begins. Fields are set apart by the characters
/// that count as white space in Unicode. Those of two bytes are the next
/// line mark and the no-break space.
pub open spec fn space_len(text: Seq<u8>, at: int) -> int {
    if !(0 <= at < text.len()) {
        0
    } else if is_space(text[at]) {
        1
    } else if at + 1 < text.len() && text[at] == 0xC2 && (text[at + 1] == 0x85 || text[at + 1]
        == 0xA0) {
        2
    } else if at + 2 < text.len() && is_wide_space(text[at], text[at + 1], text[at + 2]) {
        3
    } else {
        0
    }
}

pub open spec fn is_digit(b: u8) -> bool {
    48 <= b && b <= 57
}

/// The first place at or after `from` where no white space begins, with
/// nothing but white space before it; the length of the text if there
/// is none.
pub open spec fn skip_spaces(text: Seq<u8>, from: int) -> int
    decreases text.len() - from,
{
    if space_len(text, from) > 0 {
        skip_spaces(text, from + space_len(text, from))
    } else {
        from
    }
}

/// The first place at or after `from` where white space begins; the
/// length of the text if there is none.
pub open spec fn skip_word(text: Seq<u8>, from: int) -> int
    decreases text.len() - from,
{
    if 0 <= from < text.len() && space_len(text, from) == 0 {
        skip_word(text, from + 1)
    } else {
        from
    }
}

/// The first field that begins at or after `from`, if there is one.
pub open spec fn next_span(text: Seq<u8>, from: int) -> Option<Span> {
    let start = skip_spaces(text, from);
    if start < text.len() {
        Some(Span { start: start as usize, end: skip_word(text, start) as usize })
    } else {
        None
    }
}

/// The place where the first `k` fields of the text end.
pub open spec fn after_fields(text: Seq<u8>, k: nat) -> int
    decreases k,
{
    if k == 0 {
        0
    } else {
        match next_span(text, after_fields(text, (k - 1) as nat)) {
            Some(span) => span.end as int,
            None => text.len() as int,
        }
    }
}

/// The field of number `k`, counted from zero, if the text has that many.
pub open spec fn field(text: Seq<u8>, k: nat) -> Option<Span> {
    next_span(text, after_fields(text, k))
}

/// The bytes of a field.
pub open spec fn span_bytes(text: Seq<u8>, span: Span) -> Seq<u8> {
    text.subrange(span.start as int, span.end as int)
}

pub open spec fn all_digits(s: Seq<u8>) -> bool {
    forall|i: int| 0 <= i < s.len() ==> is_digit(#[trigger] s[i])
}

/// The number that a row of decimal digits spells.
pub open spec fn digits_value(s: Seq<u8>) -> int
    decreases s.len(),
{
    if s.len() == 0 {
        0
    } else {
        digits_value(s.drop_last()) * 10 + (s.last() - 48)
    }
}

/// The number that a field spells without a sign or after a plus sign:
/// one decimal digit or more, and nothing else.
pub open spec fn unsigned_of(token: Seq<u8>) -> Option<int> {
    let digits = if token.len() > 0 && token[0] == 43 {
        token.drop_first()
    } else {
        token
    };
    if digits.len() > 0 && all_digits(digits) {
        Some(digits_value(digits))
    } else {
        None
    }
}

/// The number that a field spells, with a sign or without.
pub open spec fn signed_of(token: Seq<u8>) -> Option<int> {
    if token.len() > 0 && token[0] == 45 {
        let digits = token.drop_first();
        if digits.len() > 0 && all_digits(digits) {
            Some(-digits_value(digits))
        } else {
            None
        }
    } else {
        unsigned_of(token)
    }
}

/// The number that a field spells, if it is an unsigned machine word.
pub open spec fn usize_of(token: Seq<u8>) -> Option<usize> {
    match unsigned_of(token) {
        Some(value) => if value <= usize::MAX {
            Some(value as usize)
        } else {
            None
        },
        None => None,
    }
}

/// The number that a field spells, if it is a signed number of 32 bits.
pub open spec fn i32_of(token: Seq<u8>) -> Option<i32> {
    match signed_of(token) {
        Some(value) => if i32::MIN <= value <= i32::MAX {
            Some(value as i32)
        } else {
            None
        },
        None => None,
    }
}

/// Skipping white space ends inside the text, where no white space
/// begins.
pub proof fn lemma_skip_spaces(text: Seq<u8>, from: int)
    requires
        0 <= from <= text.len(),
    ensures
        from <= skip_spaces(text, from) <= text.len(),
        space_len(text, skip_spaces(text, from)) == 0,
    decreases text.len() - from,
{
    if space_len(text, from) > 0 {
        lemma_skip_spaces(text, from + space_len(text, from));
    }
}

/// Skipping a field ends at the first place where white space begins,
/// or at the end of the text.
pub proof fn lemma_skip_word(text: Seq<u8>, from: int)
    requires
        0 <= from <= text.len(),
    ensures
        from <= skip_word(text, from) <= text.len(),
        forall|i: int| from <= i < skip_word(text, from) ==> #[trigger] space_len(text, i) == 0,
        skip_word(text, from) < text.len() ==> space_len(text, skip_word(text, from)) > 0,
    decreases text.len() - from,
{
    if from < text.len() && space_len(text, from) == 0 {
        lemma_skip_word(text, from + 1);
    }
}

/// A field is not empty, lies where the white space before it ends, and
/// reaches up to the next white space or the end of the text; no white
/// space begins inside it.
pub proof fn lemma_next_span(text: Seq<u8>, from: int)
    requires
        0 <= from <= text.len() <= usize::MAX,
    ensures
        match next_span(text, from) {
            Some(span) => {
                &&& from <= span.start < span.end <= text.len()
                &&& span.start == skip_spaces(text, from)
                &&& forall|i: int|
                    span.start <= i < span.end ==> #[trigger] space_len(text, i) == 0
                &&& span.end < text.len() ==> space_len(text, span.end as int) > 0
            },
            None => skip_spaces(text, from) == text.len(),
        },
{
    lemma_skip_spaces(text, from);
    let start = skip_spaces(text, from);
    if start < text.len() {
        lemma_skip_word(text, start);
        assert(skip_word(text, start) == skip_word(text, start + 1));
    }
}

/// The fields end inside the text.
pub proof fn lemma_bounds(text: Seq<u8>, k: nat)
    requires
        text.len() <= usize::MAX,
    ensures
        0 <= after_fields(text, k) <= text.len(),
    decreases k,
{
    if k > 0 {
        lemma_bounds(text, (k - 1) as nat);
        lemma_next_span(text, after_fields(text, (k - 1) as nat));
    }
}

/// Where the text has a field of number `k` it has all the fields before
/// it, and each field takes up a byte at least: the first `k` fields end
/// `k` bytes into the text or later, and the next one ends later still.
pub proof fn lemma_fields_need_bytes(text: Seq<u8>, k: nat)
    requires
        text.len() <= usize::MAX,
        field(text, k) is Some,
    ensures
        k <= after_fields(text, k) < after_fields(text, k + 1) <= text.len(),
        forall|j: nat| j < k ==> (#[trigger] field(text, j)) is Some,
    decreases k,
{
    lemma_bounds(text, k);
    lemma_next_span(text, after_fields(text, k));
    if k > 0 {
        let before = (k - 1) as nat;
        lemma_bounds(text, before);
        lemma_next_span(text, after_fields(text, before));
        if field(text, before) is None {
            // Past the last field the text has ended, and holds no more.
            assert(after_fields(text, k) == text.len());
            assert(skip_spaces(text, text.len() as int) == text.len());
            assert(false);
        }
        lemma_fields_need_bytes(text, before);
        assert forall|j: nat| j < k implies (#[trigger] field(text, j)) is Some by {
            if j < before {
                assert(field(text, j) is Some);
            }
        }
    }
}

/// A longer row of digits spells no smaller number.
pub proof fn lemma_digits_value_grows(s: Seq<u8>, k: int)
    requires
        all_digits(s),
        0 <= k <= s.len(),
    ensures
        0 <= digits_value(s.take(k)) <= digits_value(s),
    decreases s.len() - k,
{
    if k < s.len() {
        lemma_digits_value_grows(s, k + 1);
        assert(s.take(k + 1).drop_last() =~= s.take(k));
        assert(is_digit(s[k]));
        assert(s.take(k + 1).last() == s[k]);
        lemma_digits_nonnegative(s.take(k));
    } else {
        assert(s.take(k) =~= s);
        lemma_digits_nonnegative(s);
    }
}

/// A row of digits spells no negative number.
pub proof fn lemma_digits_nonnegative(s: Seq<u8>)
    requires
        all_digits(s),
    ensures
        0 <= digits_value(s),
    decreases s.len(),
{
    if s.len() > 0 {
        assert(is_digit(s[s.len() - 1]));
        assert forall|i: int| 0 <= i < s.drop_last().len() implies is_digit(
            #[trigger] s.drop_last()[i],
        ) by {
            assert(s.drop_last()[i] == s[i]);
        }
        lemma_digits_nonnegative(s.drop_last());
    }
}

/// Why a number could not be read.
#[derive(Clone, Copy, Debug, PartialEq, Eq, Structural)]
pub enum ScanError {
    /// The text ends before the field of this number, counted from zero.
    Truncated { field: usize },
    /// The field of this number, counted from zero, spells no number of
    /// the kind that is asked for.
    BadNumber { field: usize },
}

/// Reads the digits from `start` up to `end` as a number up to `limit`.
fn parse_digits(text: &Vec<u8>, start: usize, end: usize, limit: u64) -> (r: Option<u64>)
    requires
        start <= end <= text.len(),
    ensures
        r == (if start < end && all_digits(text@.subrange(start as int, end as int))
            && digits_value(text@.subrange(start as int, end as int)) <= limit {
            Some(digits_value(text@.subrange(start as int, end as int)) as u64)
        } else {
            None
        }),
{
    if start == end {
        return None;
    }
    let ghost digits = text@.subrange(start as int, end as int);
    let mut value: u64 = 0;
    let mut i: usize = start;
    proof {
        assert(digits.take(0) =~= Seq::<u8>::empty());
    }
    while i < end
        invariant
            start <= i <= end <= text.len(),
            digits == text@.subrange(start as int, end as int),
            all_digits(digits.take(i - start)),
            value == digits_value(digits.take(i - start)),
            value <= limit,
        decreases end - i,
    {
        let byte = text[i];
        let ghost read = digits.take(i - start);
        let ghost more = digits.take(i - start + 1);
        proof {
            assert(digits[i - start] == byte);
            assert(more.drop_last() =~= read);
            assert(more.last() == byte);
        }
        if byte < 48 || byte > 57 {
            return None;
        }
        let next: u128 = value as u128 * 10 + (byte - 48) as u128;
        if next > limit as u128 {
            proof {
                if all_digits(digits) {
                    lemma_digits_value_grows(digits, i - start + 1);
                }
            }
            return None;
        }
        value = next as u64;
        proof {
            assert forall|j: int| 0 <= j < more.len() implies is_digit(#[trigger] more[j]) by {
                if j < read.len() {
                    assert(more[j] == read[j]);
                }
            }
        }
        i += 1;
    }
    proof {
        assert(digits.take(i - start) =~= digits);
    }
    Some(value)
}

/// The unsigned machine word that the field spells: decimal digits,
/// after a plus sign or without one. A field that spells anything else,
/// or a number too large, gives `None`.
pub fn parse_usize(text: &Vec<u8>, span: Span) -> (r: Option<usize>)
    requires
        span.start <= span.end <= text.len(),
    ensures
        r == usize_of(span_bytes(text@, span)),
{
    let ghost token = span_bytes(text@, span);
    if span.start == span.end {
        return None;
    }
    let signed = text[span.start] == 43;
    let from = if signed { span.start + 1 } else { span.start };
    proof {
        assert(token[0] == text@[span.start as int]);
        if signed {
            assert(token.drop_first() =~= text@.subrange(from as int, span.end as int));
        }
    }
    let ghost digits = text@.subrange(from as int, span.end as int);
    proof {
        if !signed {
            assert(digits =~= token);
        }
        if digits.len() > 0 && all_digits(digits) {
            lemma_digits_nonnegative(digits);
        }
    }
    match parse_digits(text, from, span.end, usize::MAX as u64) {
        Some(value) => Some(value as usize),
        None => None,
    }
}

/// The signed number of 32 bits that the field spells: decimal digits,
/// after a plus or a minus sign or without one. A field that spells
/// anything else, or a number out of range, gives `None`.
pub fn parse_i32(text: &Vec<u8>, span: Span) -> (r: Option<i32>)
    requires
        span.start <= span.end <= text.len(),
    ensures
        r == i32_of(span_bytes(text@, span)),
{
    let ghost token = span_bytes(text@, span);
    if span.start == span.end {
        return None;
    }
    let first = text[span.start];
    proof {
        assert(token[0] == first);
    }
    if first == 45 {
        proof {
            assert(token.drop_first() =~= text@.subrange(span.start + 1, span.end as int));
            if token.drop_first().len() > 0 && all_digits(token.drop_first()) {
                lemma_digits_nonnegative(token.drop_first());
            }
        }
        match parse_digits(text, span.start + 1, span.end, 0x8000_0000) {
            Some(value) => {
                let negative: i64 = -(value as i64);
                Some(negative as i32)
            },
            None => None,
        }
    } else {
        let from = if first == 43 { span.start + 1 } else { span.start };
        proof {
            if first == 43 {
                assert(token.drop_first() =~= text@.subrange(from as int, span.end as int));
            }
            let digits = text@.subrange(from as int, span.end as int);
            if first != 43 {
                assert(digits =~= token);
            }
            if digits.len() > 0 && all_digits(digits) {
                lemma_digits_nonnegative(digits);
            }
        }
        match parse_digits(text, from, span.end, 0x7fff_ffff) {
            Some(value) => Some(value as i32),
            None => None,
        }
    }
}

/// Walks through the fields of a text, one after the other.
pub struct Scanner<'a> {
    text: &'a Vec<u8>,
    pos: usize,
    count: usize,
}

impl<'a> Scanner<'a> {
    #[verifier::type_invariant]
    spec fn stands_after_its_fields(self) -> bool {
        &&& self.count <= self.pos <= self.text@.len()
        &&& self.pos == after_fields(self.text@, self.count as nat)
    }

    /// The text that is walked through.
    pub closed spec fn text(self) -> Seq<u8> {
        self.text@
    }

    /// How many fields have been read.
    pub closed spec fn fields_read(self) -> nat {
        self.count as nat
    }

    /// A scanner at the start of `text`.
    pub fn new(text: &'a Vec<u8>) -> (scanner: Self)
        ensures
            scanner.text() == text@,
            scanner.fields_read() == 0,
    {
        Scanner { text, pos: 0, count: 0 }
    }

    /// How many fields have been read.
    pub fn count(&self) -> (n: usize)
        ensures
            n == self.fields_read(),
    {
        self.count
    }

    /// The next field, if the text has one more.
    pub fn next(&mut self) -> (found: Option<Span>)
        ensures
            final(self).text() == old(self).text(),
            found == field(old(self).text(), old(self).fields_read()),
            final(self).fields_read() == old(self).fields_read() + (if found is Some {
                1nat
            } else {
                0nat
            }),
            found matches Some(span) ==> span.start < span.end <= old(self).text().len(),
    {
        let text = self.text;
        proof {
            use_type_invariant(&*self);
            assert(text@.len() == text.len());
            lemma_next_span(text@, self.pos as int);
        }
        let mut start: usize = self.pos;
        let mut width: usize = Self::space_at(text, start);
        while width > 0
            invariant
                self.pos <= start <= text.len(),
                text == self.text,
                width == space_len(text@, start as int),
                skip_spaces(text@, self.pos as int) == skip_spaces(text@, start as int),
            decreases text.len() - start,
        {
            start += width;
            width = Self::space_at(text, start);
        }
        if start == text.len() {
            return None;
        }
        let mut end: usize = start + 1;
        while end < text.len() && Self::space_at(text, end) == 0
            invariant
                start < end <= text.len(),
                text == self.text,
                skip_word(text@, start as int) == skip_word(text@, end as int),
            decreases text.len() - end,
        {
            end += 1;
        }
        *self = Scanner { text, pos: end, count: self.count + 1 };
        Some(Span { start, end })
    }

    /// How many bytes the white-space character takes up that begins at
    /// `at`.
    fn space_at(text: &Vec<u8>, at: usize) -> (width: usize)
        requires
            at <= text.len(),
        ensures
            width == space_len(text@, at as int),
            at + width <= text.len(),
    {
        if at == text.len() {
            return 0;
        }
        let a = text[at];
        if a == 32 || (9 <= a && a <= 13) {
            1
        } else if a == 0xC2 {
            if text.len() - at > 1 && (text[at + 1] == 0x85 || text[at + 1] == 0xA0) {
                2
            } else {
                0
            }
        } else if a == 0xE1 || a == 0xE2 || a == 0xE3 {
            if text.len() - at > 2 {
                let b = text[at + 1];
                let c = text[at + 2];
                let wide = (a == 0xE1 && b == 0x9A && c == 0x80) || (a == 0xE2 && b == 0x80 && ((
                0x80 <= c && c <= 0x8A) || c == 0xA8 || c == 0xA9 || c == 0xAF)) || (a == 0xE2
                    && b == 0x81 && c == 0x9F) || (a == 0xE3 && b == 0x80 && c == 0x80);
                if wide {
                    3
                } else {
                    0
                }
            } else {
                0
            }
        } else {
            0
        }
    }

    /// The bytes that a field of this text holds.
    pub fn bytes(&self, span: Span) -> (bytes: &'a [u8])
        requires
            span.start <= span.end <= self.text().len(),
        ensures
            bytes@ == span_bytes(self.text(), span),
    {
        vstd::slice::slice_subrange(self.text.as_slice(), span.start, span.end)
    }

    /// Reads the next field as an unsigned machine word.
    pub fn next_usize(&mut self) -> (read: Result<usize, ScanError>)
        ensures
            final(self).text() == old(self).text(),
            match field(old(self).text(), old(self).fields_read()) {
                Some(span) => {
                    &&& final(self).fields_read() == old(self).fields_read() + 1
                    &&& match usize_of(span_bytes(old(self).text(), span)) {
                        Some(value) => read == Ok::<usize, ScanError>(value),
                        None => read == Err::<usize, ScanError>(
                            ScanError::BadNumber { field: old(self).fields_read() as usize },
                        ),
                    }
                },
                None => {
                    &&& final(self).fields_read() == old(self).fields_read()
                    &&& read == Err::<usize, ScanError>(
                        ScanError::Truncated { field: old(self).fields_read() as usize },
                    )
                },
            },
    {
        let at = self.count;
        match self.next() {
            Some(span) => match parse_usize(self.text, span) {
                Some(value) => Ok(value),
                None => Err(ScanError::BadNumber { field: at }),
            },
            None => Err(ScanError::Truncated { field: at }),
        }
    }

    /// Reads the next field as a signed number of 32 bits.
    pub fn next_i32(&mut self) -> (read: Result<i32, ScanError>)
        ensures
            final(self).text() == old(self).text(),
            match field(old(self).text(), old(self).fields_read()) {
                Some(span) => {
                    &&& final(self).fields_read() == old(self).fields_read() + 1
                    &&& match i32_of(span_bytes(old(self).text(), span)) {
                        Some(value) => read == Ok::<i32, ScanError>(value),
                        None => read == Err::<i32, ScanError>(
                            ScanError::BadNumber { field: old(self).fields_read() as usize },
                        ),
                    }
                },
                None => {
                    &&& final(self).fields_read() == old(self).fields_read()
                    &&& read == Err::<i32, ScanError>(
                        ScanError::Truncated { field: old(self).fields_read() as usize },
                    )
                },
            },
    {
        let at = self.count;
        match self.next() {
            Some(span) => match parse_i32(self.text, span) {
                Some(value) => Ok(value),
                None => Err(ScanError::BadNumber { field: at }),
            },
            None => Err(ScanError::Truncated { field: at }),
        }
    }
}

} // verus!
