//! The names of segment directories. A committed segment is named
//! `<uuid>.<offset>.<count>`; a segment that is still being written is named
//! `<uuid>.temp`, which no reader takes for a segment.

use vstd::prelude::*;
use vstd::slice::slice_subrange;
use crate::decimal::{
    decimal_digits, decimal_value, is_digit, lemma_digits_of, parse_decimal, push_decimal,
};
use crate::ident::{uuid_format, uuid_parse, uuid_text, uuid_value};

verus! {

/// What the name of a committed segment says: the segment's identifier, the
/// global id of its first document, and the number of its documents.
#[derive(Clone, Copy, Debug, PartialEq, Eq, Structural)]
pub struct SegmentName {
    pub uuid: u128,
    pub offset: u64,
    pub count: u32,
}

/// The place of the first dot of `text` at or after `from`; the length of
/// `text` where there is none.
pub open spec fn find_dot(text: Seq<u8>, from: int) -> int
    decreases text.len() - from,
{
    if from < 0 || from >= text.len() {
        text.len() as int
    } else if text[from] == 46 {
        from
    } else {
        find_dot(text, from + 1)
    }
}

/// The three parts of a name that has exactly two dots.
pub open spec fn name_parts(name: Seq<u8>) -> Option<(Seq<u8>, Seq<u8>, Seq<u8>)> {
    let first = find_dot(name, 0);
    let second = find_dot(name, first + 1);
    if first < name.len() && second < name.len() && find_dot(name, second + 1) == name.len() {
        Some(
            (
                name.subrange(0, first),
                name.subrange(first + 1, second),
                name.subrange(second + 1, name.len() as int),
            ),
        )
    } else {
        None
    }
}

/// What `name` says as the name of a committed segment: it has three parts
/// between dots, a UUID, a number of 64 bits and a number of 32 bits, and
/// the ids of its documents fit in 64 bits. `None` for every other name.
pub open spec fn segment_name_value(name: Seq<u8>) -> Option<SegmentName> {
    match name_parts(name) {
        Some((id, offset, count)) => match (
            uuid_value(id),
            decimal_value(offset),
            decimal_value(count),
        ) {
            (Some(uuid), Some(offset), Some(count)) => if count <= u32::MAX && offset + count
                <= u64::MAX {
                Some(SegmentName { uuid, offset: offset as u64, count: count as u32 })
            } else {
                None
            },
            _ => None,
        },
        None => None,
    }
}

/// The name of the directory of a committed segment.
pub open spec fn segment_name_text(name: SegmentName) -> Seq<u8> {
    uuid_text(name.uuid) + seq![46u8] + decimal_digits(name.offset as nat) + seq![46u8]
        + decimal_digits(name.count as nat)
}

/// The ending of the name of a segment that is still being written.
pub open spec fn temp_suffix() -> Seq<u8> {
    seq![46u8, 116u8, 101u8, 109u8, 112u8]
}

/// Where the first dot is: nothing before it is a dot.
pub proof fn lemma_find_dot(text: Seq<u8>, from: int)
    requires
        0 <= from <= text.len(),
    ensures
        from <= find_dot(text, from) <= text.len(),
        forall|i: int| from <= i < find_dot(text, from) ==> text[i] != 46,
        find_dot(text, from) < text.len() ==> text[find_dot(text, from)] == 46,
    decreases text.len() - from,
{
    if from < text.len() && text[from] != 46 {
        lemma_find_dot(text, from + 1);
    }
}

/// A dot at `at` with none between `from` and `at` is the first at or after
/// `from`; without any dot from `from` on, the search runs to the end.
pub proof fn lemma_find_dot_is(text: Seq<u8>, from: int, at: int)
    requires
        0 <= from <= at <= text.len(),
        forall|i: int| from <= i < at ==> text[i] != 46,
        at < text.len() ==> text[at] == 46,
    ensures
        find_dot(text, from) == at,
    decreases at - from,
{
    if from < at {
        lemma_find_dot_is(text, from + 1, at);
    }
}

/// No name that ends in `.temp` is the name of a committed segment, whatever
/// stands before the ending.
pub proof fn lemma_temp_is_no_segment(stem: Seq<u8>)
    ensures
        segment_name_value(stem + temp_suffix()) is None,
{
    let name = stem + temp_suffix();
    let first = find_dot(name, 0);
    lemma_find_dot(name, 0);
    if first < name.len() {
        let second = find_dot(name, first + 1);
        lemma_find_dot(name, first + 1);
        if second < name.len() {
            lemma_find_dot(name, second + 1);
            if find_dot(name, second + 1) == name.len() {
                // The dot of the ending is the second one, so the third part is `temp`.
                assert(name[stem.len() as int] == 46);
                assert(second == stem.len()) by {
                    if second < stem.len() {
                        assert(name[stem.len() as int] != 46);
                    }
                    if second > stem.len() {
                        assert(name[second] == 46);
                        assert(name[second] == temp_suffix()[second - stem.len()]);
                    }
                }
                let last = name.subrange(second + 1, name.len() as int);
                assert(last[0] == 116);
                assert(!is_digit(last[0]));
                assert(decimal_value(last) is None);
            }
        }
    }
}

/// The place of the first dot at or after `from`.
pub fn find_dot_from(text: &[u8], from: usize) -> (at: usize)
    requires
        from <= text@.len(),
    ensures
        at == find_dot(text@, from as int),
        from <= at <= text@.len(),
{
    let end = text.len();
    let mut at: usize = from;
    while at < end && text[at] != 46
        invariant
            from <= at <= end == text@.len(),
            forall|i: int| from <= i < at ==> text@[i] != 46,
        decreases end - at,
    {
        at += 1;
    }
    proof {
        lemma_find_dot_is(text@, from as int, at as int);
    }
    at
}

impl SegmentName {
    /// Reads the name of a directory; `None` unless it is the name of a
    /// committed segment.
    pub fn parse(name: &[u8]) -> (parsed: Option<SegmentName>)
        ensures
            parsed == segment_name_value(name@),
    {
        let end = name.len();
        let first = find_dot_from(name, 0);
        if first >= end {
            return None;
        }
        let second = find_dot_from(name, first + 1);
        if second >= end {
            return None;
        }
        let third = find_dot_from(name, second + 1);
        if third != end {
            return None;
        }
        let uuid = match uuid_parse(slice_subrange(name, 0, first)) {
            Some(uuid) => uuid,
            None => { return None; },
        };
        let offset = match parse_decimal(slice_subrange(name, first + 1, second), u64::MAX) {
            Some(offset) => offset,
            None => { return None; },
        };
        let count = match parse_decimal(slice_subrange(name, second + 1, end), 0xffff_ffff) {
            Some(count) => count,
            None => { return None; },
        };
        if offset > u64::MAX - count {
            return None;
        }
        Some(SegmentName { uuid, offset, count: count as u32 })
    }

    /// The name of the directory of the committed segment.
    pub fn directory(&self) -> (text: Vec<u8>)
        ensures
            text@ == segment_name_text(*self),
            self.offset + self.count <= u64::MAX ==> segment_name_value(text@) == Some(*self),
    {
        let mut text = uuid_format(self.uuid);
        let ghost id = text@;
        text.push(46);
        push_decimal(&mut text, self.offset);
        text.push(46);
        push_decimal(&mut text, self.count as u64);
        proof {
            let offset = decimal_digits(self.offset as nat);
            let count = decimal_digits(self.count as nat);
            lemma_digits_of(self.offset as nat);
            lemma_digits_of(self.count as nat);
            assert(text@ =~= segment_name_text(*self));
            let first = id.len() as int;
            let second = first + 1 + offset.len();
            lemma_find_dot_is(text@, 0, first);
            lemma_find_dot_is(text@, first + 1, second);
            lemma_find_dot_is(text@, second + 1, text@.len() as int);
            assert(text@.subrange(0, first) =~= id);
            assert(text@.subrange(first + 1, second) =~= offset);
            assert(text@.subrange(second + 1, text@.len() as int) =~= count);
        }
        text
    }

    /// The name of the directory in which the segment `uuid` is written
    /// before it is committed.
    pub fn temp_directory(uuid: u128) -> (text: Vec<u8>)
        ensures
            text@ == uuid_text(uuid) + temp_suffix(),
            segment_name_value(text@) is None,
    {
        let mut text = uuid_format(uuid);
        text.push(46);
        text.push(116);
        text.push(101);
        text.push(109);
        text.push(112);
        proof {
            assert(text@ =~= uuid_text(uuid) + temp_suffix());
            lemma_temp_is_no_segment(uuid_text(uuid));
        }
        text
    }

    /// The global id after the last document of the segment.
    pub fn end(&self) -> (end: u64)
        requires
            self.offset + self.count <= u64::MAX,
        ensures
            end == self.offset + self.count,
    {
        self.offset + self.count as u64
    }
}

} // verus!
