use vstd::prelude::*;
use vstd::string::StringSliceAdditionalSpecFns;
use vstd::utf8::*;

verus! {

broadcast use {encode_utf8_valid_utf8, encode_utf8_decode_utf8, decode_utf8_encode_utf8};

use crate::text::{
    all_answered, append_chars, char_width, chars_of, is_char_predicate, lemma_all_answered_push,
    lemma_utf8_empty, lemma_encode_concat, lemma_utf8_len_concat, retained,
    utf8_len, utf8_len_of,
};

/// A half-open range `[begin, end)` of bytes in a shared byte buffer.
#[derive(Debug, Clone, Copy)]
pub struct BytesSegment {
    pub begin: usize,
    pub end: usize,
}

/// Relies on `std::str::from_utf8`: succeeds exactly on valid UTF-8, and the
/// resulting string slice consists of the given bytes.
#[verifier::external_body]
fn utf8_str(bytes: &[u8]) -> (r: Option<&str>)
    ensures
        r is Some <==> valid_utf8(bytes@),
        r matches Some(s) ==> s.spec_bytes() == bytes@,
{
    std::str::from_utf8(bytes).ok()
}

impl BytesSegment {
    /// The bytes of `buffer` covered by this segment.
    pub open spec fn bytes(self, buffer: Seq<u8>) -> Seq<u8> {
        buffer.subrange(self.begin as int, self.end as int)
    }

    /// The segment lies in `buffer` and covers valid UTF-8.
    pub open spec fn valid_in(self, buffer: Seq<u8>) -> bool {
        &&& self.begin <= self.end <= buffer.len()
        &&& valid_utf8(self.bytes(buffer))
    }

    /// The characters encoded by the covered bytes.
    pub open spec fn text(self, buffer: Seq<u8>) -> Seq<char> {
        decode_utf8(self.bytes(buffer))
    }

    pub open spec fn spec_len(self) -> nat {
        (self.end - self.begin) as nat
    }

    /// Creates the segment `[begin, end)`.
    pub fn new(begin: usize, end: usize) -> (r: Self)
        requires
            begin <= end,
        ensures
            r.begin == begin && r.end == end,
    {
        Self { begin, end }
    }

    /// Creates the segment of `length` bytes starting at `from`.
    pub fn of_length(from: usize, length: usize) -> (r: Self)
        requires
            from + length <= usize::MAX,
        ensures
            r.begin == from && r.end == from + length,
    {
        Self { begin: from, end: from + length }
    }

    /// Creates the segment of `length` bytes starting at `from`, unless it would be empty.
    pub fn try_non_empty_of_length(from: usize, length: usize) -> (r: Option<Self>)
        requires
            from + length <= usize::MAX,
        ensures
            r is Some <==> length > 0,
            r matches Some(s) ==> s.begin == from && s.end == from + length,
    {
        if length > 0 {
            Some(Self { begin: from, end: from + length })
        } else {
            None
        }
    }

    /// Creates the non-empty segment of `length` bytes starting at `from`.
    pub fn non_empty_of_length(from: usize, length: usize) -> (r: Self)
        requires
            length > 0,
            from + length <= usize::MAX,
        ensures
            r.begin == from && r.end == from + length,
    {
        Self { begin: from, end: from + length }
    }

    /// Number of bytes covered.
    pub fn len(&self) -> (r: usize)
        requires
            self.begin <= self.end,
        ensures
            r == self.spec_len(),
    {
        self.end - self.begin
    }

    /// The covered bytes of `buffer` as a string slice.
    pub fn as_str<'a>(&self, buffer: &'a [u8]) -> (r: &'a str)
        requires
            self.valid_in(buffer@),
        ensures
            r@ == self.text(buffer@),
    {
        let bytes = vstd::slice::slice_subrange(buffer, self.begin, self.end);
        match utf8_str(bytes) {
            Some(s) => {
                proof {
                    assert(decode_utf8(encode_utf8(s@)) == s@);
                }
                s
            },
            None => "",
        }
    }

    /// Splits the segment at the byte offset `index` from its start.
    pub fn split_at(&self, index: usize) -> (r: (BytesSegment, BytesSegment))
        requires
            self.begin <= self.end,
            index <= self.spec_len(),
        ensures
            r.0.begin == self.begin && r.0.end == self.begin + index,
            r.1.begin == self.begin + index && r.1.end == self.end,
    {
        let index = self.begin + index;
        (Self { begin: self.begin, end: index }, Self { begin: index, end: self.end })
    }

    /// The characters covered in `buffer`.
    pub fn chars(&self, buffer: &[u8]) -> (r: Vec<char>)
        requires
            self.valid_in(buffer@),
        ensures
            r@ == self.text(buffer@),
    {
        chars_of(self.as_str(buffer))
    }
}

/// Byte offset of the `i`-th character of `t` from the start of `t`'s encoding.
pub open spec fn char_offset(t: Seq<char>, i: int) -> nat {
    utf8_len(t.subrange(0, i))
}

/// Bytes encoding `t` contain, between the offsets of the `i`-th and `j`-th character,
/// exactly the encoding of the characters between them.
pub proof fn lemma_encoding_range(t: Seq<char>, i: int, j: int)
    requires
        0 <= i <= j <= t.len(),
    ensures
        char_offset(t, i) <= char_offset(t, j) <= utf8_len(t),
        encode_utf8(t).subrange(char_offset(t, i) as int, char_offset(t, j) as int)
            == encode_utf8(t.subrange(i, j)),
{
    let a = t.subrange(0, i);
    let b = t.subrange(i, j);
    let c = t.subrange(j, t.len() as int);
    assert(t =~= a + b + c);
    assert(t.subrange(0, j) =~= a + b);
    lemma_encode_concat(a + b, c);
    lemma_encode_concat(a, b);
    let e = encode_utf8(t);
    assert(e.subrange(char_offset(t, i) as int, char_offset(t, j) as int) =~= encode_utf8(b));
}

/// A sub-range of a valid segment cut at character boundaries is valid and covers
/// the corresponding characters.
pub proof fn lemma_subsegment(buffer: Seq<u8>, seg: BytesSegment, i: int, j: int)
    requires
        seg.valid_in(buffer),
        0 <= i <= j <= seg.text(buffer).len(),
    ensures
        ({
            let t = seg.text(buffer);
            let sub = BytesSegment {
                begin: (seg.begin + char_offset(t, i)) as usize,
                end: (seg.begin + char_offset(t, j)) as usize,
            };
            &&& seg.begin + char_offset(t, i) <= seg.begin + char_offset(t, j) <= seg.end
            &&& sub.valid_in(buffer)
            &&& sub.text(buffer) == t.subrange(i, j)
        }),
{
    let t = seg.text(buffer);
    let bytes = seg.bytes(buffer);
    assert(encode_utf8(t) == bytes);
    lemma_encoding_range(t, i, j);
    let sub = BytesSegment {
        begin: (seg.begin + char_offset(t, i)) as usize,
        end: (seg.begin + char_offset(t, j)) as usize,
    };
    assert(sub.bytes(buffer) =~= bytes.subrange(char_offset(t, i) as int, char_offset(t, j) as int));
}

/// A segment keeps its meaning when the buffer grows at its end.
pub proof fn lemma_segment_frame(buffer: Seq<u8>, grown: Seq<u8>, seg: BytesSegment)
    requires
        seg.valid_in(buffer),
        buffer.len() <= grown.len(),
        grown.subrange(0, buffer.len() as int) == buffer,
    ensures
        seg.valid_in(grown),
        seg.text(grown) == seg.text(buffer),
{
    assert(seg.bytes(grown) =~= seg.bytes(buffer));
}

/// A valid segment covers as many bytes as its text encodes to.
pub proof fn lemma_segment_len(buffer: Seq<u8>, seg: BytesSegment)
    requires
        seg.valid_in(buffer),
    ensures
        seg.spec_len() == utf8_len(seg.text(buffer)),
        seg.text(buffer).len() <= seg.spec_len(),
{
    assert(encode_utf8(seg.text(buffer)) == seg.bytes(buffer));
    crate::text::lemma_utf8_len_bounds(seg.text(buffer));
}

/// Appends the encoding of `s` to `buffer` and returns the segment covering it.
pub fn append_str(buffer: &mut Vec<u8>, s: &str) -> (r: BytesSegment)
    ensures
        final(buffer)@ == old(buffer)@ + encode_utf8(s@),
        r.begin == old(buffer)@.len(),
        r.end == final(buffer)@.len(),
        r.valid_in(final(buffer)@),
        r.text(final(buffer)@) == s@,
{
    let begin = buffer.len();
    buffer.extend_from_slice(s.as_bytes());
    assert(buffer@ =~= old(buffer)@ + encode_utf8(s@));
    let r = BytesSegment { begin, end: buffer.len() };
    assert(r.bytes(buffer@) =~= encode_utf8(s@));
    r
}

/// Byte offset of the `i`-th character of `t`.
pub fn char_offset_of(t: &[char], i: usize) -> (r: usize)
    requires
        i <= t@.len(),
        utf8_len(t@) <= usize::MAX,
    ensures
        r == char_offset(t@, i as int),
{
    proof {
        crate::text::lemma_utf8_len_split(t@, i as int);
    }
    utf8_len_of(vstd::slice::slice_subrange(t, 0, i))
}

/// The concatenated texts of `segments` in `buffer`.
pub open spec fn segments_text(buffer: Seq<u8>, segments: Seq<BytesSegment>) -> Seq<char>
    decreases segments.len(),
{
    if segments.len() == 0 {
        Seq::empty()
    } else {
        segments_text(buffer, segments.drop_last()) + segments.last().text(buffer)
    }
}

/// Every segment is non-empty and valid in `buffer`.
pub open spec fn segments_ok(buffer: Seq<u8>, segments: Seq<BytesSegment>) -> bool {
    forall|i: int|
        0 <= i < segments.len() ==> (#[trigger] segments[i]).valid_in(buffer) && segments[i].begin
            < segments[i].end
}

pub proof fn lemma_segments_text_push(buffer: Seq<u8>, segments: Seq<BytesSegment>, s: BytesSegment)
    ensures
        segments_text(buffer, segments.push(s)) == segments_text(buffer, segments) + s.text(buffer),
{
    assert(segments.push(s).drop_last() =~= segments);
}

/// Appends to `out` the segment covering characters `run_start..i` of `segment`'s text
/// `t`, whose byte range is `run_begin..pos`, unless that run is empty.
fn close_run(
    buffer: &[u8],
    segment: BytesSegment,
    run_start: usize,
    i: usize,
    run_begin: usize,
    pos: usize,
    out: &mut Vec<BytesSegment>,
)
    requires
        segment.valid_in(buffer@),
        run_start <= i <= segment.text(buffer@).len(),
        pos == segment.begin + char_offset(segment.text(buffer@), i as int),
        run_begin == segment.begin + char_offset(segment.text(buffer@), run_start as int),
        segments_ok(buffer@, old(out)@),
    ensures
        segments_ok(buffer@, final(out)@),
        segments_text(buffer@, final(out)@) == segments_text(buffer@, old(out)@)
            + segment.text(buffer@).subrange(run_start as int, i as int),
{
    let ghost t = segment.text(buffer@);
    if run_start < i {
        let run = BytesSegment { begin: run_begin, end: pos };
        proof {
            lemma_subsegment(buffer@, segment, run_start as int, i as int);
            lemma_segments_text_push(buffer@, out@, run);
            crate::text::lemma_utf8_len_split(t.subrange(0, i as int), run_start as int);
            assert(t.subrange(0, i as int).subrange(0, run_start as int) =~= t.subrange(0, run_start as int));
            assert(t.subrange(0, i as int).subrange(run_start as int, i as int) =~= t.subrange(run_start as int, i as int));
            crate::text::lemma_utf8_len_bounds(t.subrange(run_start as int, i as int));
        }
        out.push(run);
    } else {
        assert(t.subrange(run_start as int, i as int) =~= Seq::<char>::empty());
        assert(segments_text(buffer@, out@) + t.subrange(run_start as int, i as int) =~= segments_text(buffer@, out@));
    }
}

/// Appends to `out` segments covering exactly the characters of `segment` that `filter`
/// accepts; the segments reuse the bytes of `buffer`.
pub fn retain_segment<F: Fn(char) -> bool>(
    buffer: &[u8],
    segment: BytesSegment,
    filter: &F,
    out: &mut Vec<BytesSegment>,
)
    requires
        segment.valid_in(buffer@),
        is_char_predicate(*filter),
        segments_ok(buffer@, old(out)@),
    ensures
        segments_ok(buffer@, final(out)@),
        segments_text(buffer@, final(out)@) == segments_text(buffer@, old(out)@) + retained(
            segment.text(buffer@),
            *filter,
        ),
        all_answered(*filter, segment.text(buffer@)),
{
    let chars = segment.chars(buffer);
    let ghost t = chars@;
    let ghost start = segments_text(buffer@, out@);
    let mut i: usize = 0;
    let mut run_start: usize = 0;
    let mut pos: usize = segment.begin;
    let mut run_begin: usize = segment.begin;
    proof {
        assert(t.subrange(0, 0) =~= Seq::<char>::empty());
        reveal(Seq::filter);
        assert(start + t.subrange(0, 0) =~= start);
        lemma_utf8_empty();
    }
    while i < chars.len()
        invariant
            chars@ == t,
            t == segment.text(buffer@),
            segment.valid_in(buffer@),
            is_char_predicate(*filter),
            run_start <= i <= t.len(),
            pos == segment.begin + char_offset(t, i as int),
            run_begin == segment.begin + char_offset(t, run_start as int),
            segments_ok(buffer@, out@),
            segments_text(buffer@, out@) + t.subrange(run_start as int, i as int) == start
                + retained(t.subrange(0, i as int), *filter),
            all_answered(*filter, t.subrange(0, i as int)),
        decreases t.len() - i,
    {
        let c = chars[i];
        let w = char_width(c);
        proof {
            assert(t.subrange(0, i + 1) =~= t.subrange(0, i as int) + seq![c]);
            lemma_utf8_len_concat(t.subrange(0, i as int), seq![c]);
            lemma_subsegment(buffer@, segment, 0, i + 1);
            reveal(Seq::filter);
            assert(t.subrange(0, i + 1).drop_last() =~= t.subrange(0, i as int));
        }
        let keep = filter(c);
        proof {
            lemma_all_answered_push(*filter, t.subrange(0, i as int), c);
            assert(t.subrange(0, i as int).push(c) =~= t.subrange(0, i + 1));
        }
        if keep {
            proof {
                assert(t.subrange(run_start as int, i + 1) =~= t.subrange(run_start as int, i as int).push(c));
                assert(retained(t.subrange(0, i + 1), *filter) == retained(t.subrange(0, i as int), *filter).push(c));
                assert((segments_text(buffer@, out@) + t.subrange(run_start as int, i as int)).push(c)
                    =~= segments_text(buffer@, out@) + t.subrange(run_start as int, i as int).push(c));
                assert((start + retained(t.subrange(0, i as int), *filter)).push(c)
                    =~= start + retained(t.subrange(0, i as int), *filter).push(c));
            }
        } else {
            proof {
                assert(!filter.ensures((c,), true));
                assert(retained(t.subrange(0, i + 1), *filter) == retained(t.subrange(0, i as int), *filter));
            }
            close_run(buffer, segment, run_start, i, run_begin, pos, out);
            run_start = i + 1;
            run_begin = pos + w;
            proof {
                assert(t.subrange(run_start as int, i + 1) =~= Seq::<char>::empty());
                assert(segments_text(buffer@, out@) + t.subrange(run_start as int, i + 1) =~= segments_text(buffer@, out@));
            }
        }
        pos = pos + w;
        i = i + 1;
    }
    proof {
        assert(t.subrange(0, i as int) =~= t);
    }
    close_run(buffer, segment, run_start, i, run_begin, pos, out);
}

/// The text of a concatenation of segment lists is the concatenation of their texts.
pub proof fn lemma_segments_text_concat(buffer: Seq<u8>, a: Seq<BytesSegment>, b: Seq<BytesSegment>)
    ensures
        segments_text(buffer, a + b) == segments_text(buffer, a) + segments_text(buffer, b),
    decreases b.len(),
{
    if b.len() == 0 {
        assert(a + b =~= a);
        assert(segments_text(buffer, a) + segments_text(buffer, b) =~= segments_text(buffer, a));
    } else {
        assert((a + b).drop_last() =~= a + b.drop_last());
        lemma_segments_text_concat(buffer, a, b.drop_last());
        assert(segments_text(buffer, a + b) =~= segments_text(buffer, a) + segments_text(buffer, b));
    }
}

/// Segments keep their meaning when the buffer grows at its end.
pub proof fn lemma_segments_frame(buffer: Seq<u8>, grown: Seq<u8>, segments: Seq<BytesSegment>)
    requires
        segments_ok(buffer, segments),
        buffer.len() <= grown.len(),
        grown.subrange(0, buffer.len() as int) == buffer,
    ensures
        segments_ok(grown, segments),
        segments_text(grown, segments) == segments_text(buffer, segments),
    decreases segments.len(),
{
    assert forall|i: int| 0 <= i < segments.len() implies (#[trigger] segments[i]).valid_in(grown)
        && segments[i].begin < segments[i].end by {
        lemma_segment_frame(buffer, grown, segments[i]);
    }
    if segments.len() > 0 {
        let init = segments.drop_last();
        assert forall|i: int| 0 <= i < init.len() implies (#[trigger] init[i]).valid_in(buffer)
            && init[i].begin < init[i].end by {
            assert(init[i] == segments[i]);
        }
        lemma_segments_frame(buffer, grown, init);
        lemma_segment_frame(buffer, grown, segments.last());
    }
}

/// A prefix of a list of segments encodes to no more bytes than the whole list.
pub proof fn lemma_segments_prefix(buffer: Seq<u8>, segments: Seq<BytesSegment>, i: int)
    requires
        0 <= i <= segments.len(),
    ensures
        utf8_len(segments_text(buffer, segments.subrange(0, i)))
            <= utf8_len(segments_text(buffer, segments)),
        segments_text(buffer, segments.subrange(0, i)).len()
            <= segments_text(buffer, segments).len(),
    decreases segments.len(),
{
    if i == segments.len() {
        assert(segments.subrange(0, i) =~= segments);
    } else {
        let init = segments.drop_last();
        lemma_segments_prefix(buffer, init, i);
        assert(init.subrange(0, i) =~= segments.subrange(0, i));
        lemma_utf8_len_concat(segments_text(buffer, init), segments.last().text(buffer));
    }
}

/// The characters of all `segments` of `buffer`, in order.
pub fn segments_chars(buffer: &[u8], segments: &[BytesSegment]) -> (r: Vec<char>)
    requires
        segments_ok(buffer@, segments@),
    ensures
        r@ == segments_text(buffer@, segments@),
{
    let mut r: Vec<char> = Vec::new();
    let mut i: usize = 0;
    while i < segments.len()
        invariant
            i <= segments@.len(),
            segments_ok(buffer@, segments@),
            r@ == segments_text(buffer@, segments@.subrange(0, i as int)),
        decreases segments@.len() - i,
    {
        assert(segments@[i as int].valid_in(buffer@));
        let chars = segments[i].chars(buffer);
        append_chars(&mut r, chars.as_slice());
        assert(segments@.subrange(0, i + 1).drop_last() =~= segments@.subrange(0, i as int));
        i = i + 1;
    }
    assert(segments@.subrange(0, i as int) =~= segments@);
    r
}

} // verus!
