use std::borrow::Cow;
use vstd::prelude::*;
use vstd::utf8::*;

verus! {

broadcast use {encode_utf8_valid_utf8, encode_utf8_decode_utf8, decode_utf8_encode_utf8};

use crate::history::History;
use crate::text::{
    all_answered, lemma_all_answered_concat,
    char_width, is_char_predicate, lemma_filter_utf8_len, lemma_repeat_len, lemma_shrink_utf8_len,
    lemma_splice_utf8_len, lemma_utf8_len_bounds, lemma_utf8_len_concat, lemma_utf8_len_split,
    repeat_text, retained, splice_text, string_of, utf8_len,
};
use crate::util::string_segment::{
    append_str, char_offset_of, lemma_segment_len, lemma_segments_frame, lemma_segments_prefix,
    lemma_segments_text_concat, lemma_segments_text_push, lemma_subsegment, retain_segment,
    segments_chars, segments_ok, segments_text, BytesSegment,
};
use crate::{PersistentString, VersionSwitchError};

/// One version: the segments of the byte buffer whose concatenation is its text.
#[derive(Debug)]
struct Version {
    segments: Vec<BytesSegment>,
    /// Length of the text in UTF-8 bytes.
    length: usize,
}

spec fn version_ok(buffer: Seq<u8>, version: Version) -> bool {
    &&& segments_ok(buffer, version.segments@)
    &&& version.length == utf8_len(segments_text(buffer, version.segments@))
}

spec fn version_texts(buffer: Seq<u8>, versions: Seq<Version>) -> Seq<Seq<char>> {
    versions.map_values(|v: Version| segments_text(buffer, v.segments@))
}

/// Concatenating two well-formed segment lists gives a well-formed list.
proof fn lemma_segments_ok_concat(buffer: Seq<u8>, a: Seq<BytesSegment>, b: Seq<BytesSegment>)
    requires
        segments_ok(buffer, a),
        segments_ok(buffer, b),
    ensures
        segments_ok(buffer, a + b),
{
    assert forall|i: int| 0 <= i < (a + b).len() implies (#[trigger] (a + b)[i]).valid_in(buffer)
        && (a + b)[i].begin < (a + b)[i].end by {
        if i < a.len() {
            assert((a + b)[i] == a[i]);
        } else {
            assert((a + b)[i] == b[i - a.len()]);
        }
    }
}

/// Copies a list of segments.
fn copy_segments(segments: &[BytesSegment]) -> (r: Vec<BytesSegment>)
    ensures
        r@ == segments@,
{
    let mut r: Vec<BytesSegment> = Vec::new();
    let mut i: usize = 0;
    while i < segments.len()
        invariant
            i <= segments@.len(),
            r@ == segments@.subrange(0, i as int),
        decreases segments@.len() - i,
    {
        r.push(segments[i]);
        assert(r@ =~= segments@.subrange(0, i + 1));
        i = i + 1;
    }
    assert(segments@.subrange(0, i as int) =~= segments@);
    r
}

/// Appends `more` to `segments`.
fn extend_segments(segments: &mut Vec<BytesSegment>, more: &[BytesSegment])
    ensures
        final(segments)@ == old(segments)@ + more@,
{
    let mut i: usize = 0;
    while i < more.len()
        invariant
            i <= more@.len(),
            segments@ == old(segments)@ + more@.subrange(0, i as int),
        decreases more@.len() - i,
    {
        segments.push(more[i]);
        assert(segments@ =~= old(segments)@ + more@.subrange(0, i + 1));
        i = i + 1;
    }
    assert(more@.subrange(0, i as int) =~= more@);
}

/// Splits `segments` into two lists whose texts are the first `index` characters and
/// the rest; the segment holding the split point is cut in two.
fn split_segments(buffer: &[u8], segments: &[BytesSegment], index: usize) -> (r: (
    Vec<BytesSegment>,
    Vec<BytesSegment>,
))
    requires
        segments_ok(buffer@, segments@),
        utf8_len(segments_text(buffer@, segments@)) <= usize::MAX,
        index <= segments_text(buffer@, segments@).len(),
    ensures
        segments_ok(buffer@, r.0@),
        segments_ok(buffer@, r.1@),
        segments_text(buffer@, r.0@) == segments_text(buffer@, segments@).subrange(0, index as int),
        segments_text(buffer@, r.1@) == segments_text(buffer@, segments@).subrange(
            index as int,
            segments_text(buffer@, segments@).len() as int,
        ),
{
    let ghost b = buffer@;
    let mut left: Vec<BytesSegment> = Vec::new();
    let mut right: Vec<BytesSegment> = Vec::new();
    let mut seen: usize = 0;
    let mut k: usize = 0;
    proof {
        assert(segments@.subrange(0, 0) =~= Seq::<BytesSegment>::empty());
    }
    while k < segments.len()
        invariant
            b == buffer@,
            k <= segments@.len(),
            segments_ok(b, segments@),
            utf8_len(segments_text(b, segments@)) <= usize::MAX,
            index <= segments_text(b, segments@).len(),
            segments_ok(b, left@),
            segments_ok(b, right@),
            seen == segments_text(b, segments@.subrange(0, k as int)).len(),
            seen <= index ==> segments_text(b, left@) == segments_text(b, segments@.subrange(0, k as int))
                && right@.len() == 0,
            seen > index ==> segments_text(b, left@) == segments_text(b, segments@.subrange(0, k as int)).subrange(0, index as int)
                && segments_text(b, right@) == segments_text(b, segments@.subrange(0, k as int)).subrange(index as int, seen as int),
        decreases segments@.len() - k,
    {
        let segment = segments[k];
        let ghost tk = segments_text(b, segments@.subrange(0, k as int));
        let ghost st = segment.text(b);
        assert(segments@[k as int].valid_in(b) && segment.begin < segment.end);
        let chars = segment.chars(buffer);
        let n = chars.len();
        proof {
            assert(segments@.subrange(0, k + 1).drop_last() =~= segments@.subrange(0, k as int));
            lemma_segments_prefix(b, segments@, k + 1);
            lemma_utf8_len_bounds(segments_text(b, segments@.subrange(0, k + 1)));
            lemma_segment_len(b, segment);
        }
        if seen + n <= index {
            proof {
                lemma_segments_text_push(b, left@, segment);
                assert(segments_ok(b, left@.push(segment)));
            }
            left.push(segment);
        } else if seen >= index {
            proof {
                lemma_segments_text_push(b, right@, segment);
                assert(segments_ok(b, right@.push(segment)));
                if seen == index {
                    assert(tk.subrange(0, index as int) =~= tk);
                    assert(Seq::<char>::empty() + st =~= (tk + st).subrange(index as int, seen + n));
                    assert(segments_text(b, right@) =~= Seq::<char>::empty());
                }
                assert((tk + st).subrange(0, index as int) =~= tk.subrange(0, index as int));
                assert((tk + st).subrange(index as int, seen + n) =~= tk.subrange(index as int, seen as int) + st);
            }
            right.push(segment);
        } else {
            let local = index - seen;
            proof {
                assert(chars@ == st);
                assert(st.subrange(0, 0) =~= Seq::<char>::empty());
                crate::text::lemma_utf8_empty();
                assert(st.subrange(0, n as int) =~= st);
                lemma_subsegment(b, segment, 0, local as int);
                lemma_subsegment(b, segment, local as int, n as int);
                lemma_utf8_len_bounds(st.subrange(0, local as int));
                lemma_utf8_len_bounds(st.subrange(local as int, n as int));
            }
            let offset = char_offset_of(chars.as_slice(), local);
            let (first, second) = segment.split_at(offset);
            proof {
                lemma_segments_text_push(b, left@, first);
                lemma_segments_text_push(b, right@, second);
                assert(segments_ok(b, left@.push(first)));
                assert(segments_ok(b, right@.push(second)));
                assert(segments_text(b, right@) =~= Seq::<char>::empty());
                assert(tk + st.subrange(0, local as int) =~= (tk + st).subrange(0, index as int));
                assert(Seq::<char>::empty() + st.subrange(local as int, n as int) =~= (tk + st).subrange(index as int, seen + n));
            }
            left.push(first);
            right.push(second);
        }
        seen = seen + n;
        k = k + 1;
    }
    proof {
        assert(segments@.subrange(0, k as int) =~= segments@);
        let t = segments_text(b, segments@);
        if seen <= index {
            assert(t.subrange(0, index as int) =~= t);
            assert(t.subrange(index as int, t.len() as int) =~= Seq::<char>::empty());
        }
    }
    (left, right)
}

/// [`PersistentString`] storing each version as a flat list of segments of one
/// append-only byte buffer; segments are shared by value across versions.
#[derive(Debug)]
pub struct LongBufferPersistentString {
    buffer: Vec<u8>,
    versions: Vec<Version>,
    current_version: usize,
}

impl LongBufferPersistentString {
    /// Creates an empty string at version `0`.
    pub fn new() -> (r: Self)
        ensures
            r.well_formed(),
            r.model() == History::initial(),
    {
        let mut versions: Vec<Version> = Vec::new();
        versions.push(Version { segments: Vec::new(), length: 0 });
        let r = LongBufferPersistentString { buffer: Vec::new(), versions, current_version: 0 };
        proof {
            crate::text::lemma_utf8_empty();
            assert(r.model().versions =~= History::initial().versions);
        }
        r
    }

    /// The current version.
    fn current(&self) -> (r: &Version)
        requires
            self.well_formed(),
        ensures
            version_ok(self.buffer@, *r),
            segments_text(self.buffer@, r.segments@) == self.model().text(),
    {
        &self.versions[self.current_version]
    }

    /// Stores `version` as a new version and makes it current.
    fn bump_version(&mut self, version: Version)
        requires
            old(self).well_formed(),
            version_ok(old(self).buffer@, version),
        ensures
            final(self).well_formed(),
            final(self).model() == old(self).model().commit(segments_text(old(self).buffer@, version.segments@)),
    {
        let new_version = self.versions.len();
        self.versions.push(version);
        self.current_version = new_version;
        proof {
            assert(self.model().versions =~= old(self).model().commit(segments_text(old(self).buffer@, version.segments@)).versions);
        }
    }

    /// Appends `text` to the byte buffer; returns the segment covering it.
    fn append_to_buffer(&mut self, text: &str) -> (r: BytesSegment)
        requires
            old(self).well_formed(),
        ensures
            final(self).well_formed(),
            final(self).model() == old(self).model(),
            final(self).versions@ == old(self).versions@,
            final(self).current_version == old(self).current_version,
            final(self).buffer@.len() >= old(self).buffer@.len(),
            final(self).buffer@.subrange(0, old(self).buffer@.len() as int) == old(self).buffer@,
            r.valid_in(final(self).buffer@),
            r.text(final(self).buffer@) == text@,
    {
        let r = append_str(&mut self.buffer, text);
        proof {
            let (b0, b1) = (old(self).buffer@, self.buffer@);
            assert(b1.subrange(0, b0.len() as int) =~= b0);
            assert forall|v: int| 0 <= v < self.versions@.len() implies #[trigger] version_ok(b1, self.versions@[v]) by {
                assert(version_ok(b0, self.versions@[v]));
                lemma_segments_frame(b0, b1, self.versions@[v].segments@);
            }
            assert forall|v: int| 0 <= v < self.versions@.len() implies #[trigger] self.model().versions[v]
                == old(self).model().versions[v] by {
                assert(version_ok(b0, self.versions@[v]));
                lemma_segments_frame(b0, b1, self.versions@[v].segments@);
            }
            assert(self.model().versions =~= old(self).model().versions);
        }
        r
    }

    /// Builds the text of `version`.
    fn build<'a>(&'a self, version: &'a Version) -> (r: Cow<'a, str>)
        requires
            version_ok(self.buffer@, *version),
        ensures
            r@ == segments_text(self.buffer@, version.segments@),
    {
        if version.segments.len() == 1 {
            let segment = version.segments[0];
            proof {
                assert(version.segments@.drop_last() =~= Seq::<BytesSegment>::empty());
                assert(version.segments@[0].valid_in(self.buffer@));
                assert(segments_text(self.buffer@, version.segments@.drop_last()) == Seq::<char>::empty());
                assert(Seq::<char>::empty() + segment.text(self.buffer@) =~= segment.text(self.buffer@));
            }
            return Cow::Borrowed(segment.as_str(self.buffer.as_slice()));
        }
        let chars = segments_chars(self.buffer.as_slice(), version.segments.as_slice());
        Cow::Owned(string_of(chars.as_slice()))
    }

    /// Appends the text `suffix` as a new version.
    fn append_text(&mut self, suffix: &str)
        requires
            old(self).well_formed(),
            utf8_len(old(self).model().text() + suffix@) <= usize::MAX,
        ensures
            final(self).well_formed(),
            final(self).model() == old(self).model().commit(old(self).model().text() + suffix@),
    {
        let ghost t = self.model().text();
        let segment = self.append_to_buffer(suffix);
        let ghost b = self.buffer@;
        let current = self.current();
        let mut segments = copy_segments(current.segments.as_slice());
        let length = current.length;
        proof {
            lemma_segment_len(b, segment);
            lemma_utf8_len_concat(t, suffix@);
        }
        if segment.begin < segment.end {
            proof {
                lemma_segments_text_push(b, segments@, segment);
                assert(segments_ok(b, segments@.push(segment)));
            }
            segments.push(segment);
        } else {
            proof {
                lemma_utf8_len_bounds(suffix@);
                assert(t + suffix@ =~= t);
            }
        }
        self.bump_version(Version { segments, length: length + segment.len() });
    }
}

impl Default for LongBufferPersistentString {
    fn default() -> (r: Self)
        ensures
            r.well_formed(),
            r.model() == History::initial(),
    {
        Self::new()
    }
}

/// Total number of bytes covered by `segments`.
fn segments_length(buffer: &[u8], segments: &[BytesSegment]) -> (r: usize)
    requires
        segments_ok(buffer@, segments@),
        utf8_len(segments_text(buffer@, segments@)) <= usize::MAX,
    ensures
        r == utf8_len(segments_text(buffer@, segments@)),
{
    let mut r: usize = 0;
    let mut i: usize = 0;
    proof {
        assert(segments@.subrange(0, 0) =~= Seq::<BytesSegment>::empty());
        crate::text::lemma_utf8_empty();
    }
    while i < segments.len()
        invariant
            i <= segments@.len(),
            segments_ok(buffer@, segments@),
            utf8_len(segments_text(buffer@, segments@)) <= usize::MAX,
            r == utf8_len(segments_text(buffer@, segments@.subrange(0, i as int))),
        decreases segments@.len() - i,
    {
        let segment = segments[i];
        proof {
            assert(segment.valid_in(buffer@));
            lemma_segment_len(buffer@, segment);
            assert(segments@.subrange(0, i + 1).drop_last() =~= segments@.subrange(0, i as int));
            lemma_utf8_len_concat(segments_text(buffer@, segments@.subrange(0, i as int)), segment.text(buffer@));
            lemma_segments_prefix(buffer@, segments@, i + 1);
        }
        r = r + segment.len();
        i = i + 1;
    }
    assert(segments@.subrange(0, i as int) =~= segments@);
    r
}

impl PersistentString for LongBufferPersistentString {
    closed spec fn model(&self) -> History {
        History {
            versions: version_texts(self.buffer@, self.versions@),
            current: self.current_version as nat,
        }
    }

    closed spec fn well_formed(&self) -> bool {
        &&& self.versions@.len() > 0
        &&& self.versions@[0].segments@.len() == 0
        &&& self.current_version < self.versions@.len()
        &&& forall|v: int| 0 <= v < self.versions@.len() ==> #[trigger] version_ok(self.buffer@, self.versions@[v])
    }

    proof fn lemma_model_valid(&self) {
    }

    fn new() -> (r: Self) {
        LongBufferPersistentString::new()
    }

    fn version(&self) -> (r: usize) {
        self.current_version
    }

    fn latest_version(&self) -> (r: usize) {
        self.versions.len() - 1
    }

    fn try_switch_version(&mut self, version: usize) -> (r: Result<(), VersionSwitchError>) {
        if version < self.versions.len() {
            self.current_version = version;
            Ok(())
        } else {
            Err(VersionSwitchError::InvalidVersion(version))
        }
    }

    fn switch_version(&mut self, version: usize) {
        self.current_version = version;
    }

    fn snapshot(&self) -> (r: Cow<'_, str>) {
        self.build(self.current())
    }

    fn is_empty(&self) -> (r: bool) {
        proof {
            lemma_utf8_len_bounds(self.model().text());
        }
        self.current().length == 0
    }

    fn len(&self) -> (r: usize) {
        self.current().length
    }

    fn pop(&mut self) -> (r: Option<char>) {
        let ghost t = self.model().text();
        let ghost b = self.buffer@;
        let current = self.current();
        let mut segments = copy_segments(current.segments.as_slice());
        let length = current.length;
        let n = segments.len();
        if n == 0 {
            self.bump_version(Version { segments, length });
            return None;
        }
        let last = segments[n - 1];
        let ghost init = segments@.drop_last();
        let ghost old_segments = segments@;
        let ghost lt = last.text(b);
        let chars = last.chars(self.buffer.as_slice());
        let ghost m = chars@.len();
        proof {
            assert(segments@[n - 1].valid_in(b) && last.begin < last.end);
            lemma_segment_len(b, last);
            lemma_utf8_len_bounds(lt);
            assert(segments_ok(b, init));
            assert(t == segments_text(b, init) + lt);
        }
        let c = chars[chars.len() - 1];
        let w = char_width(c);
        proof {
            lemma_utf8_len_split(lt, m - 1);
            assert(lt.subrange(m - 1, m as int) =~= seq![c]);
            assert(lt.subrange(0, m as int) =~= lt);
            lemma_subsegment(b, last, 0, m - 1);
            assert(lt.subrange(0, 0) =~= Seq::<char>::empty());
            crate::text::lemma_utf8_empty();
            assert(lt.drop_last() =~= lt.subrange(0, m - 1));
            assert(t.drop_last() =~= segments_text(b, init) + lt.drop_last());
            lemma_utf8_len_concat(segments_text(b, init), lt);
            lemma_utf8_len_concat(segments_text(b, init), lt.drop_last());
        }
        if last.len() == w {
            segments.pop();
            proof {
                lemma_utf8_len_bounds(lt.drop_last());
                assert(lt.drop_last() =~= Seq::<char>::empty());
                assert(segments@ =~= init);
                assert(t.drop_last() =~= segments_text(b, init));
            }
        } else {
            let shrunk = BytesSegment::new(last.begin, last.end - w);
            segments.set(n - 1, shrunk);
            proof {
                assert(segments@ =~= init.push(shrunk));
                lemma_segments_text_push(b, init, shrunk);
                assert forall|i: int| 0 <= i < segments@.len() implies (#[trigger] segments@[i]).valid_in(b)
                    && segments@[i].begin < segments@[i].end by {
                    if i < n - 1 {
                        assert(segments@[i] == init[i]);
                        assert(init[i] == old_segments[i]);
                    }
                }
            }
        }
        self.bump_version(Version { segments, length: length - w });
        Some(c)
    }

    fn push(&mut self, character: char) {
        let single: Vec<char> = vec![character];
        let suffix = string_of(single.as_slice());
        proof {
            assert(suffix@ =~= seq![character]);
            lemma_utf8_len_bounds(suffix@);
            assert(old(self).model().text().push(character) =~= old(self).model().text() + suffix@);
        }
        self.append_text(suffix.as_str());
    }

    fn push_str(&mut self, suffix: &str) {
        self.append_text(suffix);
    }

    fn repeat(&mut self, times: usize) {
        let ghost t = self.model().text();
        let ghost b = self.buffer@;
        let current = self.current();
        let mut segments: Vec<BytesSegment> = Vec::new();
        let mut k: usize = 0;
        proof {
            lemma_repeat_len(t, times as nat);
            assert(segments_text(b, segments@) =~= repeat_text(t, 0));
        }
        while k < times
            invariant
                k <= times,
                version_ok(b, *current),
                segments_text(b, current.segments@) == t,
                segments_ok(b, segments@),
                segments_text(b, segments@) == repeat_text(t, k as nat),
            decreases times - k,
        {
            proof {
                lemma_segments_text_concat(b, segments@, current.segments@);
                lemma_segments_ok_concat(b, segments@, current.segments@);
            }
            extend_segments(&mut segments, current.segments.as_slice());
            k = k + 1;
        }
        proof {
            lemma_repeat_len(t, times as nat);
        }
        let length = current.length * times;
        self.bump_version(Version { segments, length });
    }

    fn remove(&mut self, index: usize) -> (r: char) {
        let ghost t = self.model().text();
        let ghost b = self.buffer@;
        let current = self.current();
        proof {
            lemma_shrink_utf8_len(t, index as int);
        }
        let (mut left, rest) = split_segments(self.buffer.as_slice(), current.segments.as_slice(), index);
        let ghost rt = t.subrange(index as int, t.len() as int);
        proof {
            lemma_utf8_len_split(t, index as int);
        }
        let (middle, right) = split_segments(self.buffer.as_slice(), rest.as_slice(), 1);
        let removed_chars = segments_chars(self.buffer.as_slice(), middle.as_slice());
        let c = removed_chars[0];
        proof {
            assert(rt.subrange(0, 1) =~= seq![t[index as int]]);
            assert(rt.subrange(1, rt.len() as int) =~= t.subrange(index + 1, t.len() as int));
            lemma_segments_text_concat(b, left@, right@);
            lemma_segments_ok_concat(b, left@, right@);
            assert(t.remove(index as int) =~= t.subrange(0, index as int) + t.subrange(index + 1, t.len() as int));
            assert(t =~= t.subrange(0, index as int) + seq![c] + t.subrange(index + 1, t.len() as int));
            lemma_utf8_len_concat(t.subrange(0, index as int) + seq![c], t.subrange(index + 1, t.len() as int));
            lemma_utf8_len_concat(t.subrange(0, index as int), seq![c]);
            lemma_utf8_len_concat(t.subrange(0, index as int), t.subrange(index + 1, t.len() as int));
        }
        let length = current.length - char_width(c);
        extend_segments(&mut left, right.as_slice());
        self.bump_version(Version { segments: left, length });
        c
    }

    fn retain<F: Fn(char) -> bool>(&mut self, filter: F) {
        let ghost t = self.model().text();
        let ghost b = self.buffer@;
        let current = self.current();
        let mut segments: Vec<BytesSegment> = Vec::new();
        let mut k: usize = 0;
        proof {
            assert(current.segments@.subrange(0, 0) =~= Seq::<BytesSegment>::empty());
            reveal(Seq::filter);
            assert(segments_text(b, current.segments@.subrange(0, 0)) == Seq::<char>::empty());
        }
        while k < current.segments.len()
            invariant
                k <= current.segments@.len(),
                is_char_predicate(filter),
                version_ok(b, *current),
                b == self.buffer@,
                segments_ok(b, segments@),
                segments_text(b, segments@) == retained(segments_text(b, current.segments@.subrange(0, k as int)), filter),
                all_answered(filter, segments_text(b, current.segments@.subrange(0, k as int))),
            decreases current.segments@.len() - k,
        {
            let segment = current.segments[k];
            proof {
                assert(segment.valid_in(b));
                let p = |c: char| filter.ensures((c,), true);
                assert(current.segments@.subrange(0, k + 1).drop_last() =~= current.segments@.subrange(0, k as int));
                Seq::filter_distributes_over_add(segments_text(b, current.segments@.subrange(0, k as int)), segment.text(b), p);
            }
            retain_segment(self.buffer.as_slice(), segment, &filter, &mut segments);
            proof {
                lemma_all_answered_concat(filter, segments_text(b, current.segments@.subrange(0, k as int)), segment.text(b));
            }
            k = k + 1;
        }
        proof {
            assert(current.segments@.subrange(0, k as int) =~= current.segments@);
            lemma_filter_utf8_len(t, |c: char| filter.ensures((c,), true));
        }
        let length = segments_length(self.buffer.as_slice(), segments.as_slice());
        self.bump_version(Version { segments, length });
    }

    fn insert(&mut self, index: usize, character: char) {
        let single: Vec<char> = vec![character];
        let insertion = string_of(single.as_slice());
        proof {
            assert(insertion@ =~= seq![character]);
            lemma_utf8_len_bounds(insertion@);
            assert(old(self).model().text().push(character) =~= old(self).model().text() + insertion@);
            assert(old(self).model().text().insert(index as int, character) =~= splice_text(old(self).model().text(), index as int, insertion@));
        }
        self.insert_str(index, insertion.as_str());
    }

    fn insert_str(&mut self, index: usize, insertion: &str) {
        let ghost t = self.model().text();
        let segment = self.append_to_buffer(insertion);
        let ghost b = self.buffer@;
        let current = self.current();
        proof {
            lemma_segment_len(b, segment);
            lemma_splice_utf8_len(t, index as int, insertion@);
            lemma_utf8_len_concat(t, insertion@);
            lemma_utf8_len_bounds(t);
        }
        let (mut left, right) = split_segments(self.buffer.as_slice(), current.segments.as_slice(), index);
        if segment.begin < segment.end {
            proof {
                lemma_segments_text_push(b, left@, segment);
                assert(segments_ok(b, left@.push(segment)));
            }
            left.push(segment);
        } else {
            proof {
                lemma_utf8_len_bounds(insertion@);
                assert(segments_text(b, left@) + insertion@ =~= segments_text(b, left@));
            }
        }
        proof {
            lemma_segments_text_concat(b, left@, right@);
            lemma_segments_ok_concat(b, left@, right@);
            assert(splice_text(t, index as int, insertion@) =~= t.subrange(0, index as int) + insertion@ + t.subrange(index as int, t.len() as int));
        }
        let length = current.length + segment.len();
        extend_segments(&mut left, right.as_slice());
        self.bump_version(Version { segments: left, length });
    }
}

} // verus!
