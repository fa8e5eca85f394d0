use std::borrow::Cow;
use vstd::prelude::*;

verus! {

use crate::history::History;
use crate::text::{
    all_answered, lemma_all_answered_push,
    append_chars, chars_of, is_char_predicate, lemma_filter_utf8_len, lemma_insert_utf8_len,
    lemma_repeat_len, lemma_shrink_utf8_len, lemma_splice_utf8_len, popped_text, repeat_chars,
    repeat_text, retained, splice_chars, splice_text, string_of, utf8_len, utf8_len_of,
};
use crate::{PersistentString, VersionSwitchError};

/// An operation mutating the string.
#[derive(Clone, Debug)]
enum Delta {
    Push(char),
    PushStr(String),
    Pop,
    Repeat(usize),
    Remove(usize),
    /// Keeps the characters whose flag is `true`.
    Retain(Vec<bool>),
    Insert(usize, char),
    InsertStr(usize, String),
}

/// The characters of `t` whose flag in `keep` is `true`, in order.
pub open spec fn masked(t: Seq<char>, keep: Seq<bool>) -> Seq<char>
    decreases t.len(),
{
    if t.len() == 0 || keep.len() != t.len() {
        Seq::empty()
    } else {
        let rest = masked(t.drop_last(), keep.drop_last());
        if keep.last() {
            rest.push(t.last())
        } else {
            rest
        }
    }
}

spec fn delta_result(delta: Delta, t: Seq<char>) -> Seq<char> {
    match delta {
        Delta::Push(c) => t.push(c),
        Delta::PushStr(s) => t + s@,
        Delta::Pop => popped_text(t),
        Delta::Repeat(n) => repeat_text(t, n as nat),
        Delta::Remove(i) => t.remove(i as int),
        Delta::Retain(keep) => masked(t, keep@),
        Delta::Insert(i, c) => t.insert(i as int, c),
        Delta::InsertStr(i, s) => splice_text(t, i as int, s@),
    }
}

/// `delta` can be replayed on `t` without failing.
spec fn applicable(delta: Delta, t: Seq<char>) -> bool {
    &&& utf8_len(delta_result(delta, t)) <= usize::MAX
    &&& match delta {
        Delta::Repeat(n) => utf8_len(t) * n <= usize::MAX,
        Delta::Remove(i) => i < t.len(),
        Delta::Retain(keep) => keep@.len() == t.len(),
        Delta::Insert(i, _) => i <= t.len(),
        Delta::InsertStr(i, _) => i <= t.len(),
        _ => true,
    }
}

impl Delta {
    /// Replays this operation on `text`.
    fn apply(&self, text: Vec<char>) -> (r: Vec<char>)
        requires
            applicable(*self, text@),
        ensures
            r@ == delta_result(*self, text@),
    {
        let mut text = text;
        match self {
            Delta::Push(c) => {
                text.push(*c);
                text
            },
            Delta::PushStr(suffix) => {
                let chars = chars_of(suffix.as_str());
                append_chars(&mut text, chars.as_slice());
                text
            },
            Delta::Pop => {
                let ghost t = text@;
                text.pop();
                proof {
                    if t.len() > 0 {
                        assert(text@ =~= t.drop_last());
                    }
                }
                text
            },
            Delta::Repeat(times) => repeat_chars(text.as_slice(), *times),
            Delta::Remove(index) => {
                text.remove(*index);
                text
            },
            Delta::Retain(keep) => mask_chars(text.as_slice(), keep.as_slice()),
            Delta::Insert(index, c) => {
                text.insert(*index, *c);
                text
            },
            Delta::InsertStr(index, insertion) => {
                let chars = chars_of(insertion.as_str());
                splice_chars(text.as_slice(), *index, chars.as_slice())
            },
        }
    }
}

/// The characters of `t` whose flag in `keep` is `true`.
fn mask_chars(t: &[char], keep: &[bool]) -> (r: Vec<char>)
    requires
        keep@.len() == t@.len(),
    ensures
        r@ == masked(t@, keep@),
{
    let mut r: Vec<char> = Vec::new();
    let mut i: usize = 0;
    while i < t.len()
        invariant
            i <= t@.len(),
            keep@.len() == t@.len(),
            r@ == masked(t@.subrange(0, i as int), keep@.subrange(0, i as int)),
        decreases t@.len() - i,
    {
        proof {
            assert(t@.subrange(0, i + 1).drop_last() =~= t@.subrange(0, i as int));
            assert(keep@.subrange(0, i + 1).drop_last() =~= keep@.subrange(0, i as int));
        }
        if keep[i] {
            r.push(t[i]);
        }
        i = i + 1;
    }
    assert(t@.subrange(0, i as int) =~= t@);
    assert(keep@.subrange(0, i as int) =~= keep@);
    r
}

/// The flags of `filter` on each character of `t`.
fn filter_flags<F: Fn(char) -> bool>(t: &[char], filter: &F) -> (r: Vec<bool>)
    requires
        is_char_predicate(*filter),
    ensures
        r@.len() == t@.len(),
        masked(t@, r@) == retained(t@, *filter),
        all_answered(*filter, t@),
{
    let mut r: Vec<bool> = Vec::new();
    let mut i: usize = 0;
    while i < t.len()
        invariant
            i <= t@.len(),
            r@.len() == i,
            is_char_predicate(*filter),
            masked(t@.subrange(0, i as int), r@) == retained(t@.subrange(0, i as int), *filter),
            all_answered(*filter, t@.subrange(0, i as int)),
        decreases t@.len() - i,
    {
        let c = t[i];
        let keep = filter(c);
        proof {
            lemma_all_answered_push(*filter, t@.subrange(0, i as int), c);
            assert(t@.subrange(0, i as int).push(c) =~= t@.subrange(0, i + 1));
            reveal(Seq::filter);
            assert(t@.subrange(0, i + 1).drop_last() =~= t@.subrange(0, i as int));
            assert(r@.push(keep).drop_last() =~= r@);
            if !keep {
                assert(!filter.ensures((c,), true));
            }
        }
        r.push(keep);
        i = i + 1;
    }
    assert(t@.subrange(0, i as int) =~= t@);
    r
}

/// One version: the operation that produced it from its parent version.
#[derive(Clone, Debug)]
struct Record {
    parent: usize,
    delta: Delta,
}

/// The text of version `v`: version `0` is empty, version `v > 0` is produced by
/// record `v - 1` from its parent.
spec fn text_at(records: Seq<Record>, v: nat) -> Seq<char>
    decreases v,
{
    if v == 0 || v > records.len() {
        Seq::empty()
    } else {
        let record = records[v - 1];
        if record.parent < v {
            delta_result(record.delta, text_at(records, record.parent as nat))
        } else {
            Seq::empty()
        }
    }
}

spec fn record_ok(records: Seq<Record>, v: int) -> bool {
    &&& records[v - 1].parent < v
    &&& applicable(records[v - 1].delta, text_at(records, records[v - 1].parent as nat))
}

spec fn records_ok(records: Seq<Record>) -> bool {
    forall|v: int| 1 <= v <= records.len() ==> #[trigger] record_ok(records, v)
}

/// Adding records leaves the text of existing versions unchanged.
proof fn lemma_text_frame(records: Seq<Record>, more: Seq<Record>, v: nat)
    requires
        records_ok(records),
        v <= records.len(),
        records.len() <= more.len(),
        more.subrange(0, records.len() as int) == records,
    ensures
        text_at(more, v) == text_at(records, v),
    decreases v,
{
    if v > 0 {
        assert(record_ok(records, v as int));
        assert(more[v - 1] == records[v - 1]);
        lemma_text_frame(records, more, records[v - 1].parent as nat);
    }
}

/// [`PersistentString`] which only stores the operation producing each version
/// from its parent version, replaying them to build a version's text.
#[derive(Clone, Debug)]
pub struct DeltaPersistentString {
    /// Record `v - 1` produces version `v`.
    deltas: Vec<Record>,
    /// Handle of the current version.
    current_version: usize,
}

impl DeltaPersistentString {
    /// Creates an empty string at version `0`.
    pub fn new() -> (r: Self)
        ensures
            r.well_formed(),
            r.model() == History::initial(),
    {
        let r = DeltaPersistentString { deltas: Vec::new(), current_version: 0 };
        assert(r.model().versions =~= History::initial().versions);
        r
    }

    /// Replays the operations leading to version `v`.
    fn generate(&self, v: usize) -> (r: Vec<char>)
        requires
            self.well_formed(),
            v <= self.deltas@.len(),
        ensures
            r@ == text_at(self.deltas@, v as nat),
        decreases v,
    {
        if v == 0 {
            Vec::new()
        } else {
            proof {
                assert(record_ok(self.deltas@, v as int));
            }
            let record = &self.deltas[v - 1];
            let parent = self.generate(record.parent);
            record.delta.apply(parent)
        }
    }

    /// The text of the current version.
    fn current_text(&self) -> (r: Vec<char>)
        requires
            self.well_formed(),
        ensures
            r@ == self.model().text(),
    {
        self.generate(self.current_version)
    }

    /// Records `delta`, applied to the current version, as a new version and makes it current.
    fn push_delta(&mut self, delta: Delta)
        requires
            old(self).well_formed(),
            applicable(delta, old(self).model().text()),
        ensures
            final(self).well_formed(),
            final(self).model() == old(self).model().commit(delta_result(delta, old(self).model().text())),
    {
        let ghost old_records = self.deltas@;
        let current_version = self.current_version;
        self.deltas.push(Record { parent: current_version, delta });
        self.current_version = self.deltas.len();
        proof {
            let records = self.deltas@;
            assert(records.subrange(0, old_records.len() as int) =~= old_records);
            assert forall|v: int| 0 <= v <= old_records.len() implies #[trigger] text_at(records, v as nat)
                == text_at(old_records, v as nat) by {
                lemma_text_frame(old_records, records, v as nat);
            }
            assert forall|v: int| 1 <= v <= records.len() implies #[trigger] record_ok(records, v) by {
                if v <= old_records.len() {
                    assert(record_ok(old_records, v));
                    assert(records[v - 1] == old_records[v - 1]);
                    lemma_text_frame(old_records, records, records[v - 1].parent as nat);
                } else {
                    lemma_text_frame(old_records, records, current_version as nat);
                }
            }
            lemma_text_frame(old_records, records, current_version as nat);
            assert(text_at(records, records.len() as nat) == delta_result(delta, old(self).model().text()));
            assert(self.model().versions =~= old(self).model().commit(delta_result(delta, old(self).model().text())).versions);
        }
    }
}

impl Default for DeltaPersistentString {
    fn default() -> (r: Self)
        ensures
            r.well_formed(),
            r.model() == History::initial(),
    {
        Self::new()
    }
}

impl PersistentString for DeltaPersistentString {
    closed spec fn model(&self) -> History {
        History {
            versions: Seq::new((self.deltas@.len() + 1) as nat, |v: int| text_at(self.deltas@, v as nat)),
            current: self.current_version as nat,
        }
    }

    closed spec fn well_formed(&self) -> bool {
        &&& self.current_version <= self.deltas@.len()
        &&& records_ok(self.deltas@)
    }

    proof fn lemma_model_valid(&self) {
    }

    fn new() -> (r: Self) {
        DeltaPersistentString::new()
    }

    fn version(&self) -> (r: usize) {
        self.current_version
    }

    fn latest_version(&self) -> (r: usize) {
        self.deltas.len()
    }

    fn try_switch_version(&mut self, version: usize) -> (r: Result<(), VersionSwitchError>) {
        if version <= self.deltas.len() {
            self.current_version = version;
            Ok(())
        } else {
            Err(VersionSwitchError::InvalidVersion(version))
        }
    }

    fn switch_version(&mut self, version: usize) {
        self.current_version = version;
    }

    fn snapshot(&self) -> (r: Cow<'_, str>) {
        let text = self.current_text();
        Cow::Owned(string_of(text.as_slice()))
    }

    fn is_empty(&self) -> (r: bool) {
        self.current_text().len() == 0
    }

    fn len(&self) -> (r: usize) {
        proof {
            let v = self.current_version as int;
            if v > 0 {
                assert(record_ok(self.deltas@, v));
            }
        }
        let text = self.current_text();
        utf8_len_of(text.as_slice())
    }

    fn pop(&mut self) -> (r: Option<char>) {
        let text = self.current_text();
        proof {
            if text@.len() > 0 {
                lemma_shrink_utf8_len(text@, 0);
            }
            self.lemma_text_fits();
        }
        self.push_delta(Delta::Pop);
        if text.len() == 0 {
            None
        } else {
            Some(text[text.len() - 1])
        }
    }

    fn push(&mut self, character: char) {
        self.push_delta(Delta::Push(character));
    }

    fn push_str(&mut self, suffix: &str) {
        let owned = string_of(chars_of(suffix).as_slice());
        self.push_delta(Delta::PushStr(owned));
    }

    fn repeat(&mut self, times: usize) {
        proof {
            lemma_repeat_len(self.model().text(), times as nat);
        }
        self.push_delta(Delta::Repeat(times));
    }

    fn remove(&mut self, index: usize) -> (r: char) {
        let text = self.current_text();
        proof {
            lemma_shrink_utf8_len(text@, index as int);
            self.lemma_text_fits();
        }
        self.push_delta(Delta::Remove(index));
        text[index]
    }

    fn retain<F: Fn(char) -> bool>(&mut self, filter: F) {
        let text = self.current_text();
        let keep = filter_flags(text.as_slice(), &filter);
        proof {
            lemma_filter_utf8_len(text@, |c: char| filter.ensures((c,), true));
            self.lemma_text_fits();
        }
        self.push_delta(Delta::Retain(keep));
    }

    fn insert(&mut self, index: usize, character: char) {
        proof {
            lemma_insert_utf8_len(self.model().text(), index as int, character);
        }
        self.push_delta(Delta::Insert(index, character));
    }

    fn insert_str(&mut self, index: usize, insertion: &str) {
        let owned = string_of(chars_of(insertion).as_slice());
        proof {
            lemma_splice_utf8_len(self.model().text(), index as int, insertion@);
        }
        self.push_delta(Delta::InsertStr(index, owned));
    }
}

impl DeltaPersistentString {
    /// The current text's encoding fits in memory.
    proof fn lemma_text_fits(&self)
        requires
            self.well_formed(),
        ensures
            utf8_len(self.model().text()) <= usize::MAX,
    {
        let v = self.current_version as int;
        if v > 0 {
            assert(record_ok(self.deltas@, v));
        } else {
            crate::text::lemma_utf8_empty();
        }
    }
}

} // verus!
