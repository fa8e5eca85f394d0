use std::borrow::Cow;
use vstd::prelude::*;

verus! {

use crate::history::History;
use crate::text::{
    append_chars, chars_of, lemma_filter_utf8_len, lemma_insert_utf8_len, lemma_repeat_len,
    lemma_shrink_utf8_len, lemma_splice_utf8_len, popped_text, repeat_chars, retain_chars,
    splice_chars, string_of, utf8_len,
};
use crate::{PersistentString, VersionSwitchError};

/// [`PersistentString`] which keeps every version of itself in full,
/// cloning the current version on each mutation.
pub struct CowPersistentString {
    /// Text of every version, indexed by handle; version `0` is empty.
    versions: Vec<String>,
    /// Handle of the current version.
    current_id: usize,
}

impl CowPersistentString {
    /// Creates an empty string at version `0`.
    pub fn new() -> (r: Self)
        ensures
            r.well_formed(),
            r.model() == History::initial(),
    {
        let mut versions: Vec<String> = Vec::new();
        versions.push(String::new());
        let r = CowPersistentString { versions, current_id: 0 };
        assert(r.model().versions =~= History::initial().versions);
        r
    }

    /// The text of the current version.
    fn current_version(&self) -> (r: &String)
        requires
            self.well_formed(),
        ensures
            r@ == self.model().text(),
    {
        &self.versions[self.current_id]
    }

    /// The characters of the current version, copied out.
    fn current_chars(&self) -> (r: Vec<char>)
        requires
            self.well_formed(),
        ensures
            r@ == self.model().text(),
    {
        chars_of(self.current_version().as_str())
    }

    /// Stores `value` as a new version and makes it current.
    fn transform_version(&mut self, value: String)
        requires
            old(self).well_formed(),
            utf8_len(value@) <= usize::MAX,
        ensures
            final(self).well_formed(),
            final(self).model() == old(self).model().commit(value@),
    {
        let new_id = self.versions.len();
        self.versions.push(value);
        self.current_id = new_id;
        assert(self.model().versions =~= old(self).model().commit(value@).versions);
    }

    /// Stores the characters `value` as a new version and makes it current.
    fn clone_into_new_version(&mut self, value: Vec<char>)
        requires
            old(self).well_formed(),
            utf8_len(value@) <= usize::MAX,
        ensures
            final(self).well_formed(),
            final(self).model() == old(self).model().commit(value@),
    {
        let string = string_of(value.as_slice());
        self.transform_version(string);
    }
}

impl Default for CowPersistentString {
    fn default() -> (r: Self)
        ensures
            r.well_formed(),
            r.model() == History::initial(),
    {
        Self::new()
    }
}

impl PersistentString for CowPersistentString {
    closed spec fn model(&self) -> History {
        History { versions: self.versions@.map_values(|s: String| s@), current: self.current_id as nat }
    }

    closed spec fn well_formed(&self) -> bool {
        &&& self.current_id < self.versions@.len()
        &&& self.versions@[0]@ == Seq::<char>::empty()
        &&& forall|v: int| 0 <= v < self.versions@.len() ==> utf8_len(#[trigger] self.versions@[v]@) <= usize::MAX
    }

    proof fn lemma_model_valid(&self) {
    }

    fn new() -> (r: Self) {
        CowPersistentString::new()
    }

    fn version(&self) -> (r: usize) {
        self.current_id
    }

    fn latest_version(&self) -> (r: usize) {
        self.versions.len() - 1
    }

    fn try_switch_version(&mut self, version: usize) -> (r: Result<(), VersionSwitchError>) {
        if version < self.versions.len() {
            self.current_id = version;
            Ok(())
        } else {
            Err(VersionSwitchError::InvalidVersion(version))
        }
    }

    fn switch_version(&mut self, version: usize) {
        self.current_id = version;
    }

    fn snapshot(&self) -> (r: Cow<'_, str>) {
        Cow::Borrowed(self.current_version().as_str())
    }

    fn is_empty(&self) -> (r: bool) {
        self.current_version().as_str().is_empty()
    }

    fn len(&self) -> (r: usize) {
        self.current_version().as_str().len()
    }

    fn pop(&mut self) -> (r: Option<char>) {
        let mut chars = self.current_chars();
        let r = chars.pop();
        proof {
            if old(self).model().text().len() > 0 {
                lemma_shrink_utf8_len(old(self).model().text(), 0);
                assert(chars@ =~= popped_text(old(self).model().text()));
            }
        }
        self.clone_into_new_version(chars);
        r
    }

    fn push(&mut self, character: char) {
        let mut chars = self.current_chars();
        chars.push(character);
        self.clone_into_new_version(chars);
    }

    fn push_str(&mut self, suffix: &str) {
        let mut chars = self.current_chars();
        let tail = chars_of(suffix);
        append_chars(&mut chars, tail.as_slice());
        self.clone_into_new_version(chars);
    }

    fn repeat(&mut self, times: usize) {
        let chars = self.current_chars();
        let repeated = repeat_chars(chars.as_slice(), times);
        proof {
            lemma_repeat_len(chars@, times as nat);
        }
        self.clone_into_new_version(repeated);
    }

    fn remove(&mut self, index: usize) -> (r: char) {
        let mut chars = self.current_chars();
        let r = chars.remove(index);
        proof {
            lemma_shrink_utf8_len(old(self).model().text(), index as int);
        }
        self.clone_into_new_version(chars);
        r
    }

    fn retain<F: Fn(char) -> bool>(&mut self, filter: F) {
        let chars = self.current_chars();
        let kept = retain_chars(chars.as_slice(), &filter);
        proof {
            lemma_filter_utf8_len(chars@, |c: char| filter.ensures((c,), true));
        }
        self.clone_into_new_version(kept);
    }

    fn insert(&mut self, index: usize, character: char) {
        let mut chars = self.current_chars();
        chars.insert(index, character);
        proof {
            lemma_insert_utf8_len(old(self).model().text(), index as int, character);
        }
        self.clone_into_new_version(chars);
    }

    fn insert_str(&mut self, index: usize, insertion: &str) {
        let chars = self.current_chars();
        let inserted = chars_of(insertion);
        let spliced = splice_chars(chars.as_slice(), index, inserted.as_slice());
        proof {
            lemma_splice_utf8_len(chars@, index as int, inserted@);
        }
        self.clone_into_new_version(spliced);
    }
}

} // verus!
