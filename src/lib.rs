use vstd::prelude::*;

pub mod cow;
pub mod delta;
pub mod history;
pub mod long_buffer;
pub mod rope;
pub mod text;
pub mod util;

pub use cow::CowPersistentString;
pub use delta::DeltaPersistentString;
pub use history::History;
pub use long_buffer::LongBufferPersistentString;
pub use rope::RopePersistentString;

verus! {

use crate::text::{all_answered, is_char_predicate, popped_text, repeat_text, retained, splice_text, utf8_len};
use std::borrow::Cow;

/// An error which may occur when switching a version of a [`PersistentString`].
#[derive(Debug, Clone, PartialEq, Eq, Structural)]
pub enum VersionSwitchError {
    /// The specified version is invalid.
    InvalidVersion(usize),
}

impl VersionSwitchError {
    /// Human-readable description of the error.
    pub fn message(&self) -> String {
        match self {
            VersionSwitchError::InvalidVersion(version) => describe_invalid_version(*version),
        }
    }
}

/// Relies on `format!`: renders the message for a missing version.
#[verifier::external_body]
fn describe_invalid_version(version: usize) -> String {
    format!("there is no version {}", version)
}

/// A string providing persistent operations: every mutation creates a new version,
/// and every version ever created stays reachable.
pub trait PersistentString: Sized {
    /// The texts of all versions (index = handle) and the current handle.
    spec fn model(&self) -> History;

    /// Internal consistency of the representation; implies that the model is valid.
    spec fn well_formed(&self) -> bool;

    proof fn lemma_model_valid(&self)
        requires
            self.well_formed(),
        ensures
            self.model().valid(),
    ;

    /// Creates an empty string at version `0`.
    fn new() -> (r: Self)
        ensures
            r.well_formed(),
            r.model() == History::initial(),
    ;

    /// Gets the current version of this string.
    fn version(&self) -> (r: usize)
        requires
            self.well_formed(),
        ensures
            r == self.model().current,
    ;

    /// Gets the latest version of this string.
    fn latest_version(&self) -> (r: usize)
        requires
            self.well_formed(),
        ensures
            r == self.model().latest(),
    ;

    /// Attempts to switch to the specified version.
    fn try_switch_version(&mut self, version: usize) -> (r: Result<(), VersionSwitchError>)
        requires
            old(self).well_formed(),
        ensures
            final(self).well_formed(),
            r is Ok <==> version <= old(self).model().latest(),
            r is Ok ==> final(self).model() == old(self).model().switch(version as nat),
            r is Err ==> r == Err::<(), VersionSwitchError>(VersionSwitchError::InvalidVersion(version))
                && final(self).model() == old(self).model(),
    ;

    /// Switches to the specified version, which must exist.
    fn switch_version(&mut self, version: usize)
        requires
            old(self).well_formed(),
            version <= old(self).model().latest(),
        ensures
            final(self).well_formed(),
            final(self).model() == old(self).model().switch(version as nat),
    ;

    /// Creates a snapshot of the current version.
    fn snapshot(&self) -> (r: Cow<'_, str>)
        requires
            self.well_formed(),
        ensures
            r@ == self.model().text(),
    ;

    /// Checks whether the current version is empty.
    fn is_empty(&self) -> (r: bool)
        requires
            self.well_formed(),
        ensures
            r == (self.model().text().len() == 0),
    ;

    /// Gets the length of the current version in UTF-8 bytes.
    fn len(&self) -> (r: usize)
        requires
            self.well_formed(),
        ensures
            r == utf8_len(self.model().text()),
    ;

    /// Removes the last character of the current version into a new version and returns it,
    /// or `None` when the current version is empty.
    fn pop(&mut self) -> (r: Option<char>)
        requires
            old(self).well_formed(),
        ensures
            final(self).well_formed(),
            final(self).model() == old(self).model().commit(popped_text(old(self).model().text())),
            r == if old(self).model().text().len() == 0 {
                None
            } else {
                Some(old(self).model().text().last())
            },
    ;

    /// Appends the given character into a new version.
    fn push(&mut self, character: char)
        requires
            old(self).well_formed(),
            utf8_len(old(self).model().text().push(character)) <= usize::MAX,
        ensures
            final(self).well_formed(),
            final(self).model() == old(self).model().commit(old(self).model().text().push(character)),
    ;

    /// Appends the given string slice into a new version.
    fn push_str(&mut self, suffix: &str)
        requires
            old(self).well_formed(),
            utf8_len(old(self).model().text() + suffix@) <= usize::MAX,
        ensures
            final(self).well_formed(),
            final(self).model() == old(self).model().commit(old(self).model().text() + suffix@),
    ;

    /// Replaces the text by `times` copies of itself, in a new version.
    fn repeat(&mut self, times: usize)
        requires
            old(self).well_formed(),
            utf8_len(old(self).model().text()) * times <= usize::MAX,
        ensures
            final(self).well_formed(),
            final(self).model() == old(self).model().commit(
                repeat_text(old(self).model().text(), times as nat),
            ),
    ;

    /// Removes the character at the given character index into a new version and returns it.
    fn remove(&mut self, index: usize) -> (r: char)
        requires
            old(self).well_formed(),
            index < old(self).model().text().len(),
        ensures
            final(self).well_formed(),
            final(self).model() == old(self).model().commit(
                old(self).model().text().remove(index as int),
            ),
            r == old(self).model().text()[index as int],
    ;

    /// Keeps only the characters accepted by the filter, in a new version.
    ///
    /// The filter must act as a predicate: callable on every character, with one answer
    /// for each, so that the characters it keeps are determined by the text alone.
    fn retain<F: Fn(char) -> bool>(&mut self, filter: F)
        requires
            old(self).well_formed(),
            is_char_predicate(filter),
        ensures
            final(self).well_formed(),
            final(self).model() == old(self).model().commit(
                retained(old(self).model().text(), filter),
            ),
            all_answered(filter, old(self).model().text()),
    ;

    /// Inserts the given character before the given character index, in a new version.
    fn insert(&mut self, index: usize, character: char)
        requires
            old(self).well_formed(),
            index <= old(self).model().text().len(),
            utf8_len(old(self).model().text().push(character)) <= usize::MAX,
        ensures
            final(self).well_formed(),
            final(self).model() == old(self).model().commit(
                old(self).model().text().insert(index as int, character),
            ),
    ;

    /// Inserts the given string slice before the given character index, in a new version.
    fn insert_str(&mut self, index: usize, insertion: &str)
        requires
            old(self).well_formed(),
            index <= old(self).model().text().len(),
            utf8_len(old(self).model().text() + insertion@) <= usize::MAX,
        ensures
            final(self).well_formed(),
            final(self).model() == old(self).model().commit(
                splice_text(old(self).model().text(), index as int, insertion@),
            ),
    ;
}

} // verus!
