use vstd::prelude::*;

verus! {

use crate::text::{
    lemma_push_then_pop, lemma_repeat_is_concatenation, popped_text, repeat_text, utf8_len,
};

/// The abstract state of a persistent string: the text of every version
/// ever allocated (indexed by handle) and the handle of the current one.
pub struct History {
    pub versions: Seq<Seq<char>>,
    pub current: nat,
}

impl History {
    /// A history holding only the empty version `0`.
    pub open spec fn initial() -> History {
        History { versions: seq![Seq::<char>::empty()], current: 0 }
    }

    pub open spec fn valid(self) -> bool {
        &&& self.current < self.versions.len()
        &&& self.versions[0] == Seq::<char>::empty()
    }

    /// The highest allocated handle.
    pub open spec fn latest(self) -> nat {
        (self.versions.len() - 1) as nat
    }

    /// The text of the current version.
    pub open spec fn text(self) -> Seq<char> {
        self.versions[self.current as int]
    }

    /// The history after making `version` current.
    pub open spec fn switch(self, version: nat) -> History {
        History { current: version, ..self }
    }

    /// The history after a mutation producing `t`: a new handle is allocated for `t`
    /// and becomes current.
    pub open spec fn commit(self, t: Seq<char>) -> History {
        History { versions: self.versions.push(t), current: self.versions.len() }
    }
}

/// `later` was reached from `earlier` by mutations and switches: every version of
/// `earlier` is still there with the same text.
pub open spec fn extends(earlier: History, later: History) -> bool {
    &&& earlier.versions.len() <= later.versions.len()
    &&& later.versions.subrange(0, earlier.versions.len() as int) == earlier.versions
}

/// A mutation keeps every existing version and its text.
pub proof fn lemma_commit_extends(h: History, t: Seq<char>)
    ensures
        extends(h, h.commit(t)),
{
    assert(h.commit(t).versions.subrange(0, h.versions.len() as int) =~= h.versions);
}

/// Switching keeps every existing version and its text.
pub proof fn lemma_switch_extends(h: History, version: nat)
    ensures
        extends(h, h.switch(version)),
{
    assert(h.versions.subrange(0, h.versions.len() as int) =~= h.versions);
}

/// Any sequence of mutations and switches keeps every existing version.
pub proof fn lemma_extends_trans(a: History, b: History, c: History)
    requires
        extends(a, b),
        extends(b, c),
    ensures
        extends(a, c),
{
    assert(c.versions.subrange(0, a.versions.len() as int) =~= b.versions.subrange(
        0,
        a.versions.len() as int,
    ));
}

/// Switching back to a version, however much happened since it was allocated, shows
/// exactly the text that was current right after its allocation.
pub proof fn lemma_switch_restores_snapshot(
    before: History,
    t: Seq<char>,
    later: History,
)
    requires
        extends(before.commit(t), later),
    ensures
        before.commit(t).current <= later.latest(),
        later.switch(before.commit(t).current).text() == before.commit(t).text(),
{
    let allocated = before.commit(t);
    assert(later.versions[allocated.current as int] == later.versions.subrange(
        0,
        allocated.versions.len() as int,
    )[allocated.current as int]);
}

/// After a mutation, switching to the version that was current when it ran shows
/// the text from before the mutation; the new handle differs from every earlier one.
pub proof fn lemma_predecessor_snapshot(h: History, t: Seq<char>)
    requires
        h.valid(),
    ensures
        h.commit(t).switch(h.current).text() == h.text(),
        h.commit(t).current == h.versions.len(),
        h.commit(t).current > h.latest(),
{
}

/// After a mutation, the current version is the latest one, and the history stays valid.
pub proof fn lemma_mutation_is_latest(h: History, t: Seq<char>)
    requires
        h.valid(),
    ensures
        h.commit(t).current == h.commit(t).latest(),
        h.commit(t).valid(),
        h.commit(t).text() == t,
{
}

/// Pushing a character and then popping: the pop returns that character, the text is
/// the one before the push, and each step allocated a new version that is current and latest.
pub proof fn lemma_push_then_pop_history(h: History, c: char)
    requires
        h.valid(),
    ensures
        ({
            let pushed = h.commit(h.text().push(c));
            let popped = pushed.commit(popped_text(pushed.text()));
            &&& pushed.text().len() > 0
            &&& pushed.text().last() == c
            &&& popped.text() == h.text()
            &&& utf8_len(popped.text()) == utf8_len(h.text())
            &&& popped.current == popped.latest()
            &&& popped.latest() == h.latest() + 2
            &&& extends(h, popped)
        }),
{
    let pushed = h.commit(h.text().push(c));
    lemma_push_then_pop(h.text(), c);
    lemma_commit_extends(h, h.text().push(c));
    lemma_commit_extends(pushed, popped_text(pushed.text()));
    lemma_extends_trans(h, pushed, pushed.commit(popped_text(pushed.text())));
}

/// Repeating a non-empty text `n >= 1` times allocates a new current, latest version
/// whose text is the old one written `n` times: `n` times as many characters and bytes,
/// character `i` being character `i mod len` of the old text; older versions are kept.
pub proof fn lemma_repeat_history(h: History, n: nat)
    requires
        h.valid(),
        n >= 1,
        h.text().len() > 0,
    ensures
        ({
            let r = h.commit(repeat_text(h.text(), n));
            &&& r.text().len() == n * h.text().len()
            &&& utf8_len(r.text()) == n * utf8_len(h.text())
            &&& forall|i: int|
                0 <= i < n * h.text().len() ==> #[trigger] r.text()[i] == h.text()[i % (
                h.text().len() as int)]
            &&& r.current == r.latest()
            &&& r.latest() == h.latest() + 1
            &&& extends(h, r)
        }),
{
    lemma_repeat_is_concatenation(h.text(), n);
    lemma_commit_extends(h, repeat_text(h.text(), n));
}

} // verus!
