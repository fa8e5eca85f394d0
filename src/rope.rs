use std::borrow::Cow;
use vstd::prelude::*;
use vstd::utf8::*;

verus! {

broadcast use {encode_utf8_valid_utf8, encode_utf8_decode_utf8, decode_utf8_encode_utf8};

use crate::history::History;
use crate::text::{
    all_answered, lemma_all_answered_concat,
    append_chars, char_width, chars_of, is_char_predicate, lemma_filter_utf8_len, lemma_repeat_len,
    lemma_repeat_monotone, lemma_splice_utf8_len, lemma_utf8_len_bounds, lemma_utf8_len_concat,
    lemma_utf8_len_split, repeat_text, retained, splice_text, string_of, utf8_len,
};
use crate::util::string_segment::{
    append_str, char_offset_of, lemma_segment_frame, lemma_segment_len, lemma_segments_prefix,
    lemma_subsegment, retain_segment, segments_ok, segments_text, BytesSegment,
};
use crate::{PersistentString, VersionSwitchError};

/// Index of a node in the arena.
pub type NodeAddress = usize;

/// Content of a rope node.
#[derive(Debug, Clone, Copy)]
pub enum NodeBody {
    /// Leaf corresponding to some text of the byte buffer.
    Leaf(BytesSegment),
    /// Concatenation of two earlier nodes.
    Parent(NodeAddress, NodeAddress),
}

/// An immutable rope node with cached lengths of the text it denotes.
#[derive(Debug, Clone, Copy)]
pub struct Node {
    /// Number of characters.
    pub length: usize,
    /// Number of UTF-8 bytes.
    pub bytes: usize,
    pub body: NodeBody,
}

/// The text denoted by node `id` of the arena.
pub open spec fn node_text(nodes: Seq<Node>, buffer: Seq<u8>, id: nat) -> Seq<char>
    decreases id,
{
    if id < nodes.len() {
        match nodes[id as int].body {
            NodeBody::Leaf(seg) => seg.text(buffer),
            NodeBody::Parent(l, r) => if l < id && r < id {
                node_text(nodes, buffer, l as nat) + node_text(nodes, buffer, r as nat)
            } else {
                Seq::empty()
            },
        }
    } else {
        Seq::empty()
    }
}

/// The text a node with `body` would denote if added to the arena.
pub open spec fn body_text(nodes: Seq<Node>, buffer: Seq<u8>, body: NodeBody) -> Seq<char> {
    match body {
        NodeBody::Leaf(seg) => seg.text(buffer),
        NodeBody::Parent(l, r) => node_text(nodes, buffer, l as nat) + node_text(
            nodes,
            buffer,
            r as nat,
        ),
    }
}

/// `body` may be added to an arena of `n` nodes over `buffer`.
pub open spec fn body_ok(n: nat, buffer: Seq<u8>, body: NodeBody) -> bool {
    match body {
        NodeBody::Leaf(seg) => seg.valid_in(buffer),
        NodeBody::Parent(l, r) => l < n && r < n,
    }
}

/// A concatenation node only joins two non-empty texts.
pub open spec fn children_nonempty(nodes: Seq<Node>, buffer: Seq<u8>, body: NodeBody) -> bool {
    match body {
        NodeBody::Leaf(_) => true,
        NodeBody::Parent(l, r) => node_text(nodes, buffer, l as nat).len() > 0 && node_text(
            nodes,
            buffer,
            r as nat,
        ).len() > 0,
    }
}

/// Number of nodes on the rightmost path from node `id` down to a leaf.
pub open spec fn right_depth(nodes: Seq<Node>, id: nat) -> nat
    decreases id,
{
    if id < nodes.len() {
        match nodes[id as int].body {
            NodeBody::Leaf(_) => 1,
            NodeBody::Parent(_, r) => if r < id {
                1 + right_depth(nodes, r as nat)
            } else {
                1
            },
        }
    } else {
        1
    }
}

/// Node `id` only refers to earlier nodes and valid bytes, joins non-empty texts,
/// and caches its lengths correctly.
pub open spec fn node_ok(nodes: Seq<Node>, buffer: Seq<u8>, id: int) -> bool {
    &&& body_ok(id as nat, buffer, nodes[id].body)
    &&& children_nonempty(nodes, buffer, nodes[id].body)
    &&& nodes[id].length == node_text(nodes, buffer, id as nat).len()
    &&& nodes[id].bytes == utf8_len(node_text(nodes, buffer, id as nat))
}

/// Every node is well formed and node `0` is the canonical empty leaf.
pub open spec fn arena_ok(nodes: Seq<Node>, buffer: Seq<u8>) -> bool {
    &&& nodes.len() > 0
    &&& nodes[0].body == NodeBody::Leaf(BytesSegment { begin: 0, end: 0 })
    &&& forall|id: int| 0 <= id < nodes.len() ==> #[trigger] node_ok(nodes, buffer, id)
}

/// The text of each version, given the root node of each.
pub open spec fn version_texts(nodes: Seq<Node>, buffer: Seq<u8>, roots: Seq<NodeAddress>) -> Seq<
    Seq<char>,
> {
    roots.map_values(|id: NodeAddress| node_text(nodes, buffer, id as nat))
}

/// `b` is a prefix of `a`.
pub open spec fn is_prefix<T>(b: Seq<T>, a: Seq<T>) -> bool {
    b.len() <= a.len() && a.subrange(0, b.len() as int) == b
}

/// Growing the arena and the buffer leaves the text of existing nodes unchanged.
pub proof fn lemma_node_frame(
    nodes: Seq<Node>,
    buffer: Seq<u8>,
    nodes2: Seq<Node>,
    buffer2: Seq<u8>,
    id: nat,
)
    requires
        arena_ok(nodes, buffer),
        id < nodes.len(),
        is_prefix(nodes, nodes2),
        is_prefix(buffer, buffer2),
    ensures
        node_text(nodes2, buffer2, id) == node_text(nodes, buffer, id),
    decreases id,
{
    assert(node_ok(nodes, buffer, id as int));
    assert(nodes2[id as int] == nodes[id as int]);
    match nodes[id as int].body {
        NodeBody::Leaf(seg) => {
            lemma_segment_frame(buffer, buffer2, seg);
        },
        NodeBody::Parent(l, r) => {
            lemma_node_frame(nodes, buffer, nodes2, buffer2, l as nat);
            lemma_node_frame(nodes, buffer, nodes2, buffer2, r as nat);
        },
    }
}

/// [`PersistentString`] storing an arena of immutable rope nodes over an append-only
/// byte buffer; versions share every subtree their mutations did not touch.
pub struct RopePersistentString {
    /// Buffer of all text ever added.
    buffer: Vec<u8>,
    /// Arena of nodes, never cleaned up.
    nodes: Vec<Node>,
    /// Root node of each version.
    versions: Vec<NodeAddress>,
    /// Index of the current version.
    current_version: usize,
}

impl RopePersistentString {
    pub closed spec fn text_of(&self, id: nat) -> Seq<char> {
        node_text(self.nodes@, self.buffer@, id)
    }

    /// Root node of the current version.
    pub closed spec fn current_root(&self) -> NodeAddress {
        self.versions@[self.current_version as int]
    }

    /// Content of node `id`.
    pub closed spec fn body(&self, id: NodeAddress) -> NodeBody {
        self.nodes@[id as int].body
    }

    /// Number of nodes allocated so far.
    pub closed spec fn node_count(&self) -> nat {
        self.nodes@.len()
    }

    /// Number of nodes on the rightmost path from node `id` down to a leaf.
    pub closed spec fn right_spine(&self, id: NodeAddress) -> nat {
        right_depth(self.nodes@, id as nat)
    }

    /// `b` holds every node and every byte of `a`, unchanged.
    pub closed spec fn shares_arena(a: Self, b: Self) -> bool {
        is_prefix(a.nodes@, b.nodes@) && is_prefix(a.buffer@, b.buffer@)
    }

    /// `b` is `a` with possibly more nodes and bytes, and the same versions.
    pub closed spec fn extends(a: Self, b: Self) -> bool {
        &&& is_prefix(a.nodes@, b.nodes@)
        &&& is_prefix(a.buffer@, b.buffer@)
        &&& b.versions@ == a.versions@
        &&& b.current_version == a.current_version
        &&& forall|i: nat| i < a.nodes@.len() ==> #[trigger] b.text_of(i) == a.text_of(i)
    }

    proof fn lemma_extends(a: Self, b: Self)
        requires
            a.well_formed(),
            arena_ok(b.nodes@, b.buffer@),
            is_prefix(a.nodes@, b.nodes@),
            is_prefix(a.buffer@, b.buffer@),
            b.versions@ == a.versions@,
            b.current_version == a.current_version,
        ensures
            Self::extends(a, b),
            b.well_formed(),
            b.model() == a.model(),
    {
        assert forall|i: nat| i < a.nodes@.len() implies #[trigger] b.text_of(i) == a.text_of(i) by {
            lemma_node_frame(a.nodes@, a.buffer@, b.nodes@, b.buffer@, i);
        }
        assert forall|v: int| 0 <= v < b.versions@.len() implies b.versions@[v] < b.nodes@.len() by {
            assert(a.versions@[v] < a.nodes@.len());
        }
        assert(b.model().versions =~= a.model().versions) by {
            assert forall|v: int| 0 <= v < b.versions@.len() implies b.model().versions[v]
                == a.model().versions[v] by {
                assert(a.versions@[v] < a.nodes@.len());
                assert(b.text_of(a.versions@[v] as nat) == a.text_of(a.versions@[v] as nat));
            }
        }
    }

    /// Adds a node to the arena.
    fn push_node(&mut self, body: NodeBody, length: usize, bytes: usize) -> (id: NodeAddress)
        requires
            old(self).well_formed(),
            body_ok(old(self).nodes@.len() as nat, old(self).buffer@, body),
            children_nonempty(old(self).nodes@, old(self).buffer@, body),
            length == body_text(old(self).nodes@, old(self).buffer@, body).len(),
            bytes == utf8_len(body_text(old(self).nodes@, old(self).buffer@, body)),
        ensures
            final(self).well_formed(),
            Self::extends(*old(self), *final(self)),
            final(self).buffer@ == old(self).buffer@,
            final(self).model() == old(self).model(),
            id == old(self).nodes@.len(),
            id < final(self).nodes@.len(),
            final(self).nodes@ == old(self).nodes@.push(Node { length, bytes, body }),
            final(self).text_of(id as nat) == body_text(old(self).nodes@, old(self).buffer@, body),
    {
        let id = self.nodes.len();
        self.nodes.push(Node { length, bytes, body });
        proof {
            let (n0, b) = (old(self).nodes@, self.buffer@);
            let n1 = self.nodes@;
            assert(is_prefix(n0, n1)) by {
                assert(n1.subrange(0, n0.len() as int) =~= n0);
            }
            assert(is_prefix(b, b)) by {
                assert(b.subrange(0, b.len() as int) =~= b);
            }
            assert forall|i: int| 0 <= i < n0.len() implies node_ok(n1, b, i) by {
                assert(node_ok(n0, b, i));
                lemma_node_frame(n0, b, n1, b, i as nat);
                match n0[i].body {
                    NodeBody::Leaf(_) => {},
                    NodeBody::Parent(l, r) => {
                        lemma_node_frame(n0, b, n1, b, l as nat);
                        lemma_node_frame(n0, b, n1, b, r as nat);
                    },
                }
            }
            match body {
                NodeBody::Leaf(_) => {},
                NodeBody::Parent(l, r) => {
                    lemma_node_frame(n0, b, n1, b, l as nat);
                    lemma_node_frame(n0, b, n1, b, r as nat);
                },
            }
            assert(node_ok(n1, b, id as int));
            assert(arena_ok(n1, b));
            Self::lemma_extends(*old(self), *self);
        }
        id
    }

    /// Adds a leaf over `segment`, which holds `length` characters.
    fn push_leaf(&mut self, segment: BytesSegment, length: usize) -> (id: NodeAddress)
        requires
            old(self).well_formed(),
            segment.valid_in(old(self).buffer@),
            length == segment.text(old(self).buffer@).len(),
        ensures
            final(self).well_formed(),
            Self::extends(*old(self), *final(self)),
            final(self).buffer@ == old(self).buffer@,
            final(self).model() == old(self).model(),
            id == old(self).nodes@.len(),
            id < final(self).nodes@.len(),
            final(self).nodes@.len() == old(self).nodes@.len() + 1,
            final(self).nodes@[id as int].body == NodeBody::Leaf(segment),
            final(self).text_of(id as nat) == segment.text(old(self).buffer@),
    {
        proof {
            lemma_segment_len(self.buffer@, segment);
        }
        self.push_node(NodeBody::Leaf(segment), length, segment.len())
    }

    /// A node denoting the concatenation of the texts of `left` and `right`.
    fn join(&mut self, left: NodeAddress, right: NodeAddress) -> (id: NodeAddress)
        requires
            old(self).well_formed(),
            left < old(self).nodes@.len(),
            right < old(self).nodes@.len(),
            utf8_len(old(self).text_of(left as nat)) + utf8_len(old(self).text_of(right as nat))
                <= usize::MAX,
        ensures
            final(self).well_formed(),
            Self::extends(*old(self), *final(self)),
            final(self).buffer@ == old(self).buffer@,
            final(self).model() == old(self).model(),
            id < final(self).nodes@.len(),
            final(self).text_of(id as nat) == old(self).text_of(left as nat) + old(self).text_of(
                right as nat,
            ),
            final(self).nodes@.len() <= old(self).nodes@.len() + 1,
            old(self).text_of(left as nat).len() == 0 ==> id == right,
            old(self).text_of(left as nat).len() > 0 && old(self).text_of(right as nat).len() == 0
                ==> id == left,
            old(self).text_of(left as nat).len() > 0 && old(self).text_of(right as nat).len() > 0
                ==> id == old(self).nodes@.len() && final(self).nodes@[id as int].body
                == NodeBody::Parent(left, right),
    {
        let ghost (lt, rt) = (self.text_of(left as nat), self.text_of(right as nat));
        let l = self.nodes[left];
        let r = self.nodes[right];
        proof {
            assert(node_ok(self.nodes@, self.buffer@, left as int));
            assert(node_ok(self.nodes@, self.buffer@, right as int));
            lemma_utf8_len_bounds(lt);
            lemma_utf8_len_bounds(rt);
            lemma_utf8_len_concat(lt, rt);
        }
        if l.length == 0 {
            proof {
                assert(lt =~= Seq::<char>::empty());
                assert(lt + rt =~= rt);
                Self::lemma_extends_refl(*self);
            }
            right
        } else if r.length == 0 {
            proof {
                assert(rt =~= Seq::<char>::empty());
                assert(lt + rt =~= lt);
                Self::lemma_extends_refl(*self);
            }
            left
        } else {
            self.push_node(NodeBody::Parent(left, right), l.length + r.length, l.bytes + r.bytes)
        }
    }
}

impl RopePersistentString {
    /// Creates an empty string at version `0`.
    pub fn new() -> (r: Self)
        ensures
            r.well_formed(),
            r.model() == History::initial(),
    {
        let mut nodes: Vec<Node> = Vec::new();
        nodes.push(Node { length: 0, bytes: 0, body: NodeBody::Leaf(BytesSegment::new(0, 0)) });
        let mut versions: Vec<NodeAddress> = Vec::new();
        versions.push(0);
        let r = RopePersistentString { buffer: Vec::new(), nodes, versions, current_version: 0 };
        proof {
            let e = BytesSegment { begin: 0, end: 0 };
            assert(e.bytes(r.buffer@) =~= Seq::<u8>::empty());
            crate::text::lemma_utf8_empty();
            assert(e.text(r.buffer@) == Seq::<char>::empty());
            assert(node_ok(r.nodes@, r.buffer@, 0));
            assert(r.model().versions =~= History::initial().versions);
        }
        r
    }

    /// Root node of the given version.
    fn node_address(&self, index: usize) -> (r: NodeAddress)
        requires
            self.well_formed(),
            index < self.versions@.len(),
        ensures
            r == self.versions@[index as int],
            r < self.nodes@.len(),
            self.text_of(r as nat) == self.model().versions[index as int],
    {
        self.versions[index]
    }

    /// Root node of the current version.
    fn current_node_address(&self) -> (r: NodeAddress)
        requires
            self.well_formed(),
        ensures
            r == self.current_root(),
            r < self.nodes@.len(),
            self.text_of(r as nat) == self.model().text(),
    {
        self.node_address(self.current_version)
    }

    /// The root node of the current version.
    fn current_version_node(&self) -> (r: Node)
        requires
            self.well_formed(),
        ensures
            r.length == self.model().text().len(),
            r.bytes == utf8_len(self.model().text()),
    {
        let address = self.current_node_address();
        proof {
            assert(node_ok(self.nodes@, self.buffer@, address as int));
        }
        self.nodes[address]
    }

    /// Records `root` as a new version and makes it current.
    fn commit_root(&mut self, root: NodeAddress)
        requires
            old(self).well_formed(),
            root < old(self).nodes@.len(),
        ensures
            final(self).well_formed(),
            final(self).model() == old(self).model().commit(old(self).text_of(root as nat)),
            final(self).nodes@ == old(self).nodes@,
            final(self).buffer@ == old(self).buffer@,
            final(self).current_root() == root,
    {
        let new_version = self.versions.len();
        self.versions.push(root);
        self.current_version = new_version;
        proof {
            assert(self.model().versions =~= old(self).model().commit(old(self).text_of(root as nat)).versions);
        }
    }

    /// Appends `text` to the byte buffer and returns the segment covering it.
    fn append_to_buffer(&mut self, text: &str) -> (r: BytesSegment)
        requires
            old(self).well_formed(),
        ensures
            final(self).well_formed(),
            Self::extends(*old(self), *final(self)),
            final(self).model() == old(self).model(),
            r.valid_in(final(self).buffer@),
            r.text(final(self).buffer@) == text@,
            final(self).buffer@.len() == old(self).buffer@.len() + utf8_len(text@),
            final(self).nodes@ == old(self).nodes@,
    {
        let r = append_str(&mut self.buffer, text);
        proof {
            let (n, b0, b1) = (self.nodes@, old(self).buffer@, self.buffer@);
            assert(is_prefix(b0, b1)) by {
                assert(b1.subrange(0, b0.len() as int) =~= b0);
            }
            assert(is_prefix(n, n)) by {
                assert(n.subrange(0, n.len() as int) =~= n);
            }
            assert forall|i: int| 0 <= i < n.len() implies node_ok(n, b1, i) by {
                assert(node_ok(n, b0, i));
                lemma_node_frame(n, b0, n, b1, i as nat);
                match n[i].body {
                    NodeBody::Leaf(seg) => {
                        lemma_segment_frame(b0, b1, seg);
                    },
                    NodeBody::Parent(l, r) => {
                        lemma_node_frame(n, b0, n, b1, l as nat);
                        lemma_node_frame(n, b0, n, b1, r as nat);
                    },
                }
            }
            Self::lemma_extends(*old(self), *self);
        }
        r
    }

    /// Appends the characters of node `id` to `result`.
    fn build_snapshot(&self, id: NodeAddress, result: &mut Vec<char>)
        requires
            self.well_formed(),
            id < self.nodes@.len(),
        ensures
            final(result)@ == old(result)@ + self.text_of(id as nat),
        decreases id,
    {
        proof {
            assert(node_ok(self.nodes@, self.buffer@, id as int));
        }
        match self.nodes[id].body {
            NodeBody::Leaf(segment) => {
                let chars = segment.chars(self.buffer.as_slice());
                append_chars(result, chars.as_slice());
            },
            NodeBody::Parent(left, right) => {
                self.build_snapshot(left, result);
                self.build_snapshot(right, result);
                assert(result@ =~= old(result)@ + self.text_of(id as nat));
            },
        }
    }

    /// Removes the last character of the non-empty node `id`, building one new node per
    /// level of its rightmost path and sharing every left sibling on it; returns the new
    /// node (the canonical empty node `0` when nothing is left) and the removed character.
    fn pop_nonempty_recursively(&mut self, id: NodeAddress) -> (r: (NodeAddress, char))
        requires
            old(self).well_formed(),
            id < old(self).nodes@.len(),
            old(self).text_of(id as nat).len() > 0,
        ensures
            final(self).well_formed(),
            Self::extends(*old(self), *final(self)),
            final(self).buffer@ == old(self).buffer@,
            final(self).model() == old(self).model(),
            r.0 < final(self).nodes@.len(),
            final(self).text_of(r.0 as nat) == old(self).text_of(id as nat).drop_last(),
            r.1 == old(self).text_of(id as nat).last(),
            r.0 == 0 <==> old(self).text_of(id as nat).len() == 1,
            final(self).nodes@.len() <= old(self).nodes@.len() + right_depth(old(self).nodes@, id as nat),
            match old(self).nodes@[id as int].body {
                NodeBody::Parent(l, _) => r.0 == l || (final(self).nodes@[r.0 as int].body matches NodeBody::Parent(a, _) && a == l),
                NodeBody::Leaf(_) => true,
            },
        decreases id,
    {
        let ghost t = self.text_of(id as nat);
        proof {
            assert(node_ok(self.nodes@, self.buffer@, id as int));
            self.lemma_empty_node();
        }
        match self.nodes[id].body {
            NodeBody::Leaf(segment) => {
                let chars = segment.chars(self.buffer.as_slice());
                let n = chars.len();
                let last = chars[n - 1];
                let last_len = char_width(last);
                proof {
                    lemma_segment_len(self.buffer@, segment);
                    lemma_utf8_len_split(t, n - 1);
                    assert(t.subrange(n - 1, n as int) =~= seq![last]);
                    assert(t.subrange(0, n as int) =~= t);
                    lemma_subsegment(self.buffer@, segment, 0, n - 1);
                    assert(t.drop_last() =~= t.subrange(0, n - 1));
                    lemma_utf8_len_bounds(t.drop_last());
                }
                if segment.len() == last_len {
                    proof {
                        assert(t.drop_last() =~= Seq::<char>::empty());
                        Self::lemma_extends_refl(*self);
                    }
                    (0, last)
                } else {
                    let shrunk = BytesSegment::new(segment.begin, segment.end - last_len);
                    let address = self.push_leaf(shrunk, n - 1);
                    (address, last)
                }
            },
            NodeBody::Parent(left, right) => {
                let ghost (lt, rt) = (self.text_of(left as nat), self.text_of(right as nat));
                proof {
                    assert(node_ok(self.nodes@, self.buffer@, right as int));
                    assert(node_ok(self.nodes@, self.buffer@, left as int));
                    lemma_utf8_len_concat(lt, rt);
                }
                let ghost s0 = *self;
                let (new_right, popped) = self.pop_nonempty_recursively(right);
                let ghost s1 = *self;
                proof {
                    lemma_utf8_len_split(rt, rt.len() - 1);
                    assert(rt.drop_last() =~= rt.subrange(0, rt.len() - 1));
                    assert(t.drop_last() =~= lt + rt.drop_last());
                    assert(s1.text_of(left as nat) == lt);
                    s1.lemma_empty_node();
                }
                let address = self.join(left, new_right);
                proof {
                    Self::lemma_extends_trans(s0, s1, *self);
                }
                (address, popped)
            },
        }
    }
}

impl RopePersistentString {
    proof fn lemma_extends_refl(a: Self)
        ensures
            Self::extends(a, a),
    {
        assert(a.nodes@.subrange(0, a.nodes@.len() as int) =~= a.nodes@);
        assert(a.buffer@.subrange(0, a.buffer@.len() as int) =~= a.buffer@);
    }

    proof fn lemma_extends_trans(a: Self, b: Self, c: Self)
        requires
            Self::extends(a, b),
            Self::extends(b, c),
        ensures
            Self::extends(a, c),
    {
        assert(c.nodes@.subrange(0, a.nodes@.len() as int) =~= b.nodes@.subrange(0, a.nodes@.len() as int));
        assert(c.buffer@.subrange(0, a.buffer@.len() as int) =~= b.buffer@.subrange(0, a.buffer@.len() as int));
        assert forall|i: nat| i < a.nodes@.len() implies #[trigger] c.text_of(i) == a.text_of(i) by {
            assert(c.text_of(i) == b.text_of(i));
        }
    }

    /// Node `0` denotes the empty text.
    proof fn lemma_empty_node(&self)
        requires
            self.well_formed(),
        ensures
            self.text_of(0) == Seq::<char>::empty(),
    {
        assert(node_ok(self.nodes@, self.buffer@, 0));
        assert(BytesSegment { begin: 0, end: 0 }.bytes(self.buffer@) =~= Seq::<u8>::empty());
        crate::text::lemma_utf8_empty();
    }

    /// Inserts the text of `insertion` before character `index` of node `id`, building new
    /// nodes along the path to the insertion point; returns the new node.
    #[verifier::rlimit(40)]
    fn insert_str_recursively(
        &mut self,
        id: NodeAddress,
        insertion: BytesSegment,
        insertion_length: usize,
        index: usize,
    ) -> (r: NodeAddress)
        requires
            old(self).well_formed(),
            id < old(self).nodes@.len(),
            insertion.valid_in(old(self).buffer@),
            insertion_length == insertion.text(old(self).buffer@).len(),
            insertion_length > 0,
            index <= old(self).text_of(id as nat).len(),
            utf8_len(old(self).text_of(id as nat)) + utf8_len(insertion.text(old(self).buffer@))
                <= usize::MAX,
        ensures
            final(self).well_formed(),
            Self::extends(*old(self), *final(self)),
            final(self).buffer@ == old(self).buffer@,
            final(self).model() == old(self).model(),
            r < final(self).nodes@.len(),
            final(self).text_of(r as nat) == splice_text(
                old(self).text_of(id as nat),
                index as int,
                insertion.text(old(self).buffer@),
            ),
            match old(self).nodes@[id as int].body {
                NodeBody::Parent(l, rr) => if index <= old(self).text_of(l as nat).len() {
                    final(self).nodes@[r as int].body matches NodeBody::Parent(_, b) && b == rr
                } else {
                    final(self).nodes@[r as int].body matches NodeBody::Parent(a, _) && a == l
                },
                NodeBody::Leaf(_) => true,
            },
        decreases id,
    {
        let ghost t = self.text_of(id as nat);
        let ghost s = insertion.text(self.buffer@);
        let ghost s0 = *self;
        proof {
            assert(node_ok(self.nodes@, self.buffer@, id as int));
        }
        let node = self.nodes[id];
        match node.body {
            NodeBody::Leaf(segment) => {
                let inserted = self.push_leaf(insertion, insertion_length);
                let ghost s1 = *self;
                if index == 0 {
                    assert(splice_text(t, 0, s) =~= s + t);
                    let r = self.join(inserted, id);
                    proof { Self::lemma_extends_trans(s0, s1, *self); }
                    r
                } else if index == node.length {
                    assert(splice_text(t, index as int, s) =~= t + s);
                    let r = self.join(id, inserted);
                    proof { Self::lemma_extends_trans(s0, s1, *self); }
                    r
                } else {
                    let chars = segment.chars(self.buffer.as_slice());
                    let n = chars.len();
                    proof {
                        lemma_segment_len(self.buffer@, segment);
                        lemma_utf8_len_split(t, index as int);
                        assert(t.subrange(0, 0) =~= Seq::<char>::empty());
                        crate::text::lemma_utf8_empty();
                        assert(t.subrange(0, n as int) =~= t);
                        lemma_subsegment(self.buffer@, segment, 0, index as int);
                        lemma_subsegment(self.buffer@, segment, index as int, n as int);
                        lemma_utf8_len_concat(t.subrange(0, index as int), s);
                    }
                    let offset = char_offset_of(chars.as_slice(), index);
                    let (left_segment, right_segment) = segment.split_at(offset);
                    let left = self.push_leaf(left_segment, index);
                    let ghost s2 = *self;
                    let right = self.push_leaf(right_segment, n - index);
                    let ghost s3 = *self;
                    let pair = self.join(left, inserted);
                    let ghost s4 = *self;
                    let r = self.join(pair, right);
                    proof {
                        Self::lemma_extends_trans(s0, s1, s2);
                        Self::lemma_extends_trans(s0, s2, s3);
                        Self::lemma_extends_trans(s0, s3, s4);
                        Self::lemma_extends_trans(s0, s4, *self);
                        assert(splice_text(t, index as int, s) =~= t.subrange(0, index as int) + s + t.subrange(index as int, n as int));
                    }
                    r
                }
            },
            NodeBody::Parent(left, right) => {
                let ghost (lt, rt) = (self.text_of(left as nat), self.text_of(right as nat));
                proof {
                    assert(node_ok(self.nodes@, self.buffer@, left as int));
                    lemma_utf8_len_concat(lt, rt);
                }
                if index <= self.nodes[left].length {
                    let new_left = self.insert_str_recursively(left, insertion, insertion_length, index);
                    let ghost s1 = *self;
                    proof {
                        lemma_splice_utf8_len(lt, index as int, s);
                        lemma_utf8_len_concat(lt, s);
                    }
                    let r = self.join(new_left, right);
                    proof {
                        Self::lemma_extends_trans(s0, s1, *self);
                        assert(splice_text(t, index as int, s) =~= splice_text(lt, index as int, s) + rt);
                    }
                    r
                } else {
                    let new_right = self.insert_str_recursively(
                        right,
                        insertion,
                        insertion_length,
                        index - self.nodes[left].length,
                    );
                    let ghost s1 = *self;
                    proof {
                        lemma_splice_utf8_len(rt, index - lt.len(), s);
                        lemma_utf8_len_concat(rt, s);
                    }
                    let r = self.join(left, new_right);
                    proof {
                        Self::lemma_extends_trans(s0, s1, *self);
                        assert(splice_text(t, index as int, s) =~= lt + splice_text(rt, index - lt.len(), s));
                    }
                    r
                }
            },
        }
    }

    /// Removes character `index` of the text covered by `segment`; returns the node of the
    /// remaining text and the removed character.
    #[verifier::rlimit(30)]
    fn remove_in_leaf(&mut self, segment: BytesSegment, index: usize) -> (r: (NodeAddress, char))
        requires
            old(self).well_formed(),
            segment.valid_in(old(self).buffer@),
            index < segment.text(old(self).buffer@).len(),
        ensures
            final(self).well_formed(),
            Self::extends(*old(self), *final(self)),
            final(self).buffer@ == old(self).buffer@,
            final(self).model() == old(self).model(),
            r.0 < final(self).nodes@.len(),
            final(self).text_of(r.0 as nat) == segment.text(old(self).buffer@).remove(index as int),
            r.1 == segment.text(old(self).buffer@)[index as int],
    {
        let ghost t = segment.text(self.buffer@);
        let ghost s0 = *self;
        proof {
            self.lemma_empty_node();
            lemma_segment_len(self.buffer@, segment);
            crate::text::lemma_shrink_utf8_len(t, index as int);
        }
        let chars = segment.chars(self.buffer.as_slice());
        let n = chars.len();
        let removed = chars[index];
        proof {
            lemma_segment_len(self.buffer@, segment);
            assert(t.subrange(0, 0) =~= Seq::<char>::empty());
            crate::text::lemma_utf8_empty();
            assert(t.subrange(0, n as int) =~= t);
            lemma_subsegment(self.buffer@, segment, 0, index as int);
            lemma_subsegment(self.buffer@, segment, index + 1, n as int);
            lemma_utf8_len_split(t, index as int);
            assert(t.subrange(0, index + 1) =~= t.subrange(0, index as int) + seq![removed]);
            lemma_utf8_len_concat(t.subrange(0, index as int), seq![removed]);
        }
        let offset = char_offset_of(chars.as_slice(), index);
        let after = offset + char_width(removed);
        let mut left: NodeAddress = 0;
        let mut right: NodeAddress = 0;
        if index > 0 {
            left = self.push_leaf(BytesSegment::new(segment.begin, segment.begin + offset), index);
        }
        let ghost s1 = *self;
        if index + 1 < n {
            right = self.push_leaf(BytesSegment::new(segment.begin + after, segment.end), n - index - 1);
        }
        let ghost s2 = *self;
        proof {
            if index == 0 {
                assert(t.subrange(0, index as int) =~= Seq::<char>::empty());
                Self::lemma_extends_refl(s0);
            }
            if index + 1 == n {
                assert(t.subrange(index + 1, n as int) =~= Seq::<char>::empty());
                Self::lemma_extends_refl(s1);
            }
            Self::lemma_extends_trans(s0, s1, s2);
            s1.lemma_empty_node();
            s2.lemma_empty_node();
            assert(t.remove(index as int) =~= t.subrange(0, index as int) + t.subrange(index + 1, n as int));
            lemma_utf8_len_concat(t.subrange(0, index as int), t.subrange(index + 1, n as int));
            crate::text::lemma_shrink_utf8_len(t, index as int);
        }
        let r = self.join(left, right);
        proof { Self::lemma_extends_trans(s0, s2, *self); }
        (r, removed)
    
    }

    /// Removes character `index` of node `id`, building new nodes along the path to it;
    /// returns the new node and the removed character.
    fn remove_recursively(&mut self, id: NodeAddress, index: usize) -> (r: (NodeAddress, char))
        requires
            old(self).well_formed(),
            id < old(self).nodes@.len(),
            index < old(self).text_of(id as nat).len(),
        ensures
            final(self).well_formed(),
            Self::extends(*old(self), *final(self)),
            final(self).buffer@ == old(self).buffer@,
            final(self).model() == old(self).model(),
            r.0 < final(self).nodes@.len(),
            final(self).text_of(r.0 as nat) == old(self).text_of(id as nat).remove(index as int),
            r.1 == old(self).text_of(id as nat)[index as int],
        decreases id,
    {
        let ghost t = self.text_of(id as nat);
        let ghost s0 = *self;
        proof {
            assert(node_ok(self.nodes@, self.buffer@, id as int));
            self.lemma_empty_node();
            crate::text::lemma_shrink_utf8_len(t, index as int);
        }
        match self.nodes[id].body {
            NodeBody::Leaf(segment) => {
                let r = self.remove_in_leaf(segment, index);
                r
            },
            NodeBody::Parent(left, right) => {
                let ghost (lt, rt) = (self.text_of(left as nat), self.text_of(right as nat));
                proof {
                    assert(node_ok(self.nodes@, self.buffer@, left as int));
                    lemma_utf8_len_concat(lt, rt);
                }
                if index < self.nodes[left].length {
                    let (new_left, removed) = self.remove_recursively(left, index);
                    let ghost s1 = *self;
                    proof {
                        crate::text::lemma_shrink_utf8_len(lt, index as int);
                        lemma_utf8_len_concat(lt.remove(index as int), rt);
                    }
                    let r = self.join(new_left, right);
                    proof {
                        Self::lemma_extends_trans(s0, s1, *self);
                        assert(t.remove(index as int) =~= lt.remove(index as int) + rt);
                    }
                    (r, removed)
                } else {
                    let (new_right, removed) = self.remove_recursively(right, index - self.nodes[left].length);
                    let ghost s1 = *self;
                    proof {
                        crate::text::lemma_shrink_utf8_len(rt, index - lt.len());
                        lemma_utf8_len_concat(lt, rt.remove(index - lt.len()));
                    }
                    let r = self.join(left, new_right);
                    proof {
                        Self::lemma_extends_trans(s0, s1, *self);
                        assert(t.remove(index as int) =~= lt + rt.remove(index - lt.len()));
                    }
                    (r, removed)
                }
            },
        }
    }

    /// Appends to `out` segments covering the characters of node `id` accepted by `filter`.
    fn retain_node<F: Fn(char) -> bool>(&self, id: NodeAddress, filter: &F, out: &mut Vec<BytesSegment>)
        requires
            self.well_formed(),
            id < self.nodes@.len(),
            is_char_predicate(*filter),
            segments_ok(self.buffer@, old(out)@),
        ensures
            segments_ok(self.buffer@, final(out)@),
            segments_text(self.buffer@, final(out)@) == segments_text(self.buffer@, old(out)@)
                + retained(self.text_of(id as nat), *filter),
            all_answered(*filter, self.text_of(id as nat)),
        decreases id,
    {
        proof {
            assert(node_ok(self.nodes@, self.buffer@, id as int));
        }
        match self.nodes[id].body {
            NodeBody::Leaf(segment) => {
                retain_segment(self.buffer.as_slice(), segment, filter, out);
            },
            NodeBody::Parent(left, right) => {
                self.retain_node(left, filter, out);
                self.retain_node(right, filter, out);
                proof {
                    let p = |c: char| filter.ensures((c,), true);
                    let (lt, rt) = (self.text_of(left as nat), self.text_of(right as nat));
                    Seq::filter_distributes_over_add(lt, rt, p);
                    lemma_all_answered_concat(*filter, lt, rt);
                    assert(segments_text(self.buffer@, out@) =~= segments_text(self.buffer@, old(out)@)
                        + retained(self.text_of(id as nat), *filter));
                }
            },
        }
    }

    /// Builds a left-leaning tree of leaves over `segments`.
    fn compose(&mut self, segments: &Vec<BytesSegment>) -> (r: NodeAddress)
        requires
            old(self).well_formed(),
            segments_ok(old(self).buffer@, segments@),
            utf8_len(segments_text(old(self).buffer@, segments@)) <= usize::MAX,
        ensures
            final(self).well_formed(),
            Self::extends(*old(self), *final(self)),
            final(self).model() == old(self).model(),
            r < final(self).nodes@.len(),
            final(self).text_of(r as nat) == segments_text(old(self).buffer@, segments@),
    {
        let ghost buffer = self.buffer@;
        let mut root: NodeAddress = 0;
        let mut i: usize = 0;
        proof {
            self.lemma_empty_node();
            Self::lemma_extends_refl(*self);
            assert(segments@.subrange(0, 0) =~= Seq::<BytesSegment>::empty());
        }
        while i < segments.len()
            invariant
                self.well_formed(),
                Self::extends(*old(self), *self),
                self.model() == old(self).model(),
                self.buffer@ == buffer,
                buffer == old(self).buffer@,
                segments_ok(buffer, segments@),
                utf8_len(segments_text(buffer, segments@)) <= usize::MAX,
                i <= segments@.len(),
                root < self.nodes@.len(),
                self.text_of(root as nat) == segments_text(buffer, segments@.subrange(0, i as int)),
            decreases segments@.len() - i,
        {
            let segment = segments[i];
            let ghost s0 = *self;
            assert(segment.valid_in(buffer));
            let length = segment.chars(self.buffer.as_slice()).len();
            let leaf = self.push_leaf(segment, length);
            let ghost s1 = *self;
            proof {
                let p = segments@.subrange(0, i + 1);
                assert(p.drop_last() =~= segments@.subrange(0, i as int));
                lemma_segments_prefix(buffer, segments@, i + 1);
                lemma_utf8_len_concat(segments_text(buffer, segments@.subrange(0, i as int)), segment.text(buffer));
            }
            root = self.join(root, leaf);
            proof {
                Self::lemma_extends_trans(*old(self), s0, s1);
                Self::lemma_extends_trans(*old(self), s1, *self);
            }
            i = i + 1;
        }
        assert(segments@.subrange(0, i as int) =~= segments@);
        root
    }
}

impl Default for RopePersistentString {
    fn default() -> (r: Self)
        ensures
            r.well_formed(),
            r.model() == History::initial(),
    {
        Self::new()
    }
}

impl PersistentString for RopePersistentString {
    closed spec fn model(&self) -> History {
        History {
            versions: version_texts(self.nodes@, self.buffer@, self.versions@),
            current: self.current_version as nat,
        }
    }

    closed spec fn well_formed(&self) -> bool {
        &&& arena_ok(self.nodes@, self.buffer@)
        &&& self.versions@.len() > 0
        &&& self.versions@[0] == 0
        &&& self.current_version < self.versions@.len()
        &&& forall|v: int| 0 <= v < self.versions@.len() ==> #[trigger] self.versions@[v] < self.nodes@.len()
    }

    proof fn lemma_model_valid(&self) {
        self.lemma_empty_node();
    }

    fn new() -> (r: Self) {
        RopePersistentString::new()
    }

    fn version(&self) -> (r: usize) {
        self.current_version
    }

    fn latest_version(&self) -> (r: usize) {
        self.versions.len() - 1
    }

    fn try_switch_version(&mut self, version: usize) -> (r: Result<(), VersionSwitchError>) {
        if version < self.versions.len() {
            self.current_version = version;
            Ok(())
        } else {
            Err(VersionSwitchError::InvalidVersion(version))
        }
    }

    fn switch_version(&mut self, version: usize) {
        self.current_version = version;
    }

    fn snapshot(&self) -> (r: Cow<'_, str>) {
        let root = self.current_node_address();
        match self.nodes[root].body {
            NodeBody::Leaf(segment) => {
                proof {
                    assert(node_ok(self.nodes@, self.buffer@, root as int));
                }
                Cow::Borrowed(segment.as_str(self.buffer.as_slice()))
            },
            NodeBody::Parent(_, _) => {
                let mut chars: Vec<char> = Vec::new();
                self.build_snapshot(root, &mut chars);
                assert(chars@ =~= self.model().text());
                Cow::Owned(string_of(chars.as_slice()))
            },
        }
    }

    fn is_empty(&self) -> (r: bool) {
        self.current_version_node().length == 0
    }

    fn len(&self) -> (r: usize) {
        self.current_version_node().bytes
    }

    fn pop(&mut self) -> (r: Option<char>)
        ensures
            Self::shares_arena(*old(self), *final(self)),
            old(self).model().text().len() > 0 ==> (final(self).current_root() == 0
                <==> old(self).model().text().len() == 1),
            old(self).model().text().len() > 0 ==> match old(self).body(old(self).current_root()) {
                NodeBody::Parent(l, _) => final(self).current_root() == l || (final(self).body(
                    final(self).current_root(),
                ) matches NodeBody::Parent(a, _) && a == l),
                NodeBody::Leaf(_) => true,
            },
            final(self).node_count() <= old(self).node_count() + old(self).right_spine(
                old(self).current_root(),
            ),
    {
        let root = self.current_node_address();
        proof {
            Self::lemma_extends_refl(*self);
        }
        if self.current_version_node().length == 0 {
            self.commit_root(root);
            return None;
        }
        let (new_root, popped) = self.pop_nonempty_recursively(root);
        self.commit_root(new_root);
        Some(popped)
    }

    fn push(&mut self, character: char) {
        let single: Vec<char> = vec![character];
        let suffix = string_of(single.as_slice());
        proof {
            assert(suffix@ =~= seq![character]);
            lemma_utf8_len_bounds(suffix@);
            assert(old(self).model().text().push(character) =~= old(self).model().text() + suffix@);
        }
        self.push_str(suffix.as_str());
    }

    fn push_str(&mut self, suffix: &str)
        ensures
            Self::shares_arena(*old(self), *final(self)),
            suffix@.len() == 0 ==> final(self).current_root() == old(self).current_root(),
            suffix@.len() > 0 && old(self).model().text().len() == 0 ==> (final(self).body(
                final(self).current_root(),
            ) is Leaf),
            suffix@.len() > 0 && old(self).model().text().len() > 0 ==> (final(self).body(
                final(self).current_root(),
            ) matches NodeBody::Parent(a, _) && a == old(self).current_root()),
            final(self).node_count() <= old(self).node_count() + 2,
    {
        let root = self.current_node_address();
        let ghost t = self.text_of(root as nat);
        let ghost s0 = *self;
        let suffix_chars = chars_of(suffix);
        if suffix_chars.len() == 0 {
            assert(t + suffix@ =~= t);
            proof {
                Self::lemma_extends_refl(*self);
            }
            self.commit_root(root);
            return;
        }
        let segment = self.append_to_buffer(suffix);
        let ghost s1 = *self;
        let leaf = self.push_leaf(segment, suffix_chars.len());
        let ghost s2 = *self;
        proof {
            lemma_utf8_len_concat(t, suffix@);
            Self::lemma_extends_trans(s0, s1, s2);
            assert(s2.text_of(root as nat) == t);
        }
        let new_root = self.join(root, leaf);
        proof {
            Self::lemma_extends_trans(s0, s2, *self);
        }
        self.commit_root(new_root);
    }

    fn repeat(&mut self, times: usize)
        ensures
            Self::shares_arena(*old(self), *final(self)),
            times == 0 || old(self).model().text().len() == 0 ==> final(self).current_root() == 0,
            times == 1 && old(self).model().text().len() > 0 ==> final(self).current_root() == old(
                self,
            ).current_root(),
            times == 2 && old(self).model().text().len() > 0 ==> final(self).body(
                final(self).current_root(),
            ) == NodeBody::Parent(old(self).current_root(), old(self).current_root()),
            times >= 2 && old(self).model().text().len() > 0 ==> (final(self).body(
                final(self).current_root(),
            ) matches NodeBody::Parent(_, b) && b == old(self).current_root()),
            final(self).node_count() <= old(self).node_count() + times,
    {
        let root = self.current_node_address();
        let ghost t = self.text_of(root as nat);
        proof {
            lemma_repeat_len(t, times as nat);
            lemma_repeat_len(t, 0);
            lemma_repeat_len(t, 1);
            assert(repeat_text(t, 1) =~= t) by {
                assert(repeat_text(t, 0) =~= Seq::<char>::empty());
            }
            self.lemma_model_valid();
        }
        if times == 0 || self.current_version_node().length == 0 {
            proof {
                assert(repeat_text(t, times as nat) =~= Seq::<char>::empty());
            }
            proof {
                Self::lemma_extends_refl(*self);
            }
            self.commit_root(0);
            return;
        }
        let mut top = root;
        let mut k: usize = 1;
        proof {
            Self::lemma_extends_refl(*self);
        }
        while k < times
            invariant
                self.well_formed(),
                Self::extends(*old(self), *self),
                self.model() == old(self).model(),
                root < old(self).nodes@.len(),
                t == old(self).text_of(root as nat),
                1 <= k <= times,
                top < self.nodes@.len(),
                self.text_of(top as nat) == repeat_text(t, k as nat),
                utf8_len(t) * times <= usize::MAX,
                t.len() > 0,
                self.nodes@.len() <= old(self).nodes@.len() + k - 1,
                k == 1 ==> top == root,
                k == 2 ==> self.nodes@[top as int].body == NodeBody::Parent(root, root),
                k >= 2 ==> (self.nodes@[top as int].body matches NodeBody::Parent(_, b) && b == root),
            decreases times - k,
        {
            proof {
                lemma_repeat_len(t, (k + 1) as nat);
                lemma_repeat_monotone(t, (k + 1) as nat, times as nat);
                lemma_repeat_len(t, times as nat);
                lemma_repeat_len(t, k as nat);
            }
            let ghost before = *self;
            assert(self.text_of(root as nat) == t);
            proof {
                lemma_utf8_len_concat(repeat_text(t, k as nat), t);
                assert(k * t.len() >= 1) by (nonlinear_arith)
                    requires
                        k >= 1,
                        t.len() >= 1,
                ;
            }
            top = self.join(top, root);
            proof {
                Self::lemma_extends_trans(*old(self), before, *self);
            }
            k = k + 1;
        }
        self.commit_root(top);
    }

    fn remove(&mut self, index: usize) -> (r: char) {
        let root = self.current_node_address();
        let (new_root, removed) = self.remove_recursively(root, index);
        self.commit_root(new_root);
        removed
    }

    fn retain<F: Fn(char) -> bool>(&mut self, filter: F) {
        let root = self.current_node_address();
        let ghost t = self.text_of(root as nat);
        let mut segments: Vec<BytesSegment> = Vec::new();
        self.retain_node(root, &filter, &mut segments);
        proof {
            assert(Seq::<char>::empty() + retained(t, filter) =~= retained(t, filter));
            lemma_filter_utf8_len(t, |c: char| filter.ensures((c,), true));
            assert(node_ok(self.nodes@, self.buffer@, root as int));
        }
        let new_root = self.compose(&segments);
        self.commit_root(new_root);
    }

    fn insert(&mut self, index: usize, character: char) {
        let single: Vec<char> = vec![character];
        let insertion = string_of(single.as_slice());
        proof {
            assert(insertion@ =~= seq![character]);
            lemma_utf8_len_bounds(insertion@);
            assert(old(self).model().text().push(character) =~= old(self).model().text() + insertion@);
            assert(old(self).model().text().insert(index as int, character) =~= splice_text(old(self).model().text(), index as int, insertion@));
        }
        self.insert_str(index, insertion.as_str());
    }

    fn insert_str(&mut self, index: usize, insertion: &str)
        ensures
            Self::shares_arena(*old(self), *final(self)),
            insertion@.len() == 0 ==> final(self).current_root() == old(self).current_root(),
            insertion@.len() > 0 && old(self).model().text().len() == 0 ==> (final(self).body(
                final(self).current_root(),
            ) is Leaf),
            insertion@.len() > 0 && old(self).model().text().len() > 0 ==> match old(self).body(
                old(self).current_root(),
            ) {
                NodeBody::Parent(l, rr) => if index <= old(self).text_of(l as nat).len() {
                    final(self).body(final(self).current_root()) matches NodeBody::Parent(_, b)
                        && b == rr
                } else {
                    final(self).body(final(self).current_root()) matches NodeBody::Parent(a, _)
                        && a == l
                },
                NodeBody::Leaf(_) => true,
            },
    {
        let root = self.current_node_address();
        let ghost t = self.text_of(root as nat);
        let ghost s0 = *self;
        let inserted_chars = chars_of(insertion);
        if inserted_chars.len() == 0 {
            assert(splice_text(t, index as int, insertion@) =~= t);
            proof {
                Self::lemma_extends_refl(*self);
            }
            self.commit_root(root);
            return;
        }
        let segment = self.append_to_buffer(insertion);
        let ghost s1 = *self;
        let new_root;
        assert(self.text_of(root as nat) == t);
        proof {
            assert(self.nodes@[root as int] == s0.nodes@[root as int]);
            if let NodeBody::Parent(l, _) = s0.nodes@[root as int].body {
                assert(node_ok(s0.nodes@, s0.buffer@, root as int));
                assert(self.text_of(l as nat) == s0.text_of(l as nat));
            }
        }
        if self.nodes[root].length == 0 {
            proof {
                assert(node_ok(self.nodes@, self.buffer@, root as int));
                assert(splice_text(t, index as int, insertion@) =~= insertion@);
            }
            new_root = self.push_leaf(segment, inserted_chars.len());
        } else {
            proof {
                lemma_utf8_len_concat(t, insertion@);
                lemma_segment_len(self.buffer@, segment);
            }
            new_root = self.insert_str_recursively(root, segment, inserted_chars.len(), index);
        }
        proof {
            Self::lemma_extends_trans(s0, s1, *self);
        }
        self.commit_root(new_root);
    }
}

} // verus!
