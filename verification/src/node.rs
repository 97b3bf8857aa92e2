//! The nodes of the concrete syntax tree.

use vstd::prelude::*;
use vstd::string::{StrSliceExecFns, StringExecFns};
use crate::kind::{ErrorPos, KindView, SyntaxKind};

verus! {

/// The mathematical value of a [`SyntaxNode`]: a leaf that stands for a
/// number of source bytes, or an inner node with its children in source
/// order.
pub enum NodeView {
    Leaf { kind: KindView, len: nat },
    Inner { kind: KindView, children: Seq<NodeView> },
}

/// The number of source bytes that a sequence of nodes covers.
pub open spec fn sum_len(nodes: Seq<NodeView>) -> nat
    decreases nodes,
{
    if nodes.len() == 0 {
        0
    } else {
        sum_len(nodes.drop_last()) + nodes.last().len()
    }
}

/// The bytes of `src` that the leaves of `nodes` cover, one after the other,
/// when the first of them starts at `at`.
pub open spec fn texts(nodes: Seq<NodeView>, src: Seq<u8>, at: int) -> Seq<u8>
    decreases nodes,
{
    if nodes.len() == 0 {
        Seq::empty()
    } else {
        texts(nodes.drop_last(), src, at) + nodes.last().text(
            src,
            at + sum_len(nodes.drop_last()),
        )
    }
}

impl NodeView {
    /// The kind of the node.
    pub open spec fn kind(self) -> KindView {
        match self {
            NodeView::Leaf { kind, .. } => kind,
            NodeView::Inner { kind, .. } => kind,
        }
    }

    /// The children of the node; a leaf has none.
    pub open spec fn children(self) -> Seq<NodeView> {
        match self {
            NodeView::Leaf { .. } => Seq::empty(),
            NodeView::Inner { children, .. } => children,
        }
    }

    /// The number of source bytes that the node covers: the sum over the
    /// leaves below it.
    pub open spec fn len(self) -> nat
        decreases self,
    {
        match self {
            NodeView::Leaf { len, .. } => len,
            NodeView::Inner { children, .. } => sum_len(children),
        }
    }

    /// The bytes of `src` that the leaves of the node cover, when the node
    /// starts at `at`.
    pub open spec fn text(self, src: Seq<u8>, at: int) -> Seq<u8>
        decreases self,
    {
        match self {
            NodeView::Leaf { len, .. } => src.subrange(at, at + len),
            NodeView::Inner { children, .. } => texts(children, src, at),
        }
    }

    /// The same node under another kind.
    pub open spec fn with_kind(self, kind: KindView) -> NodeView {
        match self {
            NodeView::Leaf { len, .. } => NodeView::Leaf { kind, len },
            NodeView::Inner { children, .. } => NodeView::Inner { kind, children },
        }
    }

    /// The message of the error around a node that a check turned down
    /// with `message`: what was found is added to a message that says what
    /// was expected.
    pub open spec fn complaint(self, message: Seq<char>) -> Seq<char> {
        if "expected"@.is_prefix_of(message) {
            message + ", found "@ + self.kind().name()
        } else {
            message
        }
    }

    /// The node after a check of it: as it was where the check passed, and
    /// inside an error node where the check turned it down with a message.
    pub open spec fn flagged(self, verdict: Result<(), Seq<char>>) -> NodeView {
        match verdict {
            Ok(_) => self,
            Err(message) => NodeView::Inner {
                kind: KindView::error(self.complaint(message)),
                children: seq![self],
            },
        }
    }

    /// A leaf of no length that carries an error message.
    pub open spec fn error(message: Seq<char>) -> NodeView {
        NodeView::Leaf { kind: KindView::error(message), len: 0 }
    }
}

/// The length of a concatenation is the sum of the lengths.
pub proof fn lemma_sum_len_concat(a: Seq<NodeView>, b: Seq<NodeView>)
    ensures
        sum_len(a + b) == sum_len(a) + sum_len(b),
    decreases b.len(),
{
    if b.len() == 0 {
        assert(a + b =~= a);
    } else {
        lemma_sum_len_concat(a, b.drop_last());
        assert((a + b).drop_last() =~= a + b.drop_last());
        assert((a + b).last() == b.last());
    }
}

/// The length of a single node as a sequence.
pub proof fn lemma_sum_len_one(node: NodeView)
    ensures
        sum_len(seq![node]) == node.len(),
{
    assert(seq![node].drop_last() =~= Seq::<NodeView>::empty());
    assert(sum_len(seq![node].drop_last()) == 0);
}

/// A sequence is as long as the part before an index and the part from it
/// on, together.
pub proof fn lemma_sum_len_split(nodes: Seq<NodeView>, at: int)
    requires
        0 <= at <= nodes.len(),
    ensures
        sum_len(nodes) == sum_len(nodes.take(at)) + sum_len(nodes.skip(at)),
{
    lemma_sum_len_concat(nodes.take(at), nodes.skip(at));
    assert(nodes.take(at) + nodes.skip(at) =~= nodes);
}

/// Pushing a node adds its length.
pub proof fn lemma_sum_len_push(nodes: Seq<NodeView>, node: NodeView)
    ensures
        sum_len(nodes.push(node)) == sum_len(nodes) + node.len(),
{
    assert(nodes.push(node).drop_last() =~= nodes);
}

/// Inserting a node adds its length, wherever it goes.
pub proof fn lemma_sum_len_insert(nodes: Seq<NodeView>, at: int, node: NodeView)
    requires
        0 <= at <= nodes.len(),
    ensures
        sum_len(nodes.insert(at, node)) == sum_len(nodes) + node.len(),
{
    lemma_sum_len_split(nodes, at);
    lemma_sum_len_push(nodes.take(at), node);
    lemma_sum_len_concat(nodes.take(at).push(node), nodes.skip(at));
    assert(nodes.insert(at, node) =~= nodes.take(at).push(node) + nodes.skip(at));
}

/// Replacing a node by one of the same length keeps the length.
pub proof fn lemma_sum_len_update(nodes: Seq<NodeView>, at: int, node: NodeView)
    requires
        0 <= at < nodes.len(),
        node.len() == nodes[at].len(),
    ensures
        sum_len(nodes.update(at, node)) == sum_len(nodes),
{
    lemma_sum_len_split(nodes, at);
    lemma_sum_len_split(nodes.skip(at), 1);
    lemma_sum_len_one(nodes[at]);
    assert(nodes.skip(at).take(1) =~= seq![nodes[at]]);
    let after = nodes.update(at, node);
    lemma_sum_len_split(after, at);
    lemma_sum_len_split(after.skip(at), 1);
    lemma_sum_len_one(node);
    assert(after.skip(at).take(1) =~= seq![node]);
    assert(after.take(at) =~= nodes.take(at));
    assert(after.skip(at).skip(1) =~= nodes.skip(at).skip(1));
}

/// Round trip: the bytes that the leaves of a node cover are the bytes of
/// the source over the node's span, whatever the shape of the tree.
pub proof fn lemma_text_is_source(node: NodeView, src: Seq<u8>, at: int)
    requires
        0 <= at,
        at + node.len() <= src.len(),
    ensures
        node.text(src, at) == src.subrange(at, at + node.len()),
    decreases node,
{
    match node {
        NodeView::Leaf { .. } => {},
        NodeView::Inner { children, .. } => {
            lemma_texts_are_source(children, src, at);
        },
    }
}

/// Round trip: the bytes that the leaves of a sequence of nodes cover, taken
/// in order, are the bytes of the source over the span of the sequence.
pub proof fn lemma_texts_are_source(nodes: Seq<NodeView>, src: Seq<u8>, at: int)
    requires
        0 <= at,
        at + sum_len(nodes) <= src.len(),
    ensures
        texts(nodes, src, at) == src.subrange(at, at + sum_len(nodes)),
    decreases nodes,
{
    if nodes.len() == 0 {
        assert(src.subrange(at, at) =~= Seq::<u8>::empty());
    } else {
        let front = nodes.drop_last();
        lemma_texts_are_source(front, src, at);
        lemma_text_is_source(nodes.last(), src, at + sum_len(front));
        assert(src.subrange(at, at + sum_len(front)) + src.subrange(
            at + sum_len(front),
            at + sum_len(nodes),
        ) =~= src.subrange(at, at + sum_len(nodes)));
    }
}

/// A node in the untyped syntax tree.
#[derive(Debug, PartialEq, Eq)]
pub struct SyntaxNode {
    kind: SyntaxKind,
    len: usize,
    children: Option<Vec<SyntaxNode>>,
}

/// The values of a sequence of nodes.
pub open spec fn views(nodes: Seq<SyntaxNode>) -> Seq<NodeView> {
    Seq::new(nodes.len(), |i: int| nodes[i]@)
}

pub closed spec fn vec_views(nodes: Vec<SyntaxNode>) -> Seq<NodeView>
    decreases nodes,
{
    Seq::new(
        nodes@.len(),
        |i: int|
            if 0 <= i < nodes@.len() {
                nodes@[i]@
            } else {
                arbitrary()
            },
    )
}

impl View for SyntaxNode {
    type V = NodeView;

    closed spec fn view(&self) -> NodeView
        decreases self,
    {
        match self.children {
            None => NodeView::Leaf { kind: self.kind@, len: self.len as nat },
            Some(children) => NodeView::Inner { kind: self.kind@, children: vec_views(children) },
        }
    }
}

impl SyntaxNode {
    #[verifier::type_invariant]
    spec fn len_is_cached(&self) -> bool {
        self.len == self@.len()
    }

    /// Create a new leaf node.
    pub fn leaf(kind: SyntaxKind, len: usize) -> (node: SyntaxNode)
        ensures
            node@ == (NodeView::Leaf { kind: kind@, len: len as nat }),
    {
        SyntaxNode { kind, len, children: None }
    }

    /// Create a new inner node with children.
    pub fn inner(kind: SyntaxKind, children: Vec<SyntaxNode>) -> (node: SyntaxNode)
        requires
            sum_len(views(children@)) <= usize::MAX,
        ensures
            node@ == (NodeView::Inner { kind: kind@, children: views(children@) }),
    {
        let mut len: usize = 0;
        let mut i: usize = 0;
        while i < children.len()
            invariant
                i <= children.len(),
                len == sum_len(views(children@).take(i as int)),
                sum_len(views(children@)) <= usize::MAX,
            decreases children.len() - i,
        {
            let child_len = children[i].len();
            proof {
                let all = views(children@);
                assert(all.take(i + 1).drop_last() =~= all.take(i as int));
                lemma_sum_len_split(all, i + 1);
            }
            len = len + child_len;
            i += 1;
        }
        proof {
            assert(views(children@).take(i as int) =~= views(children@));
            assert(vec_views(children) =~= views(children@));
        }
        SyntaxNode { kind, len, children: Some(children) }
    }

    /// An inner node of the given kind around this node alone.
    pub fn wrapped(self, kind: SyntaxKind) -> (node: SyntaxNode)
        ensures
            node@ == (NodeView::Inner { kind: kind@, children: seq![self@] }),
    {
        proof {
            use_type_invariant(&self);
            lemma_sum_len_one(self@);
        }
        let mut children: Vec<SyntaxNode> = Vec::new();
        children.push(self);
        proof {
            assert(views(children@) =~= seq![self@]);
        }
        SyntaxNode::inner(kind, children)
    }

    /// The node after a check of it: as it was where the check passed, and
    /// inside an error node where the check turned it down with a message.
    pub fn flagged(self, verdict: Result<(), &str>) -> (node: SyntaxNode)
        ensures
            node@ == self@.flagged(verdict_view(verdict)),
    {
        match verdict {
            Ok(_) => self,
            Err(message) => {
                let kind = if starts_with(message, "expected") {
                    let mut text = String::from_str(message);
                    text.append(", found ");
                    text.append(self.kind.name());
                    proof {
                        assert(text@ =~= message@ + ", found "@ + self.kind@.name());
                    }
                    SyntaxKind::Error(ErrorPos::Full, text)
                } else {
                    SyntaxKind::Error(ErrorPos::Full, String::from_str(message))
                };
                self.wrapped(kind)
            },
        }
    }

    /// The kind of the node.
    pub fn kind(&self) -> (kind: &SyntaxKind)
        ensures
            kind@ == self@.kind(),
    {
        &self.kind
    }

    /// The number of source bytes that the node covers.
    pub fn len(&self) -> (len: usize)
        ensures
            len == self@.len(),
    {
        proof {
            use_type_invariant(self);
        }
        self.len
    }

    /// Whether the node is a leaf.
    pub fn is_leaf(&self) -> (leaf: bool)
        ensures
            leaf == (self@ is Leaf),
    {
        self.children.is_none()
    }

    /// The children of the node; a leaf has none.
    pub fn children(&self) -> (children: &[SyntaxNode])
        ensures
            views(children@) == self@.children(),
    {
        match &self.children {
            Some(children) => {
                let slice = children.as_slice();
                proof {
                    assert(views(slice@) =~= vec_views(*children));
                }
                slice
            },
            None => {
                let slice: &[SyntaxNode] = &[];
                proof {
                    assert(views(slice@) =~= Seq::<NodeView>::empty());
                }
                slice
            },
        }
    }

    /// Convert the node to another kind.
    pub fn convert(&mut self, kind: SyntaxKind)
        ensures
            final(self)@ == old(self)@.with_kind(kind@),
    {
        proof {
            use_type_invariant(&*self);
        }
        self.kind = kind;
    }

    /// Append to `out` the bytes of `src` that the leaves of the node cover,
    /// when the node starts at `at`.
    pub fn write_text(&self, src: &[u8], at: usize, out: &mut Vec<u8>)
        requires
            at + self@.len() <= src@.len(),
        ensures
            final(out)@ == old(out)@ + self@.text(src@, at as int),
        decreases self@,
    {
        let bound = src.len();
        match &self.children {
            None => {
                proof {
                    use_type_invariant(self);
                }
                let end = at + self.len;
                let mut i: usize = at;
                while i < end
                    invariant
                        at <= i <= end <= src@.len(),
                        out@ == old(out)@ + src@.subrange(at as int, i as int),
                    decreases end - i,
                {
                    out.push(src[i]);
                    proof {
                        assert(src@.subrange(at as int, i as int).push(src@[i as int])
                            =~= src@.subrange(at as int, i + 1));
                    }
                    i += 1;
                }
            },
            Some(children) => {
                let mut pos: usize = at;
                let mut i: usize = 0;
                proof {
                    use_type_invariant(self);
                    assert(views(children@) =~= vec_views(*children));
                    assert(views(children@).take(0) =~= Seq::<NodeView>::empty());
                }
                while i < children.len()
                    invariant
                        i <= children.len(),
                        self@ is Inner,
                        self@.children() == views(children@),
                        at + self@.len() <= src@.len() == bound,
                        pos == at + sum_len(views(children@).take(i as int)),
                        out@ == old(out)@ + texts(views(children@).take(i as int), src@, at as int),
                    decreases children.len() - i,
                {
                    proof {
                        let all = views(children@);
                        assert(all.take(i + 1).drop_last() =~= all.take(i as int));
                        lemma_sum_len_split(all, i + 1);
                    }
                    children[i].write_text(src, pos, out);
                    pos = pos + children[i].len();
                    i += 1;
                }
                proof {
                    assert(views(children@).take(i as int) =~= views(children@));
                }
            },
        }
    }
}

/// The value of the outcome of a check.
pub open spec fn verdict_view(verdict: Result<(), &str>) -> Result<(), Seq<char>> {
    match verdict {
        Ok(_) => Ok(()),
        Err(message) => Err(message@),
    }
}

/// Whether `text` starts with `prefix`.
pub fn starts_with(text: &str, prefix: &str) -> (found: bool)
    ensures
        found == prefix@.is_prefix_of(text@),
{
    let len = prefix.unicode_len();
    if text.unicode_len() < len {
        return false;
    }
    let mut i: usize = 0;
    while i < len
        invariant
            i <= len == prefix@.len() <= text@.len(),
            forall|j: int| 0 <= j < i ==> text@[j] == prefix@[j],
        decreases len - i,
    {
        if text.get_char(i) != prefix.get_char(i) {
            proof {
                if prefix@.is_prefix_of(text@) {
                    assert(text@.subrange(0, prefix@.len() as int)[i as int] == prefix@[i as int]);
                }
            }
            return false;
        }
        i += 1;
    }
    proof {
        assert(text@.subrange(0, prefix@.len() as int) =~= prefix@);
    }
    true
}

/// Append to `out` the bytes of `src` that the leaves of `nodes` cover, in
/// order, when the first node starts at `at`.
pub fn write_texts(nodes: &[SyntaxNode], src: &[u8], at: usize, out: &mut Vec<u8>)
    requires
        at + sum_len(views(nodes@)) <= src@.len(),
    ensures
        final(out)@ == old(out)@ + texts(views(nodes@), src@, at as int),
{
    let bound = src.len();
    let mut pos: usize = at;
    let mut i: usize = 0;
    proof {
        assert(views(nodes@).take(0) =~= Seq::<NodeView>::empty());
    }
    while i < nodes.len()
        invariant
            i <= nodes.len(),
            at + sum_len(views(nodes@)) <= src@.len() == bound,
            pos == at + sum_len(views(nodes@).take(i as int)),
            out@ == old(out)@ + texts(views(nodes@).take(i as int), src@, at as int),
        decreases nodes.len() - i,
    {
        proof {
            let all = views(nodes@);
            assert(all.take(i + 1).drop_last() =~= all.take(i as int));
            lemma_sum_len_split(all, i + 1);
        }
        nodes[i].write_text(src, pos, out);
        pos = pos + nodes[i].len();
        i += 1;
    }
    proof {
        assert(views(nodes@).take(i as int) =~= views(nodes@));
    }
}

} // verus!
