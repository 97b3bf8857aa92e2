//! What holds of every state that the parser's operations reach.

use vstd::prelude::*;
use vstd::utf8::is_char_boundary;
use crate::group::{Group, GroupEntry};
use crate::kind::{KindView, TokenMode};
use crate::model::{aligned, started_inside, ParserView};
use crate::node::{
    lemma_sum_len_concat, lemma_sum_len_insert, lemma_sum_len_push, lemma_sum_len_split,
    lemma_sum_len_update, lemma_texts_are_source, sum_len, texts, NodeView,
};
use crate::tokens::{lemma_jump, lemma_next, sliceable, TokensView};

verus! {

impl ParserView {
    /// Whether this is a state of the same parse as `before`: over the same
    /// source, with the same bytes set aside.
    pub open spec fn follows(self, before: ParserView) -> bool {
        &&& self.tokens.src == before.tokens.src
        &&& self.tokens.column_offset == before.tokens.column_offset
        &&& self.outer_len == before.outer_len
    }

    /// Whether this state has the open groups and the mode of `before`.
    pub open spec fn within(self, before: ParserView) -> bool {
        &&& self.groups == before.groups
        &&& self.tokens.mode == before.tokens.mode
    }

    /// A bound on the number of tokens that can still be consumed.
    pub open spec fn remaining(self) -> int {
        self.tokens.src.len() - self.tokens.cursor + if self.current is Some {
            1int
        } else {
            0int
        }
    }
}

/// No nodes start between characters where they stand between characters.
proof fn lemma_aligned_empty(src: Seq<u8>, at: int)
    requires
        is_char_boundary(src, at),
    ensures
        aligned(src, at, Seq::<NodeView>::empty()),
{
    assert forall|k: int| 0 <= k <= 0 implies is_char_boundary(
        src,
        at + sum_len(#[trigger] Seq::<NodeView>::empty().take(k)),
    ) by {
        assert(Seq::<NodeView>::empty().take(k) =~= Seq::<NodeView>::empty());
    }
}

/// Nodes that start between characters still do with one more node behind
/// them that ends between characters.
proof fn lemma_aligned_push(src: Seq<u8>, at: int, nodes: Seq<NodeView>, node: NodeView)
    requires
        aligned(src, at, nodes),
        is_char_boundary(src, at + sum_len(nodes) + node.len()),
    ensures
        aligned(src, at, nodes.push(node)),
{
    let after = nodes.push(node);
    lemma_sum_len_push(nodes, node);
    assert forall|k: int| 0 <= k <= after.len() implies is_char_boundary(
        src,
        at + sum_len(#[trigger] after.take(k)),
    ) by {
        if k <= nodes.len() {
            assert(after.take(k) =~= nodes.take(k));
        } else {
            assert(after.take(k) =~= after);
        }
    }
}

/// Nodes that start between characters still do with a node of no length
/// among them.
proof fn lemma_aligned_insert(
    src: Seq<u8>,
    at: int,
    nodes: Seq<NodeView>,
    marker: int,
    node: NodeView,
)
    requires
        aligned(src, at, nodes),
        0 <= marker <= nodes.len(),
        node.len() == 0,
    ensures
        aligned(src, at, nodes.insert(marker, node)),
{
    let after = nodes.insert(marker, node);
    assert forall|k: int| 0 <= k <= after.len() implies is_char_boundary(
        src,
        at + sum_len(#[trigger] after.take(k)),
    ) by {
        if k <= marker {
            assert(after.take(k) =~= nodes.take(k));
            assert(is_char_boundary(src, at + sum_len(nodes.take(k))));
        } else {
            assert(after.take(k) =~= nodes.take(k - 1).insert(marker, node));
            lemma_sum_len_insert(nodes.take(k - 1), marker, node);
            assert(is_char_boundary(src, at + sum_len(nodes.take(k - 1))));
        }
    }
}

/// Nodes that start between characters still do when some of them that
/// stand side by side become the children of one node.
proof fn lemma_aligned_wrap(
    src: Seq<u8>,
    at: int,
    nodes: Seq<NodeView>,
    from: int,
    until: int,
    kind: KindView,
)
    requires
        aligned(src, at, nodes),
        0 <= from <= until <= nodes.len(),
    ensures
        aligned(
            src,
            at,
            nodes.take(from).push(NodeView::Inner { kind, children: nodes.subrange(from, until) })
                + nodes.skip(until),
        ),
{
    let node = NodeView::Inner { kind, children: nodes.subrange(from, until) };
    let after = nodes.take(from).push(node) + nodes.skip(until);
    assert forall|k: int| 0 <= k <= after.len() implies is_char_boundary(
        src,
        at + sum_len(#[trigger] after.take(k)),
    ) by {
        if k <= from {
            assert(after.take(k) =~= nodes.take(k));
        } else {
            let j = k - 1 + (until - from);
            let front = nodes.take(from);
            let inner = nodes.subrange(from, until);
            let back = nodes.subrange(until, j);
            assert(after.take(k) =~= front.push(node) + back);
            lemma_sum_len_concat(front.push(node), back);
            lemma_sum_len_push(front, node);
            lemma_sum_len_concat(front, inner);
            lemma_sum_len_concat(front + inner, back);
            assert(front + inner + back =~= nodes.take(j));
            assert(is_char_boundary(src, at + sum_len(nodes.take(j))));
        }
    }
}

/// Nodes that start between characters still do when one of them gives way
/// to a node of the same length.
proof fn lemma_aligned_update(
    src: Seq<u8>,
    at: int,
    nodes: Seq<NodeView>,
    index: int,
    node: NodeView,
)
    requires
        aligned(src, at, nodes),
        0 <= index < nodes.len(),
        node.len() == nodes[index].len(),
    ensures
        aligned(src, at, nodes.update(index, node)),
{
    let after = nodes.update(index, node);
    assert forall|k: int| 0 <= k <= after.len() implies is_char_boundary(
        src,
        at + sum_len(#[trigger] after.take(k)),
    ) by {
        if k <= index {
            assert(after.take(k) =~= nodes.take(k));
        } else {
            assert(after.take(k) =~= nodes.take(k).update(index, node));
            assert(nodes.take(k)[index] == nodes[index]);
            lemma_sum_len_update(nodes.take(k), index, node);
        }
        assert(is_char_boundary(src, at + sum_len(nodes.take(k))));
    }
}

/// The first of some nodes that start between characters start between
/// characters.
proof fn lemma_aligned_take(src: Seq<u8>, at: int, nodes: Seq<NodeView>, count: int)
    requires
        aligned(src, at, nodes),
        0 <= count <= nodes.len(),
    ensures
        aligned(src, at, nodes.take(count)),
        is_char_boundary(src, at + sum_len(nodes.take(count))),
{
    assert forall|k: int| 0 <= k <= count implies is_char_boundary(
        src,
        at + sum_len(#[trigger] nodes.take(count).take(k)),
    ) by {
        assert(nodes.take(count).take(k) =~= nodes.take(k));
    }
}

/// Nodes that start between characters, behind nodes that do, start between
/// characters together with them.
proof fn lemma_aligned_concat(src: Seq<u8>, at: int, front: Seq<NodeView>, back: Seq<NodeView>)
    requires
        aligned(src, at, front),
        aligned(src, at + sum_len(front), back),
    ensures
        aligned(src, at, front + back),
{
    let all = front + back;
    assert forall|k: int| 0 <= k <= all.len() implies is_char_boundary(
        src,
        at + sum_len(#[trigger] all.take(k)),
    ) by {
        if k <= front.len() {
            assert(all.take(k) =~= front.take(k));
        } else {
            assert(all.take(k) =~= front + back.take(k - front.len()));
            lemma_sum_len_concat(front, back.take(k - front.len()));
        }
    }
}

/// The children of a parser cover the source exactly from the bytes set
/// aside up to the current token, and up to the end of the source once it is
/// used up. Their leaves, taken in order, spell out these bytes, whatever
/// errors the tree holds.
pub proof fn lemma_children_cover_source(s: ParserView)
    requires
        s.inv(),
    ensures
        s.outer_len + sum_len(s.children) == s.current_start,
        s.current is None ==> s.outer_len + sum_len(s.children) == s.tokens.src.len(),
        texts(s.children, s.tokens.src, s.outer_len as int) == s.tokens.src.subrange(
            s.outer_len as int,
            s.current_start,
        ),
{
    lemma_texts_are_source(s.children, s.tokens.src, s.outer_len as int);
}

/// The current token is a slice of the source text, and so is what lies
/// between it and the last token that was no trivia.
pub proof fn lemma_token_is_slice(s: ParserView)
    requires
        s.inv(),
    ensures
        sliceable(s.tokens.src, s.current_start, s.tokens.cursor),
        sliceable(s.tokens.src, s.prev_end, s.current_start),
{
    lemma_aligned_take(s.tokens.src, s.outer_len as int, s.children, s.children.len() as int);
    assert(s.children.take(s.children.len() as int) =~= s.children);
}

/// A parser at the start of its source meets the parser's invariant.
pub proof fn lemma_start(tokens: TokensView)
    requires
        tokens.wf(),
        tokens.cursor == 0,
    ensures
        ParserView::start(tokens).inv(),
        ParserView::start(tokens).terminated(),
{
    lemma_next(tokens);
    lemma_aligned_empty(tokens.src, 0);
}

/// Bumping the current token keeps the children in step with the offsets.
pub proof fn lemma_bump(s: ParserView)
    requires
        s.coherent(),
        s.current is Some,
    ensures
        s.bump().coherent(),
        s.bump().follows(s),
        s.bump().remaining() < s.remaining(),
        s.bump().current_start == s.tokens.cursor,
        s.children.is_prefix_of(s.bump().children),
{
    let leaf = NodeView::Leaf {
        kind: s.current->0,
        len: (s.tokens.cursor - s.current_start) as nat,
    };
    lemma_next(s.tokens);
    lemma_sum_len_push(s.children, leaf);
    lemma_aligned_push(s.tokens.src, s.outer_len as int, s.children, leaf);
}

/// Skipping trivia keeps the children in step with the offsets, and stops
/// at the end of the source or in front of a token that is no trivia.
pub proof fn lemma_skip_trivia(s: ParserView)
    requires
        s.coherent(),
    ensures
        s.skip_trivia().coherent(),
        s.skip_trivia().follows(s),
        s.skip_trivia().remaining() <= s.remaining(),
        s.skip_trivia().current_start >= s.current_start,
        s.skip_trivia().prev_end == s.prev_end,
        s.skip_trivia().within(s),
        s.skip_trivia().eof == s.eof,
        s.skip_trivia().unterminated_group == s.unterminated_group,
        s.skip_trivia().stray_terminator == s.stray_terminator,
        s.skip_trivia().current matches Some(kind) ==> !s.skip_trivia().is_trivia(kind),
        s.children.is_prefix_of(s.skip_trivia().children),
    decreases s.remaining(),
{
    if s.current is Some && s.is_trivia(s.current->0) {
        lemma_bump(s);
        lemma_skip_trivia(s.bump());
    }
}

/// Consuming a token leaves a state in which the parser's invariant holds,
/// with fewer tokens to come. It adds children behind those that were there,
/// so that a marker stays where it was.
pub proof fn lemma_eat(s: ParserView)
    requires
        s.coherent(),
        s.current is Some,
    ensures
        s.eat().inv(),
        s.eat().follows(s),
        s.eat().remaining() < s.remaining(),
        s.eat().prev_end == s.tokens.cursor,
        s.eat().within(s),
        s.eat().unterminated_group == s.unterminated_group,
        s.eat().stray_terminator == (s.stray_terminator || s.at_stray()),
        s.children.is_prefix_of(s.eat().children),
        s.eat().children.len() > s.children.len(),
{
    let marked = ParserView {
        stray_terminator: s.stray_terminator || s.at_stray(),
        prev_end: s.tokens.cursor,
        ..s
    };
    lemma_bump(marked);
    if marked.bump().tokens.mode != TokenMode::Markup {
        lemma_skip_trivia(marked.bump());
    }
}

/// A group that is pushed with the mode that it is started in, together
/// with a change to the mode that it sets, keeps the modes on the stack
/// fitting together.
proof fn lemma_push_group(s: ParserView, kind: Group)
    requires
        s.coherent(),
    ensures
        (ParserView {
            groups: s.groups.push(GroupEntry { kind, prev_mode: s.tokens.mode }),
            tokens: s.tokens.with_mode(kind.mode_in(s.tokens.mode)),
            ..s
        }).coherent(),
{
    let groups = s.groups.push(GroupEntry { kind, prev_mode: s.tokens.mode });
    assert forall|i: int| 0 < i < groups.len() implies #[trigger] started_inside(groups, i) by {
        if i < s.groups.len() {
            assert(started_inside(s.groups, i));
        }
    }
}

/// A group that is popped, together with a change to the mode that it was
/// started in, keeps the modes on the stack fitting together.
proof fn lemma_pop_group(s: ParserView)
    requires
        s.coherent(),
        s.groups.len() > 0,
    ensures
        s.pop_group().coherent(),
{
    let groups = s.groups.drop_last();
    assert forall|i: int| 0 < i < groups.len() implies #[trigger] started_inside(groups, i) by {
        assert(started_inside(s.groups, i));
    }
    if groups.len() > 0 {
        assert(started_inside(s.groups, s.groups.len() - 1));
    }
}

/// Starting a group keeps the parser's invariant, and pushes the group with
/// the mode that it was started in.
pub proof fn lemma_start_group(s: ParserView, kind: Group)
    requires
        s.inv(),
        kind.opener() is Some ==> s.current is Some,
    ensures
        s.start_group(kind).inv(),
        s.start_group(kind).follows(s),
        s.start_group(kind).groups == s.groups.push(
            GroupEntry { kind, prev_mode: s.tokens.mode },
        ),
        s.start_group(kind).tokens.mode == kind.mode_in(s.tokens.mode),
        s.start_group(kind).unterminated_group == s.unterminated_group,
        s.stray_terminator ==> s.start_group(kind).stray_terminator,
        s.start_group(kind).remaining() <= s.remaining(),
        kind.opener() is Some ==> s.start_group(kind).remaining() < s.remaining(),
{
    let entered = ParserView {
        groups: s.groups.push(GroupEntry { kind, prev_mode: s.tokens.mode }),
        tokens: s.tokens.with_mode(kind.mode_in(s.tokens.mode)),
        ..s
    };
    lemma_push_group(s, kind);
    if kind.opener() is Some {
        lemma_eat(entered);
    }
}

/// The trailing trivia are the nodes from `trivia_start` on: each of them
/// can be skipped over, and the node in front of them, if there is one,
/// cannot.
pub proof fn lemma_trivia_start(s: ParserView)
    ensures
        0 <= s.trivia_start() <= s.children.len(),
        forall|i: int|
            s.trivia_start() <= i < s.children.len() ==> s.is_trivia(
                (#[trigger] s.children[i]).kind(),
            ),
        s.trivia_start() > 0 ==> !s.is_trivia(s.children[s.trivia_start() - 1].kind()),
{
    lemma_trailing_trivia(s, s.children);
}

/// The same of any nodes in place of the children.
proof fn lemma_trailing_trivia(s: ParserView, nodes: Seq<NodeView>)
    ensures
        s.trailing_trivia(nodes) <= nodes.len(),
        forall|i: int|
            nodes.len() - s.trailing_trivia(nodes) <= i < nodes.len() ==> s.is_trivia(
                (#[trigger] nodes[i]).kind(),
            ),
        nodes.len() - s.trailing_trivia(nodes) > 0 ==> !s.is_trivia(
            nodes[nodes.len() - s.trailing_trivia(nodes) - 1].kind(),
        ),
    decreases nodes.len(),
{
    if nodes.len() > 0 && s.is_trivia(nodes.last().kind()) {
        lemma_trailing_trivia(s, nodes.drop_last());
        let start = nodes.len() - s.trailing_trivia(nodes);
        assert forall|i: int| start <= i < nodes.len() implies s.is_trivia(
            (#[trigger] nodes[i]).kind(),
        ) by {
            if i < nodes.len() - 1 {
                assert(nodes.drop_last()[i] == nodes[i]);
            }
        }
        if start > 0 {
            assert(nodes.drop_last()[start - 1] == nodes[start - 1]);
        }
    }
}

/// The trailing trivia start at the one index from which on every node can
/// be skipped over while the node in front cannot.
pub proof fn lemma_trivia_start_is(s: ParserView, at: int)
    requires
        0 <= at <= s.children.len(),
        forall|i: int|
            at <= i < s.children.len() ==> s.is_trivia((#[trigger] s.children[i]).kind()),
        at > 0 ==> !s.is_trivia(s.children[at - 1].kind()),
    ensures
        s.trivia_start() == at,
{
    lemma_trivia_start(s);
    let found = s.trivia_start();
    if found < at {
        assert(s.is_trivia(s.children[at - 1].kind()));
    }
    if found > at {
        assert(s.is_trivia(s.children[found - 1].kind()));
    }
}

/// An inserted error covers no byte of the source: the children cover what
/// they covered before, and the parser's invariant is kept. The children in
/// front of the marker stay as they were.
pub proof fn lemma_expected_at(s: ParserView, marker: int, what: Seq<char>)
    requires
        0 <= marker <= s.children.len(),
    ensures
        sum_len(s.expected_at(marker, what).children) == sum_len(s.children),
        s.expected_at(marker, what).children.len() == s.children.len() + 1,
        s.coherent() ==> s.expected_at(marker, what).coherent(),
        s.inv() ==> s.expected_at(marker, what).inv(),
        s.expected_at(marker, what).follows(s),
        s.expected_at(marker, what).within(s),
        s.children.take(marker).is_prefix_of(s.expected_at(marker, what).children),
{
    lemma_sum_len_insert(s.children, marker, NodeView::error("expected "@ + what));
    if s.coherent() {
        lemma_aligned_insert(
            s.tokens.src,
            s.outer_len as int,
            s.children,
            marker,
            NodeView::error("expected "@ + what),
        );
    }
}

/// An error in front of the trailing trivia covers no byte of the source
/// either.
pub proof fn lemma_expected(s: ParserView, what: Seq<char>)
    ensures
        sum_len(s.expected(what).children) == sum_len(s.children),
        s.expected(what).children.len() == s.children.len() + 1,
        s.coherent() ==> s.expected(what).coherent(),
        s.inv() ==> s.expected(what).inv(),
        s.expected(what).follows(s),
        s.expected(what).within(s),
{
    lemma_trivia_start(s);
    lemma_expected_at(s, s.trivia_start(), what);
}

/// Reading the current token again keeps the children in step with the
/// offsets: what is read again is just what the children cover no longer.
/// Children are dropped from the end only.
pub proof fn lemma_rescan(s: ParserView, group_mode: TokenMode)
    requires
        s.coherent(),
        s.prev_end <= s.current_start,
        group_mode == TokenMode::Markup ==> s.prev_end == s.current_start,
    ensures
        s.rescan(group_mode).coherent(),
        s.rescan(group_mode).prev_end == s.rescan(group_mode).current_start,
        s.rescan(group_mode).follows(s),
        s.rescan(group_mode).within(s),
        s.rescan(group_mode).children.is_prefix_of(s.children),
        s.rescan(group_mode).unterminated_group == s.unterminated_group,
        s.rescan(group_mode).stray_terminator == s.stray_terminator,
{
    lemma_trivia_start(s);
    lemma_sum_len_split(s.children, s.trivia_start());
    let start = s.trivia_start();
    let target = if group_mode != TokenMode::Markup {
        s.current_start - sum_len(s.children.skip(start))
    } else {
        s.prev_end
    };
    lemma_aligned_take(s.tokens.src, s.outer_len as int, s.children, start);
    lemma_jump(s.tokens, target);
    lemma_next(s.tokens.jump(target));
}

/// Consuming the token that closes a group leaves a state in which the
/// parser's invariant holds.
pub proof fn lemma_eat_closer(s: ParserView)
    requires
        s.coherent(),
        s.current is Some,
    ensures
        s.eat_closer().inv(),
        s.eat_closer().follows(s),
        s.eat_closer().within(s),
        s.eat_closer().remaining() < s.remaining(),
        s.eat_closer().stray_terminator == s.stray_terminator,
        !s.eat_closer().unterminated_group,
{
    lemma_eat(ParserView { unterminated_group: false, ..s });
}

/// Marking a group as unterminated keeps the children in step with the
/// offsets.
pub proof fn lemma_miss_closer(s: ParserView, kind: Group)
    requires
        s.coherent(),
    ensures
        s.miss_closer(kind).coherent(),
        s.miss_closer(kind).follows(s),
        s.miss_closer(kind).prev_end == s.prev_end,
        s.miss_closer(kind).current_start == s.current_start,
        s.miss_closer(kind).current == s.current,
        s.miss_closer(kind).tokens == s.tokens,
        s.miss_closer(kind).groups == s.groups,
        s.miss_closer(kind).stray_terminator == s.stray_terminator,
        s.miss_closer(kind).unterminated_group == (s.unterminated_group || (kind.closer() is Some
            && kind.closer_required())),
{
    lemma_expected(s, kind.closer()->0.name());
}

/// Ending a group keeps the parser's invariant, pops the group and goes back
/// to the mode that the group was started in.
pub proof fn lemma_end_group(s: ParserView)
    requires
        s.inv(),
        s.groups.len() > 0,
    ensures
        s.end_group().inv(),
        s.end_group().follows(s),
        s.end_group().groups == s.groups.drop_last(),
        s.end_group().tokens.mode == s.groups.last().prev_mode,
        s.end_group().stray_terminator == s.stray_terminator,
        s.groups.last().prev_mode == s.tokens.mode ==> s.end_group().remaining() <= s.remaining(),
        s.current is Some && s.current == s.groups.last().kind.closer() ==> s.end_group().remaining()
            < s.remaining(),
{
    let kind = s.groups.last().kind;
    let left = s.pop_group();
    lemma_pop_group(s);
    if left.at_closer(kind) {
        lemma_eat_closer(left);
    } else {
        lemma_miss_closer(left, kind);
        if left.tokens.mode != s.tokens.mode {
            lemma_rescan(left.miss_closer(kind), s.tokens.mode);
        }
    }
}

/// A group that ends without the closing token that its kind requires
/// leaves exactly one error in the tree, in front of the trailing trivia,
/// which says what was expected, and the parser counts as not terminated.
/// The trailing trivia are dropped for another reading where the group had
/// changed the mode from one that is not markup.
pub proof fn lemma_unclosed_group(s: ParserView)
    requires
        s.inv(),
        s.groups.len() > 0,
        s.groups.last().kind.closer_required(),
        s.current != s.groups.last().kind.closer(),
    ensures
        ({
            let kind = s.groups.last().kind;
            let at = s.pop_group().trivia_start();
            let error = NodeView::error("expected "@ + kind.closer()->0.name());
            &&& 0 <= at <= s.children.len()
            &&& s.end_group().unterminated_group
            &&& !s.end_group().terminated()
            &&& s.end_group().children == if s.groups.last().prev_mode != s.tokens.mode
                && s.tokens.mode != TokenMode::Markup {
                s.children.take(at).push(error)
            } else {
                s.children.insert(at, error)
            }
        }),
{
    let kind = s.groups.last().kind;
    let left = s.pop_group();
    let at = left.trivia_start();
    let error = NodeView::error("expected "@ + kind.closer()->0.name());
    let marked = left.miss_closer(kind);
    lemma_pop_group(s);
    lemma_trivia_start(left);
    lemma_miss_closer(left, kind);
    assert(marked.children == left.children.insert(at, error));
    assert forall|k: KindView| marked.is_trivia(k) == left.is_trivia(k) by {}
    assert forall|i: int| at + 1 <= i < marked.children.len() implies marked.is_trivia(
        (#[trigger] marked.children[i]).kind(),
    ) by {
        assert(marked.children[i] == left.children[i - 1]);
    }
    lemma_trivia_start_is(marked, at + 1);
    if left.tokens.mode != s.tokens.mode {
        lemma_rescan(marked, s.tokens.mode);
        assert(marked.children.take(at + 1) =~= s.children.take(at).push(error));
    }
}

/// A closing delimiter that is consumed while no group of its kind is open
/// is stray, and the parser counts as not terminated from then on.
pub proof fn lemma_stray_terminator(s: ParserView)
    requires
        s.coherent(),
        s.at_stray(),
    ensures
        s.eat().stray_terminator,
        !s.eat().terminated(),
{
    lemma_eat(s);
}

/// In an expression that stands directly in a braced group, a line break
/// ends the expression unless `else` or a dot follows it; an expression
/// that stands anywhere else ends at every line break.
pub proof fn lemma_line_break_in_expr(s: ParserView, n: nat)
    requires
        n >= 1,
        s.groups.len() > 0,
        s.groups.last().kind == Group::Expr,
    ensures
        s.space_ends_group(n) == !(s.in_braces() && s.continues()),
        !s.space_ends_group(0),
{
}

/// Setting the children aside for a subparse keeps the parser's invariant.
pub proof fn lemma_enter(s: ParserView)
    requires
        s.inv(),
    ensures
        s.enter().inv(),
        s.enter().within(s),
        s.enter().remaining() == s.remaining(),
        s.enter().outer_len == s.outer_len + sum_len(s.children),
{
    lemma_aligned_take(s.tokens.src, s.outer_len as int, s.children, s.children.len() as int);
    assert(s.children.take(s.children.len() as int) =~= s.children);
    lemma_aligned_empty(s.tokens.src, s.enter().outer_len as int);
}

/// Wrapping up a subparse keeps the parser's invariant, whatever the
/// subparse did, as long as it kept the invariant itself and left alone what
/// was set aside. The children that were set aside come back as they were,
/// in front of the new node.
pub proof fn lemma_leave(s: ParserView, kind: KindView, outer: ParserView)
    requires
        s.inv(),
        outer.coherent(),
        s.follows(outer.enter()),
    ensures
        s.leave(kind, outer).inv(),
        s.leave(kind, outer).follows(outer),
        s.leave(kind, outer).within(s),
        outer.children.is_prefix_of(s.leave(kind, outer).children),
        s.leave(kind, outer).remaining() == s.remaining(),
        sum_len(s.leave(kind, outer).children) == sum_len(outer.children) + sum_len(s.children),
{
    lemma_trivia_start(s);
    let until = if s.tokens.mode == TokenMode::Markup {
        s.children.len() as int
    } else {
        s.trivia_start()
    };
    let src = s.tokens.src;
    let node = NodeView::Inner { kind, children: s.children.take(until) };
    let inner = seq![node] + s.children.skip(until);
    lemma_sum_len_split(s.children, until);
    lemma_sum_len_push(outer.children, node);
    lemma_sum_len_concat(outer.children.push(node), s.children.skip(until));
    lemma_aligned_wrap(src, s.outer_len as int, s.children, 0, until, kind);
    assert(s.children.take(0).push(
        NodeView::Inner { kind, children: s.children.subrange(0, until) },
    ) + s.children.skip(until) =~= inner);
    lemma_aligned_concat(src, outer.outer_len as int, outer.children, inner);
    assert(outer.children + inner =~= s.leave(kind, outer).children);
}

/// Wrapping the children from a marker on keeps the parser's invariant, and
/// the children in front of the marker stay as they were.
pub proof fn lemma_wrap_from(s: ParserView, marker: int, kind: KindView)
    requires
        0 <= marker <= s.children.len(),
    ensures
        sum_len(s.wrap_from(marker, kind).children) == sum_len(s.children),
        s.inv() ==> s.wrap_from(marker, kind).inv(),
        s.wrap_from(marker, kind).follows(s),
        s.wrap_from(marker, kind).within(s),
        s.children.take(marker).is_prefix_of(s.wrap_from(marker, kind).children),
{
    lemma_trivia_start(s);
    let until = if s.trivia_start() >= marker {
        s.trivia_start()
    } else {
        marker
    };
    let node = NodeView::Inner { kind, children: s.children.subrange(marker, until) };
    lemma_sum_len_split(s.children, until);
    lemma_sum_len_split(s.children.take(until), marker);
    assert(s.children.take(until).take(marker) =~= s.children.take(marker));
    assert(s.children.take(until).skip(marker) =~= s.children.subrange(marker, until));
    lemma_sum_len_push(s.children.take(marker), node);
    lemma_sum_len_concat(s.children.take(marker).push(node), s.children.skip(until));
    if s.inv() {
        lemma_aligned_wrap(s.tokens.src, s.outer_len as int, s.children, marker, until, kind);
    }
}

/// A child that gives way to a node of the same length leaves the parser's
/// invariant alone.
pub proof fn lemma_replace_child(s: ParserView, index: int, node: NodeView)
    requires
        s.inv(),
        0 <= index < s.children.len(),
        node.len() == s.children[index].len(),
    ensures
        sum_len(s.children.update(index, node)) == sum_len(s.children),
        (ParserView { children: s.children.update(index, node), ..s }).inv(),
{
    lemma_sum_len_update(s.children, index, node);
    lemma_aligned_update(s.tokens.src, s.outer_len as int, s.children, index, node);
}

/// Giving a child another kind keeps the parser's invariant.
pub proof fn lemma_convert(s: ParserView, marker: int, kind: KindView)
    ensures
        sum_len(s.convert(marker, kind).children) == sum_len(s.children),
        s.inv() ==> s.convert(marker, kind).inv(),
        s.convert(marker, kind).follows(s),
        s.convert(marker, kind).within(s),
{
    if 0 <= marker < s.children.len() {
        lemma_sum_len_update(s.children, marker, s.children[marker].with_kind(kind));
        if s.inv() {
            lemma_replace_child(s, marker, s.children[marker].with_kind(kind));
        }
    }
}

/// Consuming a token inside an error node keeps the parser's invariant.
pub proof fn lemma_eat_as_error(s: ParserView, message: Seq<char>)
    requires
        s.inv(),
        s.current is Some,
    ensures
        s.eat_as_error(message).inv(),
        s.eat_as_error(message).follows(s),
        s.eat_as_error(message).within(s),
        s.eat_as_error(message).remaining() < s.remaining(),
{
    lemma_enter(s);
    lemma_eat(s.enter());
    lemma_leave(s.enter().eat(), KindView::error(message), s);
}

/// Flagging an unexpected token keeps the parser's invariant.
pub proof fn lemma_unexpected(s: ParserView)
    requires
        s.inv(),
    ensures
        s.unexpected().inv(),
        s.unexpected().follows(s),
        s.unexpected().within(s),
        s.peek() is Some ==> s.unexpected().remaining() < s.remaining(),
{
    if let Some(found) = s.peek() {
        lemma_eat_as_error(s, "unexpected "@ + found.name());
    }
}

/// Flagging a token in place of what was expected keeps the parser's
/// invariant.
pub proof fn lemma_expected_found(s: ParserView, thing: Seq<char>)
    requires
        s.inv(),
    ensures
        s.expected_found(thing).inv(),
        s.expected_found(thing).follows(s),
        s.expected_found(thing).within(s),
        s.peek() is Some ==> s.expected_found(thing).remaining() < s.remaining(),
{
    if let Some(found) = s.peek() {
        lemma_eat_as_error(s, "expected "@ + thing + ", found "@ + found.name());
    } else {
        lemma_expected(s, thing);
    }
}

} // verus!
