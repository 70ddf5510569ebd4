use vstd::prelude::*;

use crate::errors::ParseErrorView;
use crate::index::schema_index_spec;
use crate::models::{FlowView, NodeView, SchemaNodeView, root_prefix};
use crate::tokenizer::tokenize;

verus! {

/// The state of a parse in progress: the arena of nodes built so far, and
/// the stack of currently open ancestors, bottom first. Stack entries are
/// arena indices.
pub struct ParseState {
    pub arena: Seq<NodeView>,
    pub stack: Seq<int>,
}

/// The state before any line is consumed: an arena holding only the
/// synthetic root, which is the only open ancestor.
pub open spec fn init_state() -> ParseState {
    ParseState {
        arena: seq![
            NodeView { prefix: root_prefix(), contents: Seq::empty(), children: Seq::empty() },
        ],
        stack: seq![0int],
    }
}

/// Whether the index declares `child` as permitted directly under `parent`.
pub open spec fn permits(
    index: Map<Seq<char>, Seq<Seq<char>>>,
    parent: Seq<char>,
    child: Seq<char>,
) -> bool {
    index.contains_key(parent) && index[parent].contains(child)
}

/// Scanning the open-ancestor stack from the top down for the parent of an
/// incoming `prefix`. A top whose prefix permits `prefix` is the parent; the
/// root is never popped, so an incoming prefix it does not permit has no
/// valid parent; any other top that does not permit `prefix` is permanently
/// closed and popped. A non-root top whose prefix the index does not know
/// reveals an undeclared prefix accepted earlier. Yields the parent's arena
/// index and the stack as it stands once scanning stops.
pub open spec fn resolve_stack(
    arena: Seq<NodeView>,
    stack: Seq<int>,
    prefix: Seq<char>,
    index: Map<Seq<char>, Seq<Seq<char>>>,
) -> Result<(int, Seq<int>), ParseErrorView>
    decreases stack.len(),
{
    if stack.len() == 0 {
        Err(ParseErrorView::NoValidParent(prefix))
    } else {
        let j = stack.last();
        let top = arena[j].prefix;
        if top == root_prefix() {
            if permits(index, top, prefix) {
                Ok((j, stack))
            } else {
                Err(ParseErrorView::NoValidParent(prefix))
            }
        } else if !index.contains_key(top) {
            Err(ParseErrorView::UnknownPrefix(top))
        } else if index[top].contains(prefix) {
            Ok((j, stack))
        } else {
            resolve_stack(arena, stack.drop_last(), prefix, index)
        }
    }
}

/// One tokenized line applied to the state: the new node is appended to the
/// arena, attached to the parent the stack scan finds, and pushed onto the
/// stack exactly when the schema declares children for its prefix. A prefix
/// the index does not know cannot be opened and is rejected.
pub open spec fn apply_line(
    st: ParseState,
    prefix: Seq<char>,
    contents: Seq<Seq<char>>,
    index: Map<Seq<char>, Seq<Seq<char>>>,
) -> Result<ParseState, ParseErrorView> {
    match resolve_stack(st.arena, st.stack, prefix, index) {
        Err(e) => Err(e),
        Ok((j, popped)) => {
            if !index.contains_key(prefix) {
                Err(ParseErrorView::UnknownPrefix(prefix))
            } else {
                let i = st.arena.len() as int;
                let parent = st.arena[j];
                let arena2 = st.arena.update(
                    j,
                    NodeView {
                        prefix: parent.prefix,
                        contents: parent.contents,
                        children: parent.children.push(i),
                    },
                ).push(NodeView { prefix, contents, children: Seq::empty() });
                let stack2 = if index[prefix].len() > 0 {
                    popped.push(i)
                } else {
                    popped
                };
                Ok(ParseState { arena: arena2, stack: stack2 })
            }
        },
    }
}

/// All input lines consumed in order, starting from the given state. The
/// first malformed line or resolution failure aborts the run.
pub open spec fn run_lines(
    st: ParseState,
    lines: Seq<Seq<char>>,
    index: Map<Seq<char>, Seq<Seq<char>>>,
) -> Result<ParseState, ParseErrorView>
    decreases lines.len(),
{
    if lines.len() == 0 {
        Ok(st)
    } else {
        match tokenize(lines[0]) {
            None => Err(ParseErrorView::MalformedLine(lines[0])),
            Some((p, c)) => match apply_line(st, p, c, index) {
                Err(e) => Err(e),
                Ok(st2) => run_lines(st2, lines.subrange(1, lines.len() as int), index),
            },
        }
    }
}

/// A well-formed arena: every child index points past its parent and into
/// the arena, so child links can never form a cycle.
pub open spec fn wf_arena(arena: Seq<NodeView>) -> bool {
    forall|i: int, k: int|
        0 <= i < arena.len() && 0 <= k < arena[i].children.len() ==> i < #[trigger] arena[i].children[k] < arena.len()
}

/// The owned result tree grown from arena position `i`: the node's prefix
/// and contents copied, and its children materialized recursively in stored
/// order.
pub open spec fn materialize(arena: Seq<NodeView>, i: int) -> FlowView
    decreases arena.len() - i, 1int, 0int,
    when wf_arena(arena) && 0 <= i < arena.len()
{
    FlowView {
        prefix: arena[i].prefix,
        contents: arena[i].contents,
        children: materialize_list(arena, arena[i].children, i),
    }
}

/// The trees grown from a list of arena positions, each past `lo`.
pub open spec fn materialize_list(arena: Seq<NodeView>, kids: Seq<int>, lo: int) -> Seq<FlowView>
    decreases arena.len() - lo, 0int, kids.len(),
    when wf_arena(arena) && (forall|k: int| 0 <= k < kids.len() ==> lo < #[trigger] kids[k] < arena.len())
{
    if kids.len() == 0 {
        Seq::empty()
    } else {
        seq![materialize(arena, kids[0])] + materialize_list(
            arena,
            kids.subrange(1, kids.len() as int),
            lo,
        )
    }
}

/// The structural facts every reachable parse state satisfies: a well-formed
/// arena that is never empty, and a stack whose entries all point into the
/// arena.
pub open spec fn state_inv(st: ParseState) -> bool {
    &&& wf_arena(st.arena)
    &&& st.arena.len() >= 1
    &&& forall|k: int| 0 <= k < st.stack.len() ==> 0 <= #[trigger] st.stack[k] < st.arena.len()
}

/// A successful stack scan stops at some suffix of pops: what it hands back
/// is a non-empty prefix of the stack whose top is the chosen parent.
pub proof fn lemma_resolve_stack_ok(
    arena: Seq<NodeView>,
    stack: Seq<int>,
    prefix: Seq<char>,
    index: Map<Seq<char>, Seq<Seq<char>>>,
)
    ensures
        (match resolve_stack(arena, stack, prefix, index) {
            Ok((j, popped)) => 0 < popped.len() <= stack.len() && popped == stack.subrange(
                0,
                popped.len() as int,
            ) && j == popped.last(),
            Err(_) => true,
        }),
    decreases stack.len(),
{
    if stack.len() > 0 {
        let j = stack.last();
        let top = arena[j].prefix;
        if top == root_prefix() || (index.contains_key(top) && index[top].contains(prefix)) {
            assert(stack.subrange(0, stack.len() as int) =~= stack);
        } else if index.contains_key(top) {
            lemma_resolve_stack_ok(arena, stack.drop_last(), prefix, index);
            match resolve_stack(arena, stack.drop_last(), prefix, index) {
                Ok((j2, popped)) => {
                    assert(stack.drop_last().subrange(0, popped.len() as int) =~= stack.subrange(
                        0,
                        popped.len() as int,
                    ));
                },
                Err(_) => {},
            }
        }
    }
}

/// The stack scan reads only the nodes the stack points at, so nodes
/// appended past them do not change its outcome.
pub proof fn lemma_resolve_stack_frame(
    arena1: Seq<NodeView>,
    arena2: Seq<NodeView>,
    stack: Seq<int>,
    prefix: Seq<char>,
    index: Map<Seq<char>, Seq<Seq<char>>>,
)
    requires
        forall|k: int| 0 <= k < stack.len() ==> 0 <= #[trigger] stack[k] < arena1.len(),
        arena1.len() <= arena2.len(),
        forall|k: int| 0 <= k < arena1.len() ==> arena2[k] == arena1[k],
    ensures
        resolve_stack(arena1, stack, prefix, index) == resolve_stack(arena2, stack, prefix, index),
    decreases stack.len(),
{
    if stack.len() > 0 {
        assert(arena2[stack.last()] == arena1[stack.last()]);
        lemma_resolve_stack_frame(arena1, arena2, stack.drop_last(), prefix, index);
    }
}

/// Applying one line to a state that satisfies the invariant either fails or
/// yields a state that satisfies it again, with exactly one node added.
pub proof fn lemma_apply_line_inv(
    st: ParseState,
    prefix: Seq<char>,
    contents: Seq<Seq<char>>,
    index: Map<Seq<char>, Seq<Seq<char>>>,
)
    requires
        state_inv(st),
    ensures
        (match apply_line(st, prefix, contents, index) {
            Ok(st2) => state_inv(st2) && st2.arena.len() == st.arena.len() + 1,
            Err(_) => true,
        }),
{
    lemma_resolve_stack_ok(st.arena, st.stack, prefix, index);
    match resolve_stack(st.arena, st.stack, prefix, index) {
        Ok((j, popped)) => {
            if index.contains_key(prefix) {
                let i = st.arena.len() as int;
                let parent = st.arena[j];
                let arena2 = st.arena.update(
                    j,
                    NodeView {
                        prefix: parent.prefix,
                        contents: parent.contents,
                        children: parent.children.push(i),
                    },
                ).push(NodeView { prefix, contents, children: Seq::empty() });
                assert(0 <= j < st.arena.len());
                assert forall|a: int, k: int|
                    0 <= a < arena2.len() && 0 <= k < arena2[a].children.len() implies a
                    < #[trigger] arena2[a].children[k] < arena2.len() by {
                    if a == j {
                        if k < parent.children.len() {
                            assert(arena2[a].children[k] == parent.children[k]);
                        } else {
                            assert(arena2[a].children[k] == i);
                        }
                    } else if a < st.arena.len() {
                        assert(arena2[a] == st.arena[a]);
                    }
                }
            }
        },
        Err(_) => {},
    }
}

/// Running any sequence of lines from a state that satisfies the invariant
/// either fails or yields a state that satisfies it again, with exactly one
/// node added per line.
pub proof fn lemma_run_lines_inv(
    st: ParseState,
    lines: Seq<Seq<char>>,
    index: Map<Seq<char>, Seq<Seq<char>>>,
)
    requires
        state_inv(st),
    ensures
        (match run_lines(st, lines, index) {
            Ok(st2) => state_inv(st2) && st2.arena.len() == st.arena.len() + lines.len(),
            Err(_) => true,
        }),
    decreases lines.len(),
{
    if lines.len() > 0 {
        match tokenize(lines[0]) {
            None => {},
            Some((p, c)) => {
                lemma_apply_line_inv(st, p, c, index);
                match apply_line(st, p, c, index) {
                    Err(_) => {},
                    Ok(st2) => {
                        lemma_run_lines_inv(st2, lines.subrange(1, lines.len() as int), index);
                    },
                }
            },
        }
    }
}

/// The initial state satisfies the invariant.
pub proof fn lemma_init_state_inv()
    ensures
        state_inv(init_state()),
{
    assert(forall|k: int|
        0 <= k < init_state().arena.len() ==> init_state().arena[k].children.len() == 0);
}

/// Materializing one more child at the end of a list appends its tree.
pub proof fn lemma_materialize_list_push(
    arena: Seq<NodeView>,
    kids: Seq<int>,
    lo: int,
    c: int,
)
    requires
        wf_arena(arena),
        0 <= lo,
        forall|k: int| 0 <= k < kids.len() ==> lo < #[trigger] kids[k] < arena.len(),
        lo < c < arena.len(),
    ensures
        materialize_list(arena, kids.push(c), lo) == materialize_list(arena, kids, lo).push(
            materialize(arena, c),
        ),
    decreases kids.len(),
{
    let pushed = kids.push(c);
    assert(forall|k: int| 0 <= k < pushed.len() ==> lo < #[trigger] pushed[k] < arena.len());
    if kids.len() == 0 {
        assert(pushed.subrange(1, pushed.len() as int) =~= Seq::<int>::empty());
        assert(materialize_list(arena, Seq::<int>::empty(), lo) =~= Seq::<FlowView>::empty());
        assert(materialize_list(arena, pushed, lo) =~= seq![materialize(arena, c)]);
        assert(materialize_list(arena, kids, lo).push(materialize(arena, c)) =~= seq![
            materialize(arena, c),
        ]);
    } else {
        assert(pushed.subrange(1, pushed.len() as int) =~= kids.subrange(
            1,
            kids.len() as int,
        ).push(c));
        lemma_materialize_list_push(arena, kids.subrange(1, kids.len() as int), lo, c);
        assert(materialize_list(arena, pushed, lo) =~= materialize_list(arena, kids, lo).push(
            materialize(arena, c),
        ));
    }
}

/// The arena positions of the subtree grown from `i`, in the order
/// `materialize` visits them.
pub open spec fn subtree_seq(arena: Seq<NodeView>, i: int) -> Seq<int>
    decreases arena.len() - i, 1int, 0int,
    when wf_arena(arena) && 0 <= i < arena.len()
{
    seq![i] + subtree_list(arena, arena[i].children, i)
}

/// The arena positions of the subtrees grown from a list of positions, each
/// past `lo`.
pub open spec fn subtree_list(arena: Seq<NodeView>, kids: Seq<int>, lo: int) -> Seq<int>
    decreases arena.len() - lo, 0int, kids.len(),
    when wf_arena(arena) && (forall|k: int| 0 <= k < kids.len() ==> lo < #[trigger] kids[k] < arena.len())
{
    if kids.len() == 0 {
        Seq::empty()
    } else {
        subtree_seq(arena, kids[0]) + subtree_list(arena, kids.subrange(1, kids.len() as int), lo)
    }
}

/// Visiting one more child at the end of a list appends its subtree.
pub proof fn lemma_subtree_list_push(arena: Seq<NodeView>, kids: Seq<int>, lo: int, c: int)
    requires
        wf_arena(arena),
        0 <= lo,
        forall|k: int| 0 <= k < kids.len() ==> lo < #[trigger] kids[k] < arena.len(),
        lo < c < arena.len(),
    ensures
        subtree_list(arena, kids.push(c), lo) == subtree_list(arena, kids, lo) + subtree_seq(
            arena,
            c,
        ),
    decreases kids.len(),
{
    let pushed = kids.push(c);
    assert(forall|k: int| 0 <= k < pushed.len() ==> lo < #[trigger] pushed[k] < arena.len());
    if kids.len() == 0 {
        assert(pushed.subrange(1, pushed.len() as int) =~= Seq::<int>::empty());
        assert(subtree_list(arena, Seq::<int>::empty(), lo) =~= Seq::<int>::empty());
        assert(subtree_list(arena, pushed, lo) =~= subtree_seq(arena, c));
        assert(subtree_list(arena, kids, lo) + subtree_seq(arena, c) =~= subtree_seq(arena, c));
    } else {
        assert(pushed.subrange(1, pushed.len() as int) =~= kids.subrange(
            1,
            kids.len() as int,
        ).push(c));
        lemma_subtree_list_push(arena, kids.subrange(1, kids.len() as int), lo, c);
        assert(subtree_list(arena, pushed, lo) =~= subtree_list(arena, kids, lo) + subtree_seq(
            arena,
            c,
        ));
    }
}

/// A subtree that does not contain the one updated position reads none of
/// the changed nodes, so it is the same in both arenas.
pub proof fn lemma_frame_subtree(
    arena1: Seq<NodeView>,
    arena2: Seq<NodeView>,
    c: int,
    j: int,
)
    requires
        wf_arena(arena1),
        wf_arena(arena2),
        0 <= c < arena1.len(),
        arena1.len() <= arena2.len(),
        forall|k: int| 0 <= k < arena1.len() && k != j ==> arena2[k] == arena1[k],
        !subtree_seq(arena1, c).contains(j),
    ensures
        subtree_seq(arena2, c) == subtree_seq(arena1, c),
    decreases arena1.len() - c, 1int, 0int,
{
    let whole = subtree_seq(arena1, c);
    let tail = subtree_list(arena1, arena1[c].children, c);
    assert(whole[0] == c);
    assert(c != j);
    assert(arena2[c] == arena1[c]);
    assert forall|m: int| 0 <= m < tail.len() implies #[trigger] tail[m] != j by {
        assert(whole[m + 1] == tail[m]);
    }
    lemma_frame_subtree_list(arena1, arena2, arena1[c].children, c, j);
}

/// The subtrees of a list of positions none of which reaches the updated
/// position are the same in both arenas.
pub proof fn lemma_frame_subtree_list(
    arena1: Seq<NodeView>,
    arena2: Seq<NodeView>,
    kids: Seq<int>,
    lo: int,
    j: int,
)
    requires
        wf_arena(arena1),
        wf_arena(arena2),
        0 <= lo,
        forall|k: int| 0 <= k < kids.len() ==> lo < #[trigger] kids[k] < arena1.len(),
        arena1.len() <= arena2.len(),
        forall|k: int| 0 <= k < arena1.len() && k != j ==> arena2[k] == arena1[k],
        !subtree_list(arena1, kids, lo).contains(j),
    ensures
        subtree_list(arena2, kids, lo) == subtree_list(arena1, kids, lo),
    decreases arena1.len() - lo, 0int, kids.len(),
{
    if kids.len() > 0 {
        let head = subtree_seq(arena1, kids[0]);
        let rest = kids.subrange(1, kids.len() as int);
        let tail = subtree_list(arena1, rest, lo);
        let whole = subtree_list(arena1, kids, lo);
        assert(whole =~= head + tail);
        assert forall|m: int| 0 <= m < head.len() implies #[trigger] head[m] != j by {
            assert(whole[m] == head[m]);
        }
        assert forall|m: int| 0 <= m < tail.len() implies #[trigger] tail[m] != j by {
            assert(whole[head.len() + m] == tail[m]);
        }
        assert(!head.contains(j));
        assert(!tail.contains(j));
        lemma_frame_subtree(arena1, arena2, kids[0], j);
        lemma_frame_subtree_list(arena1, arena2, rest, lo, j);
        assert(subtree_list(arena2, kids, lo) =~= subtree_list(arena1, kids, lo));
    }
}

/// How many nodes a result tree holds, itself included.
pub open spec fn count_flow(v: FlowView) -> int
    decreases v,
{
    1 + count_flows(v.children)
}

/// How many nodes a sequence of result trees holds in total.
pub open spec fn count_flows(s: Seq<FlowView>) -> int
    decreases s,
{
    if s.len() == 0 {
        0
    } else {
        count_flow(s[0]) + count_flows(s.subrange(1, s.len() as int))
    }
}

/// The materialized tree holds one node per arena position of the subtree.
pub proof fn lemma_count_materialize(arena: Seq<NodeView>, i: int)
    requires
        wf_arena(arena),
        0 <= i < arena.len(),
    ensures
        count_flow(materialize(arena, i)) == subtree_seq(arena, i).len(),
    decreases arena.len() - i, 1int, 0int,
{
    lemma_count_materialize_list(arena, arena[i].children, i);
}

/// The materialized trees of a list of positions hold one node per arena
/// position of their subtrees.
pub proof fn lemma_count_materialize_list(arena: Seq<NodeView>, kids: Seq<int>, lo: int)
    requires
        wf_arena(arena),
        0 <= lo,
        forall|k: int| 0 <= k < kids.len() ==> lo < #[trigger] kids[k] < arena.len(),
    ensures
        count_flows(materialize_list(arena, kids, lo)) == subtree_list(arena, kids, lo).len(),
    decreases arena.len() - lo, 0int, kids.len(),
{
    if kids.len() > 0 {
        let rest = kids.subrange(1, kids.len() as int);
        lemma_count_materialize(arena, kids[0]);
        lemma_count_materialize_list(arena, rest, lo);
        let ms = materialize_list(arena, kids, lo);
        assert(ms[0] == materialize(arena, kids[0]));
        assert(ms.subrange(1, ms.len() as int) =~= materialize_list(arena, rest, lo));
    }
}

/// What a whole parse denotes: the schema flattened into its index, every
/// line consumed in order from the initial state, and on success the arena
/// materialized from the root.
pub open spec fn parse_spec(
    schema: Seq<SchemaNodeView>,
    lines: Seq<Seq<char>>,
) -> Result<FlowView, ParseErrorView> {
    let index = schema_index_spec(schema);
    match run_lines(init_state(), lines, index) {
        Err(e) => Err(e),
        Ok(st) => Ok(materialize(st.arena, 0)),
    }
}

} // verus!
