use vstd::prelude::*;

use crate::errors::{FlowParseError, ParseErrorView};
use crate::index::schema_index_spec;
use crate::models::{DecodedFlow, FlowView, NodeView, root_prefix, SchemaNodeView};
use crate::parser::parse_result_matches;
use crate::semantics::{
    ParseState, apply_line, count_flow, init_state, lemma_apply_line_inv, lemma_count_materialize,
    lemma_frame_subtree_list, lemma_init_state_inv, lemma_resolve_stack_ok,
    lemma_run_lines_inv, lemma_subtree_list_push, parse_spec, permits, resolve_stack, run_lines,
    state_inv, subtree_list, subtree_seq, wf_arena,
};
use crate::tokenizer::{delimiter, strip_trailing, tokenize};

verus! {

/// A trailing delimiter is optional and semantically identical: appending
/// one to a line that does not already end in a delimiter tokenizes to the
/// same prefix and the same field values.
pub proof fn lemma_trailing_delimiter_optional(l: Seq<char>)
    requires
        l.len() == 0 || l.last() != delimiter(),
    ensures
        tokenize(l.push(delimiter())) == tokenize(l),
{
    let lp = l.push(delimiter());
    assert(lp.last() == delimiter());
    assert(lp.drop_last() =~= l);
    assert(strip_trailing(lp) == l);
    assert(strip_trailing(l) == l);
}

/// A line that contains no delimiter at all has no separable
/// prefix/contents structure and tokenizes to nothing, whatever else it
/// holds.
pub proof fn lemma_no_delimiter_is_malformed(l: Seq<char>)
    requires
        forall|i: int| 0 <= i < l.len() ==> l[i] != delimiter(),
    ensures
        tokenize(l) is None,
{
    let t = strip_trailing(l);
    assert(forall|i: int| 0 <= i < t.len() ==> t[i] == l[i]);
}

/// A line whose prefix the schema's top-level set does not declare, arriving
/// while no ancestor but the root is open, fails with a no-valid-parent
/// error.
pub proof fn lemma_undeclared_prefix_no_parent(
    st: ParseState,
    prefix: Seq<char>,
    contents: Seq<Seq<char>>,
    index: Map<Seq<char>, Seq<Seq<char>>>,
)
    requires
        st.stack == seq![0int],
        st.arena.len() >= 1,
        st.arena[0].prefix == root_prefix(),
        !permits(index, root_prefix(), prefix),
    ensures
        apply_line(st, prefix, contents, index) == Err::<ParseState, _>(
            ParseErrorView::NoValidParent(prefix),
        ),
{
    assert(st.stack.last() == 0int);
}

/// The same law at the whole-parse level: when the very first line carries a
/// prefix the schema's top-level set does not permit, no ancestor is open
/// yet, and the parse fails with a no-valid-parent error.
pub proof fn lemma_first_line_undeclared_prefix(
    schema: Seq<SchemaNodeView>,
    lines: Seq<Seq<char>>,
    prefix: Seq<char>,
    contents: Seq<Seq<char>>,
)
    requires
        lines.len() > 0,
        tokenize(lines[0]) == Some((prefix, contents)),
        !permits(schema_index_spec(schema), root_prefix(), prefix),
    ensures
        parse_spec(schema, lines) == Err::<FlowView, _>(ParseErrorView::NoValidParent(prefix)),
{
    lemma_undeclared_prefix_no_parent(
        init_state(),
        prefix,
        contents,
        schema_index_spec(schema),
    );
}

/// Parsing is deterministic: two results that both agree with the one parse
/// denotation of the same schema and lines are structurally identical, deep
/// equality included.
pub proof fn lemma_parse_deterministic(
    schema: Seq<SchemaNodeView>,
    lines: Seq<Seq<char>>,
    r1: Result<DecodedFlow, FlowParseError>,
    r2: Result<DecodedFlow, FlowParseError>,
)
    requires
        parse_result_matches(r1, parse_spec(schema, lines)),
        parse_result_matches(r2, parse_spec(schema, lines)),
    ensures
        (match (r1, r2) {
            (Ok(d1), Ok(d2)) => d1@ == d2@,
            (Err(e1), Err(e2)) => e1@ == e2@,
            _ => false,
        }),
{
}

/// A successful stack scan attaches to the nearest valid open ancestor: the
/// chosen parent is the topmost stack entry whose prefix permits the
/// incoming one, and every entry above it permits nothing of the kind and is
/// popped.
pub proof fn lemma_attaches_to_nearest_open_ancestor(
    arena: Seq<NodeView>,
    stack: Seq<int>,
    prefix: Seq<char>,
    index: Map<Seq<char>, Seq<Seq<char>>>,
)
    ensures
        (match resolve_stack(arena, stack, prefix, index) {
            Ok((j, popped)) => {
                &&& 0 < popped.len() <= stack.len()
                &&& popped == stack.subrange(0, popped.len() as int)
                &&& j == stack[popped.len() - 1]
                &&& permits(index, arena[j].prefix, prefix)
                &&& forall|m: int|
                    popped.len() <= m < stack.len() ==> !permits(
                        index,
                        arena[#[trigger] stack[m]].prefix,
                        prefix,
                    )
            },
            Err(_) => true,
        }),
    decreases stack.len(),
{
    if stack.len() > 0 {
        let j = stack.last();
        let top = arena[j].prefix;
        if top == root_prefix() {
            if permits(index, top, prefix) {
                assert(stack.subrange(0, stack.len() as int) =~= stack);
            }
        } else if index.contains_key(top) && !index[top].contains(prefix) {
            lemma_attaches_to_nearest_open_ancestor(arena, stack.drop_last(), prefix, index);
            match resolve_stack(arena, stack.drop_last(), prefix, index) {
                Ok((j2, popped)) => {
                    assert(stack.drop_last().subrange(0, popped.len() as int) =~= stack.subrange(
                        0,
                        popped.len() as int,
                    ));
                    assert(!permits(index, arena[stack[stack.len() - 1]].prefix, prefix));
                },
                Err(_) => {},
            }
        } else if index.contains_key(top) {
            assert(stack.subrange(0, stack.len() as int) =~= stack);
        }
    }
}

/// The integers `lo, lo+1, ..., lo+n-1`, in order.
pub open spec fn range_seq(lo: int, n: int) -> Seq<int> {
    Seq::new(n as nat, |k: int| lo + k)
}

/// The open-ancestor stack is the rightmost path of the tree: each entry
/// after the first is the last child of the entry below it.
pub open spec fn chain_inv(arena: Seq<NodeView>, stack: Seq<int>) -> bool {
    &&& stack.len() >= 1
    &&& stack[0] == 0
    &&& forall|t: int|
        0 <= t < stack.len() - 1 ==> arena[#[trigger] stack[t]].children.len() > 0 && stack[t + 1]
            == arena[stack[t]].children.last()
}

/// Every reachable parse state keeps each open ancestor's subtree reaching
/// to the very end of the arena: new nodes only ever grow the rightmost
/// path.
pub open spec fn right_inv(st: ParseState) -> bool {
    &&& state_inv(st)
    &&& chain_inv(st.arena, st.stack)
    &&& forall|t: int|
        0 <= t < st.stack.len() ==> subtree_seq(st.arena, #[trigger] st.stack[t]) == range_seq(
            st.stack[t],
            st.arena.len() - st.stack[t],
        )
}

/// Along the rightmost path, arena positions never decrease.
proof fn lemma_chain_increasing(arena: Seq<NodeView>, stack: Seq<int>, a: int, b: int)
    requires
        wf_arena(arena),
        forall|k: int| 0 <= k < stack.len() ==> 0 <= #[trigger] stack[k] < arena.len(),
        chain_inv(arena, stack),
        0 <= a <= b < stack.len(),
    ensures
        stack[a] <= stack[b],
        a < b ==> stack[a] < stack[b],
    decreases b - a,
{
    if a < b {
        let ch = arena[stack[a]].children;
        assert(stack[a + 1] == ch[ch.len() - 1]);
        assert(stack[a] < ch[ch.len() - 1]);
        lemma_chain_increasing(arena, stack, a + 1, b);
    }
}

/// Appending a fresh leaf as the last child of the top of the rightmost
/// path appends its position to the subtree of every ancestor on the path.
proof fn lemma_attach_chain(
    arena: Seq<NodeView>,
    arena2: Seq<NodeView>,
    stack: Seq<int>,
    t: int,
    i: int,
)
    requires
        wf_arena(arena),
        wf_arena(arena2),
        chain_inv(arena, stack),
        forall|k: int| 0 <= k < stack.len() ==> 0 <= #[trigger] stack[k] < arena.len(),
        forall|u: int|
            0 <= u < stack.len() ==> subtree_seq(arena, #[trigger] stack[u]) == range_seq(
                stack[u],
                arena.len() - stack[u],
            ),
        0 <= t < stack.len(),
        i == arena.len(),
        arena2.len() == i + 1,
        arena2[stack.last()].children == arena[stack.last()].children.push(i),
        forall|k: int| 0 <= k < arena.len() && k != stack.last() ==> arena2[k] == arena[k],
        arena2[i].children.len() == 0,
    ensures
        subtree_seq(arena2, stack[t]) == subtree_seq(arena, stack[t]).push(i),
    decreases stack.len() - t,
{
    let j = stack.last();
    let r = stack[t];
    let n = arena.len();
    assert(arena2[i].children =~= Seq::<int>::empty());
    assert(subtree_list(arena2, arena2[i].children, i) =~= Seq::<int>::empty());
    assert(subtree_seq(arena2, i) =~= seq![i]);
    if t == stack.len() - 1 {
        let ch = arena[j].children;
        assert forall|k: int| 0 <= k < ch.len() implies j < #[trigger] ch[k] && ch[k] < n by {
            assert(arena[j].children[k] == ch[k]);
        }
        lemma_subtree_list_push(arena2, ch, j, i);
        let tail = subtree_list(arena, ch, j);
        assert(subtree_seq(arena, j) == seq![j] + tail);
        assert(subtree_seq(arena, j) == range_seq(j, n - j));
        assert forall|m: int| 0 <= m < tail.len() implies #[trigger] tail[m] != j by {
            assert((seq![j] + tail)[m + 1] == tail[m]);
            assert(range_seq(j, n - j)[m + 1] == j + 1 + m);
        }
        assert(!tail.contains(j));
        lemma_frame_subtree_list(arena, arena2, ch, j, j);
        assert(subtree_seq(arena2, j) == seq![j] + (tail + subtree_seq(arena2, i)));
        assert(subtree_seq(arena2, j) =~= subtree_seq(arena, j).push(i));
    } else {
        let next = stack[t + 1];
        lemma_chain_increasing(arena, stack, t + 1, stack.len() - 1);
        lemma_chain_increasing(arena, stack, t, t + 1);
        assert(next <= j);
        assert(r < next);
        assert(r != j);
        assert(arena2[r] == arena[r]);
        let ch = arena[r].children;
        assert(ch.len() > 0 && ch.last() == next);
        let front = ch.drop_last();
        assert(front.push(next) =~= ch);
        assert forall|k: int| 0 <= k < ch.len() implies r < #[trigger] ch[k] && ch[k] < n by {
            assert(arena[r].children[k] == ch[k]);
        }
        assert(forall|k: int| 0 <= k < front.len() ==> r < #[trigger] front[k] && front[k] < n);
        lemma_subtree_list_push(arena, front, r, next);
        lemma_subtree_list_push(arena2, front, r, next);
        lemma_attach_chain(arena, arena2, stack, t + 1, i);
        let x = subtree_list(arena, front, r);
        let y = subtree_seq(arena, next);
        assert(subtree_list(arena, ch, r) == x + y);
        assert(subtree_seq(arena, r) == seq![r] + (x + y));
        assert(subtree_seq(arena, r) == range_seq(r, n - r));
        assert(y == range_seq(next, n - next));
        assert(x.len() == next - r - 1) by {
            assert((seq![r] + (x + y)).len() == 1 + x.len() + y.len());
        }
        assert forall|m: int| 0 <= m < x.len() implies #[trigger] x[m] == r + 1 + m by {
            assert((seq![r] + (x + y))[m + 1] == x[m]);
            assert(range_seq(r, n - r)[m + 1] == r + 1 + m);
        }
        assert forall|m: int| 0 <= m < x.len() implies #[trigger] x[m] != j by {
            assert(x[m] == r + 1 + m);
            assert(x[m] < next);
        }
        assert(!x.contains(j));
        lemma_frame_subtree_list(arena, arena2, front, r, j);
        assert(subtree_seq(arena2, r) == seq![r] + (x + subtree_seq(arena2, next)));
        assert(subtree_seq(arena2, next) == y.push(i));
        assert(subtree_seq(arena2, r) =~= subtree_seq(arena, r).push(i));
    }
}

/// Applying one line to a state on which the rightmost-path invariant holds
/// either fails or keeps it.
proof fn lemma_apply_line_right(
    st: ParseState,
    prefix: Seq<char>,
    contents: Seq<Seq<char>>,
    index: Map<Seq<char>, Seq<Seq<char>>>,
)
    requires
        right_inv(st),
    ensures
        (match apply_line(st, prefix, contents, index) {
            Ok(st2) => right_inv(st2) && st2.arena.len() == st.arena.len() + 1,
            Err(_) => true,
        }),
{
    lemma_apply_line_inv(st, prefix, contents, index);
    lemma_resolve_stack_ok(st.arena, st.stack, prefix, index);
    match resolve_stack(st.arena, st.stack, prefix, index) {
        Err(_) => {},
        Ok((j, popped)) => {
            if index.contains_key(prefix) {
                let n = st.arena.len() as int;
                let i = n;
                let parent = st.arena[j];
                let upd = NodeView {
                    prefix: parent.prefix,
                    contents: parent.contents,
                    children: parent.children.push(i),
                };
                let leaf = NodeView { prefix, contents, children: Seq::<int>::empty() };
                let arena2 = st.arena.update(j, upd).push(leaf);
                let st2 = (match apply_line(st, prefix, contents, index) {
                    Ok(s) => s,
                    Err(_) => st,
                });
                assert(st2.arena == arena2);
                assert(wf_arena(arena2));

                let p = popped.len() as int;
                assert(forall|u: int| 0 <= u < p ==> popped[u] == st.stack[u]);
                assert(chain_inv(st.arena, popped));
                assert(popped.last() == j);
                assert forall|u: int|
                    0 <= u < p implies subtree_seq(st.arena, #[trigger] popped[u]) == range_seq(
                        popped[u],
                        n - popped[u],
                    ) by {
                    assert(popped[u] == st.stack[u]);
                    assert(subtree_seq(st.arena, st.stack[u]) == range_seq(
                        st.stack[u],
                        n - st.stack[u],
                    ));
                }
                assert(arena2[j].children == parent.children.push(i));
                assert(arena2[i].children.len() == 0);
                assert forall|u: int|
                    0 <= u < p implies subtree_seq(arena2, #[trigger] popped[u]) == subtree_seq(
                        st.arena,
                        popped[u],
                    ).push(i) by {
                    lemma_attach_chain(st.arena, arena2, popped, u, i);
                }

                assert forall|u: int|
                    0 <= u < p implies subtree_seq(arena2, #[trigger] popped[u]) == range_seq(
                        popped[u],
                        arena2.len() - popped[u],
                    ) by {
                    assert(subtree_seq(arena2, popped[u]) == range_seq(
                        popped[u],
                        n - popped[u],
                    ).push(i));
                    assert(range_seq(popped[u], n - popped[u]).push(i) =~= range_seq(
                        popped[u],
                        n + 1 - popped[u],
                    ));
                }
                assert(subtree_seq(arena2, i) =~= seq![i]);
                assert(subtree_seq(arena2, i) =~= range_seq(i, 1));

                assert forall|u: int| 0 <= u < p - 1 implies #[trigger] popped[u] != j by {
                    lemma_chain_increasing(st.arena, popped, u, p - 1);
                }
                let stack2 = st2.stack;
                assert forall|t: int|
                    0 <= t < stack2.len() - 1 implies arena2[#[trigger] stack2[t]].children.len()
                    > 0 && stack2[t + 1] == arena2[stack2[t]].children.last() by {
                    if index[prefix].len() > 0 {
                        if t < p - 1 {
                            assert(stack2[t] == popped[t]);
                            assert(arena2[popped[t]] == st.arena[popped[t]]);
                        } else {
                            assert(stack2[t] == j);
                            assert(stack2[t + 1] == i);
                        }
                    } else {
                        assert(stack2[t] == popped[t]);
                        assert(arena2[popped[t]] == st.arena[popped[t]]);
                    }
                }
                assert(chain_inv(arena2, stack2));
                assert forall|t: int|
                    0 <= t < stack2.len() implies subtree_seq(arena2, #[trigger] stack2[t])
                    == range_seq(stack2[t], arena2.len() - stack2[t]) by {
                    if index[prefix].len() > 0 && t == stack2.len() - 1 {
                        assert(stack2[t] == i);
                    } else {
                        assert(stack2[t] == popped[t]);
                    }
                }
            }
        },
    }
}

/// Running any line sequence from a state on which the rightmost-path
/// invariant holds either fails or keeps it.
proof fn lemma_run_lines_right(
    st: ParseState,
    lines: Seq<Seq<char>>,
    index: Map<Seq<char>, Seq<Seq<char>>>,
)
    requires
        right_inv(st),
    ensures
        (match run_lines(st, lines, index) {
            Ok(st2) => right_inv(st2),
            Err(_) => true,
        }),
    decreases lines.len(),
{
    if lines.len() > 0 {
        match tokenize(lines[0]) {
            None => {},
            Some((p, c)) => {
                lemma_apply_line_right(st, p, c, index);
                match apply_line(st, p, c, index) {
                    Err(_) => {},
                    Ok(st2) => {
                        lemma_run_lines_right(st2, lines.subrange(1, lines.len() as int), index);
                    },
                }
            },
        }
    }
}

/// The initial state satisfies the rightmost-path invariant.
proof fn lemma_init_right()
    ensures
        right_inv(init_state()),
{
    lemma_init_state_inv();
    let st = init_state();
    assert(st.arena[0].children =~= Seq::<int>::empty());
    assert(subtree_list(st.arena, st.arena[0int].children, 0) =~= Seq::<int>::empty());
    assert(subtree_seq(st.arena, 0) =~= range_seq(0, 1));
    assert(st.stack[0] == 0);
}

/// A parse that succeeds produces a tree whose node count is exactly the
/// input line count plus one for the synthetic root: for every well-formed
/// schema, lines that respect its nesting rules (those the run accepts) are
/// each one node of the result, never dropped and never duplicated.
pub proof fn lemma_node_count(schema: Seq<SchemaNodeView>, lines: Seq<Seq<char>>)
    ensures
        (match parse_spec(schema, lines) {
            Ok(v) => count_flow(v) == lines.len() + 1,
            Err(_) => true,
        }),
{
    let index = schema_index_spec(schema);
    lemma_init_right();
    lemma_run_lines_right(init_state(), lines, index);
    lemma_run_lines_inv(init_state(), lines, index);
    match run_lines(init_state(), lines, index) {
        Ok(st) => {
            assert(st.stack[0] == 0);
            assert(subtree_seq(st.arena, 0) == range_seq(0, st.arena.len() as int));
            lemma_count_materialize(st.arena, 0);
        },
        Err(_) => {},
    }
}

/// Each node's children are stored with strictly increasing arena
/// positions. Positions are assigned in input order, so this is order
/// preservation.
pub open spec fn children_increasing(arena: Seq<NodeView>) -> bool {
    forall|x: int, a: int, b: int|
        0 <= x < arena.len() && 0 <= a < b < arena[x].children.len() ==> #[trigger] arena[
            x
        ].children[a] < #[trigger] arena[x].children[b]
}

/// Running lines preserves child ordering, never rewrites the prefix or
/// contents of an existing node, and stores the node of the k-th remaining
/// line at arena position `st.arena.len() + k`.
proof fn lemma_run_lines_order(
    st: ParseState,
    lines: Seq<Seq<char>>,
    index: Map<Seq<char>, Seq<Seq<char>>>,
)
    requires
        state_inv(st),
        children_increasing(st.arena),
    ensures
        (match run_lines(st, lines, index) {
            Ok(st2) => {
                &&& children_increasing(st2.arena)
                &&& st2.arena.len() == st.arena.len() + lines.len()
                &&& forall|k: int|
                    0 <= k < st.arena.len() ==> (#[trigger] st2.arena[k]).prefix == st.arena[
                        k
                    ].prefix && st2.arena[k].contents == st.arena[k].contents
                &&& forall|k: int|
                    st.arena.len() <= k < st2.arena.len() ==> tokenize(
                        lines[k - st.arena.len()],
                    ) == Some(((#[trigger] st2.arena[k]).prefix, st2.arena[k].contents))
            },
            Err(_) => true,
        }),
    decreases lines.len(),
{
    if lines.len() > 0 {
        match tokenize(lines[0]) {
            None => {},
            Some((p, c)) => {
                lemma_apply_line_inv(st, p, c, index);
                lemma_resolve_stack_ok(st.arena, st.stack, p, index);
                match apply_line(st, p, c, index) {
                    Err(_) => {},
                    Ok(st1) => {
                        let n = st.arena.len() as int;
                        match resolve_stack(st.arena, st.stack, p, index) {
                            Err(_) => {},
                            Ok((j, popped)) => {
                                assert forall|x: int, a: int, b: int|
                                    0 <= x < st1.arena.len() && 0 <= a < b < st1.arena[
                                    x
                                ].children.len() implies #[trigger] st1.arena[x].children[a]
                                    < #[trigger] st1.arena[x].children[b] by {
                                    if x == j {
                                        if b < st.arena[j].children.len() {
                                            assert(st1.arena[x].children[a] == st.arena[
                                                x
                                            ].children[a]);
                                            assert(st1.arena[x].children[b] == st.arena[
                                                x
                                            ].children[b]);
                                        } else {
                                            assert(st1.arena[x].children[b] == n);
                                            assert(st1.arena[x].children[a] == st.arena[
                                                x
                                            ].children[a]);
                                            assert(st.arena[x].children[a] < n);
                                        }
                                    } else if x < n {
                                        assert(st1.arena[x] == st.arena[x]);
                                    } else {
                                        assert(st1.arena[x].children.len() == 0);
                                    }
                                }
                            },
                        }
                        let rest = lines.subrange(1, lines.len() as int);
                        lemma_run_lines_order(st1, rest, index);
                        match run_lines(st1, rest, index) {
                            Err(_) => {},
                            Ok(st2) => {
                                assert forall|k: int|
                                    n <= k < st2.arena.len() implies tokenize(lines[k - n])
                                    == Some((
                                    (#[trigger] st2.arena[k]).prefix,
                                    st2.arena[k].contents,
                                )) by {
                                    if k == n {
                                        assert(st2.arena[k].prefix == st1.arena[k].prefix);
                                        assert(st2.arena[k].contents == st1.arena[k].contents);
                                        assert(st1.arena[k].prefix == p);
                                        assert(st1.arena[k].contents == c);
                                    } else {
                                        assert(tokenize(rest[k - n - 1]) == Some((
                                            st2.arena[k].prefix,
                                            st2.arena[k].contents,
                                        )));
                                        assert(rest[k - n - 1] == lines[k - n]);
                                    }
                                }
                            },
                        }
                    },
                }
            },
        }
    }
}

/// Children of any node in the output appear in exactly the order their
/// source lines appeared in the input: the node built from the k-th line is
/// arena position k+1, every child list carries strictly increasing
/// positions, and `materialize` copies each child list in stored order.
pub proof fn lemma_children_in_input_order(schema: Seq<SchemaNodeView>, lines: Seq<Seq<char>>)
    ensures
        (match run_lines(init_state(), lines, schema_index_spec(schema)) {
            Ok(st) => {
                &&& children_increasing(st.arena)
                &&& st.arena.len() == lines.len() + 1
                &&& forall|k: int|
                    1 <= k < st.arena.len() ==> tokenize(lines[k - 1]) == Some((
                        (#[trigger] st.arena[k]).prefix,
                        st.arena[k].contents,
                    ))
            },
            Err(_) => true,
        }),
{
    lemma_init_state_inv();
    assert(init_state().arena[0].children.len() == 0);
    lemma_run_lines_order(init_state(), lines, schema_index_spec(schema));
}

} // verus!
