use vstd::prelude::*;

use crate::errors::{FlowParseError, ParseErrorView};
use crate::index::{SchemaIndex, build_children_map, schema_index_spec, wrap_with_root};
use crate::models::{
    DecodedFlow, FlowView, Node, NodeView, SchemaNode, arena_view, flows_view, lemma_flows_view,
    root_prefix, schema_nodes_view,
};
use crate::semantics::{
    ParseState, apply_line, init_state, lemma_apply_line_inv, lemma_init_state_inv,
    lemma_materialize_list_push, lemma_resolve_stack_frame, lemma_resolve_stack_ok, materialize,
    materialize_list, parse_spec, resolve_stack, run_lines, state_inv, wf_arena,
};
use crate::tokenizer::separate_prefix;

verus! {

/// The ghost stack corresponding to an executable stack of arena indices.
pub open spec fn stack_view(s: Seq<usize>) -> Seq<int> {
    s.map_values(|u: usize| u as int)
}

/// The ghost parse state corresponding to the executable arena and stack.
pub open spec fn parse_state_of(nodes: Seq<Node>, stack: Seq<usize>) -> ParseState {
    ParseState { arena: arena_view(nodes), stack: stack_view(stack) }
}

/// Whether an executable parse result is the given denotation: the same
/// outcome, and the same tree or error up to views.
pub open spec fn parse_result_matches(
    r: Result<DecodedFlow, FlowParseError>,
    s: Result<FlowView, ParseErrorView>,
) -> bool {
    match (r, s) {
        (Ok(d), Ok(v)) => d@ == v,
        (Err(e), Err(ev)) => e@ == ev,
        _ => false,
    }
}

/// Whether any string of the list equals the given one.
fn contains_string(v: &Vec<String>, s: &String) -> (r: bool)
    ensures
        r == v.deep_view().contains(s@),
{
    let mut i: usize = 0;
    while i < v.len()
        invariant
            i <= v@.len(),
            forall|k: int| 0 <= k < i ==> v@[k]@ != s@,
        decreases v@.len() - i,
    {
        if v[i] == *s {
            proof {
                assert(v.deep_view()[i as int] == s@);
            }
            return true;
        }
        i = i + 1;
    }
    proof {
        assert forall|k: int| 0 <= k < v.deep_view().len() implies v.deep_view()[k] != s@ by {
            assert(v@[k]@ != s@);
        }
    }
    false
}

/// Scans the open-ancestor stack from the top down for the parent of the
/// incoming prefix, popping every ancestor the schema closes, exactly as
/// `resolve_stack` describes.
fn resolve_parent(
    nodes: &Vec<Node>,
    stack: &mut Vec<usize>,
    prefix: &String,
    map: &SchemaIndex,
) -> (r: Result<usize, FlowParseError>)
    requires
        forall|k: int| 0 <= k < old(stack)@.len() ==> #[trigger] old(stack)@[k] < nodes@.len(),
    ensures
        forall|k: int| 0 <= k < final(stack)@.len() ==> #[trigger] final(stack)@[k]
            < nodes@.len(),
        (match r {
            Ok(j) => j < nodes@.len() && resolve_stack(
                arena_view(nodes@),
                stack_view(old(stack)@),
                prefix@,
                map@,
            ) == Ok::<_, ParseErrorView>((j as int, stack_view(final(stack)@))),
            Err(e) => resolve_stack(
                arena_view(nodes@),
                stack_view(old(stack)@),
                prefix@,
                map@,
            ) == Err::<(int, Seq<int>), _>(e@),
        }),
{
    let root_s: String = "ROOT".to_owned();
    while stack.len() > 0
        invariant
            forall|k: int| 0 <= k < stack@.len() ==> #[trigger] stack@[k] < nodes@.len(),
            root_s@ == root_prefix(),
            resolve_stack(arena_view(nodes@), stack_view(old(stack)@), prefix@, map@)
                == resolve_stack(arena_view(nodes@), stack_view(stack@), prefix@, map@),
        decreases stack@.len(),
    {
        let ghost pre_stack = stack_view(stack@);
        let j = stack[stack.len() - 1];
        proof {
            assert(pre_stack.last() == j as int);
            assert(arena_view(nodes@)[j as int] == nodes@[j as int]@);
        }
        if nodes[j].prefix == root_s {
            match map.get(&nodes[j].prefix) {
                Some(ch) => {
                    if contains_string(ch, prefix) {
                        return Ok(j);
                    } else {
                        return Err(FlowParseError::NoValidParent(prefix.clone()));
                    }
                },
                None => {
                    return Err(FlowParseError::NoValidParent(prefix.clone()));
                },
            }
        } else {
            match map.get(&nodes[j].prefix) {
                None => {
                    return Err(FlowParseError::UnknownPrefix(nodes[j].prefix.clone()));
                },
                Some(ch) => {
                    if contains_string(ch, prefix) {
                        return Ok(j);
                    } else {
                        stack.pop();
                        proof {
                            assert(stack_view(stack@) =~= pre_stack.drop_last());
                        }
                    }
                },
            }
        }
    }
    proof {
        assert(stack_view(stack@).len() == 0);
    }
    Err(FlowParseError::NoValidParent(prefix.clone()))
}

/// Converts the arena into the caller-facing owned tree grown from position
/// `idx`, copying each node's prefix and contents and materializing its
/// children in stored order, exactly as `materialize` describes.
pub fn build_nested(nodes: &Vec<Node>, idx: usize) -> (d: DecodedFlow)
    requires
        wf_arena(arena_view(nodes@)),
        (idx as int) < nodes@.len(),
    ensures
        d@ == materialize(arena_view(nodes@), idx as int),
    decreases nodes@.len() - idx as int,
{
    let ghost arena = arena_view(nodes@);
    proof {
        assert(arena[idx as int] == nodes@[idx as int]@);
    }

    let mut contents: Vec<String> = Vec::new();
    let mut i: usize = 0;
    while i < nodes[idx].contents.len()
        invariant
            (idx as int) < nodes@.len(),
            i <= nodes@[idx as int].contents@.len(),
            contents@.len() == i,
            forall|k: int| 0 <= k < i ==> contents@[k]@ == #[trigger] nodes@[
                idx as int
            ].contents@[k]@,
        decreases nodes@[idx as int].contents@.len() - i,
    {
        contents.push(nodes[idx].contents[i].clone());
        i = i + 1;
    }
    proof {
        assert(contents.deep_view() =~= arena[idx as int].contents);
    }

    let mut children: Vec<DecodedFlow> = Vec::new();
    proof {
        assert(arena[idx as int].children.take(0) =~= Seq::<int>::empty());
        assert(materialize_list(arena, Seq::<int>::empty(), idx as int) =~= Seq::<
            FlowView,
        >::empty());
        assert(flows_view(children@) =~= Seq::<FlowView>::empty());
    }
    let mut k: usize = 0;
    while k < nodes[idx].children.len()
        invariant
            wf_arena(arena),
            arena == arena_view(nodes@),
            (idx as int) < arena.len(),
            arena[idx as int] == nodes@[idx as int]@,
            k <= nodes@[idx as int].children@.len(),
            arena[idx as int].children.len() == nodes@[idx as int].children@.len(),
            flows_view(children@) == materialize_list(
                arena,
                arena[idx as int].children.take(k as int),
                idx as int,
            ),
        decreases nodes@[idx as int].children@.len() - k,
    {
        let c = nodes[idx].children[k];
        proof {
            assert(arena[idx as int].children[k as int] == c as int);
            assert((idx as int) < (c as int));
            assert((c as int) < arena.len());
        }
        let child = build_nested(nodes, c);
        let ghost pre = children@;
        let ghost taken = arena[idx as int].children.take(k as int);
        children.push(child);
        proof {
            lemma_flows_view(pre);
            lemma_flows_view(children@);
            assert(flows_view(children@) =~= flows_view(pre).push(child@));
            assert forall|m: int| 0 <= m < taken.len() implies (idx as int) < #[trigger] taken[m]
                && taken[m] < arena.len() by {
                assert(taken[m] == arena[idx as int].children[m]);
            }
            lemma_materialize_list_push(arena, taken, idx as int, c as int);
            assert(taken.push(c as int) =~= arena[idx as int].children.take(k as int + 1));
        }
        k = k + 1;
    }
    proof {
        assert(arena[idx as int].children.take(arena[idx as int].children.len() as int)
            =~= arena[idx as int].children);
    }

    let d = DecodedFlow { prefix: nodes[idx].prefix.clone(), contents, children };
    proof {
        assert(d@.children == flows_view(d.children@));
        assert(d@ == materialize(arena, idx as int));
    }
    d
}

/// Parses the raw lines against the schema: the schema forest is flattened
/// once into its nesting-validity index, each line is tokenized and attached
/// to the closest open ancestor its prefix is permitted under, and the
/// finished arena is materialized into the caller-facing tree. The result,
/// success or failure, is exactly what `parse_spec` describes.
pub fn parse(schema: Vec<SchemaNode>, lines: &Vec<String>) -> (r: Result<
    DecodedFlow,
    FlowParseError,
>)
    ensures
        parse_result_matches(r, parse_spec(schema_nodes_view(schema@), lines.deep_view())),
{
    let ghost schema_v = schema_nodes_view(schema@);
    let ghost linesv = lines.deep_view();

    let root = wrap_with_root(schema);
    let mut map = SchemaIndex::new();
    build_children_map(&root, &mut map);
    let ghost index = map@;
    proof {
        assert(index == schema_index_spec(schema_v));
    }

    let mut nodes: Vec<Node> = Vec::new();
    nodes.push(Node { prefix: "ROOT".to_owned(), contents: Vec::new(), children: Vec::new() });
    let mut stack: Vec<usize> = Vec::new();
    stack.push(0);
    proof {
        assert(nodes@[0]@.contents =~= Seq::<Seq<char>>::empty());
        assert(nodes@[0]@.children =~= Seq::<int>::empty());
        assert(arena_view(nodes@) =~= init_state().arena);
        assert(stack_view(stack@) =~= init_state().stack);
        lemma_init_state_inv();
        assert(linesv.subrange(0, linesv.len() as int) =~= linesv);
    }

    let mut li: usize = 0;
    while li < lines.len()
        invariant
            li <= lines@.len(),
            linesv == lines.deep_view(),
            linesv.len() == lines@.len(),
            map@ == index,
            index == schema_index_spec(schema_v),
            schema_v == schema_nodes_view(schema@),
            state_inv(parse_state_of(nodes@, stack@)),
            run_lines(init_state(), linesv, index) == run_lines(
                parse_state_of(nodes@, stack@),
                linesv.subrange(li as int, linesv.len() as int),
                index,
            ),
        decreases lines@.len() - li,
    {
        let ghost st0 = parse_state_of(nodes@, stack@);
        let ghost rest = linesv.subrange(li as int, linesv.len() as int);
        let line = &lines[li];
        proof {
            assert(rest[0] == line@);
            assert(rest.subrange(1, rest.len() as int) =~= linesv.subrange(
                li as int + 1,
                linesv.len() as int,
            ));
        }
        let (prefix, contents) = match separate_prefix(line.as_str()) {
            Ok(pc) => pc,
            Err(e) => {
                proof {
                    assert(run_lines(st0, rest, index) == Err::<ParseState, _>(e@));
                }
                return Err(e);
            },
        };
        let ghost pdv = prefix@;
        let ghost cdv = contents.deep_view();

        let idx = nodes.len();
        let ghost pre_arena = arena_view(nodes@);
        let ghost leaf = NodeView { prefix: pdv, contents: cdv, children: Seq::empty() };
        let node = Node { prefix: prefix.clone(), contents, children: Vec::new() };
        proof {
            assert(node@.children =~= Seq::<int>::empty());
            assert(node@ == leaf);
        }
        nodes.push(node);
        proof {
            assert(arena_view(nodes@) =~= pre_arena.push(leaf));
            lemma_resolve_stack_frame(pre_arena, arena_view(nodes@), st0.stack, pdv, index);
            assert forall|k: int| 0 <= k < stack@.len() implies #[trigger] stack@[k]
                < nodes@.len() by {
                assert(st0.stack[k] == stack@[k] as int);
                assert(0 <= st0.stack[k] < st0.arena.len());
            }
        }

        match resolve_parent(&nodes, &mut stack, &prefix, &map) {
            Err(e) => {
                proof {
                    assert(apply_line(st0, pdv, cdv, index) == Err::<ParseState, _>(e@));
                    assert(run_lines(st0, rest, index) == Err::<ParseState, _>(e@));
                }
                return Err(e);
            },
            Ok(j) => {
                let ghost popped = stack_view(stack@);
                proof {
                    lemma_resolve_stack_ok(st0.arena, st0.stack, pdv, index);
                    assert(j as int == popped.last());
                    assert((j as int) < pre_arena.len());
                }
                let parent_ref = &mut nodes[j];
                parent_ref.children.push(idx);
                let ghost parent = pre_arena[j as int];
                let ghost updated = NodeView {
                    prefix: parent.prefix,
                    contents: parent.contents,
                    children: parent.children.push(idx as int),
                };
                proof {
                    assert(nodes@[j as int]@.children =~= updated.children);
                    assert(nodes@[j as int]@ == updated);
                    assert(arena_view(nodes@) =~= pre_arena.update(j as int, updated).push(
                        leaf,
                    ));
                }
                match map.get(&prefix) {
                    None => {
                        proof {
                            assert(apply_line(st0, pdv, cdv, index) == Err::<ParseState, _>(
                                ParseErrorView::UnknownPrefix(pdv),
                            ));
                        }
                        return Err(FlowParseError::UnknownPrefix(prefix));
                    },
                    Some(ch) => {
                        if ch.len() > 0 {
                            stack.push(idx);
                            proof {
                                assert(stack_view(stack@) =~= popped.push(idx as int));
                            }
                        }
                    },
                }
                proof {
                    assert(apply_line(st0, pdv, cdv, index) == Ok::<_, ParseErrorView>(
                        parse_state_of(nodes@, stack@),
                    ));
                    lemma_apply_line_inv(st0, pdv, cdv, index);
                    assert(run_lines(st0, rest, index) == run_lines(
                        parse_state_of(nodes@, stack@),
                        rest.subrange(1, rest.len() as int),
                        index,
                    ));
                }
            },
        }
        li = li + 1;
    }

    proof {
        assert(linesv.subrange(linesv.len() as int, linesv.len() as int) =~= Seq::<
            Seq<char>,
        >::empty());
        assert(run_lines(init_state(), linesv, index) == Ok::<_, ParseErrorView>(
            parse_state_of(nodes@, stack@),
        ));
    }
    let d = build_nested(&nodes, 0);
    Ok(d)
}

} // verus!
