use vstd::prelude::*;

use crate::models::{FieldType, SchemaNode, SchemaNodeView, schema_node_view, schema_nodes_view};

verus! {

/// The prefixes of a schema node's declared children, in declaration order.
pub open spec fn child_prefixes(n: SchemaNodeView) -> Seq<Seq<char>> {
    n.children.map_values(|c: SchemaNodeView| c.prefix)
}

/// Flattening one schema node into an index: record the node's own permitted
/// children, then flatten its children depth-first. A prefix declared twice
/// has the later definition silently overwrite the earlier one.
pub open spec fn index_of_node(
    m: Map<Seq<char>, Seq<Seq<char>>>,
    n: SchemaNodeView,
) -> Map<Seq<char>, Seq<Seq<char>>>
    decreases n,
{
    index_of_forest(m.insert(n.prefix, child_prefixes(n)), n.children)
}

/// Flattening a forest of schema nodes into an index, left to right.
pub open spec fn index_of_forest(
    m: Map<Seq<char>, Seq<Seq<char>>>,
    s: Seq<SchemaNodeView>,
) -> Map<Seq<char>, Seq<Seq<char>>>
    decreases s,
{
    if s.len() == 0 {
        m
    } else {
        index_of_forest(index_of_node(m, s[0]), s.subrange(1, s.len() as int))
    }
}

/// The synthetic root of a schema forest: the `ROOT` prefix whose permitted
/// children are the top-level schema entries.
pub open spec fn root_wrap(children: Seq<SchemaNodeView>) -> SchemaNodeView {
    SchemaNodeView { prefix: crate::models::root_prefix(), model: Seq::empty(), children }
}

/// The nesting-validity index of a whole schema forest: every declared
/// prefix, plus `ROOT`, mapped to its permitted child prefixes.
pub open spec fn schema_index_spec(schema: Seq<SchemaNodeView>) -> Map<Seq<char>, Seq<Seq<char>>> {
    index_of_node(Map::empty(), root_wrap(schema))
}

/// The map described by a sequence of key/value entries where a later entry
/// for the same key overwrites an earlier one.
pub open spec fn entries_map(
    s: Seq<(Seq<char>, Seq<Seq<char>>)>,
) -> Map<Seq<char>, Seq<Seq<char>>>
    decreases s.len(),
{
    if s.len() == 0 {
        Map::empty()
    } else {
        entries_map(s.drop_last()).insert(s.last().0, s.last().1)
    }
}

/// An entry whose key has no later duplicate gives the map's value for it.
proof fn lemma_entries_map_get(s: Seq<(Seq<char>, Seq<Seq<char>>)>, k: Seq<char>, i: int)
    requires
        0 <= i < s.len(),
        s[i].0 == k,
        forall|j: int| i < j < s.len() ==> s[j].0 != k,
    ensures
        entries_map(s).contains_key(k),
        entries_map(s)[k] == s[i].1,
    decreases s.len(),
{
    if i < s.len() - 1 {
        lemma_entries_map_get(s.drop_last(), k, i);
    }
}

/// A key that no entry carries is absent from the map.
proof fn lemma_entries_map_none(s: Seq<(Seq<char>, Seq<Seq<char>>)>, k: Seq<char>)
    requires
        forall|j: int| 0 <= j < s.len() ==> s[j].0 != k,
    ensures
        !entries_map(s).contains_key(k),
    decreases s.len(),
{
    if s.len() > 0 {
        lemma_entries_map_none(s.drop_last(), k);
    }
}

/// The flattened nesting-validity index: a mapping from each declared prefix
/// to its permitted immediate child prefixes. Built once per parse and
/// read-only thereafter.
pub struct SchemaIndex {
    entries: Vec<(String, Vec<String>)>,
}

impl View for SchemaIndex {
    type V = Map<Seq<char>, Seq<Seq<char>>>;

    closed spec fn view(&self) -> Map<Seq<char>, Seq<Seq<char>>> {
        entries_map(
            self.entries@.map_values(|e: (String, Vec<String>)| (e.0@, e.1.deep_view())),
        )
    }
}

impl SchemaIndex {
    /// An index with no declared prefixes.
    pub fn new() -> (idx: SchemaIndex)
        ensures
            idx@ == Map::<Seq<char>, Seq<Seq<char>>>::empty(),
    {
        let idx = SchemaIndex { entries: Vec::new() };
        proof {
            assert(idx.entries@.map_values(
                |e: (String, Vec<String>)| (e.0@, e.1.deep_view()),
            ) =~= Seq::<(Seq<char>, Seq<Seq<char>>)>::empty());
        }
        idx
    }

    /// Declares a prefix with its permitted children, overwriting any earlier
    /// declaration of the same prefix.
    pub fn insert(&mut self, prefix: String, children: Vec<String>)
        ensures
            final(self)@ == old(self)@.insert(prefix@, children.deep_view()),
    {
        let ghost pre = self.entries@.map_values(
            |e: (String, Vec<String>)| (e.0@, e.1.deep_view()),
        );
        self.entries.push((prefix, children));
        proof {
            let post = self.entries@.map_values(
                |e: (String, Vec<String>)| (e.0@, e.1.deep_view()),
            );
            assert(post =~= pre.push((prefix@, children.deep_view())));
            assert(post.drop_last() =~= pre);
            assert(final(self)@ =~= old(self)@.insert(prefix@, children.deep_view()));
        }
    }

    /// Looks a prefix up; yields its permitted children exactly when the
    /// prefix is declared.
    pub fn get(&self, prefix: &String) -> (r: Option<&Vec<String>>)
        ensures
            (match r {
                Some(v) => self@.contains_key(prefix@) && v.deep_view() == self@[prefix@],
                None => !self@.contains_key(prefix@),
            }),
    {
        let ghost views = self.entries@.map_values(
            |e: (String, Vec<String>)| (e.0@, e.1.deep_view()),
        );
        let mut i: usize = self.entries.len();
        while i > 0
            invariant
                i <= self.entries.len(),
                views == self.entries@.map_values(
                    |e: (String, Vec<String>)| (e.0@, e.1.deep_view()),
                ),
                forall|k: int| i <= k < views.len() ==> views[k].0 != prefix@,
            decreases i,
        {
            i = i - 1;
            if self.entries[i].0 == *prefix {
                proof {
                    lemma_entries_map_get(views, prefix@, i as int);
                }
                return Some(&self.entries[i].1);
            }
        }
        proof {
            lemma_entries_map_none(views, prefix@);
        }
        None
    }
}

/// Wraps a schema forest under the synthetic `ROOT` node, whose permitted
/// children are the forest's top-level entries.
pub fn wrap_with_root(schema: Vec<SchemaNode>) -> (root: SchemaNode)
    ensures
        root@ == root_wrap(schema_nodes_view(schema@)),
{
    let root = SchemaNode { prefix: "ROOT".to_owned(), model: Vec::new(), children: schema };
    proof {
        assert(schema_node_view(root).model =~= Seq::<(Seq<char>, FieldType)>::empty());
    }
    root
}

/// Records the permitted children of every prefix declared at or below the
/// given schema node, depth-first, later declarations overwriting earlier
/// ones.
pub fn build_children_map(node: &SchemaNode, map: &mut SchemaIndex)
    ensures
        final(map)@ == index_of_node(old(map)@, node@),
    decreases *node,
{
    proof {
        crate::models::lemma_schema_nodes_view(node.children@);
    }
    let mut kid_prefixes: Vec<String> = Vec::new();
    let mut i: usize = 0;
    while i < node.children.len()
        invariant
            i <= node.children.len(),
            kid_prefixes@.len() == i,
            forall|k: int|
                0 <= k < i ==> kid_prefixes@[k]@ == #[trigger] schema_node_view(
                    node.children@[k],
                ).prefix,
        decreases node.children.len() - i,
    {
        kid_prefixes.push(node.children[i].prefix.clone());
        i = i + 1;
    }
    proof {
        assert(kid_prefixes.deep_view() =~= child_prefixes(node@));
    }
    map.insert(node.prefix.clone(), kid_prefixes);

    let ghost target = index_of_node(old(map)@, node@);
    proof {
        assert(node@.children.subrange(0, node@.children.len() as int) =~= node@.children);
    }
    let mut i: usize = 0;
    while i < node.children.len()
        invariant
            i <= node.children.len(),
            node@.children.len() == node.children@.len(),
            forall|k: int|
                0 <= k < node.children@.len() ==> #[trigger] node@.children[k]
                    == schema_node_view(node.children@[k]),
            target == index_of_forest(
                map@,
                node@.children.subrange(i as int, node@.children.len() as int),
            ),
            target == index_of_node(old(map)@, node@),
        decreases node.children.len() - i,
    {
        let ghost rest = node@.children.subrange(i as int, node@.children.len() as int);
        proof {
            assert(rest[0] == node@.children[i as int]);
            assert(rest.subrange(1, rest.len() as int) =~= node@.children.subrange(
                i as int + 1,
                node@.children.len() as int,
            ));
        }
        build_children_map(&node.children[i], map);
        i = i + 1;
    }
    proof {
        assert(node@.children.subrange(
            node@.children.len() as int,
            node@.children.len() as int,
        ) =~= Seq::<SchemaNodeView>::empty());
    }
}

} // verus!
