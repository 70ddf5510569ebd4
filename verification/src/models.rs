use vstd::prelude::*;

verus! {

/// The prefix of the synthetic root that acts as universal ancestor of the
/// schema's top-level entries.
pub open spec fn root_prefix() -> Seq<char> {
    "ROOT"@
}

/// The field kinds a schema may declare for a line type. The parser carries
/// this metadata through to the caller but does not enforce it.
#[derive(Debug, Clone, PartialEq)]
pub enum FieldType {
    String,
    Int,
    Float,
    Bool,
}

/// A declared line type: its unique prefix, its field model (name to field
/// kind, descriptive only), and the line types permitted to nest beneath it.
/// A schema is a forest of these nodes, immutable during a parse.
#[derive(Debug, PartialEq)]
pub struct SchemaNode {
    pub prefix: String,
    pub model: Vec<(String, FieldType)>,
    pub children: Vec<SchemaNode>,
}

/// Mathematical model of a `SchemaNode`.
pub struct SchemaNodeView {
    pub prefix: Seq<char>,
    pub model: Seq<(Seq<char>, FieldType)>,
    pub children: Seq<SchemaNodeView>,
}

/// The view of one schema node, taken recursively through its children.
pub open spec fn schema_node_view(n: SchemaNode) -> SchemaNodeView
    decreases n,
{
    SchemaNodeView {
        prefix: n.prefix@,
        model: n.model@.map_values(|p: (String, FieldType)| (p.0@, p.1)),
        children: schema_nodes_view(n.children@),
    }
}

/// The views of a sequence of schema nodes, in order.
pub open spec fn schema_nodes_view(s: Seq<SchemaNode>) -> Seq<SchemaNodeView>
    decreases s,
{
    if s.len() == 0 {
        Seq::empty()
    } else {
        seq![schema_node_view(s[0])] + schema_nodes_view(s.subrange(1, s.len() as int))
    }
}

impl View for SchemaNode {
    type V = SchemaNodeView;

    open spec fn view(&self) -> SchemaNodeView {
        schema_node_view(*self)
    }
}

impl SchemaNode {
    /// A schema node built from its parts, passed through unchanged.
    pub fn new(prefix: &str, model: Vec<(String, FieldType)>, children: Vec<SchemaNode>) -> (n:
        SchemaNode)
        ensures
            n@.prefix == prefix@,
            n@.model == model@.map_values(|p: (String, FieldType)| (p.0@, p.1)),
            n@.children == schema_nodes_view(children@),
    {
        SchemaNode { prefix: prefix.to_owned(), model, children }
    }
}

/// `schema_nodes_view` is the pointwise view of its input.
pub proof fn lemma_schema_nodes_view(s: Seq<SchemaNode>)
    ensures
        schema_nodes_view(s).len() == s.len(),
        forall|k: int| 0 <= k < s.len() ==> #[trigger] schema_nodes_view(s)[k]
            == schema_node_view(s[k]),
    decreases s,
{
    if s.len() > 0 {
        let rest = s.subrange(1, s.len() as int);
        lemma_schema_nodes_view(rest);
        assert forall|k: int| 0 <= k < s.len() implies #[trigger] schema_nodes_view(s)[k]
            == schema_node_view(s[k]) by {
            if k > 0 {
                assert(schema_nodes_view(rest)[k - 1] == schema_node_view(rest[k - 1]));
            }
        }
    }
}

/// One parsed line held in the arena. Children are expressed purely as
/// arena indices, never as direct references; a node's children always have
/// strictly greater arena index than the node itself.
#[derive(Debug)]
pub struct Node {
    pub prefix: String,
    pub contents: Vec<String>,
    pub children: Vec<usize>,
}

/// Mathematical model of an arena `Node`.
pub struct NodeView {
    pub prefix: Seq<char>,
    pub contents: Seq<Seq<char>>,
    pub children: Seq<int>,
}

impl View for Node {
    type V = NodeView;

    open spec fn view(&self) -> NodeView {
        NodeView {
            prefix: self.prefix@,
            contents: self.contents.deep_view(),
            children: self.children@.map_values(|c: usize| c as int),
        }
    }
}

/// The views of a whole arena, in arena order.
pub open spec fn arena_view(nodes: Seq<Node>) -> Seq<NodeView> {
    nodes.map_values(|n: Node| n@)
}

impl Node {
    /// A freshly tokenized line: the given prefix and field values, and no
    /// children yet.
    pub fn new(prefix: &str, contents: Vec<&str>) -> (n: Node)
        ensures
            n@ == (NodeView { prefix: prefix@, contents: contents.deep_view(), children: Seq::empty() }),
    {
        let mut owned: Vec<String> = Vec::new();
        let mut i: usize = 0;
        while i < contents.len()
            invariant
                i <= contents.len(),
                owned@.len() == i,
                forall|k: int| 0 <= k < i ==> owned@[k]@ == #[trigger] contents@[k]@,
            decreases contents.len() - i,
        {
            owned.push(contents[i].to_owned());
            i = i + 1;
        }
        proof {
            assert(owned.deep_view() =~= contents.deep_view());
        }
        let n = Node { prefix: prefix.to_owned(), contents: owned, children: Vec::new() };
        proof {
            assert(n@.children =~= Seq::<int>::empty());
        }
        n
    }
}

/// An append-only store of parsed nodes, addressed by index.
pub trait NodeArena {
    /// The views of the stored nodes, in insertion order.
    spec fn nodes(&self) -> Seq<NodeView>;

    /// Appends a node built from the given prefix and field values and
    /// returns its index.
    fn push_node(&mut self, prefix: &str, contents: Vec<&str>) -> (idx: usize)
        ensures
            idx == old(self).nodes().len(),
            final(self).nodes() == old(self).nodes().push(
                NodeView { prefix: prefix@, contents: contents.deep_view(), children: Seq::empty() },
            ),
    ;
}

impl NodeArena for Vec<Node> {
    open spec fn nodes(&self) -> Seq<NodeView> {
        arena_view(self@)
    }

    fn push_node(&mut self, prefix: &str, contents: Vec<&str>) -> (idx: usize) {
        let idx = self.len();
        self.push(Node::new(prefix, contents));
        proof {
            assert(self.nodes() =~= old(self).nodes().push(
                NodeView { prefix: prefix@, contents: contents.deep_view(), children: Seq::empty() },
            ));
        }
        idx
    }
}

/// The caller-facing result tree: one node per accepted input line plus a
/// synthetic root, each owning its prefix, field values and children.
#[derive(Debug, PartialEq)]
pub struct DecodedFlow {
    pub prefix: String,
    pub contents: Vec<String>,
    pub children: Vec<DecodedFlow>,
}

/// Mathematical model of a `DecodedFlow` tree.
pub struct FlowView {
    pub prefix: Seq<char>,
    pub contents: Seq<Seq<char>>,
    pub children: Seq<FlowView>,
}

/// The view of one result node, taken recursively through its children.
pub open spec fn flow_view(d: DecodedFlow) -> FlowView
    decreases d,
{
    FlowView {
        prefix: d.prefix@,
        contents: d.contents.deep_view(),
        children: flows_view(d.children@),
    }
}

/// The views of a sequence of result nodes, in order.
pub open spec fn flows_view(s: Seq<DecodedFlow>) -> Seq<FlowView>
    decreases s,
{
    if s.len() == 0 {
        Seq::empty()
    } else {
        seq![flow_view(s[0])] + flows_view(s.subrange(1, s.len() as int))
    }
}

impl View for DecodedFlow {
    type V = FlowView;

    open spec fn view(&self) -> FlowView {
        flow_view(*self)
    }
}

/// `flows_view` is the pointwise view of its input.
pub proof fn lemma_flows_view(s: Seq<DecodedFlow>)
    ensures
        flows_view(s).len() == s.len(),
        forall|k: int| 0 <= k < s.len() ==> #[trigger] flows_view(s)[k] == flow_view(s[k]),
    decreases s,
{
    if s.len() > 0 {
        let rest = s.subrange(1, s.len() as int);
        lemma_flows_view(rest);
        assert forall|k: int| 0 <= k < s.len() implies #[trigger] flows_view(s)[k]
            == flow_view(s[k]) by {
            if k > 0 {
                assert(flows_view(rest)[k - 1] == flow_view(rest[k - 1]));
            }
        }
    }
}

} // verus!
