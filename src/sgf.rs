//! The tree of a game record: nodes of properties, and variations that branch off.
use vstd::prelude::*;
use vstd::string::StringExecFns;

verus! {

broadcast use vstd::std_specs::vec::group_vec_axioms, vstd::seq::group_seq_axioms;

/// A property: an identifier and its values, as in `AB[cd][ef]`.
#[derive(Clone, Default, PartialEq, Debug)]
pub struct SgfProp {
    pub id: String,
    pub values: Vec<String>,
}

/// A node: a move or a setup, made of properties.
#[derive(Clone, Default, PartialEq, Debug)]
pub struct SgfNode {
    pub props: Vec<SgfProp>,
}

/// A game tree: a sequence of nodes, then the variations that follow it.
#[derive(Default, PartialEq, Debug)]
pub struct SgfTree {
    pub nodes: Vec<SgfNode>,
    pub children: Vec<SgfTree>,
}

/// The text of the values of a property, each between brackets.
pub open spec fn values_text(values: Seq<String>) -> Seq<char>
    decreases values.len(),
{
    if values.len() == 0 {
        Seq::empty()
    } else {
        values_text(values.drop_last()) + seq!['['] + values.last()@ + seq![']']
    }
}

/// The text of a property: its identifier, then its values.
pub open spec fn prop_text(p: SgfProp) -> Seq<char> {
    p.id@ + values_text(p.values@)
}

/// The text of a run of properties, one after the other.
pub open spec fn props_text(props: Seq<SgfProp>) -> Seq<char>
    decreases props.len(),
{
    if props.len() == 0 {
        Seq::empty()
    } else {
        props_text(props.drop_last()) + prop_text(props.last())
    }
}

/// The text of a node: a semicolon, then its properties.
pub open spec fn node_text(n: SgfNode) -> Seq<char> {
    seq![';'] + props_text(n.props@)
}

/// The text of a run of nodes, one after the other.
pub open spec fn nodes_text(nodes: Seq<SgfNode>) -> Seq<char>
    decreases nodes.len(),
{
    if nodes.len() == 0 {
        Seq::empty()
    } else {
        nodes_text(nodes.drop_last()) + node_text(nodes.last())
    }
}

/// The text of a tree: between parentheses, its nodes, then each of its variations.
pub open spec fn tree_text(t: SgfTree) -> Seq<char>
    decreases t, 1nat, 0nat,
{
    seq!['('] + nodes_text(t.nodes@) + children_text(t, t.children@.len()) + seq![')']
}

/// The text of the first `k` variations of `t`.
pub open spec fn children_text(t: SgfTree, k: nat) -> Seq<char>
    decreases t, 0nat, k,
{
    if k == 0 || k > t.children@.len() {
        Seq::empty()
    } else {
        children_text(t, (k - 1) as nat) + tree_text(t.children@[k - 1])
    }
}

impl SgfProp {
    /// A property with a single value.
    pub fn new(id: &str, value: &str) -> (r: SgfProp)
        ensures
            r.id@ == id@,
            r.values@.len() == 1,
            r.values@[0]@ == value@,
    {
        let mut values: Vec<String> = Vec::new();
        values.push(value.to_owned());
        SgfProp { id: id.to_owned(), values }
    }

    /// A property with the given values, in order.
    pub fn new_many(id: &str, values: Vec<&str>) -> (r: SgfProp)
        ensures
            r.id@ == id@,
            r.values@.len() == values@.len(),
            forall|i: int| 0 <= i < values@.len() ==> #[trigger] r.values@[i]@ == values@[i]@,
    {
        let mut owned: Vec<String> = Vec::new();
        let mut i: usize = 0;
        while i < values.len()
            invariant
                0 <= i <= values@.len(),
                owned@.len() == i,
                forall|j: int| 0 <= j < i ==> #[trigger] owned@[j]@ == values@[j]@,
            decreases values@.len() - i,
        {
            owned.push(values[i].to_owned());
            i = i + 1;
        }
        SgfProp { id: id.to_owned(), values: owned }
    }

    /// The property as game-record text, such as `AB[cd][ef]`.
    pub fn to_sgf(&self) -> (r: String)
        ensures
            r@ == prop_text(*self),
    {
        let mut r = self.id.clone();
        let mut i: usize = 0;
        while i < self.values.len()
            invariant
                0 <= i <= self.values@.len(),
                r@ == self.id@ + values_text(self.values@.subrange(0, i as int)),
            decreases self.values@.len() - i,
        {
            proof {
                reveal_strlit("[");
                reveal_strlit("]");
                assert(self.values@.subrange(0, i + 1).drop_last() == self.values@.subrange(
                    0,
                    i as int,
                ));
            }
            r.append("[");
            r.append(self.values[i].as_str());
            r.append("]");
            i = i + 1;
        }
        assert(self.values@.subrange(0, i as int) == self.values@);
        r
    }
}

impl SgfNode {
    /// A node holding the given properties.
    pub fn new(props: Vec<SgfProp>) -> (r: SgfNode)
        ensures
            r.props == props,
    {
        SgfNode { props }
    }

    /// The node as game-record text, such as `;B[dd]`.
    pub fn to_sgf(&self) -> (r: String)
        ensures
            r@ == node_text(*self),
    {
        let mut r = String::new();
        proof {
            reveal_strlit(";");
        }
        r.append(";");
        let mut i: usize = 0;
        while i < self.props.len()
            invariant
                0 <= i <= self.props@.len(),
                r@ == seq![';'] + props_text(self.props@.subrange(0, i as int)),
            decreases self.props@.len() - i,
        {
            proof {
                assert(self.props@.subrange(0, i + 1).drop_last() == self.props@.subrange(
                    0,
                    i as int,
                ));
            }
            let p = self.props[i].to_sgf();
            r.append(p.as_str());
            i = i + 1;
        }
        assert(self.props@.subrange(0, i as int) == self.props@);
        r
    }
}

impl SgfTree {
    /// A tree of the given nodes and variations.
    pub fn new(nodes: Vec<SgfNode>, children: Vec<SgfTree>) -> (r: SgfTree)
        ensures
            r.nodes == nodes,
            r.children == children,
    {
        SgfTree { nodes, children }
    }

    /// The tree as game-record text, such as `(;B[dd](;W[pp])(;W[dp]))`.
    pub fn to_sgf(&self) -> (r: String)
        ensures
            r@ == tree_text(*self),
        decreases *self,
    {
        let mut r = String::new();
        proof {
            reveal_strlit("(");
            reveal_strlit(")");
        }
        r.append("(");
        let mut i: usize = 0;
        while i < self.nodes.len()
            invariant
                0 <= i <= self.nodes@.len(),
                r@ == seq!['('] + nodes_text(self.nodes@.subrange(0, i as int)),
            decreases self.nodes@.len() - i,
        {
            proof {
                assert(self.nodes@.subrange(0, i + 1).drop_last() == self.nodes@.subrange(
                    0,
                    i as int,
                ));
            }
            let n = self.nodes[i].to_sgf();
            r.append(n.as_str());
            i = i + 1;
        }
        assert(self.nodes@.subrange(0, i as int) == self.nodes@);
        let mut k: usize = 0;
        while k < self.children.len()
            invariant
                0 <= k <= self.children@.len(),
                r@ == seq!['('] + nodes_text(self.nodes@) + children_text(*self, k as nat),
            decreases self.children@.len() - k,
        {
            let c = self.children[k].to_sgf();
            r.append(c.as_str());
            k = k + 1;
        }
        r.append(")");
        r
    }
}

} // verus!
