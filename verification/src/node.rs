//! The nested node model: a configuration subtree with its children
//! held inline, as handed across the service boundary, together with
//! the traversal helpers that report on such a tree.

use vstd::prelude::*;

use crate::model::{opt_view, ConfigMetadata, ConfigNodeType};

verus! {

/// A configuration node with its children owned inline. The canonical
/// path of a child is the parent's path, a separator, and the child's
/// name; identity within one tree is the path.
#[derive(Debug)]
pub struct ConfigNode {
    pub id: u64,
    pub path: String,
    pub name: String,
    pub value: Option<String>,
    pub node_type: ConfigNodeType,
    pub description: Option<String>,
    pub children: Vec<ConfigNode>,
    pub metadata: ConfigMetadata,
    pub created_at: i64,
    pub updated_at: i64,
}

/// Number of nodes in the tree rooted here.
pub open spec fn spec_node_count(n: ConfigNode) -> nat
    decreases n,
{
    1 + spec_forest_count(n.children@)
}

/// Number of nodes in a forest.
pub open spec fn spec_forest_count(s: Seq<ConfigNode>) -> nat
    decreases s,
{
    if s.len() == 0 {
        0
    } else {
        spec_node_count(s[0]) + spec_forest_count(s.drop_first())
    }
}

pub proof fn lemma_forest_count_push(s: Seq<ConfigNode>, x: ConfigNode)
    ensures
        spec_forest_count(s.push(x)) == spec_forest_count(s) + spec_node_count(x),
    decreases s,
{
    if s.len() == 0 {
        assert(s.push(x)[0] == x);
        assert(s.push(x).drop_first() =~= Seq::<ConfigNode>::empty());
        assert(s.push(x).len() == 1);
        assert(spec_forest_count(Seq::<ConfigNode>::empty()) == 0);
        assert(spec_forest_count(s) == 0);
        assert(spec_forest_count(s.push(x)) == spec_node_count(x) + spec_forest_count(
            s.push(x).drop_first(),
        ));
    } else {
        assert(s.push(x)[0] == s[0]);
        assert(s.push(x).drop_first() =~= s.drop_first().push(x));
        lemma_forest_count_push(s.drop_first(), x);
    }
}

/// A forest counts its prefix plus its remainder.
pub proof fn lemma_forest_count_split(s: Seq<ConfigNode>, i: int)
    requires
        0 <= i <= s.len(),
    ensures
        spec_forest_count(s) == spec_forest_count(s.take(i)) + spec_forest_count(s.skip(i)),
    decreases s.len() - i,
{
    if i == s.len() {
        assert(s.take(i) =~= s);
        assert(s.skip(i) =~= Seq::<ConfigNode>::empty());
    } else {
        lemma_forest_count_split(s, i + 1);
        assert(s.take(i + 1) =~= s.take(i).push(s[i]));
        lemma_forest_count_push(s.take(i), s[i]);
        assert(s.skip(i)[0] == s[i]);
        assert(s.skip(i).drop_first() =~= s.skip(i + 1));
    }
}

/// Count the nodes of a subtree.
pub fn count_nodes(node: &ConfigNode) -> (r: usize)
    requires
        spec_node_count(*node) <= usize::MAX,
    ensures
        r == spec_node_count(*node),
    decreases *node,
{
    let mut total: usize = 1;
    let mut i: usize = 0;
    let n = node.children.len();
    while i < n
        invariant
            i <= n,
            n == node.children@.len(),
            spec_node_count(*node) <= usize::MAX,
            total == 1 + spec_forest_count(node.children@.take(i as int)),
        decreases n - i,
    {
        proof {
            lemma_forest_count_split(node.children@, i as int);
            assert(node.children@.skip(i as int)[0] == node.children@[i as int]);
            assert(node.children@.skip(i as int).drop_first() =~= node.children@.skip(i + 1));
        }
        let c = count_nodes(&node.children[i]);
        proof {
            assert(node.children@.take(i + 1) =~= node.children@.take(i as int).push(
                node.children@[i as int],
            ));
            lemma_forest_count_push(node.children@.take(i as int), node.children@[i as int]);
        }
        total = total + c;
        i = i + 1;
    }
    proof {
        assert(node.children@.take(n as int) =~= node.children@);
    }
    total
}

/// Number of leaf nodes below (and including) this node: a leaf counts
/// once, an interior node counts its children.
pub open spec fn spec_leaf_count(n: ConfigNode) -> nat
    decreases n,
{
    if n.node_type == ConfigNodeType::Leaf {
        1
    } else {
        spec_forest_leaf_count(n.children@)
    }
}

pub open spec fn spec_forest_leaf_count(s: Seq<ConfigNode>) -> nat
    decreases s,
{
    if s.len() == 0 {
        0
    } else {
        spec_leaf_count(s[0]) + spec_forest_leaf_count(s.drop_first())
    }
}

pub proof fn lemma_forest_leaf_push(s: Seq<ConfigNode>, x: ConfigNode)
    ensures
        spec_forest_leaf_count(s.push(x)) == spec_forest_leaf_count(s) + spec_leaf_count(x),
    decreases s,
{
    if s.len() == 0 {
        assert(s.push(x)[0] == x);
        assert(s.push(x).drop_first() =~= Seq::<ConfigNode>::empty());
        assert(spec_forest_leaf_count(Seq::<ConfigNode>::empty()) == 0);
        assert(spec_forest_leaf_count(s) == 0);
    } else {
        assert(s.push(x)[0] == s[0]);
        assert(s.push(x).drop_first() =~= s.drop_first().push(x));
        lemma_forest_leaf_push(s.drop_first(), x);
    }
}

/// Leaves never outnumber nodes.
pub proof fn lemma_leaf_count_le(n: ConfigNode)
    ensures
        spec_leaf_count(n) <= spec_node_count(n),
    decreases n,
{
    lemma_forest_leaf_le(n.children@);
}

pub proof fn lemma_forest_leaf_le(s: Seq<ConfigNode>)
    ensures
        spec_forest_leaf_count(s) <= spec_forest_count(s),
    decreases s,
{
    if s.len() > 0 {
        lemma_leaf_count_le(s[0]);
        lemma_forest_leaf_le(s.drop_first());
    }
}

/// Count the leaf nodes of a subtree.
pub fn count_leaf_nodes(node: &ConfigNode) -> (r: usize)
    requires
        spec_node_count(*node) <= usize::MAX,
    ensures
        r == spec_leaf_count(*node),
    decreases *node,
{
    if matches!(node.node_type, ConfigNodeType::Leaf) {
        return 1;
    }
    let mut total: usize = 0;
    let mut i: usize = 0;
    let n = node.children.len();
    while i < n
        invariant
            i <= n,
            n == node.children@.len(),
            node.node_type != ConfigNodeType::Leaf,
            spec_node_count(*node) <= usize::MAX,
            total == spec_forest_leaf_count(node.children@.take(i as int)),
        decreases n - i,
    {
        proof {
            lemma_forest_count_split(node.children@, i as int);
            assert(node.children@.skip(i as int)[0] == node.children@[i as int]);
            assert(node.children@.skip(i as int).drop_first() =~= node.children@.skip(i + 1));
            lemma_forest_leaf_le(node.children@.take(i as int));
            lemma_leaf_count_le(node.children@[i as int]);
            lemma_forest_count_push(node.children@.take(i as int), node.children@[i as int]);
            assert(node.children@.take(i + 1) =~= node.children@.take(i as int).push(
                node.children@[i as int],
            ));
            lemma_forest_count_split(node.children@, i + 1);
        }
        let c = count_leaf_nodes(&node.children[i]);
        proof {
            lemma_forest_leaf_push(node.children@.take(i as int), node.children@[i as int]);
        }
        total = total + c;
        i = i + 1;
    }
    proof {
        assert(node.children@.take(n as int) =~= node.children@);
    }
    total
}

/// Number of container nodes below (and including) this node.
pub open spec fn spec_container_count(n: ConfigNode) -> nat
    decreases n,
{
    (if n.node_type == ConfigNodeType::Container {
        1nat
    } else {
        0nat
    }) + spec_forest_container_count(n.children@)
}

pub open spec fn spec_forest_container_count(s: Seq<ConfigNode>) -> nat
    decreases s,
{
    if s.len() == 0 {
        0
    } else {
        spec_container_count(s[0]) + spec_forest_container_count(s.drop_first())
    }
}

pub proof fn lemma_forest_container_push(s: Seq<ConfigNode>, x: ConfigNode)
    ensures
        spec_forest_container_count(s.push(x)) == spec_forest_container_count(s)
            + spec_container_count(x),
    decreases s,
{
    if s.len() == 0 {
        assert(s.push(x)[0] == x);
        assert(s.push(x).drop_first() =~= Seq::<ConfigNode>::empty());
        assert(spec_forest_container_count(Seq::<ConfigNode>::empty()) == 0);
        assert(spec_forest_container_count(s) == 0);
    } else {
        assert(s.push(x)[0] == s[0]);
        assert(s.push(x).drop_first() =~= s.drop_first().push(x));
        lemma_forest_container_push(s.drop_first(), x);
    }
}

/// Containers never outnumber nodes.
pub proof fn lemma_container_count_le(n: ConfigNode)
    ensures
        spec_container_count(n) <= spec_node_count(n),
    decreases n,
{
    lemma_forest_container_le(n.children@);
}

pub proof fn lemma_forest_container_le(s: Seq<ConfigNode>)
    ensures
        spec_forest_container_count(s) <= spec_forest_count(s),
    decreases s,
{
    if s.len() > 0 {
        lemma_container_count_le(s[0]);
        lemma_forest_container_le(s.drop_first());
    }
}

/// Count the container nodes of a subtree.
pub fn count_container_nodes(node: &ConfigNode) -> (r: usize)
    requires
        spec_node_count(*node) <= usize::MAX,
    ensures
        r == spec_container_count(*node),
    decreases *node,
{
    let mut total: usize = if matches!(node.node_type, ConfigNodeType::Container) {
        1
    } else {
        0
    };
    let ghost base: nat = if node.node_type == ConfigNodeType::Container {
        1nat
    } else {
        0nat
    };
    let mut i: usize = 0;
    let n = node.children.len();
    while i < n
        invariant
            i <= n,
            n == node.children@.len(),
            spec_node_count(*node) <= usize::MAX,
            base == if node.node_type == ConfigNodeType::Container {
                1nat
            } else {
                0nat
            },
            total == base + spec_forest_container_count(node.children@.take(i as int)),
        decreases n - i,
    {
        proof {
            lemma_forest_count_split(node.children@, i as int);
            assert(node.children@.skip(i as int)[0] == node.children@[i as int]);
            assert(node.children@.skip(i as int).drop_first() =~= node.children@.skip(i + 1));
            lemma_forest_container_le(node.children@.take(i as int));
            lemma_container_count_le(node.children@[i as int]);
            lemma_forest_count_push(node.children@.take(i as int), node.children@[i as int]);
            assert(node.children@.take(i + 1) =~= node.children@.take(i as int).push(
                node.children@[i as int],
            ));
            lemma_forest_count_split(node.children@, i + 1);
        }
        let c = count_container_nodes(&node.children[i]);
        proof {
            lemma_forest_container_push(node.children@.take(i as int), node.children@[i as int]);
        }
        total = total + c;
        i = i + 1;
    }
    proof {
        assert(node.children@.take(n as int) =~= node.children@);
    }
    total
}

/// Depth of the deepest node below this one, measured from a starting
/// depth: a childless node is as deep as its start.
pub open spec fn spec_height(n: ConfigNode) -> nat
    decreases n,
{
    if n.children@.len() == 0 {
        0
    } else {
        1 + spec_forest_height(n.children@)
    }
}

pub open spec fn spec_forest_height(s: Seq<ConfigNode>) -> nat
    decreases s,
{
    if s.len() == 0 {
        0
    } else if spec_height(s[0]) >= spec_forest_height(s.drop_first()) {
        spec_height(s[0])
    } else {
        spec_forest_height(s.drop_first())
    }
}

pub proof fn lemma_forest_height_push(s: Seq<ConfigNode>, x: ConfigNode)
    ensures
        spec_forest_height(s.push(x)) == if spec_forest_height(s) >= spec_height(x) {
            spec_forest_height(s)
        } else {
            spec_height(x)
        },
    decreases s,
{
    if s.len() == 0 {
        assert(s.push(x)[0] == x);
        assert(s.push(x).drop_first() =~= Seq::<ConfigNode>::empty());
        assert(spec_forest_height(Seq::<ConfigNode>::empty()) == 0);
        assert(spec_forest_height(s) == 0);
    } else {
        assert(s.push(x)[0] == s[0]);
        assert(s.push(x).drop_first() =~= s.drop_first().push(x));
        lemma_forest_height_push(s.drop_first(), x);
    }
}

/// Depth of the deepest node of the subtree, counting this node as
/// lying at `current_depth`.
pub fn calculate_max_depth(node: &ConfigNode, current_depth: usize) -> (r: usize)
    requires
        current_depth + spec_height(*node) <= usize::MAX,
    ensures
        r == current_depth + spec_height(*node),
    decreases *node,
{
    let n = node.children.len();
    if n == 0 {
        return current_depth;
    }
    let mut best: usize = current_depth;
    let mut i: usize = 0;
    proof {
        assert(node.children@.take(0) =~= Seq::<ConfigNode>::empty());
    }
    while i < n
        invariant
            i <= n,
            n == node.children@.len(),
            n > 0,
            current_depth + spec_height(*node) <= usize::MAX,
            i == 0 ==> best == current_depth,
            i > 0 ==> best == current_depth + 1 + spec_forest_height(
                node.children@.take(i as int),
            ),
        decreases n - i,
    {
        proof {
            lemma_forest_height_take_le(node.children@, i + 1);
            assert(node.children@.take(i + 1) =~= node.children@.take(i as int).push(
                node.children@[i as int],
            ));
            lemma_forest_height_push(node.children@.take(i as int), node.children@[i as int]);
        }
        let d = calculate_max_depth(&node.children[i], current_depth + 1);
        if d > best {
            best = d;
        }
        i = i + 1;
    }
    proof {
        assert(node.children@.take(n as int) =~= node.children@);
    }
    best
}

/// A prefix of a forest is never taller than the whole forest.
pub proof fn lemma_forest_height_take_le(s: Seq<ConfigNode>, i: int)
    requires
        0 <= i <= s.len(),
    ensures
        spec_forest_height(s.take(i)) <= spec_forest_height(s),
        forall|j: int| 0 <= j < i ==> spec_height(#[trigger] s[j]) <= spec_forest_height(s),
    decreases s.len() - i,
{
    if i == s.len() {
        assert(s.take(i) =~= s);
        lemma_forest_height_elems(s);
    } else {
        lemma_forest_height_take_le(s, i + 1);
        assert(s.take(i + 1) =~= s.take(i).push(s[i]));
        lemma_forest_height_push(s.take(i), s[i]);
    }
}

pub proof fn lemma_forest_height_elems(s: Seq<ConfigNode>)
    ensures
        forall|j: int| 0 <= j < s.len() ==> spec_height(#[trigger] s[j]) <= spec_forest_height(s),
    decreases s,
{
    if s.len() > 0 {
        lemma_forest_height_elems(s.drop_first());
        assert forall|j: int| 0 <= j < s.len() implies spec_height(#[trigger] s[j])
            <= spec_forest_height(s) by {
            if j > 0 {
                assert(s.drop_first()[j - 1] == s[j]);
            }
        }
    }
}

/// The first value found, walking depth-first, at a node whose path is
/// `p` — the node itself when its path matches, its subtrees otherwise.
pub open spec fn spec_find_value(n: ConfigNode, p: Seq<char>) -> Option<Seq<char>>
    decreases n,
{
    if n.path@ == p {
        opt_view(n.value)
    } else {
        spec_forest_find_value(n.children@, p)
    }
}

pub open spec fn spec_forest_find_value(s: Seq<ConfigNode>, p: Seq<char>) -> Option<Seq<char>>
    decreases s,
{
    if s.len() == 0 {
        None
    } else {
        match spec_find_value(s[0], p) {
            Some(v) => Some(v),
            None => spec_forest_find_value(s.drop_first(), p),
        }
    }
}

/// Find a node's value by path, walking the subtree depth-first.
pub fn find_node_value(node: &ConfigNode, path: &str) -> (r: Option<String>)
    ensures
        opt_view(r) == spec_find_value(*node, path@),
    decreases *node,
{
    if crate::order::str_eq(node.path.as_str(), path) {
        return crate::model::clone_opt_string(&node.value);
    }
    let n = node.children.len();
    let mut i: usize = 0;
    proof {
        assert(node.children@.skip(0) =~= node.children@);
    }
    while i < n
        invariant
            i <= n,
            n == node.children@.len(),
            node.path@ != path@,
            spec_forest_find_value(node.children@.skip(i as int), path@) == spec_forest_find_value(
                node.children@,
                path@,
            ),
        decreases n - i,
    {
        proof {
            assert(node.children@.skip(i as int)[0] == node.children@[i as int]);
            assert(node.children@.skip(i as int).drop_first() =~= node.children@.skip(i + 1));
        }
        match find_node_value(&node.children[i], path) {
            Some(v) => {
                return Some(v);
            },
            None => {},
        }
        i = i + 1;
    }
    proof {
        assert(node.children@.skip(n as int) =~= Seq::<ConfigNode>::empty());
    }
    None
}

} // verus!
