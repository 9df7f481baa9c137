//! The factor tree: a binary tree recording each factorization step, with a
//! binary-path addressing scheme used to re-locate the attachment point for
//! new children across recursive calls.

use vstd::prelude::*;

verus! {

/// The children of a factor tree node: none (a terminal value), or exactly
/// two — the square factor and the cofactor the value was divided into.
#[derive(Debug)]
pub enum Children {
    Leaf,
    Pair(Box<TreeNode>, Box<TreeNode>),
}

/// One node of the factor tree, standing for one integer value produced
/// during factorization.
#[derive(Debug)]
pub struct TreeNode {
    pub value: u32,
    pub children: Children,
}

/// A terminal node holding `v`.
pub open spec fn leaf(v: u32) -> TreeNode {
    TreeNode { value: v, children: Children::Leaf }
}

/// A node holding `v` whose two children are fresh leaves: the shape one
/// factorization step leaves behind.
pub open spec fn expand(v: u32, l: u32, r: u32) -> TreeNode {
    TreeNode { value: v, children: Children::Pair(Box::new(leaf(l)), Box::new(leaf(r))) }
}

/// The child of `t` selected by one path digit (false = first, true = second).
pub open spec fn child(t: TreeNode, b: bool) -> TreeNode {
    match t.children {
        Children::Leaf => t,
        Children::Pair(l, r) => if b {
            *r
        } else {
            *l
        },
    }
}

pub open spec fn node_count(t: TreeNode) -> nat
    decreases t,
{
    match t.children {
        Children::Leaf => 1,
        Children::Pair(l, r) => 1 + node_count(*l) + node_count(*r),
    }
}

/// Whether the root-to-node path `p` names a node that exists in `t`.
pub open spec fn has_node(t: TreeNode, p: Seq<bool>) -> bool
    decreases p.len(),
{
    if p.len() == 0 {
        true
    } else {
        match t.children {
            Children::Leaf => false,
            Children::Pair(l, r) => has_node(if p[0] { *r } else { *l }, p.drop_first()),
        }
    }
}

/// The node of `t` addressed by path `p` (meaningful when `has_node(t, p)`).
pub open spec fn node_at(t: TreeNode, p: Seq<bool>) -> TreeNode
    decreases p.len(),
{
    if p.len() == 0 {
        t
    } else {
        match t.children {
            Children::Leaf => t,
            Children::Pair(l, r) => node_at(if p[0] { *r } else { *l }, p.drop_first()),
        }
    }
}

/// `t` with the subtree addressed by `p` replaced by `s`.
pub open spec fn replace_at(t: TreeNode, p: Seq<bool>, s: TreeNode) -> TreeNode
    decreases p.len(),
{
    if p.len() == 0 {
        s
    } else {
        match t.children {
            Children::Leaf => t,
            Children::Pair(l, r) => if p[0] {
                TreeNode {
                    value: t.value,
                    children: Children::Pair(l, Box::new(replace_at(*r, p.drop_first(), s))),
                }
            } else {
                TreeNode {
                    value: t.value,
                    children: Children::Pair(Box::new(replace_at(*l, p.drop_first(), s)), r),
                }
            },
        }
    }
}

/// A branching node with the child selected by `b` replaced by `s`.
pub open spec fn set_child(t: TreeNode, b: bool, s: TreeNode) -> TreeNode {
    match t.children {
        Children::Leaf => t,
        Children::Pair(l, r) => if b {
            TreeNode { value: t.value, children: Children::Pair(l, Box::new(s)) }
        } else {
            TreeNode { value: t.value, children: Children::Pair(Box::new(s), r) }
        },
    }
}

/// What attaching two children at path `p` yields: the leaf addressed by `p`
/// gains two fresh leaf children and every other node is untouched.
pub open spec fn attach_spec(t: TreeNode, p: Seq<bool>, l: u32, r: u32) -> TreeNode {
    replace_at(t, p, expand(node_at(t, p).value, l, r))
}

/// The digits of a binary path address, most significant first, excluding the
/// leading marker bit: 1 addresses the root (empty path), `2p` the first
/// child below `p`, and `2p + 1` the second.
pub open spec fn bits_of(p: nat) -> Seq<bool>
    decreases p,
{
    if p <= 1 {
        Seq::empty()
    } else {
        bits_of(p / 2).push(p % 2 == 1)
    }
}

/// The digits of `p` read downward from the bit position `m` (a power of
/// two), most significant first.
pub open spec fn bits_below(p: nat, m: nat) -> Seq<bool>
    decreases m,
{
    if m == 0 {
        Seq::empty()
    } else {
        seq![(p / m) % 2 == 1] + bits_below(p, m / 2)
    }
}

pub open spec fn two_pow(k: nat) -> nat
    decreases k,
{
    if k == 0 {
        1
    } else {
        2 * two_pow((k - 1) as nat)
    }
}

proof fn lemma_two_pow_pos(k: nat)
    ensures
        two_pow(k) >= 1,
    decreases k,
{
    if k > 0 {
        lemma_two_pow_pos((k - 1) as nat);
    }
}

/// Appending one digit to a path address appends one digit to its bit string.
pub proof fn lemma_bits_of_child(p: nat)
    requires
        1 <= p,
    ensures
        bits_of(2 * p) == bits_of(p).push(false),
        bits_of(2 * p + 1) == bits_of(p).push(true),
{
    vstd::arithmetic::div_mod::lemma_fundamental_div_mod_converse(2 * p as int, 2, p as int, 0);
    vstd::arithmetic::div_mod::lemma_fundamental_div_mod_converse(2 * p as int + 1, 2, p as int, 1);
}

/// Extending a valid path by one digit addresses the corresponding child.
pub proof fn lemma_node_at_extend(t: TreeNode, p: Seq<bool>, b: bool)
    requires
        has_node(t, p),
        node_at(t, p).children is Pair,
    ensures
        has_node(t, p.push(b)),
        node_at(t, p.push(b)) == child(node_at(t, p), b),
    decreases p.len(),
{
    if p.len() == 0 {
        reveal_with_fuel(has_node, 2);
        reveal_with_fuel(node_at, 2);
        assert(p.push(b)[0] == b);
        assert(p.push(b).drop_first() =~= Seq::<bool>::empty());
    } else {
        match t.children {
            Children::Leaf => {
                assert(false);
            },
            Children::Pair(l, r) => {
                let tc = if p[0] {
                    *r
                } else {
                    *l
                };
                assert(p.push(b)[0] == p[0]);
                assert(p.push(b).drop_first() =~= p.drop_first().push(b));
                lemma_node_at_extend(tc, p.drop_first(), b);
            },
        }
    }
}

/// Replacing the subtree at `p` puts the new subtree there, changes the node
/// count by the difference of the two subtrees, and touches nothing above.
pub proof fn lemma_replace_at_props(t: TreeNode, p: Seq<bool>, s: TreeNode)
    requires
        has_node(t, p),
    ensures
        has_node(replace_at(t, p, s), p),
        node_at(replace_at(t, p, s), p) == s,
        node_count(replace_at(t, p, s)) == node_count(t) - node_count(node_at(t, p))
            + node_count(s),
        p.len() > 0 ==> replace_at(t, p, s).value == t.value,
    decreases p.len(),
{
    if p.len() == 0 {
    } else {
        match t.children {
            Children::Leaf => {
                assert(false);
            },
            Children::Pair(l, r) => {
                let tc = if p[0] {
                    *r
                } else {
                    *l
                };
                lemma_replace_at_props(tc, p.drop_first(), s);
            },
        }
    }
}

/// Two replacements along nested paths collapse into one: replacing at `p`
/// and then at one of its children is replacing at `p` with the child
/// already swapped in.
pub proof fn lemma_replace_compose(t: TreeNode, p: Seq<bool>, b: bool, s1: TreeNode, s2: TreeNode)
    requires
        has_node(t, p),
        s1.children is Pair,
    ensures
        replace_at(replace_at(t, p, s1), p.push(b), s2) == replace_at(t, p, set_child(s1, b, s2)),
    decreases p.len(),
{
    if p.len() == 0 {
        reveal_with_fuel(replace_at, 2);
        assert(p.push(b)[0] == b);
        assert(p.push(b).drop_first() =~= Seq::<bool>::empty());
    } else {
        match t.children {
            Children::Leaf => {
                assert(false);
            },
            Children::Pair(l, r) => {
                let tc = if p[0] {
                    *r
                } else {
                    *l
                };
                assert(p.push(b)[0] == p[0]);
                assert(p.push(b).drop_first() =~= p.drop_first().push(b));
                lemma_replace_compose(tc, p.drop_first(), b, s1, s2);
            },
        }
    }
}

/// Attaching two children to a leaf grows the tree by exactly two nodes: the
/// node count strictly increases with each expansion and never decreases.
pub proof fn lemma_attach_grows(t: TreeNode, p: Seq<bool>, l: u32, r: u32)
    requires
        has_node(t, p),
        node_at(t, p).children is Leaf,
    ensures
        node_count(attach_spec(t, p, l, r)) == node_count(t) + 2,
{
    let v = node_at(t, p).value;
    assert(node_count(leaf(l)) == 1);
    assert(node_count(leaf(r)) == 1);
    assert(node_count(expand(v, l, r)) == 3);
    assert(node_count(node_at(t, p)) == 1);
    lemma_replace_at_props(t, p, expand(v, l, r));
}

proof fn lemma_bits_below_halve(q: nat, k: nat)
    ensures
        bits_below(q, two_pow(k)) == bits_below(q / 2, two_pow(k) / 2).push(q % 2 == 1),
    decreases k,
{
    lemma_two_pow_pos(k);
    if k == 0 {
        reveal_with_fuel(bits_below, 2);
        vstd::arithmetic::div_mod::lemma_fundamental_div_mod_converse(
            q as int,
            1,
            q as int,
            0,
        );
        assert(bits_below(q, 1) =~= bits_below(q / 2, 0).push(q % 2 == 1));
    } else {
        let m = two_pow((k - 1) as nat);
        lemma_two_pow_pos((k - 1) as nat);
        vstd::arithmetic::div_mod::lemma_fundamental_div_mod_converse(
            2 * m as int,
            2,
            m as int,
            0,
        );
        lemma_bits_below_halve(q, (k - 1) as nat);
        vstd::arithmetic::div_mod::lemma_div_denominator(q as int, 2, m as int);
        assert((q / 2) / m == q / (2 * m));
        assert(bits_below(q, 2 * m) == seq![(q / (2 * m)) % 2 == 1] + bits_below(q, m));
        assert(seq![(q / (2 * m)) % 2 == 1] + bits_below(q / 2, m / 2).push(q % 2 == 1)
            =~= (seq![((q / 2) / m) % 2 == 1] + bits_below(q / 2, m / 2)).push(q % 2 == 1));
    }
}

/// When `two_pow(k)` is the leading marker bit of `p`, reading the digits of
/// `p` downward from below the marker is exactly the path `p` encodes.
proof fn lemma_bits_below_is_bits_of(p: nat, k: nat)
    requires
        two_pow(k) <= p,
        p < 2 * two_pow(k),
    ensures
        bits_below(p, two_pow(k) / 2) == bits_of(p),
    decreases k,
{
    lemma_two_pow_pos(k);
    if k == 0 {
        assert(p == 1);
        assert(bits_below(1, 0) =~= bits_of(1));
    } else {
        let m = two_pow((k - 1) as nat);
        lemma_two_pow_pos((k - 1) as nat);
        assert(two_pow(k) == 2 * m);
        vstd::arithmetic::div_mod::lemma_fundamental_div_mod_converse(
            2 * m as int,
            2,
            m as int,
            0,
        );
        // p / 2 lies between two_pow(k - 1) and 2 * two_pow(k - 1)
        vstd::arithmetic::div_mod::lemma_div_is_ordered(2 * m as int, p as int, 2);
        vstd::arithmetic::div_mod::lemma_div_is_ordered(p as int, 4 * m as int - 1, 2);
        vstd::arithmetic::div_mod::lemma_fundamental_div_mod_converse(
            4 * m as int - 1,
            2,
            2 * m as int - 1,
            1,
        );
        assert(m <= p / 2 < 2 * m);
        lemma_bits_below_is_bits_of(p / 2, (k - 1) as nat);
        lemma_bits_below_halve(p, (k - 1) as nat);
        assert(p >= 2);
        assert(bits_of(p) == bits_of(p / 2).push(p % 2 == 1));
    }
}

impl TreeNode {
    /// A fresh terminal node holding `num`.
    pub fn new(num: u32) -> (t: TreeNode)
        ensures
            t == leaf(num),
    {
        TreeNode { value: num, children: Children::Leaf }
    }
}

/// Locates the leaf addressed by the binary path `path` (most significant
/// digit first, below the leading marker bit) and appends two new leaf
/// children holding `left_val` and `right_val`.
pub fn attach(t: TreeNode, path: u64, left_val: u32, right_val: u32) -> (res: TreeNode)
    requires
        1 <= path,
        has_node(t, bits_of(path as nat)),
        node_at(t, bits_of(path as nat)).children is Leaf,
    ensures
        res == attach_spec(t, bits_of(path as nat), left_val, right_val),
{
    let mut m: u64 = 1;
    let ghost mut k: nat = 0;
    while m <= path / 2
        invariant
            1 <= m <= path,
            m == two_pow(k),
        decreases path - m,
    {
        proof {
            vstd::arithmetic::div_mod::lemma_fundamental_div_mod(path as int, 2);
            k = k + 1;
        }
        m = m * 2;
    }
    proof {
        vstd::arithmetic::div_mod::lemma_fundamental_div_mod(path as int, 2);
        assert(path < 2 * m);
        lemma_bits_below_is_bits_of(path as nat, k);
        vstd::arithmetic::div_mod::lemma_fundamental_div_mod_converse(
            2 * (m as int / 2),
            2,
            m as int / 2,
            0,
        );
    }
    attach_go(t, path, m / 2, left_val, right_val)
}

fn attach_go(t: TreeNode, path: u64, m: u64, left_val: u32, right_val: u32) -> (res: TreeNode)
    requires
        has_node(t, bits_below(path as nat, m as nat)),
        node_at(t, bits_below(path as nat, m as nat)).children is Leaf,
    ensures
        res == attach_spec(t, bits_below(path as nat, m as nat), left_val, right_val),
    decreases m,
{
    let ghost pseq = bits_below(path as nat, m as nat);
    let TreeNode { value, children } = t;
    if m == 0 {
        TreeNode {
            value,
            children: Children::Pair(
                Box::new(TreeNode { value: left_val, children: Children::Leaf }),
                Box::new(TreeNode { value: right_val, children: Children::Leaf }),
            ),
        }
    } else {
        let bit: u64 = (path / m) % 2;
        proof {
            assert(pseq[0] == (bit == 1));
            assert(pseq.drop_first() =~= bits_below(path as nat, (m / 2) as nat));
        }
        match children {
            Children::Leaf => {
                proof {
                    assert(false);
                }
                TreeNode { value, children: Children::Leaf }
            },
            Children::Pair(l, r) => {
                if bit == 1 {
                    let nr = attach_go(*r, path, m / 2, left_val, right_val);
                    TreeNode { value, children: Children::Pair(l, Box::new(nr)) }
                } else {
                    let nl = attach_go(*l, path, m / 2, left_val, right_val);
                    TreeNode { value, children: Children::Pair(Box::new(nl), r) }
                }
            },
        }
    }
}

} // verus!
