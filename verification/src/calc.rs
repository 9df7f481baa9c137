//! The square table and the recursive simplification algorithm: reduce √num
//! to an integer coefficient times the square root of a remainder that is
//! square-free relative to the table, recording every factorization choice
//! in the factor tree.

use vstd::prelude::*;

use crate::render::height;
use crate::tree::{
    attach, bits_of, expand, has_node, leaf, lemma_bits_of_child, lemma_node_at_extend,
    lemma_replace_at_props, lemma_replace_compose, node_at, node_count, replace_at, set_child,
    Children, TreeNode,
};

verus! {

/// The default bound of the square table: squares up to 30² are searched.
pub const SQUARE_GEN_DEPTH: u32 = 30;

pub open spec fn sq(r: int) -> int {
    r * r
}

pub open spec fn is_square(n: int) -> bool {
    exists|r: int| 0 <= r <= n && #[trigger] sq(r) == n
}

/// The exact nonnegative square root of a perfect square (meaningful when
/// `is_square(n)`).
pub open spec fn sqrt_of(n: int) -> int {
    choose|r: int| 0 <= r <= n && #[trigger] sq(r) == n
}

/// The square table holds exactly 2², 3², …, ascending: entry `k` is
/// `(k + 2)²`.
pub open spec fn table_wf(table: Seq<u32>) -> bool {
    &&& table.len() <= 65534
    &&& forall|k: int| 0 <= k < table.len() ==> #[trigger] (table[k] as int) == sq(k + 2)
}

/// The index of the first table entry at or after `j` that divides `num`
/// evenly, or the table length if none does.
pub open spec fn first_div_from(table: Seq<u32>, num: int, j: int) -> int
    decreases table.len() - j
        when 0 <= j <= table.len()
{
    if j >= table.len() {
        table.len() as int
    } else if num % (table[j] as int) == 0 {
        j
    } else {
        first_div_from(table, num, j + 1)
    }
}

pub proof fn lemma_sqrt_unique(n: int, r: int)
    requires
        0 <= r,
        sq(r) == n,
    ensures
        is_square(n),
        sqrt_of(n) == r,
{
    assert(r <= n) by (nonlinear_arith)
        requires
            0 <= r,
            r * r == n,
    ;
    assert(sq(r) == n);
    assert(is_square(n));
    let rr = sqrt_of(n);
    assert(0 <= rr <= n && sq(rr) == n);
    assert(rr == r) by (nonlinear_arith)
        requires
            0 <= r,
            0 <= rr,
            r * r == rr * rr,
    ;
}

pub proof fn lemma_first_div_from(table: Seq<u32>, num: int, j: int)
    requires
        0 <= j <= table.len(),
    ensures
        ({
            let i = first_div_from(table, num, j);
            &&& j <= i <= table.len()
            &&& (i < table.len() ==> num % (table[i] as int) == 0)
            &&& forall|k: int| j <= k < i ==> num % (#[trigger] (table[k] as int)) != 0
        }),
    decreases table.len() - j,
{
    if j < table.len() && num % (table[j] as int) != 0 {
        lemma_first_div_from(table, num, j + 1);
    }
}

/// Facts about one factorization step: the first dividing table entry is a
/// perfect square of at least 4, the cofactor is at least 2, and both parts
/// are strictly smaller than the value being split.
pub proof fn lemma_step_bounds(table: Seq<u32>, num: int)
    requires
        table_wf(table),
        1 <= num,
        !is_square(num),
        first_div_from(table, num, 0) < table.len(),
    ensures
        ({
            let j = first_div_from(table, num, 0);
            let s = table[j] as int;
            let co = num / s;
            &&& 4 <= s < num
            &&& num % s == 0
            &&& s * co == num
            &&& 2 <= co < num
            &&& 4 * co <= num
            &&& 2 * s <= num
            &&& is_square(s)
            &&& sqrt_of(s) == j + 2
        }),
{
    let j = first_div_from(table, num, 0);
    lemma_first_div_from(table, num, 0);
    let s = table[j] as int;
    assert(s == sq(j + 2));
    assert(s >= 4) by (nonlinear_arith)
        requires
            s == (j + 2) * (j + 2),
            j >= 0,
    ;
    lemma_sqrt_unique(s, j + 2);
    let co = num / s;
    vstd::arithmetic::div_mod::lemma_fundamental_div_mod(num, s);
    assert(s * co == num);
    assert(co >= 1) by (nonlinear_arith)
        requires
            s * co == num,
            num >= 1,
            s >= 4,
    ;
    if co == 1 {
        assert(num == s) by (nonlinear_arith)
            requires
                s * co == num,
                co == 1,
        ;
        assert(false);
    }
    assert(4 * co <= num && 2 * s <= num && s < num && co < num) by (nonlinear_arith)
        requires
            s * co == num,
            s >= 4,
            co >= 2,
    ;
}

/// The mathematical simplification result for `num` against `table`: the
/// coefficient and the remainder, as the recursive algorithm defines them —
/// take the exact square root of a perfect square, extract the first
/// perfect-square divisor found in the table and recurse on both parts, or
/// pass a square-free value through with coefficient 1.
pub open spec fn simp(table: Seq<u32>, num: int) -> (int, int)
    decreases num
        when table_wf(table) && 1 <= num
{
    if is_square(num) {
        (sqrt_of(num), 0)
    } else {
        let j = first_div_from(table, num, 0);
        if j < table.len() {
            let s = table[j] as int;
            let co = num / s;
            proof {
                lemma_step_bounds(table, num);
            }
            let lp = simp(table, s);
            let rp = simp(table, co);
            (lp.0 * rp.0, lp.1 + rp.1)
        } else {
            (1, num)
        }
    }
}

/// The complete factor tree that simplifying `num` leaves behind: the node
/// holding `num` with both factorization branches fully expanded.
pub open spec fn factor_tree(table: Seq<u32>, num: int) -> TreeNode
    decreases num
        when table_wf(table) && 1 <= num
{
    if is_square(num) {
        expand(num as u32, sqrt_of(num) as u32, 0)
    } else {
        let j = first_div_from(table, num, 0);
        if j < table.len() {
            let s = table[j] as int;
            let co = num / s;
            proof {
                lemma_step_bounds(table, num);
            }
            TreeNode {
                value: num as u32,
                children: Children::Pair(
                    Box::new(factor_tree(table, s)),
                    Box::new(factor_tree(table, co)),
                ),
            }
        } else {
            expand(num as u32, 1, num as u32)
        }
    }
}

/// Round trip: the coefficient squared times the remainder recovers the
/// input, a remainder of 0 denoting "no radical part" and counting as 1.
#[verifier::rlimit(60)]
pub proof fn lemma_simp_round_trip(table: Seq<u32>, num: int)
    requires
        table_wf(table),
        1 <= num,
    ensures
        ({
            let (c, f) = simp(table, num);
            &&& 1 <= c
            &&& 0 <= f <= num
            &&& c * c <= num
            &&& c * c * (if f == 0 {
                1int
            } else {
                f
            }) == num
        }),
    decreases num,
{
    if is_square(num) {
        let c = sqrt_of(num);
        assert(0 <= c <= num && sq(c) == num);
        assert(simp(table, num) == (c, 0int));
        assert(1 <= c && c * c <= num) by (nonlinear_arith)
            requires
                c * c == num,
                num >= 1,
                c >= 0,
        ;
    } else {
        let j = first_div_from(table, num, 0);
        lemma_first_div_from(table, num, 0);
        if j < table.len() {
            lemma_step_bounds(table, num);
            let s = table[j] as int;
            let co = num / s;
            lemma_simp_round_trip(table, s);
            lemma_simp_round_trip(table, co);
            let lp = simp(table, s);
            let rp = simp(table, co);
            assert(lp == (sqrt_of(s), 0int));
            assert(lp.0 == j + 2);
            assert(lp.0 * lp.0 == s);
            assert(simp(table, num) == (lp.0 * rp.0, lp.1 + rp.1));
            let c = lp.0 * rp.0;
            let f = rp.1;
            let radical = if f == 0 {
                1int
            } else {
                f
            };
            assert(rp.0 * rp.0 * radical == co);
            assert(c * c * radical == num) by (nonlinear_arith)
                requires
                    c == lp.0 * rp.0,
                    lp.0 * lp.0 == s,
                    rp.0 * rp.0 * radical == co,
                    s * co == num,
            ;
            assert(1 <= c) by (nonlinear_arith)
                requires
                    c == lp.0 * rp.0,
                    lp.0 >= 1,
                    rp.0 >= 1,
            ;
            assert(c * c <= num) by (nonlinear_arith)
                requires
                    c * c * radical == num,
                    radical >= 1,
                    c >= 1,
            ;
            assert(f <= co <= num);
        } else {
            assert(simp(table, num) == (1int, num));
            let c = simp(table, num).0;
            let f = simp(table, num).1;
            assert(c * c * (if f == 0 {
                1int
            } else {
                f
            }) == num && c * c <= num) by (nonlinear_arith)
                requires
                    c == 1,
                    f == num,
                    num >= 1,
            ;
        }
    }
}

/// The remainder the algorithm returns is square-free relative to the
/// table: it is 0, or it is at least 2, is itself no perfect square, and no
/// table entry divides it.
pub proof fn lemma_simp_frac_square_free(table: Seq<u32>, num: int)
    requires
        table_wf(table),
        1 <= num,
    ensures
        ({
            let f = simp(table, num).1;
            ||| f == 0
            ||| (2 <= f && !is_square(f) && first_div_from(table, f, 0) == table.len())
        }),
    decreases num,
{
    if is_square(num) {
    } else {
        let j = first_div_from(table, num, 0);
        lemma_first_div_from(table, num, 0);
        if j < table.len() {
            lemma_step_bounds(table, num);
            let s = table[j] as int;
            let co = num / s;
            assert(simp(table, s) == (sqrt_of(s), 0int));
            lemma_simp_frac_square_free(table, co);
            assert(simp(table, num).1 == 0 + simp(table, co).1);
        } else {
            if num == 1 {
                lemma_sqrt_unique(1, 1);
                assert(false);
            }
        }
    }
}

/// Idempotence: re-simplifying a nonzero returned remainder against the
/// same table yields coefficient 1 and the remainder unchanged.
pub proof fn lemma_simp_idempotent(table: Seq<u32>, num: int)
    requires
        table_wf(table),
        1 <= num,
        simp(table, num).1 != 0,
    ensures
        simp(table, simp(table, num).1) == (1int, simp(table, num).1),
{
    lemma_simp_frac_square_free(table, num);
    let f = simp(table, num).1;
    assert(simp(table, f) == (1int, f));
}

/// The factor tree of `num` is rooted at `num` and holds at least three
/// nodes: every simplification expands the root at least once.
pub proof fn lemma_factor_tree_shape(table: Seq<u32>, num: int)
    requires
        table_wf(table),
        1 <= num,
    ensures
        factor_tree(table, num).value == num as u32,
        factor_tree(table, num).children is Pair,
        node_count(factor_tree(table, num)) >= 3,
    decreases num,
{
    if is_square(num) {
        assert(node_count(factor_tree(table, num)) == 3) by {
            reveal_with_fuel(node_count, 2);
        };
    } else {
        let j = first_div_from(table, num, 0);
        if j < table.len() {
            lemma_step_bounds(table, num);
            let s = table[j] as int;
            let co = num / s;
            lemma_factor_tree_shape(table, s);
            lemma_factor_tree_shape(table, co);
        } else {
            assert(node_count(factor_tree(table, num)) == 3) by {
                reveal_with_fuel(node_count, 2);
            };
        }
    }
}

/// The factor tree stays shallow: its height never exceeds `num + 1`, so
/// the renderer's depth bound is met for every tree the algorithm builds.
pub proof fn lemma_factor_tree_height(table: Seq<u32>, num: int)
    requires
        table_wf(table),
        1 <= num,
    ensures
        height(factor_tree(table, num)) <= num + 1,
    decreases num,
{
    if is_square(num) {
        assert(height(factor_tree(table, num)) == 2) by {
            reveal_with_fuel(height, 2);
        };
    } else {
        let j = first_div_from(table, num, 0);
        if j < table.len() {
            lemma_step_bounds(table, num);
            let s = table[j] as int;
            let co = num / s;
            lemma_factor_tree_height(table, s);
            lemma_factor_tree_height(table, co);
        } else {
            assert(height(factor_tree(table, num)) == 2) by {
                reveal_with_fuel(height, 2);
            };
        }
    }
}

/// Exact integer square root by ascending scan: the greatest `root` with
/// `root² <= num`.
fn isqrt(num: u32) -> (root: u32)
    ensures
        root <= 65535,
        sq(root as int) <= num as int,
        (num as int) < sq(root as int + 1),
{
    let mut i: u32 = 0;
    while (i as u64 + 1) * (i as u64 + 1) <= num as u64
        invariant
            i <= 65535,
            sq(i as int) <= num as int,
            (i as int + 1) * (i as int + 1) <= 0x1_0000_0000,
        decreases num as int - sq(i as int),
    {
        proof {
            assert(i as int + 1 <= 65535) by (nonlinear_arith)
                requires
                    (i as int + 1) * (i as int + 1) <= 0xffff_ffff,
                    i >= 0,
            ;
            assert((i as int + 2) * (i as int + 2) <= 0x1_0000_0000) by (nonlinear_arith)
                requires
                    i as int + 1 <= 65535,
                    i >= 0,
            ;
            assert(sq(i as int + 1) > sq(i as int)) by (nonlinear_arith)
                requires
                    i >= 0,
            ;
        }
        i = i + 1;
    }
    i
}

/// Classify one value against the square table: a perfect square, the first
/// table entry that divides it evenly together with the cofactor, or
/// square-free. Returns (extracted factor, complement, recurse?).
fn classify(squares: &Vec<u32>, num: u32) -> (r: (u32, u32, bool))
    requires
        table_wf(squares@),
        1 <= num,
    ensures
        is_square(num as int) ==> r == (sqrt_of(num as int) as u32, 0u32, false),
        !is_square(num as int) ==> ({
            let j = first_div_from(squares@, num as int, 0);
            if j < squares@.len() {
                &&& r.2 == true
                &&& r.0 == squares@[j]
                &&& r.1 as int == num as int / (squares@[j] as int)
            } else {
                r == (1u32, num, false)
            }
        }),
{
    let root = isqrt(num);
    if root * root == num {
        proof {
            lemma_sqrt_unique(num as int, root as int);
        }
        return (root, 0, false);
    }
    proof {
        assert forall|rr: int| 0 <= rr <= num as int implies #[trigger] sq(rr) != num as int by {
            if rr <= root as int {
                assert(rr * rr <= (root as int) * (root as int)) by (nonlinear_arith)
                    requires
                        0 <= rr,
                        rr <= root as int,
                ;
            } else {
                assert(rr * rr >= (root as int + 1) * (root as int + 1)) by (nonlinear_arith)
                    requires
                        rr >= root as int + 1,
                ;
            }
        };
        assert(!is_square(num as int));
    }
    let ghost table = squares@;
    let mut idx: usize = 0;
    while idx < squares.len()
        invariant
            table == squares@,
            table_wf(table),
            1 <= num,
            idx <= table.len(),
            !is_square(num as int),
            first_div_from(table, num as int, 0) == first_div_from(table, num as int, idx as int),
        decreases table.len() - idx,
    {
        let s = squares[idx];
        proof {
            assert(s as int == sq(idx as int + 2));
            assert(s >= 2) by (nonlinear_arith)
                requires
                    s as int == (idx as int + 2) * (idx as int + 2),
                    idx >= 0,
            ;
        }
        if num % s == 0 {
            return (s, num / s, true);
        }
        idx = idx + 1;
    }
    (1, num, false)
}

/// One recursive simplification step against the shared growing tree: the
/// leaf addressed by `path` (which holds `num`) is expanded, both parts are
/// simplified recursively in place, and the combined coefficient and
/// remainder are returned.
fn sqrt_rec(squares: &Vec<u32>, tree: TreeNode, num: u32, path: u64) -> (res: (TreeNode, u32, u32))
    requires
        table_wf(squares@),
        1 <= num,
        1 <= path,
        has_node(tree, bits_of(path as nat)),
        node_at(tree, bits_of(path as nat)) == leaf(num),
        path as int * num as int <= 2 * tree.value as int,
    ensures
        res.0 == replace_at(tree, bits_of(path as nat), factor_tree(squares@, num as int)),
        res.1 as int == simp(squares@, num as int).0,
        res.2 as int == simp(squares@, num as int).1,
    decreases num,
{
    let ghost table = squares@;
    let ghost pbits = bits_of(path as nat);
    let (a, b, rec) = classify(squares, num);
    let ghost s0 = expand(num, a, b);
    let t1 = attach(tree, path, a, b);
    proof {
        assert(t1 == replace_at(tree, pbits, s0));
        lemma_replace_at_props(tree, pbits, s0);
    }
    if rec {
        proof {
            lemma_step_bounds(table, num as int);
        }
        let ghost j = first_div_from(table, num as int, 0);
        let ghost s = table[j] as int;
        let ghost co = num as int / s;
        proof {
            assert(a as int == s && b as int == co);
            // the value at the root of the whole tree never changes
            if pbits.len() == 0 {
                assert(replace_at(tree, pbits, s0) == s0);
                assert(bits_of(path as nat).len() == 0 ==> path == 1);
                assert(t1.value == num);
            }
            lemma_bits_of_child(path as nat);
            lemma_node_at_extend(t1, pbits, false);
            assert(node_at(t1, pbits.push(false)) == leaf(a));
            // the new left path stays within the overflow budget
            assert(2 * path as int * a as int <= 2 * t1.value as int) by (nonlinear_arith)
                requires
                    2 * a as int <= num as int,
                    path as int * num as int <= 2 * tree.value as int,
                    path >= 1,
                    t1.value == tree.value || (path == 1 && t1.value == num),
                    num >= 1,
            ;
            assert(path as int <= 2 * tree.value as int) by (nonlinear_arith)
                requires
                    path as int * num as int <= 2 * tree.value as int,
                    num >= 1,
                    path >= 0,
            ;
        }
        let lp = path * 2;
        let (t2, aw, af) = sqrt_rec(squares, t1, a, lp);
        proof {
            assert(t2 == replace_at(t1, pbits.push(false), factor_tree(table, s)));
            lemma_replace_compose(tree, pbits, false, s0, factor_tree(table, s));
        }
        let ghost s1 = set_child(s0, false, factor_tree(table, s));
        proof {
            assert(t2 == replace_at(tree, pbits, s1));
            lemma_replace_at_props(tree, pbits, s1);
            lemma_node_at_extend(t2, pbits, true);
            assert(node_at(t2, pbits.push(true)) == leaf(b));
            if pbits.len() == 0 {
                assert(t2 == s1);
            }
            assert((2 * path as int + 1) * b as int <= 2 * t2.value as int) by (nonlinear_arith)
                requires
                    4 * b as int <= num as int,
                    path as int * num as int <= 2 * tree.value as int,
                    path >= 1,
                    t2.value == tree.value || (path == 1 && t2.value == num),
                    num >= 1,
            ;
        }
        let (t3, bw, bf) = sqrt_rec(squares, t2, b, lp + 1);
        proof {
            assert(t3 == replace_at(t2, pbits.push(true), factor_tree(table, co)));
            lemma_replace_compose(tree, pbits, true, s1, factor_tree(table, co));
            assert(t3 == replace_at(tree, pbits, set_child(s1, true, factor_tree(table, co))));
            assert(set_child(s1, true, factor_tree(table, co)) == factor_tree(table, num as int));
            // the combined coefficient fits: its square is at most num
            lemma_simp_round_trip(table, num as int);
            lemma_simp_round_trip(table, s);
            lemma_simp_round_trip(table, co);
            assert(simp(table, s) == (sqrt_of(s), 0int));
            assert(simp(table, num as int).0 == simp(table, s).0 * simp(table, co).0);
            assert(simp(table, num as int).1 == 0 + simp(table, co).1);
            let c = simp(table, num as int).0;
            assert(c <= 65535) by (nonlinear_arith)
                requires
                    c * c <= 0xffff_ffff,
                    c >= 1,
            ;
            assert(aw as int * bw as int == c);
        }
        let whole = aw * bw;
        let frac = af + bf;
        (t3, whole, frac)
    } else {
        proof {
            if is_square(num as int) {
                let c = sqrt_of(num as int);
                assert(0 <= c <= num as int && sq(c) == num as int);
                assert(simp(table, num as int) == (c, 0int));
                assert(factor_tree(table, num as int) == expand(num, a, b));
            } else {
                assert(simp(table, num as int) == (1int, num as int));
                assert(factor_tree(table, num as int) == expand(num, 1, num));
            }
        }
        (t1, a, b)
    }
}

/// The result of one simplification: the coefficient factored out of the
/// radical and the remainder left under it (0 when no radical part remains).
#[derive(Debug)]
pub struct SqrtResult {
    pub whole: u32,
    pub frac: u32,
}

impl SqrtResult {
    pub fn new(whole: u32, frac: u32) -> (r: SqrtResult)
        ensures
            r.whole == whole,
            r.frac == frac,
    {
        SqrtResult { whole, frac }
    }
}

/// The calculator: the square table, the input, and the factor tree grown
/// by the last simplification.
#[derive(Debug)]
pub struct Calc {
    pub squares: Vec<u32>,
    pub num: u32,
    pub tree: TreeNode,
}

impl Calc {
    pub open spec fn wf(&self) -> bool {
        &&& table_wf(self.squares@)
        &&& 1 <= self.num
    }

    /// A calculator for `num` with the default table depth.
    pub fn new(num: u32) -> (c: Calc)
        requires
            1 <= num,
        ensures
            c.wf(),
            c.num == num,
            c.tree == leaf(num),
            c.squares@.len() == SQUARE_GEN_DEPTH - 1,
    {
        Calc::with_depth(num, SQUARE_GEN_DEPTH)
    }

    /// A calculator for `num` whose square table is built up to `depth`²:
    /// square-free detection is bounded by the table, and a remainder none
    /// of whose square factors lies within it is treated as square-free.
    pub fn with_depth(num: u32, depth: u32) -> (c: Calc)
        requires
            1 <= num,
            2 <= depth <= 65535,
        ensures
            c.wf(),
            c.num == num,
            c.tree == leaf(num),
            c.squares@.len() == depth - 1,
    {
        let mut c = Calc { squares: Vec::new(), num, tree: TreeNode::new(num) };
        c.gen_squares(depth);
        c
    }

    /// Fill the square table with i² for i in 2..=depth, ascending.
    pub fn gen_squares(&mut self, depth: u32)
        requires
            old(self).squares@.len() == 0,
            2 <= depth <= 65535,
        ensures
            final(self).squares@.len() == depth - 1,
            table_wf(final(self).squares@),
            final(self).num == old(self).num,
            final(self).tree == old(self).tree,
    {
        let mut i: u32 = 2;
        while i <= depth
            invariant
                2 <= i <= depth + 1,
                depth <= 65535,
                self.squares@.len() == i - 2,
                forall|k: int|
                    0 <= k < self.squares@.len() ==> #[trigger] (self.squares@[k] as int) == sq(
                        k + 2,
                    ),
                self.num == old(self).num,
                self.tree == old(self).tree,
            decreases depth + 1 - i,
        {
            proof {
                assert(i as int * i as int <= 65535 * 65535) by (nonlinear_arith)
                    requires
                        i <= 65535,
                        i >= 0,
                ;
            }
            self.squares.push(i * i);
            i = i + 1;
        }
    }

    /// Classify one value: its exact square root if it is a perfect square,
    /// the first table entry dividing it evenly with the cofactor, or the
    /// value itself as square-free. The third component says whether the
    /// caller must recurse.
    pub fn find_sqrt(&self, num: u32) -> (r: (u32, u32, bool))
        requires
            self.wf(),
            1 <= num,
        ensures
            is_square(num as int) ==> r == (sqrt_of(num as int) as u32, 0u32, false),
            !is_square(num as int) ==> ({
                let j = first_div_from(self.squares@, num as int, 0);
                if j < self.squares@.len() {
                    &&& r.2 == true
                    &&& r.0 == self.squares@[j]
                    &&& r.1 as int == num as int / (self.squares@[j] as int)
                } else {
                    r == (1u32, num, false)
                }
            }),
    {
        classify(&self.squares, num)
    }

    /// Simplify √(self.num): grow the factor tree below the root and return
    /// the coefficient and the remainder of the simplest radical form. The
    /// round trip holds: whole² × frac == num (frac 0 counting as 1).
    pub fn sqrt(&mut self) -> (res: SqrtResult)
        requires
            old(self).wf(),
        ensures
            final(self).wf(),
            final(self).squares == old(self).squares,
            final(self).num == old(self).num,
            final(self).tree == factor_tree(old(self).squares@, old(self).num as int),
            res.whole as int == simp(old(self).squares@, old(self).num as int).0,
            res.frac as int == simp(old(self).squares@, old(self).num as int).1,
            res.whole as int * res.whole as int * (if res.frac == 0 {
                1int
            } else {
                res.frac as int
            }) == old(self).num as int,
    {
        let root = TreeNode::new(self.num);
        let num = self.num;
        proof {
            assert(bits_of(1nat) =~= Seq::<bool>::empty());
            assert(node_at(leaf(num), Seq::<bool>::empty()) == leaf(num));
            lemma_simp_round_trip(self.squares@, num as int);
        }
        let (t, w, f) = sqrt_rec(&self.squares, root, num, 1);
        proof {
            assert(replace_at(leaf(num), Seq::<bool>::empty(), factor_tree(self.squares@, num as int))
                == factor_tree(self.squares@, num as int));
        }
        self.tree = t;
        SqrtResult::new(w, f)
    }
}

/// The error taxonomy of the core: an input of 0 (or one the integer width
/// cannot carry) is rejected before any tree construction begins.
#[derive(Debug, PartialEq, Eq)]
pub enum CalcError {
    InvalidInput,
}

/// The square table built for a given depth, as a sequence.
pub open spec fn table_for(depth: int) -> Seq<u32> {
    Seq::new((depth - 1) as nat, |k: int| sq(k + 2) as u32)
}

/// The sole entry point: simplify √n against a table of squares up to
/// depth², returning the coefficient, the remainder, and the completed
/// factor tree. An input of 0 is rejected before any tree is built.
pub fn simplify_root(n: u32, depth: u32) -> (res: Result<(SqrtResult, TreeNode), CalcError>)
    requires
        2 <= depth <= 65535,
    ensures
        n == 0 <==> res is Err,
        res is Err ==> res == Err::<(SqrtResult, TreeNode), CalcError>(CalcError::InvalidInput),
        res matches Ok(p) ==> ({
            let table = table_for(depth as int);
            &&& p.0.whole as int == simp(table, n as int).0
            &&& p.0.frac as int == simp(table, n as int).1
            &&& p.1 == factor_tree(table, n as int)
            &&& p.0.whole as int * p.0.whole as int * (if p.0.frac == 0 {
                1int
            } else {
                p.0.frac as int
            }) == n as int
        }),
{
    if n == 0 {
        return Err(CalcError::InvalidInput);
    }
    let mut c = Calc::with_depth(n, depth);
    let r = c.sqrt();
    proof {
        assert forall|k: int| 0 <= k < c.squares@.len() implies c.squares@[k] == table_for(
            depth as int,
        )[k] by {
            assert(sq(k + 2) <= sq(65535)) by (nonlinear_arith)
                requires
                    0 <= k,
                    k + 2 <= 65535,
            ;
            assert(sq(k + 2) >= 0) by (nonlinear_arith)
                requires
                    0 <= k,
            ;
        };
        assert(c.squares@ =~= table_for(depth as int));
    }
    Ok((r, c.tree))
}

} // verus!
