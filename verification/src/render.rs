//! Level-order rendering of the factor tree: one output line per tree depth,
//! the values of that depth left to right in sibling order, each value in
//! decimal followed by a single space.

use vstd::prelude::*;
use vstd::string::StringExecFns;

use crate::tree::{Children, TreeNode};

verus! {

pub open spec fn digit_char(d: int) -> char {
    if d == 0 {
        '0'
    } else if d == 1 {
        '1'
    } else if d == 2 {
        '2'
    } else if d == 3 {
        '3'
    } else if d == 4 {
        '4'
    } else if d == 5 {
        '5'
    } else if d == 6 {
        '6'
    } else if d == 7 {
        '7'
    } else if d == 8 {
        '8'
    } else {
        '9'
    }
}

/// The decimal digits of `n`, most significant first.
pub open spec fn dec_chars(n: int) -> Seq<char>
    decreases n
        when 0 <= n
{
    if n < 10 {
        seq![digit_char(n)]
    } else {
        proof {
            vstd::arithmetic::div_mod::lemma_div_is_strictly_smaller(n, 10);
        }
        dec_chars(n / 10).push(digit_char(n % 10))
    }
}

/// The number of levels of the tree.
pub open spec fn height(t: TreeNode) -> nat
    decreases t,
{
    match t.children {
        Children::Leaf => 1,
        Children::Pair(l, r) => 1 + (if height(*l) >= height(*r) {
            height(*l)
        } else {
            height(*r)
        }),
    }
}

/// The values at depth `d` of the tree, left to right in sibling order
/// (depth 0 is the root).
pub open spec fn row_at(t: TreeNode, d: nat) -> Seq<u32>
    decreases t,
{
    if d == 0 {
        seq![t.value]
    } else {
        match t.children {
            Children::Leaf => Seq::empty(),
            Children::Pair(l, r) => row_at(*l, (d - 1) as nat) + row_at(*r, (d - 1) as nat),
        }
    }
}

/// The text of one row: each value in decimal followed by a space, the row
/// closed by a line break.
pub open spec fn row_chars(row: Seq<u32>) -> Seq<char>
    decreases row.len(),
{
    if row.len() == 0 {
        seq!['\n']
    } else {
        dec_chars(row[0] as int) + seq![' '] + row_chars(row.drop_first())
    }
}

/// The text of all rows from depth `d` downward.
pub open spec fn render_from(t: TreeNode, d: nat) -> Seq<char>
    decreases height(t) - d,
{
    if d >= height(t) {
        Seq::empty()
    } else {
        row_chars(row_at(t, d)) + render_from(t, d + 1)
    }
}

/// The level-order rendering of the whole tree: one line per depth.
pub open spec fn render_spec(t: TreeNode) -> Seq<char> {
    render_from(t, 0)
}

/// Every depth below the height holds at least one value.
proof fn lemma_row_at_nonempty(t: TreeNode, d: nat)
    requires
        d < height(t),
    ensures
        row_at(t, d).len() >= 1,
    decreases t,
{
    if d > 0 {
        match t.children {
            Children::Leaf => {
                assert(false);
            },
            Children::Pair(l, r) => {
                if (d - 1) < height(*l) {
                    lemma_row_at_nonempty(*l, (d - 1) as nat);
                } else {
                    lemma_row_at_nonempty(*r, (d - 1) as nat);
                }
            },
        }
    }
}

/// Beyond the height every row is empty.
proof fn lemma_row_at_beyond(t: TreeNode, d: nat)
    requires
        d >= height(t),
    ensures
        row_at(t, d).len() == 0,
    decreases t,
{
    if d > 0 {
        match t.children {
            Children::Leaf => {
            },
            Children::Pair(l, r) => {
                lemma_row_at_beyond(*l, (d - 1) as nat);
                lemma_row_at_beyond(*r, (d - 1) as nat);
            },
        }
    }
}

fn digit_str(d: u32) -> (s: &'static str)
    requires
        d < 10,
    ensures
        s@ == seq![digit_char(d as int)],
{
    proof {
        reveal_strlit("0");
        reveal_strlit("1");
        reveal_strlit("2");
        reveal_strlit("3");
        reveal_strlit("4");
        reveal_strlit("5");
        reveal_strlit("6");
        reveal_strlit("7");
        reveal_strlit("8");
        reveal_strlit("9");
        assert("0"@ =~= seq!['0']);
        assert("1"@ =~= seq!['1']);
        assert("2"@ =~= seq!['2']);
        assert("3"@ =~= seq!['3']);
        assert("4"@ =~= seq!['4']);
        assert("5"@ =~= seq!['5']);
        assert("6"@ =~= seq!['6']);
        assert("7"@ =~= seq!['7']);
        assert("8"@ =~= seq!['8']);
        assert("9"@ =~= seq!['9']);
    }
    if d == 0 {
        "0"
    } else if d == 1 {
        "1"
    } else if d == 2 {
        "2"
    } else if d == 3 {
        "3"
    } else if d == 4 {
        "4"
    } else if d == 5 {
        "5"
    } else if d == 6 {
        "6"
    } else if d == 7 {
        "7"
    } else if d == 8 {
        "8"
    } else {
        "9"
    }
}

/// Append the decimal form of `n` to `out`.
fn push_decimal(n: u32, out: &mut String)
    ensures
        final(out)@ == old(out)@ + dec_chars(n as int),
    decreases n,
{
    if n < 10 {
        out.append(digit_str(n));
    } else {
        push_decimal(n / 10, out);
        out.append(digit_str(n % 10));
        proof {
            assert(dec_chars(n as int) =~= dec_chars(n as int / 10) + seq![
                digit_char(n as int % 10),
            ]);
            assert(out@ =~= old(out)@ + dec_chars(n as int));
        }
    }
}

/// Append the values at depth `d` of the tree to `out`, left to right.
fn collect_row(t: &TreeNode, d: u64, out: &mut Vec<u32>)
    ensures
        final(out)@ == old(out)@ + row_at(*t, d as nat),
    decreases *t,
{
    if d == 0 {
        out.push(t.value);
        proof {
            assert(out@ =~= old(out)@ + row_at(*t, 0));
        }
    } else {
        match &t.children {
            Children::Leaf => {
                proof {
                    assert(out@ =~= old(out)@ + row_at(*t, d as nat));
                }
            },
            Children::Pair(l, r) => {
                collect_row(l, d - 1, out);
                collect_row(r, d - 1, out);
                proof {
                    assert(out@ =~= old(out)@ + row_at(*t, d as nat));
                }
            },
        }
    }
}

/// Append the text of one row to `out`.
fn emit_row(row: &Vec<u32>, out: &mut String)
    ensures
        final(out)@ == old(out)@ + row_chars(row@),
    decreases row@.len(),
{
    proof {
        reveal_strlit(" ");
        reveal_strlit("\n");
        assert(" "@ =~= seq![' ']);
        assert("\n"@ =~= seq!['\n']);
        assert(row@.skip(0) =~= row@);
    }
    let mut i: usize = 0;
    while i < row.len()
        invariant
            i <= row@.len(),
            out@ + row_chars(row@.skip(i as int)) == old(out)@ + row_chars(row@),
            " "@ == seq![' '],
            "\n"@ == seq!['\n'],
        decreases row@.len() - i,
    {
        let ghost pre = out@;
        push_decimal(row[i], out);
        out.append(" ");
        proof {
            let rest = row@.skip(i as int);
            assert(rest[0] == row@[i as int]);
            assert(rest.drop_first() =~= row@.skip(i as int + 1));
            assert(row_chars(rest) == dec_chars(row@[i as int] as int) + seq![' ']
                + row_chars(row@.skip(i as int + 1)));
            assert(out@ + row_chars(row@.skip(i as int + 1)) =~= pre + row_chars(rest));
        }
        i = i + 1;
    }
    out.append("\n");
    proof {
        assert(row@.skip(row@.len() as int) =~= Seq::<u32>::empty());
        assert(row_chars(Seq::<u32>::empty()) == seq!['\n']);
        assert(out@ =~= old(out)@ + row_chars(row@));
    }
}

/// Render the tree level by level: one line per depth, the values of that
/// depth in decimal, left to right, each followed by a single space. The
/// height bound only keeps the depth counter within the machine's integers.
pub fn render(t: &TreeNode) -> (s: String)
    requires
        height(*t) <= 0xffff_ffff,
    ensures
        s@ == render_spec(*t),
{
    let mut s = String::new();
    let mut d: u64 = 0;
    let mut row: Vec<u32> = Vec::new();
    collect_row(t, 0, &mut row);
    while row.len() > 0
        invariant
            height(*t) <= 0xffff_ffff,
            d <= height(*t),
            row@ == row_at(*t, d as nat),
            s@ + render_from(*t, d as nat) == render_spec(*t),
        decreases height(*t) - d,
    {
        proof {
            if d as nat >= height(*t) {
                lemma_row_at_beyond(*t, d as nat);
                assert(false);
            }
        }
        emit_row(&row, &mut s);
        d = d + 1;
        row = Vec::new();
        collect_row(t, d, &mut row);
    }
    proof {
        if (d as nat) < height(*t) {
            lemma_row_at_nonempty(*t, d as nat);
            assert(false);
        }
    }
    s
}

} // verus!
