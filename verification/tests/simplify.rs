use simplest_radical::calc::{simplify_root, Calc, CalcError, SqrtResult, SQUARE_GEN_DEPTH};
use simplest_radical::render::render;
use simplest_radical::tree::{attach, TreeNode};

#[test]
fn test_square_num() {
    let mut calc = Calc::new(16);
    let root = calc.sqrt();
    assert_eq!(root.whole, 4);
}

#[test]
fn test_prime() {
    let mut calc = Calc::new(17);
    let root = calc.sqrt();
    assert_eq!(root.frac, 17);
}

#[test]
fn test_not_square_num() {
    let mut calc = Calc::new(12);
    let root = calc.sqrt();
    assert_eq!(root.whole, 2);
    assert_eq!(root.frac, 3);
}

#[test]
fn test_more_steps() {
    let mut calc = Calc::new(48);
    let root = calc.sqrt();
    assert_eq!(root.whole, 4);
    assert_eq!(root.frac, 3);
}

#[test]
fn test_not_square_num_2() {
    let mut calc = Calc::new(24);
    let root = calc.sqrt();
    assert_eq!(root.whole, 2);
    assert_eq!(root.frac, 6);
}

#[test]
fn test_simplify_root_scenarios() {
    let cases: Vec<(u32, u32, u32)> = vec![
        (16, 4, 0),
        (17, 1, 17),
        (12, 2, 3),
        (48, 4, 3),
        (24, 2, 6),
    ];
    for (n, whole, frac) in cases {
        let (r, _) = simplify_root(n, SQUARE_GEN_DEPTH).unwrap();
        assert_eq!(r.whole, whole);
        assert_eq!(r.frac, frac);
    }
}

#[test]
fn test_zero_rejected() {
    assert!(matches!(
        simplify_root(0, SQUARE_GEN_DEPTH),
        Err(CalcError::InvalidInput)
    ));
}

#[test]
fn test_one_is_perfect_square() {
    let mut calc = Calc::new(1);
    let root = calc.sqrt();
    assert_eq!(root.whole, 1);
    assert_eq!(root.frac, 0);
}

#[test]
fn test_round_trip_many() {
    for n in 1u32..200 {
        let mut calc = Calc::new(n);
        let root = calc.sqrt();
        let radical = if root.frac == 0 { 1u64 } else { root.frac as u64 };
        assert_eq!(root.whole as u64 * root.whole as u64 * radical, n as u64);
    }
}

#[test]
fn test_idempotent_remainders() {
    for n in [12u32, 24, 48, 300, 17] {
        let mut calc = Calc::new(n);
        let root = calc.sqrt();
        if root.frac != 0 {
            let mut again = Calc::new(root.frac);
            let re = again.sqrt();
            assert_eq!(re.whole, 1);
            assert_eq!(re.frac, root.frac);
        }
    }
}

#[test]
fn test_depth_is_configurable() {
    // with only 4 in the table, the square factor 9 of 18 goes undetected
    let (shallow, _) = simplify_root(18, 2).unwrap();
    assert_eq!(shallow.whole, 1);
    assert_eq!(shallow.frac, 18);
    // a deeper table finds it
    let (deep, _) = simplify_root(18, 3).unwrap();
    assert_eq!(deep.whole, 3);
    assert_eq!(deep.frac, 2);
}

#[test]
fn test_largest_square() {
    let mut calc = Calc::new(4294836225);
    let root = calc.sqrt();
    assert_eq!(root.whole, 65535);
    assert_eq!(root.frac, 0);
}

#[test]
fn test_largest_input_square_free() {
    // 4294967295 = 3 * 5 * 17 * 257 * 65537 has no square factor at all
    let mut calc = Calc::new(4294967295);
    let root = calc.sqrt();
    assert_eq!(root.whole, 1);
    assert_eq!(root.frac, 4294967295);
}

#[test]
fn test_square_table_contents() {
    let calc = Calc::new(5);
    assert_eq!(calc.squares.len(), 29);
    assert_eq!(calc.squares[0], 4);
    assert_eq!(calc.squares[1], 9);
    assert_eq!(calc.squares[28], 900);
}

#[test]
fn test_gen_squares_depth_five() {
    let calc = Calc::with_depth(10, 5);
    assert_eq!(calc.squares, vec![4, 9, 16, 25]);
}

#[test]
fn test_find_sqrt_classification() {
    let calc = Calc::new(2);
    // perfect square: exact root, no recursion
    assert_eq!(calc.find_sqrt(16), (4, 0, false));
    // the first table entry in ascending order wins: 4 before 9
    assert_eq!(calc.find_sqrt(72), (4, 18, true));
    // square-free: passed through with coefficient 1
    assert_eq!(calc.find_sqrt(17), (1, 17, false));
}

#[test]
fn test_sqrt_result_new() {
    let r = SqrtResult::new(2, 3);
    assert_eq!(r.whole, 2);
    assert_eq!(r.frac, 3);
}

#[test]
fn test_render_tree_of_12() {
    let mut calc = Calc::new(12);
    let _ = calc.sqrt();
    assert_eq!(render(&calc.tree), "12 \n4 3 \n2 0 1 3 \n");
}

#[test]
fn test_render_single_node() {
    let t = TreeNode::new(7);
    assert_eq!(render(&t), "7 \n");
}

#[test]
fn test_render_multi_digit_values() {
    let (r, tree) = simplify_root(300, SQUARE_GEN_DEPTH).unwrap();
    assert_eq!(r.whole, 10);
    assert_eq!(r.frac, 3);
    assert_eq!(render(&tree), "300 \n4 75 \n2 0 25 3 \n5 0 1 3 \n");
}

#[test]
fn test_tree_grows_with_each_expansion() {
    let t = TreeNode::new(10);
    assert_eq!(render(&t).split_whitespace().count(), 1);
    let t = attach(t, 1, 2, 5);
    assert_eq!(render(&t).split_whitespace().count(), 3);
    let t = attach(t, 3, 1, 5);
    assert_eq!(render(&t).split_whitespace().count(), 5);
}

#[test]
fn test_attach_by_binary_path() {
    // the root is addressed by 1; appending a digit selects a child
    let t = TreeNode::new(5);
    let t = attach(t, 1, 2, 3);
    assert_eq!(render(&t), "5 \n2 3 \n");
    let t = attach(t, 2, 8, 9);
    assert_eq!(render(&t), "5 \n2 3 \n8 9 \n");
    let t = attach(t, 3, 6, 7);
    assert_eq!(render(&t), "5 \n2 3 \n8 9 6 7 \n");
}
