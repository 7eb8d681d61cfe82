use sacred_geometry::ops::Operator;
use sacred_geometry::solver::{ConfigError, Expression, Solver};

/// Evaluate a rendered derivation. The renderer emits either a bare
/// decimal number or `(left) op (right)` where both operands are again
/// rendered derivations wrapped in parentheses.
fn eval_rendered(s: &str) -> u32 {
    let b = s.as_bytes();
    if b[0] != b'(' {
        return s.parse::<u32>().expect("leaf must be a decimal number");
    }
    let mut depth = 0usize;
    let mut close = 0usize;
    for (i, &c) in b.iter().enumerate() {
        if c == b'(' {
            depth += 1;
        } else if c == b')' {
            depth -= 1;
            if depth == 0 {
                close = i;
                break;
            }
        }
    }
    let left = eval_rendered(&s[1..close]);
    let op = b[close + 2];
    assert_eq!(b[close + 1], b' ');
    assert_eq!(b[close + 3], b' ');
    assert_eq!(b[close + 4], b'(');
    assert_eq!(b[b.len() - 1], b')');
    let right = eval_rendered(&s[close + 5..b.len() - 1]);
    match op {
        b'+' => left + right,
        b'-' => left - right,
        b'*' => left * right,
        b'/' => {
            assert_ne!(right, 0);
            assert_eq!(left % right, 0);
            left / right
        }
        _ => panic!("unknown operator in rendering"),
    }
}

/// Collect the leaf numbers of a rendered derivation.
fn leaves_of_rendered(s: &str, out: &mut Vec<u32>) {
    let b = s.as_bytes();
    if b[0] != b'(' {
        out.push(s.parse::<u32>().unwrap());
        return;
    }
    let mut depth = 0usize;
    let mut close = 0usize;
    for (i, &c) in b.iter().enumerate() {
        if c == b'(' {
            depth += 1;
        } else if c == b')' {
            depth -= 1;
            if depth == 0 {
                close = i;
                break;
            }
        }
    }
    leaves_of_rendered(&s[1..close], out);
    leaves_of_rendered(&s[close + 5..b.len() - 1], out);
}

fn solved(numbers: Vec<u8>, target: u8) -> Solver {
    let mut s = Solver::new(numbers, target).expect("valid configuration");
    s.solve();
    s
}

#[test]
fn single_number_hit() {
    let s = solved(vec![7], 7);
    assert!(s.has_solution());
    let rendered = s.render_solution().expect("solution exists");
    assert_eq!(rendered, "7");
}

#[test]
fn single_number_miss() {
    let s = solved(vec![7], 5);
    assert!(!s.has_solution());
    assert!(s.render_solution().is_none());
}

#[test]
fn addition_pair() {
    let s = solved(vec![2, 3], 5);
    assert!(s.has_solution());
    let rendered = s.render_solution().unwrap();
    assert_eq!(eval_rendered(&rendered), 5);
    let mut leaves = Vec::new();
    leaves_of_rendered(&rendered, &mut leaves);
    leaves.sort();
    assert_eq!(leaves, vec![2, 3]);
}

#[test]
fn subtraction_pair() {
    let s = solved(vec![2, 3], 1);
    assert!(s.has_solution());
    let rendered = s.render_solution().unwrap();
    assert_eq!(eval_rendered(&rendered), 1);
}

#[test]
fn multiplication_pair() {
    let s = solved(vec![2, 3], 6);
    assert!(s.has_solution());
    assert_eq!(eval_rendered(&s.render_solution().unwrap()), 6);
}

#[test]
fn division_by_zero_excluded() {
    // With [2, 0] nothing reaches 1: it would need 2 / 0, which is an
    // excluded branch, not an expression.
    let s = solved(vec![2, 0], 1);
    assert!(!s.has_solution());
    assert!(s.render_solution().is_none());
}

#[test]
fn division_pair() {
    let s = solved(vec![8, 2], 4);
    assert!(s.has_solution());
    assert_eq!(eval_rendered(&s.render_solution().unwrap()), 4);
}

#[test]
fn four_dice_example() {
    // numbers = [2, 3, 5, 5], target = 7: e.g. (5 / 5) + (2 * 3).
    let s = solved(vec![2, 3, 5, 5], 7);
    assert!(s.has_solution());
    let rendered = s.render_solution().unwrap();
    assert_eq!(eval_rendered(&rendered), 7);
    let mut leaves = Vec::new();
    leaves_of_rendered(&rendered, &mut leaves);
    leaves.sort();
    assert_eq!(leaves, vec![2, 3, 5, 5]);
}

#[test]
fn two_ones_cannot_reach_three() {
    // Max reachable from [1, 1] via {+, *} is 2, via {-, /} is 0 or 1.
    let s = solved(vec![1, 1], 3);
    assert!(!s.has_solution());
}

#[test]
fn solve_is_idempotent() {
    let mut s = Solver::new(vec![2, 3, 4], 99).unwrap();
    s.solve();
    let verdict = s.has_solution();
    let grown = s.records.len();
    s.solve();
    assert_eq!(s.has_solution(), verdict);
    assert_eq!(s.records.len(), grown);
    let mut t = Solver::new(vec![2, 3, 4], 9).unwrap();
    t.solve();
    let verdict = t.has_solution();
    let grown = t.records.len();
    t.solve();
    assert_eq!(t.has_solution(), verdict);
    assert_eq!(t.records.len(), grown);
}

#[test]
fn disjoint_masks_in_closure() {
    // Every accepted internal node combines expressions over disjoint
    // slot sets, whatever the input.
    for (numbers, target) in [
        (vec![2u8, 3, 5, 5], 7u8),
        (vec![1, 1, 4], 6),
        (vec![6, 6, 6, 6], 99),
        (vec![2, 0, 3], 5),
    ] {
        let s = solved(numbers, target);
        for rec in &s.records {
            if let Expression::Node(l, _op, r) = rec.expr {
                let lm = s.records[l].mask;
                let rm = s.records[r].mask;
                assert_eq!(lm & rm, 0);
                assert_eq!(rec.mask, lm | rm);
            }
        }
    }
}

#[test]
fn rejects_empty_input() {
    assert_eq!(Solver::new(vec![], 3).unwrap_err(), ConfigError::NoNumbers);
}

#[test]
fn rejects_oversized_input() {
    assert_eq!(
        Solver::new(vec![1; 25], 3).unwrap_err(),
        ConfigError::TooManyNumbers
    );
}

#[test]
fn accepts_twenty_four_slots() {
    assert!(Solver::new(vec![1; 24], 3).is_ok());
}

#[test]
fn key_encoding_round_trip() {
    let s = Solver::new(vec![1, 2, 3, 4], 9).unwrap();
    let key = s.encode_expr(200, 0b1010);
    assert_eq!(s.expr_to_value(key), 200);
    assert_eq!(s.expr_to_numbers(key), 0b1010);
    // High bits of the numbers argument are disregarded.
    let key2 = s.encode_expr(200, 0xffff_1010);
    assert_eq!(s.expr_to_numbers(key2), 0b0000);
}

#[test]
fn printer_renders_target_key() {
    let s = solved(vec![2, 3], 5);
    let rendered = s.printer(s.target_encoded);
    assert_eq!(eval_rendered(&rendered), 5);
}

#[test]
fn printer_falls_back_to_zero() {
    let s = solved(vec![2, 3], 99);
    assert_eq!(s.printer(s.target_encoded), "0");
}

#[test]
fn print_expr_leaf_and_node() {
    let s = solved(vec![2, 3], 5);
    assert_eq!(s.print_expr(Expression::Leaf(200)), "200");
    // Slots 0 and 1 are seeded first, in input order.
    let plain = s.print_expr(Expression::Node(0, Operator::Add, 1));
    assert_eq!(plain, "(2) + (3)");
    let reversed = s.print_expr(Expression::Node(0, Operator::SubReverse, 1));
    assert_eq!(reversed, "(3) - (2)");
    let reversed_div = s.print_expr(Expression::Node(0, Operator::DivReverse, 1));
    assert_eq!(reversed_div, "(3) / (2)");
}

#[test]
fn operator_table() {
    let ops = Operator::iterator();
    assert_eq!(ops.len(), 6);
    assert_eq!(ops[0].symbol(), " + ");
    assert_eq!(ops[1].symbol(), " - ");
    assert_eq!(ops[2].symbol(), "<->");
    assert_eq!(ops[3].symbol(), " * ");
    assert_eq!(ops[4].symbol(), " / ");
    assert_eq!(ops[5].symbol(), "</>");
}

#[test]
fn completeness_over_small_inputs() {
    // Brute-force oracle over two numbers: every value reachable by one
    // directed operation must be reported solvable, everything else not.
    let pairs = [(2u8, 3u8), (4, 6), (5, 5), (0, 7)];
    for (a, b) in pairs {
        let mut reachable = Vec::new();
        reachable.push(a as u32 + b as u32);
        reachable.push(a as u32 * b as u32);
        if a >= b {
            reachable.push((a - b) as u32);
        }
        if b >= a {
            reachable.push((b - a) as u32);
        }
        if b != 0 && a % b == 0 {
            reachable.push((a / b) as u32);
        }
        if a != 0 && b % a == 0 {
            reachable.push((b / a) as u32);
        }
        for target in 0u8..=30 {
            let s = solved(vec![a, b], target);
            assert_eq!(
                s.has_solution(),
                reachable.contains(&(target as u32)),
                "inputs [{a}, {b}] target {target}"
            );
        }
    }
}
