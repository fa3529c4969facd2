use lol_html::selectors_vm::nth_child::NthChild;

#[test]
fn nth_child_is_index() {
    let even = NthChild::new(2, 0);
    assert!(even.has_index(2));
    assert!(!even.has_index(1));

    let odd = NthChild::new(2, 1);
    assert!(odd.has_index(1));
    assert!(!odd.has_index(2));
    assert!(odd.has_index(3));

    let first = NthChild::new(0, 1);
    assert!(first.has_index(1));
    assert!(!first.has_index(2));
    assert!(!first.has_index(3));
}

#[test]
fn negative_steps_go_down() {
    let up_to_three = NthChild::new(-1, 3);
    assert!(up_to_three.has_index(1));
    assert!(up_to_three.has_index(3));
    assert!(!up_to_three.has_index(4));
}

#[test]
fn extreme_numbers_do_not_overflow() {
    assert!(!NthChild::new(2, i32::MAX).has_index(1));
    assert!(NthChild::new(1, i32::MIN).has_index(1));
    assert!(NthChild::new(1, i32::MIN + 2).has_index(1));
    assert!(!NthChild::new(-1, i32::MIN).has_index(1));
    assert!(NthChild::new(i32::MIN, i32::MAX).has_index(-1));
    assert!(NthChild::new(-1, i32::MAX).has_index(1));
}
