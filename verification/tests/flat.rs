use dat::flat;

#[test]
fn flat_index_depth_offset() {
    assert_eq!(flat::index(0, 0), 0);
    assert_eq!(flat::index(0, 1), 2);
    assert_eq!(flat::index(0, 2), 4);
    assert_eq!(flat::index(1, 0), 1);
    assert_eq!(flat::index(1, 1), 5);
    assert_eq!(flat::index(2, 0), 3);
    assert_eq!(flat::index(3, 0), 7);
    assert_eq!(flat::depth(0), 0);
    assert_eq!(flat::depth(1), 1);
    assert_eq!(flat::depth(2), 0);
    assert_eq!(flat::depth(3), 2);
    assert_eq!(flat::depth(7), 3);
    assert_eq!(flat::depth(u64::MAX), 64);
    assert_eq!(flat::offset(0), 0);
    assert_eq!(flat::offset(2), 1);
    assert_eq!(flat::offset(5), 1);
    assert_eq!(flat::offset(11), 1);
    assert_eq!(flat::offset_with_depth(11, 2), 1);
    for n in 0..2000u64 {
        assert_eq!(flat::index(flat::depth(n), flat::offset(n)), n);
    }
}

#[test]
fn flat_parent_sibling_uncle() {
    assert_eq!(flat::parent(0), 1);
    assert_eq!(flat::parent(2), 1);
    assert_eq!(flat::parent(1), 3);
    assert_eq!(flat::parent(5), 3);
    assert_eq!(flat::parent(4), 5);
    assert_eq!(flat::parent_with_depth(4, 0), 5);
    assert_eq!(flat::sibling(0), 2);
    assert_eq!(flat::sibling(2), 0);
    assert_eq!(flat::sibling(1), 5);
    assert_eq!(flat::sibling(5), 1);
    assert_eq!(flat::sibling_with_depth(5, 1), 1);
    assert_eq!(flat::uncle(0), 5);
    assert_eq!(flat::uncle(2), 5);
    assert_eq!(flat::uncle(1), 11);
    assert_eq!(flat::uncle(5), 11);
    for n in 0..2000u64 {
        assert_eq!(flat::sibling(flat::sibling(n)), n);
        assert_eq!(flat::parent(flat::sibling(n)), flat::parent(n));
        assert_eq!(flat::depth(flat::parent(n)), flat::depth(n) + 1);
    }
}

#[test]
fn flat_children_and_spans() {
    assert_eq!(flat::left_child(0), None);
    assert_eq!(flat::right_child(0), None);
    assert_eq!(flat::children(0), None);
    assert_eq!(flat::left_child(1), Some(0));
    assert_eq!(flat::right_child(1), Some(2));
    assert_eq!(flat::children(1), Some([0, 2]));
    assert_eq!(flat::children(3), Some([1, 5]));
    assert_eq!(flat::children(9), Some([8, 10]));
    assert_eq!(flat::child_with_depth(3, 2, true), Some(1));
    assert_eq!(flat::child_with_depth(3, 2, false), Some(5));
    assert_eq!(flat::child_with_depth(4, 0, true), None);
    assert_eq!(flat::left_span(0), 0);
    assert_eq!(flat::right_span(0), 0);
    assert_eq!(flat::left_span(1), 0);
    assert_eq!(flat::right_span(1), 2);
    assert_eq!(flat::left_span(3), 0);
    assert_eq!(flat::right_span(3), 6);
    assert_eq!(flat::left_span(23), 16);
    assert_eq!(flat::right_span(23), 30);
    assert_eq!(flat::left_span(27), 24);
    assert_eq!(flat::right_span(27), 30);
    assert_eq!(flat::spans(23), [16, 30]);
    assert_eq!(flat::span_with_depth(23, 3, true), 16);
    assert_eq!(flat::span_with_depth(23, 3, false), 30);
    assert_eq!(flat::count(0), 1);
    assert_eq!(flat::count(1), 3);
    assert_eq!(flat::count(3), 7);
    assert_eq!(flat::count(5), 3);
    assert_eq!(flat::count(23), 15);
    assert!(flat::is_left(0));
    assert!(flat::is_right(2));
    assert!(flat::is_left(1));
    assert!(flat::is_right(5));
    assert!(!flat::is_left(5));
    assert!(!flat::is_right(1));
}

#[test]
fn flat_full_roots() {
    assert_eq!(flat::full_roots(0), Vec::<u64>::new());
    assert_eq!(flat::full_roots(2), vec![0]);
    assert_eq!(flat::full_roots(4), vec![1]);
    assert_eq!(flat::full_roots(6), vec![1, 4]);
    assert_eq!(flat::full_roots(8), vec![3]);
    assert_eq!(flat::full_roots(10), vec![3, 8]);
    assert_eq!(flat::full_roots(16), vec![7]);
    assert_eq!(flat::full_roots(18), vec![7, 16]);
    assert_eq!(flat::full_roots(20), vec![7, 17]);
    assert_eq!(flat::full_roots(22), vec![7, 17, 20]);
    assert_eq!(flat::full_roots(2048), vec![1023]);
}

#[test]
fn flat_full_roots_cover_the_leaves_before() {
    for blocks in 0..300u64 {
        let roots = flat::full_roots(2 * blocks);
        assert_eq!(roots.len() as u32, blocks.count_ones());
        let mut next = 0;
        for root in roots {
            assert_eq!(flat::left_span(root), next);
            next = flat::right_span(root) + 2;
        }
        assert_eq!(next, 2 * blocks);
    }
}
