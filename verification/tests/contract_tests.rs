use textio::PieceTree;

fn check_shape_bounds(tree: &PieceTree) {
    let n = tree.node_count();
    let bh = tree.black_height();
    let h = tree.tree_height();
    assert!(bh <= h, "black height {} above height {}", bh, h);
    assert!(h <= 2 * bh, "height {} above twice the black height {}", h, bh);
    assert!((1usize << bh) <= n + 1, "black height {} too large for {} pieces", bh, n);
}

#[test]
fn test_delete_undoes_insert_in_middle() {
    let mut tree = PieceTree::new("Hello World");
    tree.insert(5, ", dear");
    assert_eq!(tree.get_text(), "Hello, dear World");
    tree.delete(5, ", dear".len());
    assert_eq!(tree.get_text(), "Hello World");
}

#[test]
fn test_delete_undoes_insert_past_end() {
    let mut tree = PieceTree::new("abc");
    tree.insert(50, "XYZ");
    assert_eq!(tree.get_text(), "abcXYZ");
    tree.delete(3, 3);
    assert_eq!(tree.get_text(), "abc");
}

#[test]
fn test_empty_edits_change_nothing() {
    let mut tree = PieceTree::new("abcdef");
    tree.insert(2, "");
    tree.delete(3, 0);
    tree.delete(6, 4);
    tree.delete(100, 1);
    assert_eq!(tree.get_text(), "abcdef");
    assert_eq!(tree.node_count(), 1);
}

#[test]
fn test_delete_clipped_at_end() {
    let mut tree = PieceTree::new("abcdef");
    tree.insert(3, "123");
    tree.delete(4, 1000);
    assert_eq!(tree.get_text(), "abc1");
    assert_eq!(tree.root_subtree_length(), 4);
    assert_eq!(tree.sum_node_lengths(), 4);
}

#[test]
fn test_delete_trims_prefix_of_piece() {
    let mut tree = PieceTree::new("abcdef");
    tree.delete(0, 2);
    assert_eq!(tree.get_text(), "cdef");
    assert_eq!(tree.node_count(), 1);
}

#[test]
fn test_delete_trims_suffix_of_piece() {
    let mut tree = PieceTree::new("abcdef");
    tree.delete(4, 2);
    assert_eq!(tree.get_text(), "abcd");
    assert_eq!(tree.node_count(), 1);
}

#[test]
fn test_delete_inside_piece_splits_it() {
    let mut tree = PieceTree::new("abcdef");
    tree.delete(2, 2);
    assert_eq!(tree.get_text(), "abef");
    assert_eq!(tree.node_count(), 2);
    assert!(tree.validate_invariants().is_ok());
}

#[test]
fn test_delete_whole_middle_piece() {
    let mut tree = PieceTree::new("abcdef");
    tree.insert(3, "XYZ");
    assert_eq!(tree.node_count(), 3);
    tree.delete(3, 3);
    assert_eq!(tree.get_text(), "abcdef");
    assert_eq!(tree.node_count(), 2);
}

#[test]
fn test_delete_across_several_pieces() {
    let mut tree = PieceTree::new("0123456789");
    tree.insert(2, "aa");
    tree.insert(6, "bb");
    tree.insert(10, "cc");
    assert_eq!(tree.get_text(), "01aa23bb45cc6789");
    tree.delete(3, 10);
    assert_eq!(tree.get_text(), "01a789");
    tree.assert_invariants();
}

#[test]
fn test_empty_document_metadata() {
    let mut tree = PieceTree::new("some text");
    tree.delete(0, 9);
    assert_eq!(tree.get_text(), "");
    assert_eq!(tree.node_count(), 0);
    assert_eq!(tree.root_node_index(), 0);
    assert_eq!(tree.black_height(), 0);
    assert_eq!(tree.tree_height(), 0);
    assert_eq!(tree.root_subtree_length(), 0);
    assert_eq!(tree.sum_node_lengths(), 0);
    assert!(tree.get_all_nodes_info().is_empty());
}

#[test]
fn test_pieces_never_outnumber_bytes() {
    let mut tree = PieceTree::new("");
    for i in 0..40 {
        tree.insert(i, "x");
        assert!(tree.node_count() <= tree.get_text().len());
    }
    assert_eq!(tree.get_text().len(), 40);
}

#[test]
fn test_height_bounds_after_inserts_and_deletes() {
    let mut tree = PieceTree::new("");
    for i in 0..200 {
        let len = tree.get_text().len();
        let pos = if len == 0 { 0 } else { (i * 7919) % (len + 1) };
        tree.insert(pos, "ab");
        check_shape_bounds(&tree);
    }
    for i in 0..120 {
        let len = tree.get_text().len();
        if len < 3 {
            break;
        }
        let pos = (i * 104729) % (len - 2);
        tree.delete(pos, 3);
        check_shape_bounds(&tree);
        tree.assert_invariants();
    }
}

#[test]
fn test_node_info_walk_order() {
    let mut tree = PieceTree::new("b");
    tree.insert(0, "a");
    tree.insert(2, "c");
    assert_eq!(tree.get_text(), "abc");
    let infos = tree.get_all_nodes_info();
    let order: Vec<usize> = infos.iter().map(|n| n.index).collect();
    assert_eq!(order, vec![1, 3, 2]);
    assert!(!infos[0].is_red);
    assert!(infos[1].is_red);
    assert!(infos[2].is_red);
    assert_eq!(infos[0].left, 2);
    assert_eq!(infos[0].right, 3);
    assert_eq!(infos[0].subtree_length, 3);
    assert_eq!(infos[0].left_subtree_length, 1);
    assert_eq!(infos[1].parent, 1);
    assert_eq!(infos[2].parent, 1);
}

#[test]
fn test_multibyte_edits_on_char_boundaries() {
    let mut tree = PieceTree::new("añb€c");
    // bytes: a(1) ñ(2) b(1) €(3) c(1)
    tree.delete(1, 2);
    assert_eq!(tree.get_text(), "ab€c");
    tree.insert(2, "ö");
    assert_eq!(tree.get_text(), "abö€c");
    tree.delete(4, 3);
    assert_eq!(tree.get_text(), "aböc");
    assert_eq!(tree.root_subtree_length(), "aböc".len());
}

#[test]
fn test_debug_dump_lists_every_node() {
    let mut tree = PieceTree::new("hello");
    tree.insert(5, " world");
    let dump = tree.debug_dump();
    assert!(dump.starts_with("Tree [root=1, black_height=1, nodes_len=3, doc_len=11]:\n"));
    assert!(dump.contains("ROOT [BLACK] Node#1: color=BLACK, buf=Orig[0..5], len=5, sub_len=11, left_sub_len=0, parent=0"));
    assert!(dump.contains("R-- [RED] Node#2: color=RED, buf=Add[0..6], len=6, sub_len=6, left_sub_len=0, parent=1"));
}

fn collect_pieces(
    idx: usize,
    base: usize,
    map: &std::collections::HashMap<usize, textio::NodeInfo>,
    out: &mut Vec<(usize, usize)>,
) {
    if idx == 0 {
        return;
    }
    let info = map[&idx].clone();
    collect_pieces(info.left, base, map, out);
    out.push((base + info.left_subtree_length, info.length));
    collect_pieces(info.right, base + info.left_subtree_length + info.length, map, out);
}

fn piece_lengths_in_order(tree: &PieceTree) -> Vec<usize> {
    let text = tree.get_text();
    let mut map = std::collections::HashMap::new();
    for info in tree.get_all_nodes_info() {
        map.insert(info.index, info);
    }
    let mut pieces: Vec<(usize, usize)> = Vec::new();
    collect_pieces(tree.root_node_index(), 0, &map, &mut pieces);
    assert_eq!(pieces.len(), tree.node_count());
    assert_eq!(pieces.iter().map(|p| p.1).sum::<usize>(), text.len());
    pieces.into_iter().map(|p| p.1).collect()
}

#[test]
fn test_insert_inside_a_piece_splits_it() {
    let mut tree = PieceTree::new("0123456789");
    tree.insert(4, "ABC");
    assert_eq!(tree.node_count(), 3);
    assert_eq!(piece_lengths_in_order(&tree), vec![4, 3, 6]);
    tree.insert(0, "X");
    assert_eq!(tree.node_count(), 4);
    tree.insert(5, "Y");
    assert_eq!(tree.node_count(), 5);
    tree.insert(1000, "Z");
    assert_eq!(tree.node_count(), 6);
    assert_eq!(tree.get_text(), "X0123YABC456789Z");
    assert_eq!(piece_lengths_in_order(&tree), vec![1, 4, 1, 3, 6, 1]);
    check_shape_bounds(&tree);
}

#[test]
fn test_delete_keeps_what_lies_outside_the_range() {
    let mut tree = PieceTree::new("0123456789");
    tree.delete(2, 3);
    assert_eq!(tree.get_text(), "0156789");
    assert_eq!(piece_lengths_in_order(&tree), vec![2, 5]);
    let mut tree = PieceTree::new("aaa");
    tree.insert(3, "bbb");
    tree.insert(6, "ccc");
    assert_eq!(piece_lengths_in_order(&tree), vec![3, 3, 3]);
    tree.delete(2, 5);
    assert_eq!(tree.get_text(), "aacc");
    assert_eq!(piece_lengths_in_order(&tree), vec![2, 2]);
    tree.delete(0, 2);
    assert_eq!(piece_lengths_in_order(&tree), vec![2]);
    tree.delete(0, 10);
    assert_eq!(tree.node_count(), 0);
    assert_eq!(tree.black_height(), 0);
    assert_eq!(tree.root_node_index(), 0);
}

#[test]
fn test_noop_edits_keep_the_tree() {
    let mut tree = PieceTree::new("abc");
    tree.insert(1, "XY");
    let before = (tree.node_count(), tree.black_height(), tree.root_node_index(), tree.get_all_nodes_info());
    tree.insert(2, "");
    tree.delete(1, 0);
    tree.delete(5, 3);
    let after = (tree.node_count(), tree.black_height(), tree.root_node_index(), tree.get_all_nodes_info());
    assert_eq!(before, after);
}

#[test]
fn test_black_height_grows_by_at_most_two_per_insert() {
    let mut tree = PieceTree::new("seed");
    let mut bh = tree.black_height();
    assert_eq!(bh, 1);
    for i in 0..200usize {
        let len = tree.get_text().len();
        tree.insert((i * 7919) % (len + 1), "ab");
        let nb = tree.black_height();
        assert!(bh <= nb && nb <= bh + 2);
        bh = nb;
        check_shape_bounds(&tree);
    }
}

#[test]
fn test_edits_keep_untouched_buffer_ranges() {
    let mut tree = PieceTree::new("0123456789");
    tree.insert(4, "ABC");
    let dump = tree.debug_dump();
    assert!(dump.contains("buf=Orig[0..4], len=4"));
    assert!(dump.contains("buf=Add[0..3], len=3"));
    assert!(dump.contains("buf=Orig[4..10], len=6"));
    tree.delete(0, 1);
    let dump = tree.debug_dump();
    assert!(dump.contains("buf=Orig[1..4], len=3"));
    assert!(dump.contains("buf=Add[0..3], len=3"));
    assert!(dump.contains("buf=Orig[4..10], len=6"));
    tree.delete(3, 5);
    let dump = tree.debug_dump();
    assert_eq!(tree.get_text(), "1236789");
    assert!(dump.contains("buf=Orig[1..4], len=3"));
    assert!(dump.contains("buf=Orig[6..10], len=4"));
    assert!(!dump.contains("buf=Add"));
}

#[test]
fn test_dump_has_two_lines_per_piece_and_two_more() {
    let mut tree = PieceTree::new("");
    let dump = tree.debug_dump();
    assert_eq!(dump.lines().count(), 2);
    assert!(dump.ends_with('\n'));
    for i in 0..30usize {
        let len = tree.get_text().len();
        tree.insert((i * 31) % (len + 1), "xy");
        let dump = tree.debug_dump();
        assert_eq!(dump.matches('\n').count(), 2 * tree.node_count() + 2);
        assert_eq!(dump.lines().count(), 2 * tree.node_count() + 2);
        assert!(dump.ends_with('\n'));
    }
}

#[test]
fn test_listed_piece_lengths_add_up_to_the_document() {
    let mut tree = PieceTree::new("hello world");
    tree.insert(5, ", big");
    tree.delete(0, 2);
    tree.insert(100, "!");
    let total: usize = tree.get_all_nodes_info().iter().map(|n| n.length).sum();
    assert_eq!(total, tree.get_text().len());
    assert_eq!(total, tree.sum_node_lengths());
    assert_eq!(total, tree.root_subtree_length());
    assert_eq!(tree.get_all_nodes_info().len(), tree.node_count());
}
