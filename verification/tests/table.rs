use diagv::glyphs::{cc, col_width, draw, ll, lr, rr, write_cell, Fill, Glyph, MAX_COL_WIDTH};
use diagv::normalize::normalized;
use diagv::table::{
    anywhere_is_dsucc_of_col, below_is_dsucc_of_col, col_is_dsucc_of_above, col_is_dsucc_of_row,
    largest, left_is_dsucc_of_row, lists, right_is_dsucc_of_above, right_is_dsucc_of_row,
    row_is_dpred_of_left,
};

// 0 -> 1, 0 -> 3, 2 -> 1, 3 -> 0, 3 -> 2
fn table() -> Vec<Vec<usize>> {
    vec![vec![1, 3], vec![], vec![1], vec![0, 2]]
}

#[test]
fn a_list_holds_its_entries() {
    assert!(lists(&vec![4, 2, 9], 9));
    assert!(!lists(&vec![4, 2, 9], 3));
    assert!(!lists(&vec![], 0));
}

#[test]
fn the_largest_entry_of_a_list() {
    assert_eq!(largest(&vec![4, 9, 2]), Some(9));
    assert_eq!(largest(&vec![0]), Some(0));
    assert_eq!(largest(&vec![]), None);
}

#[test]
fn col_is_direct_successor_of_row() {
    let t = table();
    assert!(col_is_dsucc_of_row(&t, 0, 1));
    assert!(col_is_dsucc_of_row(&t, 0, 3));
    assert!(!col_is_dsucc_of_row(&t, 0, 2));
    assert!(!col_is_dsucc_of_row(&t, 1, 0));
    assert!(col_is_dsucc_of_row(&t, 3, 0));
}

#[test]
fn row_has_a_successor_to_the_right() {
    let t = table();
    assert!(right_is_dsucc_of_row(&t, 0, 2));
    assert!(!right_is_dsucc_of_row(&t, 0, 3));
    assert!(!right_is_dsucc_of_row(&t, 1, 0));
    assert!(right_is_dsucc_of_row(&t, 3, 1));
    assert!(!right_is_dsucc_of_row(&t, 3, 2));
}

#[test]
fn col_is_successor_of_a_row_above() {
    let t = table();
    assert!(!col_is_dsucc_of_above(&t, 0, 1));
    assert!(col_is_dsucc_of_above(&t, 1, 1));
    assert!(col_is_dsucc_of_above(&t, 3, 3));
    assert!(!col_is_dsucc_of_above(&t, 3, 0));
    assert!(!col_is_dsucc_of_above(&t, 3, 2));
    assert!(col_is_dsucc_of_above(&t, 4, 2));
}

#[test]
fn a_row_above_has_a_successor_to_the_right() {
    let t = table();
    assert!(!right_is_dsucc_of_above(&t, 0, 0));
    assert!(right_is_dsucc_of_above(&t, 1, 2));
    assert!(!right_is_dsucc_of_above(&t, 3, 3));
    assert!(right_is_dsucc_of_above(&t, 3, 0));
}

#[test]
fn row_has_a_successor_to_the_left() {
    let t = table();
    assert!(!row_is_dpred_of_left(&t, 0, 1));
    assert!(row_is_dpred_of_left(&t, 0, 2));
    assert!(row_is_dpred_of_left(&t, 3, 1));
    assert!(!row_is_dpred_of_left(&t, 3, 0));
    assert!(!row_is_dpred_of_left(&t, 1, 3));
    assert_eq!(
        left_is_dsucc_of_row(&t, 2, 2),
        row_is_dpred_of_left(&t, 2, 2)
    );
    assert!(left_is_dsucc_of_row(&t, 2, 2));
}

#[test]
fn col_is_successor_of_this_row_or_one_below() {
    let t = table();
    assert!(below_is_dsucc_of_col(&t, 0, 1));
    assert!(below_is_dsucc_of_col(&t, 2, 1));
    assert!(!below_is_dsucc_of_col(&t, 3, 1));
    assert!(!below_is_dsucc_of_col(&t, 1, 3));
    assert!(below_is_dsucc_of_col(&t, 3, 0));
    assert!(!below_is_dsucc_of_col(&t, 4, 0));
    assert!(!below_is_dsucc_of_col(&t, 9, 0));
}

#[test]
fn col_is_successor_of_some_row() {
    let t = table();
    for col in 0..4 {
        assert!(anywhere_is_dsucc_of_col(&t, 0, col));
    }
    assert!(!anywhere_is_dsucc_of_col(&t, 0, 4));
    assert!(!anywhere_is_dsucc_of_col(&vec![vec![1], vec![]], 1, 0));
}

#[test]
fn the_fragments_of_the_cells_of_a_line() {
    // the third line of the diagram of `table`: "|    +----+-n2 |"
    let t = table();
    assert_eq!(ll(&t, 2, 0), Glyph::Vertical);
    assert_eq!(lr(&t, 2, 0), Glyph::Padding);
    assert_eq!(cc(&t, 2, 0), Fill::Padding);
    assert_eq!(rr(&t, 2, 0), Glyph::Padding);
    assert_eq!(ll(&t, 2, 1), Glyph::Junction);
    assert_eq!(lr(&t, 2, 1), Glyph::Horizontal);
    assert_eq!(cc(&t, 2, 1), Fill::Horizontal);
    assert_eq!(rr(&t, 2, 1), Glyph::Horizontal);
    assert_eq!(ll(&t, 2, 2), Glyph::Junction);
    assert_eq!(lr(&t, 2, 2), Glyph::Horizontal);
    assert_eq!(cc(&t, 2, 2), Fill::Label);
    assert_eq!(rr(&t, 2, 2), Glyph::Padding);
    assert_eq!(ll(&t, 2, 3), Glyph::Vertical);
    assert_eq!(lr(&t, 2, 3), Glyph::Nothing);
    assert_eq!(cc(&t, 2, 3), Fill::Nothing);
    assert_eq!(rr(&t, 2, 3), Glyph::Nothing);
}

#[test]
fn the_text_of_each_glyph() {
    assert_eq!(Glyph::Nothing.as_str(), "");
    assert_eq!(Glyph::Padding.as_str(), " ");
    assert_eq!(Glyph::Junction.as_str(), "+");
    assert_eq!(Glyph::Vertical.as_str(), "|");
    assert_eq!(Glyph::Horizontal.as_str(), "-");
}

#[test]
fn a_column_is_as_wide_as_its_label_in_bytes() {
    assert_eq!(MAX_COL_WIDTH, 10);
    assert_eq!(col_width(&String::from("")), 0);
    assert_eq!(col_width(&String::from("abc")), 3);
    assert_eq!(col_width(&String::from("né")), 3);
}

#[test]
fn a_cell_is_written_fragment_by_fragment() {
    let t = table();
    let names: Vec<String> = ["n0", "n1", "n2", "n3"].iter().map(|s| s.to_string()).collect();
    let mut out = String::from(">");
    write_cell(&mut out, &t, &names, 2, 1);
    assert_eq!(out, ">+----");
    write_cell(&mut out, &t, &names, 2, 2);
    assert_eq!(out, ">+----+-n2 ");
    write_cell(&mut out, &t, &names, 0, 0);
    assert_eq!(out, ">+----+-n2 +-n0-");
}

#[test]
fn a_table_is_drawn_line_by_line() {
    let names: Vec<String> = ["n0", "n1", "n2", "n3"].iter().map(|s| s.to_string()).collect();
    assert_eq!(
        draw(&table(), &names),
        "+-n0-+---------+\n|    +-n1      |\n|    +----+-n2 |\n+---------+----+-n3"
    );
    assert_eq!(draw(&vec![], &vec![]), "");
}

#[test]
fn normalizing_numbers_the_nodes_by_position_and_sorts_the_rows() {
    // node 0 -> 2, 1; node 2 -> 0; drawn as 2, 0, 1
    let tree = vec![vec![2, 1], vec![], vec![0]];
    let norm = normalized(&tree, &vec![2, 0, 1]);
    assert_eq!(norm, vec![vec![1], vec![0, 2], vec![]]);
}

#[test]
fn normalizing_keeps_repeats_and_fills_missing_rows() {
    let tree = vec![vec![3, 1, 3, 0]];
    let norm = normalized(&tree, &vec![3, 2, 1, 0]);
    assert_eq!(norm, vec![vec![], vec![], vec![], vec![0, 0, 2, 3]]);
}

#[test]
fn normalizing_in_the_order_of_the_numbers_only_sorts() {
    let tree = vec![vec![3, 1], vec![], vec![1], vec![2, 0]];
    let norm = normalized(&tree, &vec![0, 1, 2, 3]);
    assert_eq!(norm, table());
}
