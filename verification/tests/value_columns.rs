use taskman::value_columns::{
    CellFormat, DISK_ACT, FIXED_COLS, NET, UnavailableTip, cell_format, column_ids, default_ids, in_display_order,
    saved_ids, unavailable_tip, GPU, VALUE_COLS, apply_saved, default_order, display_col, logical_col, move_column,
};

#[test]
fn a_saved_order_survives_a_column_the_file_predates() {
    let mut order = default_order();
    // A file written before the GPU column existed.
    apply_saved(
        &mut order,
        &["gpu", "cpu", "mem", "disk", "net"].map(str::to_string),
    );
    assert_eq!(order[0], GPU);
    assert_eq!(order.len(), VALUE_COLS);
    let mut seen = order.clone();
    seen.sort_unstable();
    assert_eq!(seen, default_order(), "every column must still be present");
}

#[test]
fn display_and_logical_are_inverse() {
    let mut order = default_order();
    assert!(move_column(&mut order, FIXED_COLS + 5, FIXED_COLS));
    for logical in 0..FIXED_COLS + VALUE_COLS {
        assert_eq!(logical_col(&order, display_col(&order, logical)), logical);
    }
}

#[test]
fn an_unmeasured_cell_never_prints_a_zero() {
    assert_eq!(cell_format(NET, false), CellFormat::Unknown);
    assert_eq!(cell_format(GPU, false), CellFormat::Unknown);
    assert_ne!(cell_format(GPU, true), CellFormat::Unknown);
}

#[test]
fn ids_name_the_fixed_then_the_value_columns() {
    let ids = column_ids(["name", "status"]);
    assert_eq!(ids, vec!["name", "status", "cpu", "mem", "disk", "net", "diskact", "gpu"]);
    assert_eq!(default_ids(), ids[FIXED_COLS..].iter().map(|s| s.to_string()).collect::<Vec<_>>());
}

#[test]
fn saved_ids_follow_the_display_order() {
    let mut order = default_order();
    assert!(move_column(&mut order, FIXED_COLS + GPU, FIXED_COLS));
    let ids = saved_ids(&order);
    assert_eq!(ids[0], "gpu");
    let mut back = default_order();
    apply_saved(&mut back, &ids);
    assert_eq!(back, order, "a saved order reads back as itself");
    let values = [10, 11, 12, 13, 14, 15];
    assert_eq!(in_display_order(&order, &values)[0], 15);
}

#[test]
fn only_unmeasurable_columns_explain_a_dash() {
    assert_eq!(unavailable_tip(NET), Some(UnavailableTip::Network));
    assert_eq!(unavailable_tip(DISK_ACT), Some(UnavailableTip::DiskActivity));
    assert_eq!(unavailable_tip(GPU), Some(UnavailableTip::Gpu));
    assert_eq!(unavailable_tip(0), None);
}
