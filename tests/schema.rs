use frame_view_tools::schema::{core_name, CORE_COLUMNS, MS_BETWEEN_PRESENTS};
use frame_view_tools::{schema, ColumnKind};

#[test]
fn schema_has_every_column_once() {
    let cols = schema();
    assert_eq!(cols.len(), 41 + CORE_COLUMNS + 4);
    for (i, a) in cols.iter().enumerate() {
        for b in &cols[i + 1..] {
            assert_ne!(a.name, b.name);
        }
    }
}

#[test]
fn schema_order_and_kinds() {
    let cols = schema();
    assert_eq!(cols[0].name, "Application");
    assert_eq!(cols[0].kind, ColumnKind::Text);
    assert_eq!(cols[5].name, "AllowsTearing");
    assert_eq!(cols[5].kind, ColumnKind::Flag);
    assert_eq!(cols[6].name, "ProcessID");
    assert_eq!(cols[6].kind, ColumnKind::Uint);
    assert_eq!(cols[11].name, "Dropped");
    assert_eq!(cols[11].kind, ColumnKind::Flag);
    assert_eq!(cols[MS_BETWEEN_PRESENTS].name, "MsBetweenPresents");
    assert_eq!(cols[MS_BETWEEN_PRESENTS].kind, ColumnKind::Float);
    assert_eq!(cols[40].name, "CPU TDP (W)");
    assert_eq!(cols[41].name, "CPUCoreUtil%[ 0]");
    assert_eq!(cols[41 + 63].name, "CPUCoreUtil%[63]");
    assert_eq!(cols[cols.len() - 1].name, "Battery Drain Rate(W)");
}

#[test]
fn core_column_names_are_two_wide() {
    assert_eq!(core_name(0), "CPUCoreUtil%[ 0]");
    assert_eq!(core_name(9), "CPUCoreUtil%[ 9]");
    assert_eq!(core_name(10), "CPUCoreUtil%[10]");
    assert_eq!(core_name(42), "CPUCoreUtil%[42]");
}
