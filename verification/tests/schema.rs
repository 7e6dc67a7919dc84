use arrowtiles::schema::{bucketer_fields, column_source, computed_field_name_of, export_fields, ColumnSource, OutputField};

fn names(v: &[&str]) -> Vec<String> {
    v.iter().map(|s| s.to_string()).collect()
}

#[test]
fn bucketer_drops_coordinates_and_appends_computed_fields() {
    let fields = bucketer_fields(&names(&["abs_m", "x_norm", "bp_rp", "y_norm"]), &"x_norm".to_string(), &"y_norm".to_string());
    assert_eq!(
        fields,
        vec![
            OutputField::Input(0),
            OutputField::Input(2),
            OutputField::LocalX,
            OutputField::LocalY,
            OutputField::Zoom,
            OutputField::TileId,
        ]
    );
}

#[test]
fn computed_field_names() {
    assert_eq!(computed_field_name_of(OutputField::LocalX), "x_u16");
    assert_eq!(computed_field_name_of(OutputField::LocalY), "y_u16");
    assert_eq!(computed_field_name_of(OutputField::Zoom), "z");
    assert_eq!(computed_field_name_of(OutputField::TileId), "final_tile_id");
}

#[test]
fn columns_by_name() {
    assert_eq!(column_source(&"z".to_string()), ColumnSource::Zoom);
    assert_eq!(column_source(&"final_tile_id".to_string()), ColumnSource::TileId);
    assert_eq!(column_source(&"x_u16".to_string()), ColumnSource::LocalX);
    assert_eq!(column_source(&"y_u16".to_string()), ColumnSource::LocalY);
    assert_eq!(column_source(&"abs_m".to_string()), ColumnSource::Input);
    assert_eq!(column_source(&"zz".to_string()), ColumnSource::Input);
}

#[test]
fn packer_exports_all_but_the_tile_id() {
    assert_eq!(export_fields(&names(&["abs_m", "final_tile_id", "z", "x_u16"])), vec![0, 2, 3]);
    assert_eq!(export_fields(&names(&["final_tile_id"])), Vec::<usize>::new());
    assert_eq!(export_fields(&names(&[])), Vec::<usize>::new());
}

#[test]
fn catalog_bucketer_keeps_magnitude_and_colour() {
    let fields = arrowtiles::schema::catalog_bucketer_fields(&names(&["source_id", "bp_rp", "x_norm", "abs_m", "y_norm"]));
    assert_eq!(
        fields,
        vec![
            OutputField::Input(1),
            OutputField::Input(3),
            OutputField::LocalX,
            OutputField::LocalY,
            OutputField::Zoom,
            OutputField::TileId,
        ]
    );
}
