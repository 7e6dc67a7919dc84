use arrowtiles::udf::row_zooms;

#[test]
fn complete_input_uses_the_first_zoom() {
    let rows = row_zooms(&vec![true, true, true], &vec![true, true, true], &vec![Some(4), Some(7), Some(40)]);
    assert_eq!(rows, vec![Some(4), Some(4), Some(4)]);
}

#[test]
fn missing_values_give_null_rows() {
    let rows = row_zooms(&vec![true, false, true, true], &vec![true, true, true, false], &vec![Some(4), Some(7), None, Some(2)]);
    assert_eq!(rows, vec![Some(4), None, None, None]);
    let rows = row_zooms(&vec![true, true], &vec![true, true], &vec![None, Some(3)]);
    assert_eq!(rows, vec![None, Some(3)]);
}

#[test]
fn no_rows() {
    assert_eq!(row_zooms(&vec![], &vec![], &vec![]), vec![]);
}
