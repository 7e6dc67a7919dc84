use arrowtiles::metadata::schema_metadata;

#[test]
fn metadata_holds_the_base64_schema() {
    assert_eq!(schema_metadata(&vec![1, 2, 3]), "{\"arrow_schema\":\"AQID\"}");
    assert_eq!(schema_metadata(&vec![0xFF, 0xFF]), "{\"arrow_schema\":\"//8=\"}");
    assert_eq!(schema_metadata(&vec![]), "{\"arrow_schema\":\"\"}");
}
