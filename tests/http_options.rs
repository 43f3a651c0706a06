use std::time::Duration;

use meta_select::{ColumnSchema, HttpOptions, Schema};

#[test]
fn test_http_options_default() {
    let default = HttpOptions::default();
    assert_eq!("127.0.0.1:4000".to_string(), default.addr);
    assert_eq!(Duration::from_secs(30), default.timeout)
}

#[test]
fn schema_keeps_its_columns_in_order() {
    let schema = Schema::new(vec![
        ColumnSchema::new("numbers".to_string(), "UInt32".to_string()),
        ColumnSchema::new("strings".to_string(), "String".to_string()),
    ]);
    assert_eq!(schema.num_cols(), 2);
    assert_eq!(schema.column_schemas()[0].name(), "numbers");
    assert_eq!(schema.column_schemas()[0].data_type(), "UInt32");
    assert_eq!(schema.column_schemas()[1].name(), "strings");
    assert_eq!(
        schema,
        Schema::new(vec![
            ColumnSchema::new("numbers".to_string(), "UInt32".to_string()),
            ColumnSchema::new("strings".to_string(), "String".to_string()),
        ])
    );
}

#[test]
fn http_options_clone_keeps_fields() {
    let a = HttpOptions::default();
    let b = a.clone();
    assert_eq!(b.addr, a.addr);
    assert_eq!(b.timeout, Duration::from_secs(30));
}
