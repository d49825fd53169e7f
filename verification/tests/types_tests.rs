use tabconv::types::{infer_type, Type};

#[test]
fn infer_no_type_given() {
    assert!(infer_type(&None, &None).is_err());
    assert_eq!(
        infer_type(&Some("whatever".to_string()), &None)
            .unwrap_err()
            .message(),
        "Could not infer type from given filename".to_string()
    );
    assert_eq!(
        infer_type(&Some("file.exe".to_string()), &None)
            .unwrap_err()
            .message(),
        "Could not infer type from given filename".to_string()
    );

    assert_eq!(
        infer_type(&Some("file.csv".to_string()), &None).unwrap(),
        Type::Csv
    );
    assert_eq!(
        infer_type(&Some("file.json".to_string()), &None).unwrap(),
        Type::Json
    );
    assert_eq!(
        infer_type(&Some("file.xlsx".to_string()), &None).unwrap(),
        Type::Xlsx
    );
    assert_eq!(
        infer_type(&Some("file.parquet".to_string()), &None).unwrap(),
        Type::Parquet
    );
}

#[test]
fn infer_type_given() {
    assert_eq!(
        infer_type(&Some("whatever".to_string()), &Some(Type::Csv)).unwrap(),
        Type::Csv
    );
    assert_eq!(
        infer_type(&Some("whatever".to_string()), &Some(Type::Json)).unwrap(),
        Type::Json
    );
    assert_eq!(
        infer_type(&Some("file.exe".to_string()), &Some(Type::Json)).unwrap(),
        Type::Json
    );

    assert_eq!(
        infer_type(&Some("file.csv".to_string()), &Some(Type::Json)).unwrap(),
        Type::Json
    );
    assert_eq!(
        infer_type(&Some("file.json".to_string()), &Some(Type::Csv)).unwrap(),
        Type::Csv
    );
    assert_eq!(
        infer_type(&Some("file.xlsx".to_string()), &Some(Type::Parquet)).unwrap(),
        Type::Parquet
    );
    assert_eq!(
        infer_type(&Some("file.parquet".to_string()), &Some(Type::Xlsx)).unwrap(),
        Type::Xlsx
    );
}

#[test]
fn test_convert() {
    assert_eq!(Type::Csv, Type::try_from("csv").unwrap());
    assert_eq!(Type::Csv, Type::try_from("cSv").unwrap());

    assert_eq!(Type::Json, Type::try_from("Json").unwrap());
    assert_eq!(Type::Json, Type::try_from("jSon").unwrap());

    assert_eq!(Type::Xlsx, Type::try_from("Xlsx").unwrap());
    assert_eq!(Type::Xlsx, Type::try_from("xLsx").unwrap());

    assert_eq!(Type::Parquet, Type::try_from("Parquet").unwrap());
    assert_eq!(Type::Parquet, Type::try_from("pArquet").unwrap());
}
