use tabconv::error::ConvError;
use tabconv::types::Type;
use tabconv::writer::Writer;
use tabconv::{create_reader, create_writer, pipe, Cli};

fn convert(
    itype: Type,
    otype: Type,
    input: &str,
    iopt: Option<&str>,
    oopt: Option<&str>,
) -> String {
    let mut reader = create_reader(itype, input.as_bytes().to_vec(), iopt.map(|s| s.to_string()))
        .unwrap()
        .unwrap();
    let mut writer = create_writer(otype, Vec::new(), oopt.map(|s| s.to_string()))
        .unwrap()
        .unwrap();
    pipe(&mut reader, &mut writer).unwrap();
    String::from_utf8(writer.into_bytes()).unwrap()
}

// Boundary: empty input yields zero batches and empty output.
#[test]
fn empty_input_json() {
    assert_eq!("", convert(Type::Json, Type::Json, "", None, None));
    assert_eq!("", convert(Type::Json, Type::Csv, "", None, None));
}

// Boundary: a header-only stream re-encodes as the header record alone.
#[test]
fn header_only_csv() {
    assert_eq!(
        "a,b\n",
        convert(
            Type::Csv,
            Type::Csv,
            "a,b\n",
            Some(r#"{"has_header":true}"#),
            Some(r#"{"has_headers":true}"#)
        )
    );
    assert_eq!(
        "",
        convert(Type::Csv, Type::Json, "a,b\n", Some(r#"{"has_header":true}"#), None)
    );
}

// Override precedence: the explicit schema wins over what the sample
// suggests, so numeric-looking text stays text.
#[test]
fn explicit_schema_wins() {
    let csv = "1,2\n3,4\n";
    let expected = "{\"x\":\"1\",\"y\":\"2\"}\n{\"x\":\"3\",\"y\":\"4\"}\n";
    assert_eq!(
        expected,
        convert(
            Type::Csv,
            Type::Json,
            csv,
            Some(r#"{"schema":"x:Utf8,y:Utf8"}"#),
            None
        )
    );
}

// Override precedence on the structured side: an integer-looking value
// under an explicit floating-point column widens.
#[test]
fn explicit_schema_json_float() {
    let js = "{\"a\":1}\n";
    assert_eq!(
        "{\"a\":1.0}\n",
        convert(Type::Json, Type::Json, js, Some(r#"{"schema":"a:Float64?"}"#), None)
    );
}

// Quoted fields survive the trip: delimiters, quotes and newlines inside
// a quoted field are kept, and quoting is re-applied on output.
#[test]
fn csv_quoting_round_trip() {
    let csv = "\"a,b\",\"say \"\"hi\"\"\",\"line\nbreak\"\n";
    assert_eq!(csv, convert(Type::Csv, Type::Csv, csv, None, None));
}

// String escapes survive the trip through structured records.
#[test]
fn json_escape_round_trip() {
    let js = "{\"a\":\"tab\\tquote\\\"backslash\\\\\"}\n";
    assert_eq!(js, convert(Type::Json, Type::Json, js, None, None));
}

// Unicode escapes decode to their code points; plain text re-encodes
// unescaped.
#[test]
fn json_unicode_escape() {
    let js = "{\"a\":\"\\u0041\"}\n";
    assert_eq!("{\"a\":\"A\"}\n", convert(Type::Json, Type::Json, js, None, None));
}

// Floating-point text is normalized once and then stable.
#[test]
fn float_canonical_form() {
    let csv = "2.50,.5,007,0.0\n";
    let expected = "2.5,0.5,7,0.0\n";
    assert_eq!(expected, convert(Type::Csv, Type::Csv, csv, None, None));
    assert_eq!(
        expected,
        convert(Type::Csv, Type::Csv, expected, None, None)
    );
}

// A larger sample widens a column that the first record alone would make
// an integer column.
#[test]
fn sample_size_widens() {
    let csv = "1\n2.5\n";
    assert_eq!(
        "{\"column_1\":1.0}\n{\"column_1\":2.5}\n",
        convert(Type::Csv, Type::Json, csv, Some(r#"{"sample_size":2}"#), None)
    );
    // The default one-record sample infers an integer column and then
    // fails to coerce the second record.
    let r = create_reader(Type::Csv, csv.as_bytes().to_vec(), None);
    assert!(matches!(r, Err(ConvError::Decode(_))));
}

// Unsupported format request: an explicit absent value, not an error.
#[test]
fn unsupported_is_absent() {
    assert!(matches!(
        create_reader(Type::Xlsx, Vec::new(), None),
        Ok(None)
    ));
    assert!(matches!(
        create_reader(Type::Parquet, Vec::new(), None),
        Ok(None)
    ));
    assert!(matches!(create_writer(Type::Xlsx, Vec::new(), None), Ok(None)));
    assert!(matches!(
        create_writer(Type::Parquet, Vec::new(), None),
        Ok(None)
    ));
    let cli = Cli {
        input: None,
        input_type: Some(Type::Xlsx),
        input_options: None,
        output: None,
        output_type: Some(Type::Json),
        output_options: None,
    };
    assert!(matches!(cli.execute(Vec::new()), Ok(None)));
}

// The whole invocation, driven through the configuration struct.
#[test]
fn cli_execute_runs_conversion() {
    let cli = Cli {
        input: Some("data.csv".to_string()),
        input_type: None,
        input_options: None,
        output: Some("data.json".to_string()),
        output_type: None,
        output_options: None,
    };
    let out = cli.execute("5,x\n".as_bytes().to_vec()).unwrap().unwrap();
    assert_eq!(
        "{\"column_1\":5,\"column_2\":\"x\"}\n",
        String::from_utf8(out).unwrap()
    );
}

// Error variants: each failure kind on an input that provokes it.
#[test]
fn error_variants() {
    // Configuration: an unrecognized option key.
    assert!(matches!(
        create_reader(Type::Csv, Vec::new(), Some(r#"{"bogus":1}"#.to_string())),
        Err(ConvError::Config(_))
    ));
    // Configuration: malformed option text.
    assert!(matches!(
        create_reader(Type::Json, Vec::new(), Some("not options".to_string())),
        Err(ConvError::Config(_))
    ));
    // Decode: a malformed record line.
    assert!(matches!(
        create_reader(Type::Json, "{\"a\":}\n".as_bytes().to_vec(), None),
        Err(ConvError::Decode(_))
    ));
    // Decode: a record wider than the schema.
    assert!(matches!(
        create_reader(Type::Csv, "a,b\n1,2,3\n".as_bytes().to_vec(), None),
        Err(ConvError::Decode(_))
    ));
    // Decode: text that cannot be coerced to its declared type.
    assert!(matches!(
        create_reader(
            Type::Csv,
            "x\n".as_bytes().to_vec(),
            Some(r#"{"schema":"a:Int64"}"#.to_string())
        ),
        Err(ConvError::Decode(_))
    ));
    // Encode: a batch whose shape does not match its schema.
    let mut w = create_writer(Type::Json, Vec::new(), None).unwrap().unwrap();
    let bad = tabconv::batch::RecordBatch {
        schema: tabconv::batch::Schema { fields: Vec::new() },
        columns: vec![Vec::new()],
        row_count: 0,
    };
    assert!(matches!(
        Writer::write(&mut w, bad),
        Err(ConvError::Encode(_))
    ));
}

// Null handling end to end: explicit nulls and missing keys both decode
// as null and are omitted on re-encoding.
#[test]
fn null_round_trip() {
    let js = "{\"a\":1,\"b\":\"x\"}\n{\"a\":null}\n";
    let expected = "{\"a\":1,\"b\":\"x\"}\n{}\n";
    assert_eq!(expected, convert(Type::Json, Type::Json, js, None, None));
}

// Round trip through delimited text: a null in a string column returns
// as the empty string, everything else exactly.
#[test]
fn csv_round_trip_modulo_null() {
    let js = "{\"a\":1}\n";
    let schema = r#"{"schema":"a:Int64?,b:Utf8?"}"#;
    let csv = convert(Type::Json, Type::Csv, js, Some(schema), None);
    assert_eq!("1,\n", csv);
    let back = convert(Type::Csv, Type::Json, &csv, Some(schema), None);
    assert_eq!("{\"a\":1,\"b\":\"\"}\n", back);
}

// Resolution failures at the invocation level.
#[test]
fn cli_execute_errors() {
    let cli = Cli {
        input: None,
        input_type: None,
        input_options: None,
        output: None,
        output_type: Some(Type::Json),
        output_options: None,
    };
    assert!(matches!(cli.execute(Vec::new()), Err(ConvError::NoInput)));
    let cli = Cli {
        input: Some("file.exe".to_string()),
        input_type: None,
        input_options: None,
        output: None,
        output_type: Some(Type::Json),
        output_options: None,
    };
    assert!(matches!(cli.execute(Vec::new()), Err(ConvError::UnknownType)));
}

// An integer at the very edge of the representable range survives.
#[test]
fn int_extremes() {
    let csv = "-9223372036854775808,9223372036854775807\n";
    assert_eq!(csv, convert(Type::Csv, Type::Csv, csv, None, None));
    // One past the edge still looks like an integer column, but its value
    // does not fit: a decode error, not silent wrap-around.
    let over = "9223372036854775808\n";
    assert!(matches!(
        create_reader(Type::Csv, over.as_bytes().to_vec(), None),
        Err(ConvError::Decode(_))
    ));
}
