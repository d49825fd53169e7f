use tabconv::types::Type;
use tabconv::{create_reader, create_writer, pipe};

fn convert(
    itype: Type,
    otype: Type,
    input: &str,
    iopt: Option<&str>,
    oopt: Option<&str>,
) -> String {
    let mut reader = create_reader(itype, input.as_bytes().to_vec(), iopt.map(|s| s.to_string()))
        .unwrap()
        .unwrap();
    let mut writer = create_writer(otype, Vec::new(), oopt.map(|s| s.to_string()))
        .unwrap()
        .unwrap();
    pipe(&mut reader, &mut writer).unwrap();
    String::from_utf8(writer.into_bytes()).unwrap()
}

#[test]
fn buffer_tests_json_to_json() {
    let js = "{\"a\":1,\"b\":2.0,\"c\":\"foo\",\"d\":false}\n{\"a\":4,\"b\":-5.5,\"c\":null,\"d\":true}\n";
    let expected = "{\"a\":1,\"b\":2.0,\"c\":\"foo\",\"d\":false}\n{\"a\":4,\"b\":-5.5,\"d\":true}\n";
    assert_eq!(expected, convert(Type::Json, Type::Json, js, None, None));
}

#[test]
fn buffer_tests_json_to_csv() {
    let js = "{\"a\":1,\"b\":2.0,\"c\":\"foo\",\"d\":false}\n{\"a\":4,\"b\":-5.5,\"d\":true}\n";
    let expected = "a,b,c,d\n1,2.0,foo,false\n4,-5.5,,true\n";
    assert_eq!(
        expected,
        convert(Type::Json, Type::Csv, js, None, Some(r#"{"has_headers":true}"#))
    );
}

#[test]
fn buffer_tests_csv_to_csv() {
    let csv = "a,b,c,d\n1,2.0,foo,false\n4,-5.5,,true\n";
    assert_eq!(csv, convert(Type::Csv, Type::Csv, csv, None, None));
}

#[test]
fn buffer_tests_csv_to_json() {
    let csv = "a,b,c,d\n1,2.0,foo,false\n4,-5.5,,true\n";
    let expected = "{\"a\":1,\"b\":2.0,\"c\":\"foo\",\"d\":false}\n{\"a\":4,\"b\":-5.5,\"c\":\"\",\"d\":true}\n";
    assert_eq!(
        expected,
        convert(Type::Csv, Type::Json, csv, Some(r#"{"has_header":true}"#), None)
    );
}
