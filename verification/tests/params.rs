use xml_json_converter::params::Params;

fn args(list: &[&str]) -> Vec<String> {
    list.iter().map(|s| s.to_string()).collect()
}

fn ok(r: Result<Params, String>) -> Params {
    match r {
        Ok(p) => p,
        Err(e) => panic!("unexpected error: {}", e),
    }
}

fn err(r: Result<Params, String>) -> String {
    match r {
        Ok(_) => panic!("expected an error"),
        Err(e) => e,
    }
}

fn xml_ext() -> Option<String> {
    Some("xml".to_string())
}

#[test]
fn missing_path_is_an_error() {
    let msg = "Not enough arguments provided. Please provide the file path as an argument.";
    assert_eq!(err(Params::from_parts(&args(&["prog"]), true, None)), msg);
    assert_eq!(err(Params::from_parts(&args(&["prog", ""]), true, xml_ext())), msg);
}

#[test]
fn missing_file_is_an_error() {
    assert_eq!(
        err(Params::from_parts(&args(&["prog", "a.xml"]), false, xml_ext())),
        "File not found. Please provide a valid file path."
    );
}

#[test]
fn defaults_from_extension() {
    let p = ok(Params::from_parts(&args(&["prog", "a.xml"]), true, xml_ext()));
    assert_eq!(p.file_path, "a.xml");
    assert_eq!(p.extension, "xml");
    assert_eq!(p.indent, 0);
    assert_eq!(p.output_name, None);
}

#[test]
fn extension_case_is_ignored() {
    let p = ok(Params::from_parts(&args(&["prog", "a.JSON"]), true, Some("JSON".to_string())));
    assert_eq!(p.extension, "json");
}

#[test]
fn unsupported_extension_is_an_error() {
    assert_eq!(
        err(Params::from_parts(&args(&["prog", "a.txt"]), true, Some("txt".to_string()))),
        "Unsupported file type. Please provide XML or JSON file."
    );
}

#[test]
fn missing_extension_is_an_error() {
    assert_eq!(
        err(Params::from_parts(&args(&["prog", "a"]), true, None)),
        "File has no extension. Use --from xml|json to specify the format explicitly."
    );
}

#[test]
fn pretty_sets_four_spaces() {
    let p = ok(Params::from_parts(&args(&["prog", "a.xml", "--pretty"]), true, xml_ext()));
    assert_eq!(p.indent, 4);
    let p = ok(Params::from_parts(&args(&["prog", "a.xml", "-P"]), true, xml_ext()));
    assert_eq!(p.indent, 4);
}

#[test]
fn explicit_indent_wins_over_pretty() {
    let p = ok(Params::from_parts(&args(&["prog", "a.xml", "--indent", "2", "--pretty"]), true, xml_ext()));
    assert_eq!(p.indent, 2);
    let p = ok(Params::from_parts(&args(&["prog", "a.xml", "--pretty", "-i", "2"]), true, xml_ext()));
    assert_eq!(p.indent, 2);
    let p = ok(Params::from_parts(&args(&["prog", "a.xml", "--INDENT", "+7"]), true, xml_ext()));
    assert_eq!(p.indent, 7);
}

#[test]
fn indent_value_errors() {
    assert_eq!(
        err(Params::from_parts(&args(&["prog", "a.xml", "--indent"]), true, xml_ext())),
        "Missing value for --indent option."
    );
    assert_eq!(
        err(Params::from_parts(&args(&["prog", "a.xml", "--indent", "-3"]), true, xml_ext())),
        "Missing value for --indent option."
    );
    assert_eq!(
        err(Params::from_parts(&args(&["prog", "a.xml", "--indent", "abc"]), true, xml_ext())),
        "Invalid value for --indent: 'abc' (expected a positive integer)"
    );
}

#[test]
fn name_option() {
    let p = ok(Params::from_parts(&args(&["prog", "a.xml", "--name", "out"]), true, xml_ext()));
    assert_eq!(p.output_name, Some("out".to_string()));
    assert_eq!(
        err(Params::from_parts(&args(&["prog", "a.xml", "-n"]), true, xml_ext())),
        "Missing value for -n/--name option."
    );
}

#[test]
fn from_option_overrides_extension() {
    let p = ok(Params::from_parts(&args(&["prog", "a", "--from", "XML"]), true, None));
    assert_eq!(p.extension, "xml");
    let p = ok(Params::from_parts(&args(&["prog", "a.xml", "--from", "json"]), true, xml_ext()));
    assert_eq!(p.extension, "json");
    assert_eq!(
        err(Params::from_parts(&args(&["prog", "a.xml", "--from", "yaml"]), true, xml_ext())),
        "Invalid value for --from: 'yaml' (expected 'xml' or 'json')"
    );
    assert_eq!(
        err(Params::from_parts(&args(&["prog", "a.xml", "--from"]), true, xml_ext())),
        "Missing value for --from option."
    );
}

#[test]
fn unknown_option_is_an_error() {
    assert_eq!(
        err(Params::from_parts(&args(&["prog", "a.xml", "--bogus"]), true, xml_ext())),
        "Unknown option: '--bogus'. Use --help to see available options."
    );
}

#[test]
fn new_takes_extension_from_path() {
    let p = ok(Params::new(&args(&["prog", "dir/data.JSON"]), true));
    assert_eq!(p.extension, "json");
    let p = ok(Params::new(&args(&["prog", "a.tar.xml", "-p"]), true));
    assert_eq!(p.extension, "xml");
    assert_eq!(p.indent, 4);
    assert_eq!(
        err(Params::new(&args(&["prog", "noext"]), true)),
        "File has no extension. Use --from xml|json to specify the format explicitly."
    );
    assert_eq!(
        err(Params::new(&args(&["prog", ".xml"]), true)),
        "File has no extension. Use --from xml|json to specify the format explicitly."
    );
}

#[test]
fn new_reads_the_extension_of_the_file_name_only() {
    assert_eq!(
        err(Params::new(&args(&["prog", "dir.v1/file"]), true)),
        "File has no extension. Use --from xml|json to specify the format explicitly."
    );
    assert_eq!(
        err(Params::new(&args(&["prog", "data."]), true)),
        "Unsupported file type. Please provide XML or JSON file."
    );
    assert_eq!(
        err(Params::new(&args(&["prog", "data.xml.txt"]), true)),
        "Unsupported file type. Please provide XML or JSON file."
    );
    let p = ok(Params::new(&args(&["prog", "v1.2.Xml"]), true));
    assert_eq!(p.extension, "xml");
    let p = ok(Params::new(&args(&["prog", "noext", "--from", "JSON"]), true));
    assert_eq!(p.extension, "json");
}
