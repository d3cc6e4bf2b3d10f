use pg2sqlx::schema_parser::SchemaParser;

fn scan(text: &str) -> SchemaParser {
    let mut parser = SchemaParser::with_verbose(false);
    parser.parse_schema_contents(text);
    parser
}

#[test]
fn single_line_enum() {
    let p = scan("CREATE TYPE t AS ENUM ('a','b','c');");
    assert_eq!(p.enum_types.len(), 1);
    assert_eq!(p.enum_types[0].name, "t");
    assert_eq!(p.enum_types[0].values, vec!["a", "b", "c"]);
    assert_eq!(p.vector_types.len(), 0);
}

#[test]
fn single_line_enum_with_comment() {
    let p = scan("CREATE TYPE t AS ENUM ('a','b'); -- ('z')");
    assert_eq!(p.enum_types.len(), 1);
    assert_eq!(p.enum_types[0].values, vec!["a", "b"]);
}

#[test]
fn multi_line_enum_labels_in_source_order() {
    let text = "CREATE TYPE mood AS ENUM (\n'happy', 'content',\n'neutral',\n'sad'\n);\n";
    let p = scan(text);
    assert_eq!(p.enum_types.len(), 1);
    assert_eq!(p.enum_types[0].name, "mood");
    assert_eq!(
        p.enum_types[0].values,
        vec!["happy", "content", "neutral", "sad"]
    );
}

#[test]
fn multi_line_enum_split_differently_same_labels() {
    let a = scan("CREATE TYPE m AS ENUM (\n'x','y','z'\n);");
    let b = scan("CREATE TYPE m AS ENUM (\n'x',\n'y',\n'z'\n);");
    assert_eq!(a.enum_types[0].values, b.enum_types[0].values);
}

#[test]
fn schema_qualified_name_is_stripped() {
    let p = scan("CREATE TYPE public.mood AS ENUM ('happy','sad');");
    assert_eq!(p.enum_types.len(), 1);
    assert_eq!(p.enum_types[0].name, "mood");
}

#[test]
fn zero_labels_yields_no_enum() {
    let p = scan("CREATE TYPE empty_t AS ENUM ();");
    assert_eq!(p.enum_types.len(), 0);
}

#[test]
fn empty_quote_label_excluded_others_kept() {
    let p = scan("CREATE TYPE t AS ENUM ('', 'a', 'b');");
    assert_eq!(p.enum_types.len(), 1);
    assert_eq!(p.enum_types[0].values, vec!["a", "b"]);
}

#[test]
fn many_vector_references_one_marker() {
    let text = "CREATE TABLE a (x VECTOR(3));\nCREATE TABLE b (y vector(384));\nz VECTOR(12)\n";
    let p = scan(text);
    assert_eq!(p.vector_types.len(), 1);
    assert_eq!(p.vector_types[0].name, "vector");
}

#[test]
fn keywords_match_case_insensitively() {
    let p = scan("create type lower_t as enum ('x','y');");
    assert_eq!(p.enum_types.len(), 1);
    assert_eq!(p.enum_types[0].name, "lower_t");
    assert_eq!(p.enum_types[0].values, vec!["x", "y"]);
}

#[test]
fn scenario_comment_and_vector() {
    let text =
        "CREATE TYPE status AS ENUM (\n  'active', -- comment\n  'inactive'\n);\nCREATE TABLE d (e VECTOR(384));\n";
    let p = scan(text);
    assert_eq!(p.enum_types.len(), 1);
    assert_eq!(p.enum_types[0].name, "status");
    assert_eq!(p.enum_types[0].values, vec!["active", "inactive"]);
    assert_eq!(p.vector_types.len(), 1);
}

#[test]
fn malformed_without_terminator_consumes_rest_quietly() {
    let p = scan("CREATE TYPE broken AS ENUM (");
    assert_eq!(p.enum_types.len(), 0);
    assert_eq!(p.vector_types.len(), 0);
}

#[test]
fn malformed_declaration_does_not_stop_scan_before_it() {
    let text = "CREATE TYPE ok AS ENUM ('one');\nCREATE TYPE broken AS ENUM (";
    let p = scan(text);
    assert_eq!(p.enum_types.len(), 1);
    assert_eq!(p.enum_types[0].name, "ok");
}

#[test]
fn other_statements_are_ignored() {
    let text = "CREATE TABLE t (id int);\nSELECT 1;\n-- CREATE TYPE? no\n";
    let p = scan(text);
    assert_eq!(p.enum_types.len(), 0);
    assert_eq!(p.vector_types.len(), 0);
}

#[test]
fn empty_input_yields_nothing() {
    let p = scan("");
    assert_eq!(p.enum_types.len(), 0);
    assert_eq!(p.vector_types.len(), 0);
}

#[test]
fn crlf_lines_are_handled() {
    let p = scan("CREATE TYPE m AS ENUM (\r\n'a',\r\n'b'\r\n);\r\n");
    assert_eq!(p.enum_types.len(), 1);
    assert_eq!(p.enum_types[0].values, vec!["a", "b"]);
}

#[test]
fn two_declarations_in_order() {
    let text = "CREATE TYPE one AS ENUM ('a');\nCREATE TYPE two AS ENUM (\n'b'\n);\n";
    let p = scan(text);
    assert_eq!(p.enum_types.len(), 2);
    assert_eq!(p.enum_types[0].name, "one");
    assert_eq!(p.enum_types[1].name, "two");
}
