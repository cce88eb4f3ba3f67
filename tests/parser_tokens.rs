use svz::data_structures::{DataField, DataStructure};
use svz::parser::Parser;

#[test]
fn t_space() {
    assert_eq!(Parser::space("    "), Ok(("", "    ")));
    assert_eq!(Parser::space("  \t"), Ok(("", "  \t")));
    assert_eq!(Parser::space(" \tSomething"), Ok(("Something", " \t")));
    assert_eq!(
        Parser::space("   Something\t\t"),
        Ok(("Something\t\t", "   "))
    );
    assert_eq!(Parser::space("\t\t\t1234"), Ok(("1234", "\t\t\t")));
}

#[test]
fn t_struct_tok() {
    assert_eq!(Parser::struct_tok("struct"), Ok(("", "struct")));
    assert_eq!(Parser::struct_tok("struct name"), Ok((" name", "struct")));
    assert_eq!(
        Parser::struct_tok("struct name { int f0; char f1; }"),
        Ok((" name { int f0; char f1; }", "struct"))
    );
}

#[test]
fn t_typedef_tok() {
    assert_eq!(Parser::typedef_tok("typedef"), Ok(("", "typedef")));
    assert_eq!(
        Parser::typedef_tok("typedef struct"),
        Ok((" struct", "typedef"))
    );
}

#[test]
fn t_typedef_struct() {
    match Parser::typedef_tok("typedef struct name { type field0; type field1; }") {
        Ok((remaining, _)) => {
            let remaining = Parser::space(remaining).unwrap().0;
            assert_eq!(
                Parser::struct_tok(remaining),
                Ok((" name { type field0; type field1; }", "struct"))
            );
        }
        Err(_) => assert!(false),
    }
}

#[test]
fn t_asterisks() {
    assert_eq!(Parser::asterisks("*"), Ok(("", "*")));
    assert_eq!(Parser::asterisks("*****"), Ok(("", "*****")));
    assert_eq!(Parser::asterisks("** *"), Ok(("", "** *")));
}

#[test]
fn t_array() {
    assert_eq!(Parser::array("[]"), Ok(("", "[]")));
    assert_eq!(Parser::array("[12]"), Ok(("", "[]")));
    assert_eq!(Parser::array("[MACRO]"), Ok(("", "[]")));
    assert_eq!(Parser::array("[MACRO + MACRO + 12]"), Ok(("", "[]")));
    assert_eq!(Parser::array("[MACRO] rest"), Ok(("rest", "[]")));
}

#[test]
fn t_pointer() {
    assert_eq!(Parser::pointer("*"), Ok(("", "*")));
    assert_eq!(Parser::pointer("[]"), Ok(("", "[]")));
    assert_eq!(Parser::pointer("[] rest"), Ok(("rest", "[]")));
    assert_eq!(Parser::pointer("** rest"), Ok(("rest", "** ")));
}

#[test]
fn t_identifier() {
    assert_eq!(Parser::identifier("size_t id"), Ok((" id", "size_t")));
    assert_eq!(
        Parser::identifier("1255 something"),
        Ok((" something", "1255"))
    );
}

#[test]
fn t_parse_type() {
    assert_eq!(
        Parser::parse_type("size_t something"),
        Ok(("something", "size_t"))
    );
    assert_eq!(
        Parser::parse_type("size_t **something"),
        Ok(("something", "size_t"))
    );
    assert_eq!(
        Parser::parse_type("struct some_name something"),
        Ok(("something", "some_name"))
    );
}

#[test]
fn t_parse_field() {
    assert_eq!(
        Parser::parse_field("size_t something"),
        Ok(("", DataField::new("size_t", "something")))
    );
    assert_eq!(
        Parser::parse_field("char* buffer"),
        Ok(("", DataField::new("char*", "buffer")))
    );
    assert_eq!(
        Parser::parse_field("char **** buffer"),
        Ok(("", DataField::new("char", "buffer")))
    );
    assert_eq!(
        Parser::parse_field("char[] buffer"),
        Ok(("", DataField::new("char[]", "buffer")))
    );
    assert_eq!(
        Parser::parse_field("struct somestruct * ptr"),
        Ok(("", DataField::new("somestruct", "ptr")))
    );
}

#[test]
fn t_parse_basic_struct() {
    let input = "struct some_name { int f0; char[] buffer; }";

    let mut st = DataStructure::new(Some("some_name"));
    let f0 = DataField::new("int", "f0");
    let f1 = DataField::new("char[]", "buffer");

    st.add_field(f0);
    st.add_field(f1);

    assert_eq!(Parser::parse_struct(input), Ok(("", st)))
}

#[test]
fn t_parse_typedefd_struct() {
    let input = "typedef struct some_name { int f0; char[] buffer; } some_name";

    let mut st = DataStructure::new(Some("some_name"));
    let f0 = DataField::new("int", "f0");
    let f1 = DataField::new("char[]", "buffer");

    st.add_field(f0);
    st.add_field(f1);

    assert_eq!(Parser::parse_struct(input), Ok((" some_name", st)))
}

#[test]
fn space() {
    assert_eq!(Parser::space("    "), Ok(("", "    ")));
    assert_eq!(Parser::space("  \t"), Ok(("", "  \t")));
    assert_eq!(Parser::space(" \tSomething"), Ok(("Something", " \t")));
    assert_eq!(
        Parser::space("   Something\t\t"),
        Ok(("Something\t\t", "   "))
    );
    assert_eq!(Parser::space("\t\t\t1234"), Ok(("1234", "\t\t\t")));
}

#[test]
fn struct_tok() {
    assert_eq!(Parser::struct_tok("struct"), Ok(("", "struct")));
    assert_eq!(Parser::struct_tok("struct name"), Ok((" name", "struct")));
    assert_eq!(
        Parser::struct_tok("struct name { int f0; char f1; }"),
        Ok((" name { int f0; char f1; }", "struct"))
    );
}

#[test]
fn typedef_tok() {
    assert_eq!(Parser::typedef_tok("typedef"), Ok(("", "typedef")));
    assert_eq!(
        Parser::typedef_tok("typedef struct"),
        Ok((" struct", "typedef"))
    );
}

#[test]
fn typedef_struct() {
    match Parser::typedef_tok("typedef struct name { type field0; type field1; }") {
        Ok((remaining, _)) => {
            let remaining = Parser::space(remaining).unwrap().0;
            assert_eq!(
                Parser::struct_tok(remaining),
                Ok((" name { type field0; type field1; }", "struct"))
            );
        }
        Err(_) => assert!(false),
    }
}

#[test]
fn asterisks() {
    assert_eq!(Parser::asterisks("*"), Ok(("", "*")));
    assert_eq!(Parser::asterisks("*****"), Ok(("", "*****")));
    assert_eq!(Parser::asterisks("** *"), Ok(("", "** *")));
}

#[test]
fn array() {
    assert_eq!(Parser::array("[]"), Ok(("", "[]")));
    assert_eq!(Parser::array("[12]"), Ok(("", "[]")));
    assert_eq!(Parser::array("[MACRO]"), Ok(("", "[]")));
    assert_eq!(Parser::array("[MACRO + MACRO + 12]"), Ok(("", "[]")));
    assert_eq!(Parser::array("[MACRO] rest"), Ok(("rest", "[]")));
}

#[test]
fn pointer() {
    assert_eq!(Parser::pointer("*"), Ok(("", "*")));
    assert_eq!(Parser::pointer("[]"), Ok(("", "[]")));
    assert_eq!(Parser::pointer("[] rest"), Ok(("rest", "[]")));
    assert_eq!(Parser::pointer("** rest"), Ok(("rest", "** ")));
}

#[test]
fn identifier() {
    assert_eq!(Parser::identifier("size_t id"), Ok((" id", "size_t")));
    assert_eq!(Parser::identifier("1255 something"), Ok((" something", "1255")));
}

#[test]
fn parse_field() {
    assert_eq!(Parser::parse_field("size_t something"), Ok(("", DataField::new("size_t", "something"))));
    assert_eq!(Parser::parse_field("char* buffer"), Ok(("", DataField::new("char*", "buffer"))));
    assert_eq!(Parser::parse_field("char **** buffer"), Ok(("", DataField::new("char", "buffer"))));
    assert_eq!(Parser::parse_field("char[] buffer"), Ok(("", DataField::new("char[]", "buffer"))));
    assert_eq!(Parser::parse_field("struct somestruct * ptr"), Ok(("", DataField::new("somestruct", "ptr"))));
}

#[test]
fn parse_basic_struct() {
    let input = "struct some_name { int f0; char[] buffer; }";

    let mut st = DataStructure::new(Some("some_name"));
    let f0 = DataField::new("int", "f0");
    let f1 = DataField::new("char[]", "buffer");

    st.add_field(f0);
    st.add_field(f1);

    assert_eq!(Parser::parse_struct(input), Ok(("", st)))
}
