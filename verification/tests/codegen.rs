use oxc_react_compiler::reactive_scopes::codegen::{generate_import_statement, SourceMap};

#[test]
fn import_statement_names_the_runtime() {
    assert_eq!(
        generate_import_statement(),
        "import { c as _c } from \"react/compiler-runtime\";\n"
    );
}

#[test]
fn empty_source_map_has_empty_mappings() {
    let map = SourceMap::new();
    assert_eq!(map.to_vlq_mappings(), "");
    assert_eq!(
        map.to_json("out.js", "in.js"),
        "{\"version\":3,\"file\":\"out.js\",\"sources\":[\"in.js\"],\"mappings\":\"\"}"
    );
}

#[test]
fn mappings_are_relative_and_line_separated() {
    let mut map = SourceMap::default();
    map.add_mapping(0, 0, 0, 0);
    map.add_mapping(0, 5, 1, 2);
    map.add_mapping(2, 0, 3, 0);
    assert_eq!(map.mappings.len(), 3);
    assert_eq!(map.to_vlq_mappings(), "AAAA,KACE;;AAEF");
}

#[test]
fn vlq_uses_continuation_digits() {
    let mut map = SourceMap::new();
    map.add_mapping(0, 16, 0, 1000);
    assert_eq!(map.to_vlq_mappings(), "gBAAw+B");
}

#[test]
fn mapping_on_a_later_first_line_starts_with_semicolons() {
    let mut map = SourceMap::new();
    map.add_mapping(1, 3, 0, 0);
    assert_eq!(map.to_vlq_mappings(), ";GAAA");
    assert_eq!(
        map.to_json("a.js", "b.js"),
        "{\"version\":3,\"file\":\"a.js\",\"sources\":[\"b.js\"],\"mappings\":\";GAAA\"}"
    );
}

use oxc_react_compiler::hir::types::{
    BinaryOp, DependencyPathEntry, Identifier, IdentifierId, InstructionId, MutableRange,
    ReactiveScopeDependency, SourceLocation, Type, UnaryOp,
};
use oxc_react_compiler::reactive_scopes::codegen::{
    binary_op_str, byte_offset_to_line_col, dependency_display_name, extract_dotable_id,
    format_object_key, identifier_display_name, is_dotable_string_literal, is_jsx_text_str,
    is_temp_var_name, jsx_attr_value_str, jsx_child_str, jsx_tag_name, needs_object_key_quoting,
    recompute_position, replace_identifier_in_output, replace_str, strip_string_quotes,
    unary_op_str, apply_compilation, try_apply_compilation, CodegenContext,
};

fn ident(id: u32, name: Option<&str>) -> Identifier {
    Identifier {
        id: IdentifierId(id),
        ssa_version: 0,
        declaration_id: None,
        name: name.map(|n| n.to_string()),
        mutable_range: MutableRange { start: InstructionId(0), end: InstructionId(0) },
        last_use: InstructionId(0),
        scope: None,
        type_: Type::default(),
        loc: SourceLocation { start: 0, end: 0 },
    }
}

#[test]
fn object_keys_are_quoted_unless_identifiers() {
    assert!(!needs_object_key_quoting("foo"));
    assert!(!needs_object_key_quoting("$x_1"));
    assert!(needs_object_key_quoting(""));
    assert!(needs_object_key_quoting("a.b"));
    assert!(needs_object_key_quoting("1a"));
    assert_eq!(format_object_key("ok"), "ok");
    assert_eq!(format_object_key("a b"), "\"a b\"");
    assert_eq!(format_object_key("a\"b\\c"), "\"a\\\"b\\\\c\"");
}

#[test]
fn temporary_names() {
    assert!(is_temp_var_name("t12"));
    assert!(!is_temp_var_name("t"));
    assert!(!is_temp_var_name("tx"));
    assert!(!is_temp_var_name("x1"));
    assert_eq!(identifier_display_name(&ident(5, None)), "t5");
    assert_eq!(identifier_display_name(&ident(5, Some("props"))), "props");
}

#[test]
fn dependency_names_include_their_path() {
    let dep = ReactiveScopeDependency {
        identifier: ident(1, Some("props")),
        reactive: true,
        path: vec![
            DependencyPathEntry { property: "a".to_string(), optional: false },
            DependencyPathEntry { property: "b".to_string(), optional: true },
        ],
    };
    assert_eq!(dependency_display_name(&dep), "props.a?.b");
}

#[test]
fn jsx_text_helpers() {
    assert!(is_jsx_text_str("\"hi\""));
    assert!(!is_jsx_text_str("\""));
    assert_eq!(strip_string_quotes("\"div\""), "div");
    assert_eq!(strip_string_quotes("x"), "x");
    assert_eq!(jsx_attr_value_str("\"x\""), "=\"x\"");
    assert_eq!(jsx_attr_value_str("true"), "");
    assert_eq!(jsx_attr_value_str("foo"), "={foo}");
    assert_eq!(jsx_tag_name("\"div\""), "div");
    assert_eq!(jsx_tag_name("Comp"), "Comp");
    assert_eq!(jsx_child_str("\"a\\nb\""), "a\nb");
    assert_eq!(jsx_child_str("\"say \\\"hi\\\"\""), "say \"hi\"");
    assert_eq!(jsx_child_str("<div/>"), "<div/>");
    assert_eq!(jsx_child_str("x"), "{x}");
}

#[test]
fn dotable_string_literals() {
    assert!(is_dotable_string_literal("\"foo\""));
    assert!(!is_dotable_string_literal("\"\""));
    assert!(!is_dotable_string_literal("\"a-b\""));
    assert_eq!(extract_dotable_id("\"foo\""), "foo");
}

#[test]
fn operator_texts() {
    assert_eq!(binary_op_str(BinaryOp::UnsignedShiftRight), ">>>");
    assert_eq!(binary_op_str(BinaryOp::NullishCoalescing), "??");
    assert_eq!(unary_op_str(UnaryOp::TypeOf), "typeof ");
}

#[test]
fn replacement_of_names() {
    assert_eq!(replace_str("aXbXX", "X", "yy"), "ayybyyyy");
    assert_eq!(replace_identifier_in_output("t7 = t70 + t7x + t7;", "t7", "a"), "a = t70 + t7x + a;");
    assert_eq!(replace_identifier_in_output("x", "", "a"), "x");
    assert_eq!(replace_identifier_in_output("t1 t1", "t1", "t1"), "t1 t1");
}

#[test]
fn output_positions_are_tracked() {
    let mut ctx = CodegenContext::new();
    ctx.write("ab\ncd");
    assert_eq!((ctx.line, ctx.column), (1, 2));
    ctx.map_from_span(SourceLocation { start: 0, end: 0 }, "ab\ncd");
    assert_eq!(ctx.source_map.mappings.len(), 0);
    ctx.map_from_span(SourceLocation { start: 4, end: 5 }, "ab\ncd");
    assert_eq!(ctx.source_map.mappings.len(), 1);
    let m = &ctx.source_map.mappings[0];
    assert_eq!((m.generated_line, m.generated_column, m.original_line, m.original_column), (1, 2, 1, 1));
    assert_eq!(byte_offset_to_line_col("é\nx", 3), (1, 0));
    ctx.line = 9;
    recompute_position(&mut ctx);
    assert_eq!((ctx.line, ctx.column), (1, 2));
}

const RUNTIME_IMPORT: &str = "import { c as _c } from \"react/compiler-runtime\";\n";

#[test]
fn apply_compilation_without_functions_returns_the_source() {
    let out = apply_compilation("const a = 1;\n", &Vec::new(), None);
    assert_eq!(out, "const a = 1;\n");
}

#[test]
fn apply_compilation_replaces_the_function_and_adds_the_import() {
    let src = "let a = 1;\nfunction f() {}\n";
    let edits = vec![(SourceLocation { start: 11, end: 26 }, "function f() { return 2; }".to_string())];
    let out = apply_compilation(src, &edits, None);
    assert_eq!(out, format!("{}let a = 1;\nfunction f() {{ return 2; }}\n", RUNTIME_IMPORT));
}

#[test]
fn apply_compilation_applies_edits_given_in_any_order() {
    let src = "AAA BBB CCC";
    let edits = vec![
        (SourceLocation { start: 0, end: 3 }, "x".to_string()),
        (SourceLocation { start: 8, end: 11 }, "zzzzz".to_string()),
        (SourceLocation { start: 4, end: 7 }, "yy".to_string()),
    ];
    let out = apply_compilation(src, &edits, None);
    assert_eq!(out, format!("{}x yy zzzzz", RUNTIME_IMPORT));
}

#[test]
fn apply_compilation_uses_byte_offsets() {
    let src = "// é\nfunction f() {}";
    let start = src.find("function").unwrap() as u32;
    assert_eq!(start, 6);
    let edits = vec![(SourceLocation { start, end: src.len() as u32 }, "g".to_string())];
    let out = apply_compilation(src, &edits, None);
    assert_eq!(out, format!("{}// é\ng", RUNTIME_IMPORT));
}

#[test]
fn apply_compilation_with_gating_drops_directive_lines() {
    let src = "// @gating\nfunction f() {}\n  // @dynamicGating:isOn\nconst b = 2;\n";
    let start = src.find("function").unwrap() as u32;
    let edits = vec![(SourceLocation { start, end: start + 15 }, "F".to_string())];
    let gate = "import { isOn } from \"flags\";\n";
    let out = apply_compilation(src, &edits, Some(gate));
    assert_eq!(out, format!("{}{}F\nconst b = 2;\n", RUNTIME_IMPORT, gate));
}

#[test]
fn apply_compilation_with_gating_joins_lines_with_newlines() {
    let src = "a\r\n// @gating\r\nb";
    let edits = vec![(SourceLocation { start: 0, end: 1 }, "A".to_string())];
    let out = apply_compilation(src, &edits, Some(""));
    assert_eq!(out, format!("{}A\nb", RUNTIME_IMPORT));
}

#[test]
fn try_apply_compilation_refuses_ranges_off_character_boundaries() {
    let src = "é = 1;";
    let inside = vec![(SourceLocation { start: 1, end: 3 }, "x".to_string())];
    assert_eq!(try_apply_compilation(src, &inside, None), None);
    let reversed = vec![(SourceLocation { start: 4, end: 2 }, "x".to_string())];
    assert_eq!(try_apply_compilation(src, &reversed, None), None);
    let past_end = vec![(SourceLocation { start: 0, end: 40 }, "x".to_string())];
    assert_eq!(try_apply_compilation(src, &past_end, None), None);
    let fine = vec![(SourceLocation { start: 0, end: 2 }, "e".to_string())];
    assert_eq!(try_apply_compilation(src, &fine, None), Some(format!("{}e = 1;", RUNTIME_IMPORT)));
}
