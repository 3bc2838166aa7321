use callquery::ast::Statement;
use callquery::ast_generator::parse_ast;

fn single(statements: &[Statement]) -> &Statement {
    assert_eq!(statements.len(), 1);
    &statements[0]
}

#[test]
fn test_grammar_simple1() {
    let input = r#"{@foo}"#;
    let ast = parse_ast(input).unwrap();
    let outer = single(&ast);
    assert!(outer.verbs.is_empty());
    let scope = outer.scope.as_ref().unwrap();
    let inner = single(&scope.statements);
    assert_eq!(inner.verbs.len(), 1);
    assert_eq!(inner.verbs[0].ident.as_str(), "foo");
    assert!(inner.scope.is_none());
}

#[test]
fn test_grammar_simple2() {
    let input = r#"@foo{}"#;
    let ast = parse_ast(input).unwrap();
    let st = single(&ast);
    assert_eq!(st.verbs.len(), 1);
    assert_eq!(st.verbs[0].ident.as_str(), "foo");
    let scope = st.scope.as_ref().unwrap();
    assert!(scope.statements.is_empty());
}

#[test]
fn test_grammar1() {
    let input = r#"
    @foo{
      @bar{}
    }"#;
    let ast = parse_ast(input).unwrap();
    let outer = single(&ast);
    assert_eq!(outer.verbs.len(), 1);
    assert_eq!(outer.verbs[0].ident.as_str(), "foo");
    let scope = outer.scope.as_ref().unwrap();
    let inner = single(&scope.statements);
    assert_eq!(inner.verbs.len(), 1);
    assert_eq!(inner.verbs[0].ident.as_str(), "bar");
    let inner_scope = inner.scope.as_ref().unwrap();
    assert!(inner_scope.statements.is_empty());
}

#[test]
fn test_grammar2() {
    let input = r#"@foo @bar {@tar}"#;
    let ast = parse_ast(input).unwrap();
    let st = single(&ast);
    assert_eq!(st.verbs.len(), 2);
    assert_eq!(st.verbs[0].ident.as_str(), "foo");
    assert_eq!(st.verbs[1].ident.as_str(), "bar");
    let scope = st.scope.as_ref().unwrap();
    let inner = single(&scope.statements);
    assert_eq!(inner.verbs.len(), 1);
    assert_eq!(inner.verbs[0].ident.as_str(), "tar");
}

#[test]
fn test_wrong_space() {
    let input = r#"{@ tar}"#;
    let result = parse_ast(input);
    assert!(result.is_err());
    assert_eq!(result.unwrap_err().at, 2);
}

#[test]
fn test_grammar_complex1() {
    let input = r#"
    @foo @bar {
      @foo @bar {
      };
      @foo @tar;
    };
    @foo"#;
    let ast = parse_ast(input).unwrap();
    assert_eq!(ast.len(), 2);
    let first = &ast[0];
    assert_eq!(first.verbs.len(), 2);
    assert_eq!(first.verbs[0].ident.as_str(), "foo");
    assert_eq!(first.verbs[1].ident.as_str(), "bar");
    let scope = first.scope.as_ref().unwrap();
    assert_eq!(scope.statements.len(), 2);
    let nested = &scope.statements[0];
    assert_eq!(nested.verbs.len(), 2);
    assert_eq!(nested.verbs[0].ident.as_str(), "foo");
    assert_eq!(nested.verbs[1].ident.as_str(), "bar");
    assert!(nested.scope.as_ref().unwrap().statements.is_empty());
    let sibling = &scope.statements[1];
    assert_eq!(sibling.verbs.len(), 2);
    assert_eq!(sibling.verbs[0].ident.as_str(), "foo");
    assert_eq!(sibling.verbs[1].ident.as_str(), "tar");
    assert!(sibling.scope.is_none());
    let second = &ast[1];
    assert_eq!(second.verbs.len(), 1);
    assert_eq!(second.verbs[0].ident.as_str(), "foo");
    assert!(second.scope.is_none());
}

#[test]
fn ident_can_start_with_underscore() {
    let input = r#"@__collect_inotify_mark"#;
    let result = parse_ast(input);
    assert!(result.is_ok());
    let ast = result.unwrap();
    assert_eq!(single(&ast).verbs[0].ident.as_str(), "__collect_inotify_mark");
}

#[test]
fn test_ast_parser_successful() {
    let input = r#"{@foo}"#;
    let ast = parse_ast(input);
    assert!(ast.is_ok());
}

#[test]
fn test_ast_parser_simple() {
    let input = r#"{@foo}"#;
    let ast = parse_ast(input).unwrap();
    let outer = single(&ast);
    assert_eq!(outer.verbs.len(), 0);
    let scope = outer.scope.as_ref().unwrap();
    let inner = single(&scope.statements);
    assert_eq!(inner.verbs.last().unwrap().ident.as_str(), "foo");
}

#[test]
fn test_ast_parser_rebuild() {
    let input = r#"@foo{}"#;
    let ast = parse_ast(input).unwrap();
    let st = single(&ast);
    assert_eq!(st.verbs.len(), 1);
    assert_eq!(st.verbs[0].ident.as_str(), "foo");
    assert!(st.verbs[0].params.is_empty());
    assert!(st.scope.as_ref().unwrap().statements.is_empty());
}

#[test]
fn named_parameters_carry_their_patterns() {
    let input = r#"@filter(function="p.*", file="src/.*\.c")"#;
    let ast = parse_ast(input).unwrap();
    let st = single(&ast);
    assert_eq!(st.verbs.len(), 1);
    assert_eq!(st.verbs[0].ident.as_str(), "filter");
    let params = &st.verbs[0].params;
    assert_eq!(params.len(), 2);
    assert_eq!(params[0].name.as_str(), "function");
    assert_eq!(params[0].pattern.source_text(), "p.*");
    assert_eq!(params[1].name.as_str(), "file");
    assert_eq!(params[1].pattern.source_text(), r"src/.*\.c");
}

#[test]
fn statements_separated_by_semicolons() {
    let ast = parse_ast("@a; @b ;; @c").unwrap();
    assert_eq!(ast.len(), 3);
    assert_eq!(ast[0].verbs[0].ident.as_str(), "a");
    assert_eq!(ast[1].verbs[0].ident.as_str(), "b");
    assert_eq!(ast[2].verbs[0].ident.as_str(), "c");
}

#[test]
fn stray_closing_brace_is_rejected() {
    let result = parse_ast("@a }");
    assert_eq!(result.unwrap_err().at, 3);
}

#[test]
fn unterminated_scope_is_rejected() {
    let result = parse_ast("{@a");
    assert!(result.is_err());
}
