use hm_type_sys::alg_w::alg_w;
use hm_type_sys::alg_w::default_ctx;
use hm_type_sys::lex::Lexer;
use hm_type_sys::lex::TokenKind;
use hm_type_sys::models::Context;
use hm_type_sys::models::GetFreeVars;
use hm_type_sys::models::Literal;
use hm_type_sys::models::MonoType;
use hm_type_sys::models::PolyType;
use hm_type_sys::models::TypeApp;
use hm_type_sys::models::TypeError;
use hm_type_sys::models::TypeQuantifier;
use hm_type_sys::parser::Parser;
use hm_type_sys::parser::SyntaxError;
use hm_type_sys::utils::Subst;
use hm_type_sys::utils::Substitution;
use hm_type_sys::utils::TypeVarGen;
use hm_type_sys::utils::contains;
use hm_type_sys::utils::unify;

fn tv(name: &str) -> MonoType {
    MonoType::TyVar(name.to_owned())
}

fn tapp(func: &str, monotypes: Vec<MonoType>) -> MonoType {
    MonoType::TyApp(TypeApp {
        func: func.to_owned(),
        monotypes,
    })
}

fn tname(func: &str) -> MonoType {
    tapp(func, vec![])
}

fn arrow(d: MonoType, c: MonoType) -> MonoType {
    tapp("->", vec![d, c])
}

fn infer(source: &str, gen: &mut TypeVarGen) -> Result<MonoType, TypeError> {
    let expr = Parser::new(Lexer::new(source)).parse().unwrap();
    let ctx = Context {
        constrains: Vec::new(),
    };
    let (_, ty) = alg_w(ctx, expr, gen)?;
    Ok(ty)
}

#[test]
fn test_alg_w() {
    let mut gen = TypeVarGen::new();
    let sources = [
        r"(\x -> x)",
        r"(\x -> 10)",
        r"((\x -> x) 10)",
        r"(let x = 10 in x)",
        r"(let const = (\y -> true) in const)",
        r"(let const = (\x -> true) in (\y -> (\z -> (const 20))))",
    ];
    for source in sources {
        let ty = infer(source, &mut gen).unwrap();
        println!("`{}` infer as `{}`", source, ty.render());
    }
}

#[test]
fn infer_identity_function() {
    let mut gen = TypeVarGen::new();
    let ty = infer(r"(\x -> x)", &mut gen).unwrap();
    assert_eq!(ty, arrow(tv("t0"), tv("t0")));
}

#[test]
fn infer_constant_function() {
    let mut gen = TypeVarGen::new();
    let ty = infer(r"(\x -> 10)", &mut gen).unwrap();
    assert_eq!(ty, arrow(tv("t0"), tname("Int")));
}

#[test]
fn infer_identity_application() {
    let mut gen = TypeVarGen::new();
    let ty = infer(r"((\x -> x) 10)", &mut gen).unwrap();
    assert_eq!(ty, tname("Int"));
}

#[test]
fn infer_let_literal() {
    let mut gen = TypeVarGen::new();
    let ty = infer(r"(let x = 10 in x)", &mut gen).unwrap();
    assert_eq!(ty, tname("Int"));
}

#[test]
fn infer_let_polymorphic_constant() {
    let mut gen = TypeVarGen::new();
    let ty = infer(r"(let const = (\y -> true) in const)", &mut gen).unwrap();
    assert_eq!(ty, arrow(tv("t1"), tname("Bool")));
    // The use of `const` is a fresh instantiation of a quantified binding:
    // closing the result back over an empty context restores the shape.
    let empty = Context {
        constrains: Vec::new(),
    };
    let closed = ty.generalise(&empty);
    assert_eq!(
        closed,
        PolyType::TyQuantifier(TypeQuantifier {
            bounded: "t1".to_owned(),
            ty: Box::new(PolyType::Mono(arrow(tv("t1"), tname("Bool")))),
        })
    );
    assert_eq!(closed.render(), "\u{2200}t1.t1 -> Bool");
}

#[test]
fn infer_undefined_variable() {
    let mut gen = TypeVarGen::new();
    let err = infer("foo", &mut gen).unwrap_err();
    assert_eq!(err, TypeError::UndefinedVariable("foo".to_owned()));
}

#[test]
fn apply_empty_substitution_changes_nothing() {
    let ty = arrow(tv("a"), tapp("List", vec![tv("b")]));
    let expected = arrow(tv("a"), tapp("List", vec![tv("b")]));
    assert_eq!(ty.apply(&Substitution::empty()), expected);
}

#[test]
fn apply_combined_is_apply_twice() {
    let s1 = Substitution::from_map(vec![("a".to_owned(), arrow(tv("b"), tname("Int")))]);
    let s2 = Substitution::from_map(vec![("b".to_owned(), tname("Bool"))]);
    let ty = tapp("Pair", vec![tv("a"), tv("b")]);
    let both = ty.clone().apply(&s1).apply(&s2);
    let s1 = Substitution::from_map(vec![("a".to_owned(), arrow(tv("b"), tname("Int")))]);
    let s2 = Substitution::from_map(vec![("b".to_owned(), tname("Bool"))]);
    let composed = ty.apply(&s1.combine(s2));
    assert_eq!(composed, both);
    assert_eq!(
        composed,
        tapp(
            "Pair",
            vec![arrow(tname("Bool"), tname("Int")), tname("Bool")]
        )
    );
}

#[test]
fn unify_type_with_itself_changes_nothing() {
    let ty = arrow(tv("a"), tapp("List", vec![tv("b")]));
    let s = unify(
        arrow(tv("a"), tapp("List", vec![tv("b")])),
        arrow(tv("a"), tapp("List", vec![tv("b")])),
    )
    .unwrap();
    assert_eq!(ty.apply(&s), arrow(tv("a"), tapp("List", vec![tv("b")])));
}

#[test]
fn unify_occurs_check_fails() {
    let err = unify(tv("a"), arrow(tv("a"), tname("Int"))).unwrap_err();
    match err {
        TypeError::InfiniteType(var, ty) => {
            assert_eq!(var, "a".to_owned());
            assert_eq!(ty, arrow(tv("a"), tname("Int")));
        }
        other => panic!("expected an infinite-type error, got {:?}", other),
    }
}

#[test]
fn unify_mismatched_constructors_fails() {
    let err = unify(tname("Int"), tname("Bool")).unwrap_err();
    assert_eq!(
        err,
        TypeError::MismatchedConstructor("Int".to_owned(), "Bool".to_owned())
    );
}

#[test]
fn unify_mismatched_arity_fails() {
    let err = unify(tapp("P", vec![tv("a")]), tapp("P", vec![])).unwrap_err();
    assert!(matches!(err, TypeError::MismatchedArity(_, _)));
}

#[test]
fn unify_binds_variable() {
    let s = unify(tv("a"), tname("Int")).unwrap();
    assert_eq!(tv("a").apply(&s), tname("Int"));
    assert_eq!(tv("b").apply(&s), tv("b"));
}

#[test]
fn unify_binds_variable_on_the_right() {
    let s = unify(tname("Int"), tv("a")).unwrap();
    assert_eq!(tv("a").apply(&s), tname("Int"));
}

#[test]
fn unify_two_distinct_variables_binds_the_left() {
    let s = unify(tv("a"), tv("b")).unwrap();
    assert_eq!(tv("a").apply(&s), tv("b"));
    assert_eq!(tv("b").apply(&s), tv("b"));
}

#[test]
fn arrows_need_two_arguments_to_render() {
    assert!(arrow(tv("a"), tname("Int")).arrows_ok());
    assert!(!tapp("->", vec![tv("a")]).arrows_ok());
}

#[test]
fn unify_threads_earlier_bindings() {
    // Unifying pairwise must respect what the first argument pair taught.
    let s = unify(
        tapp("Pair", vec![tv("a"), tv("a")]),
        tapp("Pair", vec![tname("Int"), tv("b")]),
    )
    .unwrap();
    assert_eq!(tv("a").apply(&s), tname("Int"));
    assert_eq!(tv("b").apply(&s), tname("Int"));
}

#[test]
fn generalise_then_instantiate_renames_consistently() {
    // No free variable of the type occurs in the empty context, so the
    // round trip yields the same type up to a consistent renaming.
    let ty = arrow(tv("a"), tv("b"));
    let empty = Context {
        constrains: Vec::new(),
    };
    let poly = ty.generalise(&empty);
    let mut gen = TypeVarGen::new();
    let inst = poly.instantiate(&mut gen);
    assert_eq!(inst, arrow(tv("t1"), tv("t0")));
}

#[test]
fn generalise_skips_context_variables() {
    let ty = arrow(tv("a"), tv("b"));
    let ctx = Context {
        constrains: Vec::new(),
    }
    .extend_with("x".to_owned(), PolyType::Mono(tv("a")));
    let poly = ty.generalise(&ctx);
    assert_eq!(
        poly,
        PolyType::TyQuantifier(TypeQuantifier {
            bounded: "b".to_owned(),
            ty: Box::new(PolyType::Mono(arrow(tv("a"), tv("b")))),
        })
    );
}

#[test]
fn instantiate_twice_never_shares_variables() {
    let poly = PolyType::TyQuantifier(TypeQuantifier {
        bounded: "a".to_owned(),
        ty: Box::new(PolyType::Mono(arrow(tv("a"), tv("a")))),
    });
    let mut gen = TypeVarGen::new();
    let first = poly.instantiate(&mut gen);
    let second = poly.instantiate(&mut gen);
    assert_eq!(first, arrow(tv("t0"), tv("t0")));
    assert_eq!(second, arrow(tv("t1"), tv("t1")));
}

#[test]
fn fresh_variables_count_in_decimal() {
    let mut gen = TypeVarGen::new();
    let mut last = gen.new_type_var();
    for _ in 0..10 {
        last = gen.new_type_var();
    }
    assert_eq!(last, tv("t10"));
    gen.reset_tid();
    assert_eq!(gen.new_type_var(), tv("t0"));
}

#[test]
fn literal_base_types() {
    assert_eq!(Literal::Int.ty(), tname("Int"));
    assert_eq!(Literal::Bool.ty(), tname("Bool"));
}

#[test]
fn free_vars_of_poly_type_skip_bound_names() {
    let poly = PolyType::TyQuantifier(TypeQuantifier {
        bounded: "a".to_owned(),
        ty: Box::new(PolyType::Mono(arrow(tv("a"), tv("b")))),
    });
    assert_eq!(poly.free_vars(), vec!["b".to_owned()]);
}

#[test]
fn contains_finds_nested_variables() {
    let ty = arrow(tname("Int"), tapp("List", vec![tv("a")]));
    assert!(contains(&ty, &"a".to_owned()));
    assert!(!contains(&ty, &"b".to_owned()));
}

#[test]
fn context_extension_shadows() {
    let ctx = Context {
        constrains: Vec::new(),
    }
    .extend_with("x".to_owned(), PolyType::Mono(tname("Int")))
    .extend_with("x".to_owned(), PolyType::Mono(tname("Bool")));
    assert_eq!(ctx.find(&"x".to_owned()), Some(&PolyType::Mono(tname("Bool"))));
    assert_eq!(ctx.find(&"y".to_owned()), None);
}

#[test]
fn default_context_types_builtins() {
    let ctx = default_ctx();
    let mut gen = TypeVarGen::new();
    let expr = Parser::new(Lexer::new("(inc 10)")).parse().unwrap();
    let (_, ty) = alg_w(ctx, expr, &mut gen).unwrap();
    assert_eq!(ty, tname("Int"));
}

#[test]
fn default_context_list_is_polymorphic() {
    let mut gen = TypeVarGen::new();
    let expr = Parser::new(Lexer::new("(list true)")).parse().unwrap();
    let (_, ty) = alg_w(default_ctx(), expr, &mut gen).unwrap();
    assert_eq!(ty, tapp("List", vec![tname("Bool")]));
}

#[test]
fn lexer_produces_expected_tokens() {
    let mut lexer = Lexer::new(r"(let x = \y -> 10 in true)");
    let mut kinds = Vec::new();
    let mut values = Vec::new();
    while let Some(t) = lexer.lex() {
        kinds.push(t.kind);
        values.push(t.value);
    }
    assert_eq!(
        kinds,
        vec![
            TokenKind::OpenP,
            TokenKind::Let,
            TokenKind::Var,
            TokenKind::Eq,
            TokenKind::BackSlash,
            TokenKind::Var,
            TokenKind::Arrow,
            TokenKind::LitInt,
            TokenKind::In,
            TokenKind::LitBool,
            TokenKind::ClosP,
        ]
    );
    assert_eq!(values[2], "x".to_owned());
    assert_eq!(values[7], "10".to_owned());
}

#[test]
fn parser_rejects_unclosed_expression() {
    let err = Parser::new(Lexer::new("(let x = 10 in x"))
        .parse()
        .unwrap_err();
    assert!(matches!(err, SyntaxError::ExpectedToken(TokenKind::ClosP, _)));
}

#[test]
fn parser_rejects_empty_input() {
    let err = Parser::new(Lexer::new("")).parse().unwrap_err();
    assert_eq!(err, SyntaxError::UnexpectedEof);
}

#[test]
fn parser_rejects_stray_token() {
    let err = Parser::new(Lexer::new(")")).parse().unwrap_err();
    assert!(matches!(err, SyntaxError::UnexpectedToken(TokenKind::ClosP, _)));
}

#[test]
fn render_arrow_infix_and_constructors_prefix() {
    let ty = arrow(tv("a"), tapp("Either", vec![tname("Int"), tv("b")]));
    assert_eq!(ty.render(), "a -> Either Int b");
    let nested = arrow(arrow(tname("Int"), tname("Int")), tname("Bool"));
    assert_eq!(nested.render(), "Int -> Int -> Bool");
}
