use memtypes::native::{Field, Struct, Type};
use memtypes::syntax::{eval_native_decl, parse_native, tokenize, Scope};

fn decl(src: &str, scope: &mut Scope) -> Type {
    eval_native_decl(src, scope).expect("the declaration should compile")
}

#[test]
fn test_native_syntax() {
    let mut scope = Scope::new();
    let t = decl(
        r#"native Test { ^ 30, field: Int32, field2: UInt16 };"#,
        &mut scope,
    );

    // it works
    let expected = {
        let mut fields: Vec<(u32, Field)> = Vec::new();
        fields.push((
            30,
            Field {
                name: "field".to_string(),
                ty: Type::Int32,
            },
        ));
        fields.push((
            34,
            Field {
                name: "field2".to_string(),
                ty: Type::UInt16,
            },
        ));
        Type::Struct(Struct::new(fields))
    };
    assert!(t.eq(&expected));

    // the name is bound and can be referenced afterwards
    let bound = scope.get(&"Test".to_string()).expect("Test should be bound");
    assert!(bound.eq(&expected));

    // Make sure we don't panic and instead throw errors.
    assert!(eval_native_decl(r#"native Test { asdsd: 234234 }"#, &mut Scope::new()).is_err());
    assert!(eval_native_decl(r#"native Test { 234234 }"#, &mut Scope::new()).is_err());
    assert!(eval_native_decl(r#"native Test { asdsd }"#, &mut Scope::new()).is_err());
    assert!(eval_native_decl(r#"native Test { asdsd }"#, &mut Scope::new()).is_err());
    assert!(eval_native_decl(r#"native Test {}"#, &mut Scope::new()).is_err());
    // Missing token `:`.
    assert!(eval_native_decl(r#"native Test { asdsd ^: ^ asdasd }"#, &mut Scope::new()).is_err());
}

#[test]
fn test_native_size() {
    let mut scope = Scope::new();
    assert_eq!(
        decl(r#"native Test { ^ 30, field: Int32 };"#, &mut scope).size(),
        34
    );

    // Test implicit Struct(*)
    let mut scope2 = Scope::new();
    decl(r#"native Custom { f: Fp32 };"#, &mut scope2);
    assert_eq!(
        decl(r#"native Test { ^ 30, field: Custom };"#, &mut scope2).size(),
        34
    );
}

#[test]
fn test_custom_native() {
    let mut scope = Scope::new();
    decl(r#"native Custom { f: Fp32 };"#, &mut scope);
    match decl(r#"native Test { ^ 30, custom: Custom };"#, &mut scope) {
        Type::Struct(n) => {
            let got = n.get_field(30).unwrap();
            let custom_native = {
                let mut fields: Vec<(u32, Field)> = Vec::new();
                fields.push((
                    0,
                    Field {
                        name: "f".into(),
                        ty: Type::Fp32,
                    },
                ));
                Struct::new(fields)
            };
            let want = Field::new("custom".to_string(), Type::Struct(custom_native));
            assert_eq!(got.name, want.name);
            assert!(got.ty.eq(&want.ty));
        }
        _ => panic!("Malformed return of `NativeType::User`"),
    }
}

#[test]
fn test_native_type() {
    let scope = Scope::new();
    for (src, want) in [
        ("Int32", Type::Int32),
        ("Int64", Type::Int64),
        ("UInt32", Type::UInt32),
        ("UInt64", Type::UInt64),
    ] {
        let tokens = tokenize(src).unwrap();
        let (t, used) = memtypes::syntax::parse_type_expr(&tokens, 0, &scope).unwrap();
        assert_eq!(used, tokens.len());
        assert!(t.eq(&want));
    }
}

#[test]
fn test_struct_size_rules() {
    // an empty field map has size 0
    assert_eq!(Struct::new(Vec::new()).size(), 0);

    // a single Int32 at offset 30 ends at 34
    let mut fields: Vec<(u32, Field)> = Vec::new();
    fields.push((30, Field::new("field".to_string(), Type::Int32)));
    assert_eq!(Struct::new(fields).size(), 34);

    // an implicit nested struct at offset 30 contributes only its own size
    let mut inner: Vec<(u32, Field)> = Vec::new();
    inner.push((0, Field::new("f".to_string(), Type::Fp32)));
    let mut outer: Vec<(u32, Field)> = Vec::new();
    outer.push((
        30,
        Field::new("custom".to_string(), Type::Struct(Struct::new(inner))),
    ));
    assert_eq!(Struct::new(outer).size(), 34);
}

#[test]
fn test_primitive_sizes() {
    assert_eq!(Type::UInt8.size(), 1);
    assert_eq!(Type::UInt16.size(), 2);
    assert_eq!(Type::Int32.size(), 4);
    assert_eq!(Type::UInt32.size(), 4);
    assert_eq!(Type::Fp32.size(), 4);
    assert_eq!(Type::Address32.size(), 4);
    assert_eq!(Type::Pointer32(Box::new(Type::Int32)).size(), 4);
    assert_eq!(Type::Int64.size(), 8);
    assert_eq!(Type::UInt64.size(), 8);
    assert_eq!(Type::Fp64.size(), 8);
    assert_eq!(Type::Address64.size(), 8);
    assert_eq!(Type::Pointer64(Box::new(Type::Int32)).size(), 8);
    assert_eq!(Type::Text(7).size(), 7);
    assert_eq!(Type::WideText(7).size(), 7);
    assert_eq!(Type::Collection(Box::new(Type::Int32), 3).size(), 12);
}

#[test]
fn test_field_map_replaces_on_same_offset() {
    let mut st = Struct::new(Vec::new());
    st.insert(4, Field::new("a".to_string(), Type::UInt8));
    st.insert(0, Field::new("b".to_string(), Type::UInt16));
    st.insert(4, Field::new("c".to_string(), Type::Int32));
    // offsets stay sorted, the later insertion at 4 replaced the earlier one
    assert_eq!(st.0.len(), 2);
    assert_eq!(st.0[0].0, 0);
    assert_eq!(st.0[0].1.name, "b");
    assert_eq!(st.0[1].0, 4);
    assert_eq!(st.0[1].1.name, "c");
    assert!(st.get_field(4).unwrap().ty.eq(&Type::Int32));
    assert!(st.get_field(1).is_none());
    assert_eq!(st.get_field_from_name("b").unwrap().name, "b");
    assert!(st.get_field_from_name("zzz").is_none());
}

#[test]
fn test_type_names_and_equality() {
    assert_eq!(Type::UInt8.get_type(), "UInt8");
    assert_eq!(Type::Text(4).get_type(), "String");
    assert_eq!(Type::WideText(4).get_type(), "WideString");
    assert_eq!(
        Type::Pointer32(Box::new(Type::Int32)).get_type(),
        "Pointer32"
    );
    assert_eq!(
        Type::Collection(Box::new(Type::Int32), 3).get_type(),
        "Collection"
    );
    assert!(Type::Int32.eq(&Type::Int32));
    assert!(Type::Int32.neq(&Type::UInt32));
    assert!(Type::Pointer32(Box::new(Type::Int32)).neq(&Type::Pointer32(Box::new(Type::UInt32))));
    assert!(Type::Text(4).neq(&Type::Text(5)));
    let st = Type::Collection(Box::new(Type::Int32), 3);
    assert!(st.eq(&st.clone()));
    assert_eq!(st.get_size(), 12);
    assert!(Type::Int32.get_native_struct().is_none());
}

#[test]
fn test_parse_step_protocol() {
    let symbols = vec!["native".to_string()];
    assert_eq!(parse_native(&symbols, "Test").unwrap().unwrap(), "$ident$");
    let symbols = vec!["native".to_string(), "Test".to_string()];
    assert_eq!(parse_native(&symbols, "{").unwrap().unwrap(), "{");
    let symbols = vec![
        "native".to_string(),
        "Test".to_string(),
        "{".to_string(),
        "^".to_string(),
    ];
    assert_eq!(parse_native(&symbols, "30").unwrap().unwrap(), "$int$");
    let symbols = vec![
        "native".to_string(),
        "Test".to_string(),
        "{".to_string(),
        "f".to_string(),
    ];
    assert_eq!(parse_native(&symbols, ":").unwrap().unwrap(), ":");
    let symbols = vec![
        "native".to_string(),
        "Test".to_string(),
        "{".to_string(),
        "f".to_string(),
        ":".to_string(),
        "$expr$".to_string(),
    ];
    assert_eq!(parse_native(&symbols, ";").unwrap(), None);
    assert_eq!(parse_native(&symbols, "}").unwrap().unwrap(), "}");
    assert_eq!(parse_native(&symbols, ",").unwrap().unwrap(), ",");
}

#[test]
fn test_tokenizer_limits() {
    // a literal past 18 significant digits is refused, never a panic
    assert!(tokenize("99999999999999999999999").is_err());
    // leading zeros do not count against the limit
    assert!(tokenize("00000000000000000000001").is_ok());
    // an unknown character is refused
    assert!(tokenize("native Test @ {}").is_err());
    assert!(eval_native_decl(
        r#"native Test { ^ 99999999999999999999999, f: Int32 };"#,
        &mut Scope::new()
    )
    .is_err());
}

#[test]
fn test_scope_shadowing() {
    let mut scope = Scope::new();
    scope.push_constant("T".to_string(), Type::Int32);
    scope.push_constant("U".to_string(), Type::UInt8);
    scope.push_constant("T".to_string(), Type::UInt64);
    // the most recent binding of a name wins
    assert!(scope.get(&"T".to_string()).unwrap().eq(&Type::UInt64));
    assert!(scope.get(&"U".to_string()).unwrap().eq(&Type::UInt8));
    assert!(scope.get(&"V".to_string()).is_none());
    // a failed declaration binds nothing, and the error names the field
    match eval_native_decl(r#"native Bad { f: Nonsense };"#, &mut scope) {
        Err(memtypes::syntax::NativeError::Eval(e)) => {
            assert_eq!(e.field.as_deref(), Some("f"));
        }
        _ => panic!("an evaluation failure naming the field was expected"),
    }
    assert!(scope.get(&"Bad".to_string()).is_none());
}

#[test]
fn test_constructor_expressions() {
    let scope = Scope::new();
    for (src, want) in [
        ("String(4)", Type::Text(4)),
        ("WideString(9)", Type::WideText(9)),
        ("Pointer32(Int32)", Type::Pointer32(Box::new(Type::Int32))),
        (
            "Pointer64(String(3))",
            Type::Pointer64(Box::new(Type::Text(3))),
        ),
        (
            "Collection(Int32, 3)",
            Type::Collection(Box::new(Type::Int32), 3),
        ),
    ] {
        let tokens = tokenize(src).unwrap();
        let (t, _) = memtypes::syntax::parse_type_expr(&tokens, 0, &scope).unwrap();
        assert!(t.eq(&want), "{src}");
    }
    let tokens = tokenize("Unknown(1)").unwrap();
    assert!(memtypes::syntax::parse_type_expr(&tokens, 0, &scope).is_err());
}
