use ocamlrep_marshal::facts::{
    create_direct_decl_parse_options, decls_to_facts_cpp_ffi, facts_to_json_cpp_ffi, hash_unit,
    type_exists, Attribute, DeclResult, DeclsHolder, Facts, FactsResult, ModuleFactsByName,
    TypeFacts, TypeFactsByName, TypeKind,
};

fn decl_result(names: &[&str], has_errors: bool) -> DeclResult {
    DeclResult {
        nopos_hash: 7,
        serialized: vec![1, 2, 3],
        decls: Box::new(DeclsHolder { type_names: names.iter().map(|s| s.to_string()).collect() }),
        has_errors,
    }
}

fn some_facts() -> Facts {
    Facts {
        types: vec![TypeFactsByName {
            name: "C".to_string(),
            typefacts: TypeFacts {
                base_types: vec!["B".to_string()],
                kind: TypeKind::Class,
                attributes: vec![Attribute { name: "A".to_string(), args: vec![] }],
                flags: 0,
                require_extends: vec![],
                require_implements: vec![],
                methods: vec![],
            },
        }],
        functions: vec!["f".to_string()],
        constants: vec![],
        file_attributes: vec![],
        modules: vec![ModuleFactsByName { name: "m".to_string() }],
    }
}

#[test]
fn decl_parser_options_follow_flag_bits() {
    let o = create_direct_decl_parse_options(0, vec![]);
    assert!(!o.disable_xhp_element_mangling && !o.interpret_soft_types_as_like_types);
    assert!(!o.allow_new_attribute_syntax && !o.enable_xhp_class_modifier);
    assert!(!o.php5_compat_mode && !o.hhvm_compat_mode);
    let o = create_direct_decl_parse_options(
        0b101001,
        vec![("Foo".to_string(), "Bar".to_string())],
    );
    assert!(o.disable_xhp_element_mangling);
    assert!(!o.interpret_soft_types_as_like_types);
    assert!(!o.allow_new_attribute_syntax);
    assert!(o.enable_xhp_class_modifier);
    assert!(!o.php5_compat_mode);
    assert!(o.hhvm_compat_mode);
    assert_eq!(o.auto_namespace_map, vec![("Foo".to_string(), "Bar".to_string())]);
    let o = create_direct_decl_parse_options(-1, vec![]);
    assert!(o.interpret_soft_types_as_like_types && o.allow_new_attribute_syntax && o.php5_compat_mode);
}

#[test]
fn type_exists_looks_up_type_names() {
    let r = decl_result(&["\\C", "\\D"], false);
    assert!(type_exists(&r, "\\C"));
    assert!(type_exists(&r, "\\D"));
    assert!(!type_exists(&r, "\\c"));
    assert!(!type_exists(&r, "C"));
    assert!(!type_exists(&decl_result(&[], false), ""));
}

#[test]
fn facts_of_errored_declarations_are_empty() {
    let r = decl_result(&["\\C"], true);
    let mut called = false;
    let f = decls_to_facts_cpp_ffi(0, &r, "abc", |_| {
        called = true;
        some_facts()
    });
    assert!(!called);
    assert!(f.has_errors);
    assert_eq!(f.facts, Facts::default());
    assert_eq!(f.sha1sum, "");
}

#[test]
fn facts_of_declarations_pass_the_hash_and_the_xhp_bit() {
    let r = decl_result(&["\\C"], false);
    let f = decls_to_facts_cpp_ffi(1, &r, "abc", |disable| {
        assert!(disable);
        some_facts()
    });
    assert!(!f.has_errors);
    assert_eq!(f.sha1sum, "abc");
    assert_eq!(f.facts, some_facts());
    let f = decls_to_facts_cpp_ffi(2, &r, "", |disable| {
        assert!(!disable);
        Facts::default()
    });
    assert_eq!(f.facts, Facts::default());
}

#[test]
fn json_of_errored_facts_is_empty() {
    let r = FactsResult { facts: some_facts(), sha1sum: "x".to_string(), has_errors: true };
    assert_eq!(facts_to_json_cpp_ffi(r, true, |_, _, _| "{}".to_string()), "");
    let r = FactsResult { facts: some_facts(), sha1sum: "x".to_string(), has_errors: false };
    let json = facts_to_json_cpp_ffi(r, true, |f, pretty, sha| {
        format!("{} {} {}", f.functions[0], pretty, sha)
    });
    assert_eq!(json, "f true x");
    let d = FactsResult::default();
    assert!(!d.has_errors && d.sha1sum.is_empty() && d.facts == Facts::default());
}

#[test]
fn hash_unit_is_sha1() {
    let d = hash_unit(b"abc");
    let hex: String = d.iter().map(|b| format!("{:02x}", b)).collect();
    assert_eq!(hex, "a9993e364706816aba3e25717850c26c9cd0d89d");
    let d = hash_unit(b"");
    let hex: String = d.iter().map(|b| format!("{:02x}", b)).collect();
    assert_eq!(hex, "da39a3ee5e6b4b0d3255bfef95601890afd80709");
}
