use binding_generator::generator_env::ExportConfig;
use binding_generator::generator_env::GeneratorEnv;
use binding_generator::generator_env::SymbolEntry;
use binding_generator::type_ref::has_opaque;
use binding_generator::type_ref::resolve;
use binding_generator::type_ref::Ownership;
use binding_generator::type_ref::Primitive;
use binding_generator::type_ref::RawType;
use binding_generator::type_ref::TypeRefKind;

fn env_with(symbols: Vec<SymbolEntry>) -> GeneratorEnv {
    GeneratorEnv {
        config: ExportConfig {
            module: b"core".to_vec(),
            excluded: Vec::new(),
            renames: Vec::new(),
        },
        symbols,
    }
}

fn env_with_class_a() -> GeneratorEnv {
    env_with(vec![SymbolEntry { name: b"A".to_vec(), key: 7, is_enum: false }])
}

#[test]
fn primitive_name_resolves_to_primitive() {
    let env = env_with(Vec::new());
    let t = resolve(&env, &RawType::Named(b"int".to_vec()));
    assert!(matches!(t.kind, TypeRefKind::Primitive(Primitive::Int)));
    assert!(!t.quals.is_const);
    assert_eq!(t.quals.ptr_depth, 0);
    assert!(!t.quals.is_ref);
}

#[test]
fn known_class_resolves_by_identity_key() {
    let env = env_with_class_a();
    let t = resolve(&env, &RawType::Named(b"A".to_vec()));
    assert!(matches!(t.kind, TypeRefKind::Class(7)));
}

#[test]
fn known_enum_resolves_by_identity_key() {
    let env = env_with(vec![SymbolEntry { name: b"E".to_vec(), key: 9, is_enum: true }]);
    let t = resolve(&env, &RawType::Named(b"E".to_vec()));
    assert!(matches!(t.kind, TypeRefKind::Enum(9)));
}

#[test]
fn qualifiers_are_stripped_and_recorded() {
    let env = env_with_class_a();
    let raw = RawType::Const(Box::new(RawType::Pointer(Box::new(RawType::Named(b"A".to_vec())))));
    let t = resolve(&env, &raw);
    assert!(t.quals.is_const);
    assert_eq!(t.quals.ptr_depth, 1);
    assert!(!t.quals.is_ref);
    assert!(matches!(t.kind, TypeRefKind::Class(7)));
}

#[test]
fn reference_is_recorded() {
    let env = env_with_class_a();
    let raw = RawType::Reference(Box::new(RawType::Named(b"A".to_vec())));
    let t = resolve(&env, &raw);
    assert!(t.quals.is_ref);
}

#[test]
fn vector_shape_is_recognised() {
    let env = env_with(Vec::new());
    let raw = RawType::Template(
        b"std::vector".to_vec(),
        Box::new(RawType::Named(b"int".to_vec())),
    );
    let t = resolve(&env, &raw);
    match t.kind {
        TypeRefKind::Vector(inner) => {
            assert!(matches!(inner.kind, TypeRefKind::Primitive(Primitive::Int)));
        }
        _ => panic!("expected a vector"),
    }
}

#[test]
fn smart_pointer_ownership_is_classified() {
    let env = env_with_class_a();
    let shared = resolve(
        &env,
        &RawType::Template(b"cv::Ptr".to_vec(), Box::new(RawType::Named(b"A".to_vec()))),
    );
    assert!(matches!(shared.kind, TypeRefKind::SmartPtr(_, Ownership::Shared)));
    let exclusive = resolve(
        &env,
        &RawType::Template(b"std::unique_ptr".to_vec(), Box::new(RawType::Named(b"A".to_vec()))),
    );
    assert!(matches!(exclusive.kind, TypeRefKind::SmartPtr(_, Ownership::Exclusive)));
    let weak = resolve(
        &env,
        &RawType::Template(b"std::weak_ptr".to_vec(), Box::new(RawType::Named(b"A".to_vec()))),
    );
    assert!(matches!(weak.kind, TypeRefKind::SmartPtr(_, Ownership::Weak)));
}

#[test]
fn pair_shape_becomes_tuple() {
    let env = env_with(Vec::new());
    let raw = RawType::TemplatePair(
        b"std::pair".to_vec(),
        Box::new(RawType::Named(b"int".to_vec())),
        Box::new(RawType::Named(b"double".to_vec())),
    );
    let t = resolve(&env, &raw);
    assert!(matches!(t.kind, TypeRefKind::Tuple(_, _)));
}

#[test]
fn unknown_name_is_opaque() {
    let env = env_with(Vec::new());
    let t = resolve(&env, &RawType::Named(b"UnknownThing".to_vec()));
    assert!(matches!(t.kind, TypeRefKind::Opaque));
    assert!(has_opaque(&t));
}

#[test]
fn unrecognised_template_is_opaque() {
    let env = env_with(Vec::new());
    let raw = RawType::Template(
        b"std::map".to_vec(),
        Box::new(RawType::Named(b"int".to_vec())),
    );
    let t = resolve(&env, &raw);
    assert!(matches!(t.kind, TypeRefKind::Opaque));
}

#[test]
fn opaque_is_found_inside_containers() {
    let env = env_with(Vec::new());
    let raw = RawType::Template(
        b"std::vector".to_vec(),
        Box::new(RawType::Named(b"Mystery".to_vec())),
    );
    let t = resolve(&env, &raw);
    assert!(has_opaque(&t));
}

#[test]
fn self_referential_container_resolves_finitely() {
    // A holds a sequence of pointers to itself: the element resolves to an
    // identity reference, not to an expansion of A.
    let env = env_with_class_a();
    let raw = RawType::Template(
        b"std::vector".to_vec(),
        Box::new(RawType::Pointer(Box::new(RawType::Named(b"A".to_vec())))),
    );
    let t = resolve(&env, &raw);
    match t.kind {
        TypeRefKind::Vector(inner) => {
            assert_eq!(inner.quals.ptr_depth, 1);
            assert!(matches!(inner.kind, TypeRefKind::Class(7)));
        }
        _ => panic!("expected a vector"),
    }
}

#[test]
fn function_type_is_classified() {
    let env = env_with(Vec::new());
    let t = resolve(&env, &RawType::Function);
    assert!(matches!(t.kind, TypeRefKind::Function));
}
