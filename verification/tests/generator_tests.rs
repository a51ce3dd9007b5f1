use binding_generator::generator::process_module;
use binding_generator::generator::DiagKind;
use binding_generator::generator::ElementKind;
use binding_generator::generator_env::ExportConfig;
use binding_generator::generator_env::GeneratorEnv;
use binding_generator::generator_env::SymbolEntry;
use binding_generator::name_pool::NamePool;
use binding_generator::type_ref::RawType;
use binding_generator::walker::walk;
use binding_generator::walker::EntityArena;
use binding_generator::walker::EntityKind;
use binding_generator::walker::EntityNode;

fn node(key: u64, kind: EntityKind, name: &[u8], module: &[u8]) -> EntityNode {
    EntityNode {
        key,
        kind,
        name: name.to_vec(),
        module: module.to_vec(),
        children: Vec::new(),
        ty: None,
        member_types: Vec::new(),
        bases: Vec::new(),
    }
}

fn env_for(module: &[u8], symbols: Vec<SymbolEntry>) -> GeneratorEnv {
    GeneratorEnv {
        config: ExportConfig {
            module: module.to_vec(),
            excluded: Vec::new(),
            renames: Vec::new(),
        },
        symbols,
    }
}

#[test]
fn walk_is_preorder_and_descends_namespaces() {
    let mut ns = node(1, EntityKind::Namespace, b"cv", b"core");
    ns.children = vec![1, 2];
    let arena = EntityArena {
        nodes: vec![
            ns,
            node(2, EntityKind::ClassDecl, b"A", b"core"),
            node(3, EntityKind::FuncDecl, b"f", b"core"),
        ],
        roots: vec![0],
    };
    let walked = walk(&arena, b"core");
    assert_eq!(walked, vec![1, 2]);
}

#[test]
fn walk_excludes_other_modules_even_when_reached() {
    // header A (module core) includes header B (module imgproc): the
    // declaration defined in B is reachable from core's tree but excluded.
    let mut ns = node(1, EntityKind::Namespace, b"cv", b"core");
    ns.children = vec![1, 2];
    let arena = EntityArena {
        nodes: vec![
            ns,
            node(2, EntityKind::ClassDecl, b"A", b"core"),
            node(3, EntityKind::ClassDecl, b"B", b"imgproc"),
        ],
        roots: vec![0],
    };
    let walked = walk(&arena, b"core");
    assert_eq!(walked, vec![1]);
}

#[test]
fn walk_skips_foreign_namespace_subtrees_whole() {
    let mut foreign = node(1, EntityKind::Namespace, b"other", b"imgproc");
    foreign.children = vec![1];
    let arena = EntityArena {
        nodes: vec![foreign, node(2, EntityKind::ClassDecl, b"C", b"core")],
        roots: vec![0],
    };
    // the class is in module core, but it hangs under a namespace whose
    // header belongs to imgproc: the whole subtree is skipped
    let walked = walk(&arena, b"core");
    assert!(walked.is_empty());
}

#[test]
fn self_referential_class_yields_exactly_one_descriptor() {
    // class A holds std::vector<A*>; A is also reached a second time (a
    // redeclaration carrying the same identity key)
    let vec_of_ptr_a = RawType::Template(
        b"std::vector".to_vec(),
        Box::new(RawType::Pointer(Box::new(RawType::Named(b"A".to_vec())))),
    );
    let mut class_a = node(10, EntityKind::ClassDecl, b"A", b"core");
    class_a.member_types = vec![vec_of_ptr_a];
    let redecl_a = node(10, EntityKind::ClassDecl, b"A", b"core");
    let arena = EntityArena { nodes: vec![class_a, redecl_a], roots: vec![0, 1] };
    let env = env_for(b"core", vec![SymbolEntry { name: b"A".to_vec(), key: 10, is_enum: false }]);
    let mut pool = NamePool::new();
    let (gen, diags) = process_module(&arena, &env, &mut pool);
    assert_eq!(gen.len(), 1);
    assert!(diags.is_empty());
    assert_eq!(gen[0].key, 10);
    assert!(matches!(gen[0].kind, ElementKind::Class));
    assert_eq!(gen[0].identifier, b"A".to_vec());
    // the self-reference stays an identity reference: the descriptor
    // depends on A's own key
    assert_eq!(gen[0].deps, vec![10]);
}

#[test]
fn unsupported_shape_degrades_gracefully() {
    let mut good = node(1, EntityKind::FuncDecl, b"resize", b"core");
    good.member_types = vec![RawType::Named(b"int".to_vec())];
    let mut bad = node(2, EntityKind::FuncDecl, b"lookup", b"core");
    bad.member_types = vec![RawType::Template(
        b"std::map".to_vec(),
        Box::new(RawType::Named(b"int".to_vec())),
    )];
    let other = node(3, EntityKind::ConstDecl, b"PI", b"core");
    let arena = EntityArena { nodes: vec![good, bad, other], roots: vec![0, 1, 2] };
    let env = env_for(b"core", Vec::new());
    let mut pool = NamePool::new();
    let (gen, diags) = process_module(&arena, &env, &mut pool);
    assert_eq!(gen.len(), 2);
    assert_eq!(gen[0].key, 1);
    assert_eq!(gen[1].key, 3);
    assert_eq!(diags.len(), 1);
    assert_eq!(diags[0].key, 2);
    assert!(matches!(diags[0].reason, DiagKind::UnsupportedShape));
}

#[test]
fn excluded_declaration_is_skipped_with_diagnostic() {
    let arena = EntityArena {
        nodes: vec![
            node(1, EntityKind::FuncDecl, b"keep", b"core"),
            node(2, EntityKind::FuncDecl, b"drop_me", b"core"),
        ],
        roots: vec![0, 1],
    };
    let mut env = env_for(b"core", Vec::new());
    env.config.excluded.push(b"drop_me".to_vec());
    let mut pool = NamePool::new();
    let (gen, diags) = process_module(&arena, &env, &mut pool);
    assert_eq!(gen.len(), 1);
    assert_eq!(gen[0].key, 1);
    assert_eq!(diags.len(), 1);
    assert_eq!(diags[0].key, 2);
    assert!(matches!(diags[0].reason, DiagKind::Excluded));
}

#[test]
fn manual_rename_is_applied() {
    let arena = EntityArena {
        nodes: vec![node(1, EntityKind::FuncDecl, b"cvtColor", b"core")],
        roots: vec![0],
    };
    let mut env = env_for(b"core", Vec::new());
    env.config.renames.push((b"cvtColor".to_vec(), b"convert_color".to_vec()));
    let mut pool = NamePool::new();
    let (gen, _) = process_module(&arena, &env, &mut pool);
    assert_eq!(gen[0].identifier, b"convert_color".to_vec());
}

#[test]
fn overloads_get_distinct_deterministic_identifiers() {
    let mut f1 = node(1, EntityKind::FuncDecl, b"resize", b"core");
    f1.member_types = vec![RawType::Named(b"int".to_vec())];
    let mut f2 = node(2, EntityKind::FuncDecl, b"resize", b"core");
    f2.member_types = vec![RawType::Template(
        b"std::vector".to_vec(),
        Box::new(RawType::Named(b"int".to_vec())),
    )];
    let arena = EntityArena { nodes: vec![f1, f2], roots: vec![0, 1] };
    let env = env_for(b"core", Vec::new());
    let mut pool = NamePool::new();
    let (gen, _) = process_module(&arena, &env, &mut pool);
    assert_eq!(gen.len(), 2);
    assert_eq!(gen[0].identifier, b"resize".to_vec());
    // the second overload is disambiguated by its parameter-type summary
    assert_eq!(gen[1].identifier, b"resize_vp".to_vec());
    assert_ne!(gen[0].identifier, gen[1].identifier);
}

#[test]
fn regenerating_unchanged_input_is_byte_identical() {
    let build = || {
        let mut class_a = node(10, EntityKind::ClassDecl, b"A", b"core");
        class_a.member_types = vec![RawType::Named(b"int".to_vec())];
        let mut f = node(11, EntityKind::FuncDecl, b"f", b"core");
        f.ty = Some(RawType::Named(b"A".to_vec()));
        let arena = EntityArena { nodes: vec![class_a, f], roots: vec![0, 1] };
        let env =
            env_for(b"core", vec![SymbolEntry { name: b"A".to_vec(), key: 10, is_enum: false }]);
        let mut pool = NamePool::new();
        process_module(&arena, &env, &mut pool)
    };
    let (gen1, diags1) = build();
    let (gen2, diags2) = build();
    assert_eq!(gen1.len(), gen2.len());
    assert_eq!(diags1.len(), diags2.len());
    for (a, b) in gen1.iter().zip(gen2.iter()) {
        assert_eq!(a.key, b.key);
        assert_eq!(a.identifier, b.identifier);
        assert_eq!(a.deps, b.deps);
    }
}

#[test]
fn base_classes_become_dependencies() {
    let mut derived = node(20, EntityKind::ClassDecl, b"Derived", b"core");
    derived.bases = vec![b"Base".to_vec()];
    let arena = EntityArena { nodes: vec![derived], roots: vec![0] };
    let env =
        env_for(b"core", vec![SymbolEntry { name: b"Base".to_vec(), key: 5, is_enum: false }]);
    let mut pool = NamePool::new();
    let (gen, _) = process_module(&arena, &env, &mut pool);
    assert_eq!(gen[0].deps, vec![5]);
}

#[test]
fn element_kinds_are_classified() {
    let arena = EntityArena {
        nodes: vec![
            node(1, EntityKind::ClassDecl, b"A", b"core"),
            node(2, EntityKind::EnumDecl, b"E", b"core"),
            node(3, EntityKind::FuncDecl, b"f", b"core"),
            node(4, EntityKind::TypedefDecl, b"T", b"core"),
            node(5, EntityKind::ConstDecl, b"C", b"core"),
        ],
        roots: vec![0, 1, 2, 3, 4],
    };
    let env = env_for(b"core", Vec::new());
    let mut pool = NamePool::new();
    let (gen, diags) = process_module(&arena, &env, &mut pool);
    assert!(diags.is_empty());
    assert_eq!(gen.len(), 5);
    assert!(matches!(gen[0].kind, ElementKind::Class));
    assert!(matches!(gen[1].kind, ElementKind::Enum));
    assert!(matches!(gen[2].kind, ElementKind::Func));
    assert!(matches!(gen[3].kind, ElementKind::Typedef));
    assert!(matches!(gen[4].kind, ElementKind::Const));
}
