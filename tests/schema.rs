use steit::object::{Object, Variant};
use steit::runtime::{Entry, Graph, Op, Runtime};
use steit::schema::{validate_record, validate_union, DeriveSetting, Enum, FieldDecl, SchemaError, VariantDecl};
use steit::varint::{unzigzag_i64, zigzag_i64, DecodeError};
use steit::wire::{Field, FieldValue};

fn int_decl(tag: Option<u16>, default: i64) -> FieldDecl {
    FieldDecl { tag, default: FieldValue::Varint(zigzag_i64(default)), runtime: false }
}

fn runtime_decl() -> FieldDecl {
    FieldDecl { tag: None, default: FieldValue::Varint(0), runtime: true }
}

fn int_of(f: &Field) -> i64 {
    match f.value {
        FieldValue::Varint(z) => unzigzag_i64(z),
        FieldValue::Sized(_) => panic!("not a varint"),
    }
}

fn variant_shapes() -> Vec<Variant> {
    let foo = validate_record(&vec![runtime_decl(), int_decl(Some(4), 0)], &vec![], true).unwrap();
    let bar = validate_record(
        &vec![runtime_decl(), FieldDecl { tag: Some(5), default: FieldValue::Varint(0), runtime: false }],
        &vec![],
        true,
    )
    .unwrap();
    vec![Variant { tag: 27, fields: foo }, Variant { tag: 28, fields: bar }]
}

#[test]
fn derive_setting_implications() {
    let s = DeriveSetting::from_flags(false, false, false, true, false, false);
    assert!(s.serialize && s.merge && s.deserialize && s.state);
    assert!(s.ctors() && s.setters() && s.default() && s.runtimed());
    let d = DeriveSetting::from_flags(false, false, true, false, true, false);
    assert!(d.merge && d.deserialize && !d.serialize);
    assert!(d.ctors() && !d.setters() && !d.runtimed());
    let n = DeriveSetting::from_flags(true, false, false, false, false, true);
    assert!(n.setters() && !n.ctors() && !n.default() && n.own_crate);
}

#[test]
fn duplicate_tag_rejected() {
    let decls = vec![runtime_decl(), int_decl(Some(0), 1), int_decl(Some(0), 2)];
    assert_eq!(
        validate_record(&decls, &vec![], true),
        Err(vec![SchemaError::DuplicateTag { tag: 0, index: 2 }])
    );
}

#[test]
fn reserved_tag_rejected() {
    let decls = vec![runtime_decl(), int_decl(Some(3), 1)];
    assert_eq!(
        validate_record(&decls, &vec![3], true),
        Err(vec![SchemaError::ReservedTag { tag: 3, index: 1 }])
    );
}

#[test]
fn auto_tag_colliding_with_explicit_rejected() {
    // the second field takes its position, 1, which the first claims
    let decls = vec![int_decl(Some(1), 0), int_decl(None, 0)];
    assert_eq!(
        validate_record(&decls, &vec![], false),
        Err(vec![SchemaError::DuplicateTag { tag: 1, index: 1 }])
    );
    let ok = validate_record(&vec![int_decl(None, 0), int_decl(Some(5), 0)], &vec![], false).unwrap();
    assert_eq!(ok[0].tag, 0);
    assert_eq!(ok[1].tag, 5);
}

#[test]
fn runtime_field_rules() {
    assert_eq!(
        validate_record(&vec![int_decl(Some(0), 0)], &vec![], true),
        Err(vec![SchemaError::MissingRuntime])
    );
    assert_eq!(
        validate_record(&vec![runtime_decl(), runtime_decl()], &vec![2], true),
        Err(vec![SchemaError::MultipleRuntimes])
    );
    assert!(validate_record(&vec![int_decl(Some(0), 0)], &vec![], false).is_ok());
}

#[test]
fn all_errors_collected() {
    let decls = vec![int_decl(Some(2), 0), int_decl(Some(2), 0), runtime_decl(), runtime_decl()];
    assert_eq!(
        validate_record(&decls, &vec![2], true),
        Err(vec![
            SchemaError::ReservedTag { tag: 2, index: 0 },
            SchemaError::ReservedTag { tag: 2, index: 1 },
            SchemaError::DuplicateTag { tag: 2, index: 1 },
            SchemaError::MultipleRuntimes,
        ])
    );
}

#[test]
fn point_example() {
    let decls = vec![runtime_decl(), int_decl(Some(2), 5), int_decl(Some(3), 10)];
    let fields = validate_record(&decls, &vec![], true).unwrap();
    let mut g = Graph::new();
    let runtime = Runtime::new(&mut g);
    let mut point = Object::new(runtime, fields);
    assert_eq!(int_of(&point.fields[0]), 5);
    assert_eq!(int_of(&point.fields[1]), 10);
    assert_eq!(point.size(&mut g), 4);

    point.set_field(&mut g, 0, FieldValue::Varint(zigzag_i64(100)));
    assert_eq!(int_of(&point.fields[0]), 100);
    assert!(!g.is_cached(point.runtime.node));
    // 100 zig-zags to 200, a two-byte varint
    assert_eq!(point.size(&mut g), 5);
    assert_eq!(g.log, vec![Entry { path: vec![2], op: Op::Update(vec![0xC8, 0x01]) }]);
}

#[test]
fn nested_mutation_invalidates_ancestors_and_logs_in_order() {
    let mut g = Graph::new();
    let root = Runtime::new(&mut g);
    let pos = root.nested(&mut g, 7);
    let decls = vec![runtime_decl(), int_decl(Some(0), 7), int_decl(Some(1), 2)];
    let mut inner = Object::new(pos, validate_record(&decls, &vec![], true).unwrap());
    g.set_cached(root.node, 30);
    assert_eq!(inner.size(&mut g), 4);
    assert!(g.is_cached(inner.runtime.node));

    inner.set_field(&mut g, 0, FieldValue::Varint(zigzag_i64(1)));
    assert!(!g.is_cached(inner.runtime.node));
    assert!(!g.is_cached(root.node));
    inner.set_field(&mut g, 1, FieldValue::Varint(zigzag_i64(-3)));
    inner.set_field(&mut g, 0, FieldValue::Varint(zigzag_i64(64)));
    assert_eq!(
        g.log,
        vec![
            Entry { path: vec![7, 0], op: Op::Update(vec![2]) },
            Entry { path: vec![7, 1], op: Op::Update(vec![5]) },
            Entry { path: vec![7, 0], op: Op::Update(vec![0x80, 0x01]) },
        ]
    );
}

#[test]
fn object_round_trip() {
    let decls = vec![runtime_decl(), int_decl(Some(2), 5), int_decl(Some(3), 10)];
    let mut g = Graph::new();
    let a_rt = Runtime::new(&mut g);
    let mut a = Object::new(a_rt, validate_record(&decls, &vec![], true).unwrap());
    a.set_field(&mut g, 1, FieldValue::Varint(zigzag_i64(-40)));
    let mut bytes = Vec::new();
    a.serialize(&mut bytes);
    assert_eq!(bytes.len() as u32, a.size(&mut g));
    let b_rt = Runtime::new(&mut g);
    let mut b = Object::new(b_rt, validate_record(&decls, &vec![], true).unwrap());
    assert_eq!(b.merge(&mut g, &bytes), Ok(()));
    assert_eq!(b, a);
}

#[test]
fn test() {
    let shapes = variant_shapes();
    let mut g = Graph::new();
    let runtime = Runtime::new(&mut g).nested(&mut g, 16);
    assert_eq!(runtime.path, vec![16]);
    let mut test = Variant::fresh(&shapes, 0);
    assert_eq!(test.size(), 3);

    test.set_field(&shapes, 0, 0, FieldValue::Varint(zigzag_i64(20)));
    assert_eq!(test.tag, 27);
    assert_eq!(int_of(&test.fields[0]), 20);

    test.set_field(&shapes, 1, 0, FieldValue::Varint(10));
    assert_eq!(test, Variant { tag: 28, fields: vec![Field { tag: 5, value: FieldValue::Varint(10) }] });

    test.set_field(&shapes, 0, 0, FieldValue::Varint(zigzag_i64(50)));
    assert_eq!(test.tag, 27);
    assert_eq!(int_of(&test.fields[0]), 50);
}

#[test]
fn variant_round_trip() {
    let shapes = variant_shapes();
    let foo = Variant { tag: 27, fields: vec![Field { tag: 4, value: FieldValue::Varint(zigzag_i64(20)) }] };
    let mut bytes = Vec::new();
    foo.serialize(&mut bytes);
    let back = Variant::deserialize(&shapes, &bytes).unwrap();
    assert_eq!(back.tag, 27);
    assert_eq!(int_of(&back.fields[0]), 20);

    let bar = Variant { tag: 28, fields: vec![Field { tag: 5, value: FieldValue::Varint(10) }] };
    let mut bytes = Vec::new();
    bar.serialize(&mut bytes);
    let back = Variant::deserialize(&shapes, &bytes).unwrap();
    assert_eq!(back, bar);
}

#[test]
fn unknown_variant_rejected() {
    let shapes = variant_shapes();
    assert_eq!(Variant::deserialize(&shapes, &vec![29]), Err(DecodeError::UnknownVariant));
    assert_eq!(Variant::deserialize(&shapes, &vec![]), Err(DecodeError::Truncated));
}

fn variant_decl(tag: Option<u16>, fields: Vec<FieldDecl>) -> VariantDecl {
    VariantDecl { tag, fields, reserved: vec![] }
}

#[test]
fn union_validation() {
    let foo = variant_decl(Some(27), vec![runtime_decl(), int_decl(Some(4), 0)]);
    let bar = variant_decl(Some(28), vec![runtime_decl(), int_decl(Some(5), 0)]);
    let shapes = validate_union(&vec![foo.clone(), bar.clone()], &vec![], true).unwrap();
    assert_eq!(shapes.len(), 2);
    assert_eq!(shapes[0].tag, 27);
    assert_eq!(shapes[1].fields, vec![Field { tag: 5, value: FieldValue::Varint(0) }]);

    assert_eq!(validate_union(&vec![], &vec![], true), Err(vec![SchemaError::NoVariants]));
    assert_eq!(
        validate_union(&vec![foo.clone(), foo.clone()], &vec![27], true),
        Err(vec![
            SchemaError::ReservedVariant { tag: 27, index: 0 },
            SchemaError::ReservedVariant { tag: 27, index: 1 },
            SchemaError::DuplicateVariant { tag: 27, index: 1 },
        ])
    );
    let broken = variant_decl(None, vec![int_decl(Some(1), 0), int_decl(Some(1), 0)]);
    assert_eq!(
        validate_union(&vec![broken], &vec![], true),
        Err(vec![SchemaError::DuplicateTag { tag: 1, index: 1 }, SchemaError::MissingRuntime])
    );
}

#[test]
fn variant_size_matches_encoding() {
    let foo = Variant { tag: 27, fields: vec![Field { tag: 4, value: FieldValue::Varint(zigzag_i64(20)) }] };
    let mut bytes = Vec::new();
    foo.serialize(&mut bytes);
    assert_eq!(bytes, vec![27, 32, 40]);
    assert_eq!(foo.size(), 3);
}

#[test]
fn enum_parse_uses_setting() {
    let stateful = DeriveSetting::from_flags(false, false, false, true, false, false);
    let plain = DeriveSetting::from_flags(true, false, false, false, false, false);
    let decls = vec![variant_decl(Some(27), vec![int_decl(Some(4), 0)])];
    assert_eq!(Enum::parse(&stateful, &decls, &vec![]), Err(vec![SchemaError::MissingRuntime]));
    let e = Enum::parse(&plain, &decls, &vec![]).unwrap();
    assert_eq!(e.setting, plain);
    assert_eq!(e.variants, vec![Variant { tag: 27, fields: vec![Field { tag: 4, value: FieldValue::Varint(0) }] }]);
    assert_eq!(Enum::parse(&plain, &vec![], &vec![]), Err(vec![SchemaError::NoVariants]));
}
