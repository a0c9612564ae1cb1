use bitf::bitfield::rsplit;
use bitf::text::parse_width;
use bitf::{BitField, Error, FieldDecl, Strukt, TypeShape, TypeToken, Visibility};

fn decl(name: &str, ty: TypeToken) -> FieldDecl {
    FieldDecl { name: name.to_string(), ty, vis: Visibility::Public }
}

fn unit_decl(name: &str) -> FieldDecl {
    decl(name, TypeToken::Tuple(0))
}

fn malformed(name: &str) -> Error {
    Error::MalformedFieldName { field: name.to_string() }
}

#[test]
fn rsplit_cuts_at_the_last_underscore() {
    assert_eq!(rsplit("field_a_12"), Ok(("field_a", "12")));
    assert_eq!(rsplit("a_1"), Ok(("a", "1")));
    assert_eq!(rsplit("_reserved_3"), Ok(("_reserved", "3")));
}

#[test]
fn rsplit_keeps_empty_parts() {
    assert_eq!(rsplit("_5"), Ok(("", "5")));
    assert_eq!(rsplit("abc_"), Ok(("abc", "")));
    assert_eq!(rsplit("_"), Ok(("", "")));
}

#[test]
fn rsplit_needs_an_underscore() {
    assert_eq!(rsplit("field12"), Err(malformed("field12")));
    assert_eq!(rsplit(""), Err(malformed("")));
}

#[test]
fn rsplit_counts_characters_not_bytes() {
    assert_eq!(rsplit("größe_4"), Ok(("größe", "4")));
}

#[test]
fn width_is_a_decimal_number() {
    assert_eq!(parse_width("0"), Some(0));
    assert_eq!(parse_width("7"), Some(7));
    assert_eq!(parse_width("128"), Some(128));
    assert_eq!(parse_width("007"), Some(7));
}

#[test]
fn width_may_carry_a_plus_sign() {
    assert_eq!(parse_width("+12"), Some(12));
    assert_eq!(parse_width("+"), None);
    assert_eq!(parse_width("++1"), None);
}

#[test]
fn width_rejects_what_is_no_number() {
    assert_eq!(parse_width(""), None);
    assert_eq!(parse_width("-1"), None);
    assert_eq!(parse_width("1x"), None);
    assert_eq!(parse_width("x1"), None);
    assert_eq!(parse_width(" 1"), None);
    assert_eq!(parse_width("٣"), None);
}

#[test]
fn width_must_fit_the_machine_word() {
    let max = usize::MAX.to_string();
    assert_eq!(parse_width(&max), Some(usize::MAX));
    assert_eq!(parse_width("340282366920938463463374607431768211456"), None);
    let mut above = max.clone();
    above.push('0');
    assert_eq!(parse_width(&above), None);
}

#[test]
fn field_is_read_from_its_declaration() {
    let field = BitField::try_from(&decl("field_a_3", TypeToken::Path("u16".to_string())));
    assert_eq!(
        field,
        Ok(BitField {
            name: "field_a".to_string(),
            bsize: 3,
            pos: 0,
            skip: false,
            ty: TypeShape::PrimitiveInteger { width: 16, signed: false },
            vis: Visibility::Public,
        })
    );
}

#[test]
fn field_keeps_its_visibility() {
    let private = FieldDecl {
        name: "a_1".to_string(),
        ty: TypeToken::Tuple(0),
        vis: Visibility::Private,
    };
    assert_eq!(BitField::try_from(&private).unwrap().vis, Visibility::Private);
    assert_eq!(BitField::try_from(&unit_decl("a_1")).unwrap().vis, Visibility::Public);
}

#[test]
fn field_without_width_is_malformed() {
    assert_eq!(BitField::try_from(&unit_decl("fieldA")), Err(malformed("fieldA")));
    assert_eq!(BitField::try_from(&unit_decl("field_a")), Err(malformed("field_a")));
    assert_eq!(BitField::try_from(&unit_decl("field_")), Err(malformed("field_")));
    assert_eq!(BitField::try_from(&unit_decl("field_1_")), Err(malformed("field_1_")));
    assert_eq!(BitField::try_from(&unit_decl("field_-1")), Err(malformed("field_-1")));
}

#[test]
fn reserved_marker_is_matched_exactly() {
    assert!(BitField::try_from(&unit_decl("_reserved_2")).unwrap().skip);
    assert!(!BitField::try_from(&unit_decl("_res_2")).unwrap().skip);
    assert!(!BitField::try_from(&unit_decl("reserved_2")).unwrap().skip);
    assert!(!BitField::try_from(&unit_decl("__reserved_2")).unwrap().skip);
    assert!(!BitField::try_from(&unit_decl("_reserved_x_2")).unwrap().skip);
    assert!(!BitField::try_from(&unit_decl("_Reserved_2")).unwrap().skip);
}

#[test]
fn zero_width_and_empty_label_are_read() {
    let field = BitField::try_from(&unit_decl("_0")).unwrap();
    assert_eq!(field.name, "");
    assert_eq!(field.bsize, 0);
    assert!(!field.skip);
}

#[test]
fn primitive_integers_are_recognised() {
    let cases = [
        ("u8", 8, false),
        ("u16", 16, false),
        ("u32", 32, false),
        ("u64", 64, false),
        ("u128", 128, false),
        ("i8", 8, true),
        ("i16", 16, true),
        ("i32", 32, true),
        ("i64", 64, true),
        ("i128", 128, true),
    ];
    for (name, width, signed) in cases {
        assert_eq!(
            TypeToken::Path(name.to_string()).classify(),
            TypeShape::PrimitiveInteger { width, signed }
        );
    }
}

#[test]
fn other_types_are_classified() {
    assert_eq!(TypeToken::Tuple(0).classify(), TypeShape::ContainerAlias);
    assert_eq!(TypeToken::Tuple(1).classify(), TypeShape::Unsupported);
    assert_eq!(TypeToken::Tuple(3).classify(), TypeShape::Unsupported);
    assert_eq!(TypeToken::Other.classify(), TypeShape::Unsupported);
    assert_eq!(
        TypeToken::Path("CustomStr".to_string()).classify(),
        TypeShape::Custom("CustomStr".to_string())
    );
    assert_eq!(
        TypeToken::Path("usize".to_string()).classify(),
        TypeShape::Custom("usize".to_string())
    );
    assert_eq!(TypeToken::Path("U8".to_string()).classify(), TypeShape::Custom("U8".to_string()));
}

#[test]
fn unsupported_type_is_no_parse_error() {
    let strukt = Strukt::parse("S", Visibility::Public, &vec![decl("a_1", TypeToken::Tuple(2))]);
    assert_eq!(strukt.unwrap().bfields[0].ty, TypeShape::Unsupported);
}

#[test]
fn strukt_keeps_declaration_order() {
    let fields = vec![unit_decl("c_3"), unit_decl("_reserved_1"), unit_decl("a_2"), unit_decl("b_2")];
    let strukt = Strukt::parse("Ordered", Visibility::Private, &fields).unwrap();
    assert_eq!(strukt.name, "Ordered");
    assert_eq!(strukt.vis, Visibility::Private);
    let names: Vec<&str> = strukt.bfields.iter().map(|f| f.name.as_str()).collect();
    assert_eq!(names, vec!["c", "_reserved", "a", "b"]);
    let sizes: Vec<usize> = strukt.bfields.iter().map(|f| f.bsize).collect();
    assert_eq!(sizes, vec![3, 1, 2, 2]);
    assert!(strukt.bfields.iter().all(|f| f.pos == 0));
}

#[test]
fn strukt_map_is_reversed_and_marks_reserved() {
    let fields = vec![unit_decl("c_3"), unit_decl("_reserved_1"), unit_decl("a_2"), unit_decl("b_2")];
    let strukt = Strukt::parse("Ordered", Visibility::Private, &fields).unwrap();
    assert_eq!(strukt.map, vec![(2, 1), (2, 1), (1, 0), (3, 1)]);
}

#[test]
fn strukt_reports_the_first_bad_field() {
    let fields = vec![unit_decl("a_1"), unit_decl("bad"), unit_decl("worse_x")];
    assert_eq!(Strukt::parse("S", Visibility::Public, &fields), Err(malformed("bad")));
}

#[test]
fn strukt_without_fields_is_empty() {
    let strukt = Strukt::parse("Empty", Visibility::Public, &vec![]).unwrap();
    assert!(strukt.bfields.is_empty());
    assert!(strukt.map.is_empty());
    assert!(strukt.is_large_enough(0));
}

#[test]
fn update_pos_changes_the_position_only() {
    let mut field = BitField::try_from(&unit_decl("a_3")).unwrap();
    let before = field.clone();
    field.update_pos(5);
    assert_eq!(field, BitField { pos: 5, ..before });
}

#[test]
fn duplicate_is_equal() {
    let field = BitField::try_from(&decl("a_3", TypeToken::Path("Mine".to_string()))).unwrap();
    assert_eq!(field.duplicate(), field);
}
