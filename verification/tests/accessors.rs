use bitf::bits::{mask_of, ones, shift_left, shift_right, signed_of};
use bitf::{
    bitf, generate_impl_code, Accessor, BitField, Endianness, Error, FieldDecl, Layout, MacroParams,
    Strukt, TypeShape, TypeToken, Value, Visibility,
};

fn unit(name: &str) -> FieldDecl {
    FieldDecl { name: name.to_string(), ty: TypeToken::Tuple(0), vis: Visibility::Public }
}

fn typed(name: &str, ty: &str) -> FieldDecl {
    FieldDecl { name: name.to_string(), ty: TypeToken::Path(ty.to_string()), vis: Visibility::Public }
}

fn params(size: usize, endianness: Endianness) -> MacroParams {
    MacroParams { bitfield_size: size, endianness, ty: format!("u{}", size), no_pub: false, pprint: false }
}

fn layout_of(size: usize, endianness: Endianness, fields: Vec<FieldDecl>) -> Layout {
    let strukt = Strukt::parse("S", Visibility::Public, &fields).unwrap();
    bitf(&params(size, endianness), &strukt, &vec![]).unwrap()
}

fn planned(name: &str, bsize: usize, pos: usize, ty: TypeShape) -> BitField {
    BitField { name: name.to_string(), bsize, pos, skip: false, ty, vis: Visibility::Public }
}

#[test]
fn scenario_five_fields_in_a_byte() {
    let layout = layout_of(
        8,
        Endianness::Lsb,
        vec![unit("a_1"), unit("b_1"), unit("c_2"), unit("d_2"), unit("reserved_2")],
    );
    let positions: Vec<usize> = layout.fields.iter().map(|f| f.pos).collect();
    assert_eq!(positions, vec![0, 1, 2, 4, 6]);
    let mut raw: u128 = 0;
    raw = layout.set(raw, "a", 1).unwrap();
    raw = layout.set(raw, "d", 3).unwrap();
    assert_eq!(raw, 0b00110001);
    assert_eq!(raw, 49);
}

#[test]
fn scenario_with_the_reserved_marker() {
    let layout = layout_of(
        8,
        Endianness::Lsb,
        vec![unit("a_1"), unit("b_1"), unit("c_2"), unit("d_2"), unit("_reserved_2")],
    );
    assert_eq!(layout.accessors.len(), 4);
    assert_eq!(layout.fields[4].pos, 6);
    let mut raw: u128 = 0;
    raw = layout.set(raw, "a", 1).unwrap();
    raw = layout.set(raw, "d", 3).unwrap();
    assert_eq!(raw, 49);
    assert_eq!(layout.set(raw, "_reserved", 1), None);
    assert_eq!(layout.get(raw, "_reserved"), None);
}

#[test]
fn masks_follow_the_formula() {
    assert_eq!(mask_of(8, 2, 4), 0b0011_0000);
    assert_eq!(mask_of(8, 8, 0), 0xff);
    assert_eq!(mask_of(8, 1, 7), 0x80);
    assert_eq!(mask_of(16, 5, 3), 0b1111_1000);
    assert_eq!(mask_of(64, 1, 63), 1 << 63);
    assert_eq!(mask_of(128, 128, 0), u128::MAX);
    assert_eq!(mask_of(128, 1, 127), 1 << 127);
    assert_eq!(mask_of(32, 0, 7), 0);
    assert_eq!(mask_of(128, 0, 128), 0);
}

#[test]
fn shifts_of_a_whole_word_leave_nothing() {
    assert_eq!(shift_left(1, 127), 1 << 127);
    assert_eq!(shift_left(u128::MAX, 128), 0);
    assert_eq!(shift_left(u128::MAX, 4000), 0);
    assert_eq!(shift_right(u128::MAX, 127), 1);
    assert_eq!(shift_right(u128::MAX, 128), 0);
    assert_eq!(shift_left(0b101, 3), 0b101000);
    assert_eq!(shift_right(0b101000, 3), 0b101);
}

#[test]
fn all_ones_of_each_container() {
    assert_eq!(ones(0), 0);
    assert_eq!(ones(1), 1);
    assert_eq!(ones(8), u8::MAX as u128);
    assert_eq!(ones(16), u16::MAX as u128);
    assert_eq!(ones(32), u32::MAX as u128);
    assert_eq!(ones(64), u64::MAX as u128);
    assert_eq!(ones(128), u128::MAX);
    assert_eq!(ones(500), u128::MAX);
}

#[test]
fn signed_reading_matches_the_primitive_casts() {
    for value in [0u128, 1, 127, 128, 200, 255, 256, 0xabcd, u128::MAX, 1 << 127, (1 << 127) - 1] {
        assert_eq!(signed_of(value, 8), value as i8 as i128);
        assert_eq!(signed_of(value, 16), value as i16 as i128);
        assert_eq!(signed_of(value, 32), value as i32 as i128);
        assert_eq!(signed_of(value, 64), value as i64 as i128);
        assert_eq!(signed_of(value, 128), value as i128);
    }
    assert_eq!(signed_of(200, 8), -56);
    assert_eq!(signed_of(5, 0), 0);
    assert_eq!(signed_of(0b111, 3), -1);
    assert_eq!(signed_of(0b011, 3), 3);
}

#[test]
fn round_trip_of_every_value_of_every_field() {
    for endianness in [Endianness::Lsb, Endianness::Msb] {
        let layout = layout_of(
            16,
            endianness,
            vec![unit("a_3"), unit("_reserved_2"), unit("b_5"), unit("c_1"), unit("d_4")],
        );
        for accessor in layout.accessors.iter() {
            for raw in [0u128, 0xffff, 0xa5a5, 0x1234] {
                for value in 0..(1u128 << accessor.bsize) {
                    let written = accessor.set(raw, value);
                    assert_eq!(accessor.extract(written), value);
                    assert_eq!(accessor.get(written), Value::Unsigned(value));
                }
            }
        }
    }
}

#[test]
fn writing_in_range_leaves_the_other_fields() {
    for endianness in [Endianness::Lsb, Endianness::Msb] {
        let layout = layout_of(
            16,
            endianness,
            vec![unit("a_3"), unit("_reserved_2"), unit("b_5"), unit("c_1"), unit("d_4")],
        );
        for (i, written) in layout.accessors.iter().enumerate() {
            for raw in [0u128, 0xffff, 0xa5a5, 0x1234] {
                for value in 0..(1u128 << written.bsize) {
                    let after = written.set(raw, value);
                    for (j, other) in layout.accessors.iter().enumerate() {
                        if i != j {
                            assert_eq!(other.extract(after), other.extract(raw));
                        }
                    }
                }
            }
        }
    }
}

#[test]
fn writing_in_range_leaves_reserved_bits() {
    let layout = layout_of(8, Endianness::Lsb, vec![unit("a_3"), unit("_reserved_2"), unit("b_3")]);
    let raw: u128 = 0b000_11_000;
    let after = layout.set(raw, "a", 0b101).unwrap();
    assert_eq!(after, 0b000_11_101);
    let after = layout.set(after, "b", 0b110).unwrap();
    assert_eq!(after, 0b110_11_101);
}

#[test]
fn value_wider_than_its_field_spills_into_the_next() {
    let layout = layout_of(8, Endianness::Lsb, vec![unit("a_2"), unit("b_2"), unit("c_4")]);
    let raw = layout.set(0, "a", 0b111).unwrap();
    assert_eq!(raw, 0b0000_0111);
    assert_eq!(layout.get(raw, "a"), Some(Value::Unsigned(0b11)));
    assert_eq!(layout.get(raw, "b"), Some(Value::Unsigned(0b01)));
    assert_eq!(layout.get(raw, "c"), Some(Value::Unsigned(0)));
}

#[test]
fn spilled_bits_are_merged_not_written() {
    let layout = layout_of(8, Endianness::Lsb, vec![unit("a_2"), unit("b_2"), unit("c_4")]);
    let raw = layout.set(0, "b", 0b10).unwrap();
    assert_eq!(raw, 0b0000_1000);
    let raw = layout.set(raw, "a", 0b0100).unwrap();
    assert_eq!(raw, 0b0000_1100);
    assert_eq!(layout.get(raw, "a"), Some(Value::Unsigned(0)));
    assert_eq!(layout.get(raw, "b"), Some(Value::Unsigned(0b11)));
    let raw = layout.set(0b1111_1111, "a", 0xf0).unwrap();
    assert_eq!(raw, 0b1111_1100);
}

#[test]
fn spill_in_msb_order_reaches_the_field_declared_before() {
    let layout = layout_of(8, Endianness::Msb, vec![unit("a_4"), unit("b_2"), unit("c_2")]);
    let raw = layout.set(0, "c", 0b101).unwrap();
    assert_eq!(raw, 0b0000_0101);
    assert_eq!(layout.get(raw, "c"), Some(Value::Unsigned(0b01)));
    assert_eq!(layout.get(raw, "b"), Some(Value::Unsigned(0b01)));
    assert_eq!(layout.get(raw, "a"), Some(Value::Unsigned(0)));
}

#[test]
fn what_leaves_the_container_is_dropped() {
    let layout = layout_of(8, Endianness::Lsb, vec![unit("a_4"), unit("b_4")]);
    let raw = layout.set(0, "b", 0xfff).unwrap();
    assert_eq!(raw, 0xf0);
    let raw = layout.set(0xabcd_00, "a", 0x3).unwrap();
    assert_eq!(raw, 0x03);
}

#[test]
fn msb_layout_reads_and_writes() {
    let layout = layout_of(
        8,
        Endianness::Msb,
        vec![unit("a_1"), unit("b_1"), unit("c_2"), unit("d_2"), unit("_reserved_2")],
    );
    let mut raw: u128 = 0;
    raw = layout.set(raw, "a", 1).unwrap();
    raw = layout.set(raw, "d", 3).unwrap();
    assert_eq!(raw, 0b1000_1100);
    assert_eq!(layout.get(raw, "a"), Some(Value::Unsigned(1)));
    assert_eq!(layout.get(raw, "b"), Some(Value::Unsigned(0)));
    assert_eq!(layout.get(raw, "d"), Some(Value::Unsigned(3)));
}

#[test]
fn full_width_field_of_the_widest_container() {
    let layout = layout_of(128, Endianness::Lsb, vec![typed("all_128", "i128")]);
    let raw = layout.set(0, "all", u128::MAX).unwrap();
    assert_eq!(raw, u128::MAX);
    assert_eq!(layout.get(raw, "all"), Some(Value::Signed(-1)));
    let layout = layout_of(128, Endianness::Msb, vec![unit("hi_1"), unit("rest_127")]);
    let raw = layout.set(0, "hi", 1).unwrap();
    assert_eq!(raw, 1 << 127);
    assert_eq!(layout.get(raw, "rest"), Some(Value::Unsigned(0)));
}

#[test]
fn zero_width_field_reads_zero() {
    let layout = layout_of(8, Endianness::Lsb, vec![unit("a_4"), unit("none_0"), unit("b_4")]);
    assert_eq!(layout.accessors[1].mask, 0);
    assert_eq!(layout.get(0xff, "none"), Some(Value::Unsigned(0)));
    assert_eq!(layout.set(0xa5, "none", 0), Some(0xa5));
    let top = layout_of(128, Endianness::Lsb, vec![unit("a_128"), unit("none_0")]);
    assert_eq!(top.accessors[1].pos, 128);
    assert_eq!(top.set(7, "none", 1), Some(7));
    assert_eq!(top.get(u128::MAX, "none"), Some(Value::Unsigned(0)));
}

#[test]
fn getter_casts_to_its_primitive() {
    let layout = layout_of(
        32,
        Endianness::Lsb,
        vec![typed("wide_12", "u8"), typed("byte_8", "i8"), typed("small_4", "i16"), typed("rest_8", "u64")],
    );
    let mut raw: u128 = 0;
    raw = layout.set(raw, "wide", 0xabc).unwrap();
    raw = layout.set(raw, "byte", 200).unwrap();
    raw = layout.set(raw, "small", 0xf).unwrap();
    raw = layout.set(raw, "rest", 0x7e).unwrap();
    assert_eq!(layout.get(raw, "wide"), Some(Value::Unsigned(0xbc)));
    assert_eq!(layout.get(raw, "byte"), Some(Value::Signed(-56)));
    assert_eq!(layout.get(raw, "small"), Some(Value::Signed(15)));
    assert_eq!(layout.get(raw, "rest"), Some(Value::Unsigned(0x7e)));
    assert_eq!(layout.accessors[0].extract(raw), 0xabc);
}

#[test]
fn custom_type_reads_the_container_integer() {
    let fields = vec![unit("a_4"), typed("b_4", "Mode")];
    let strukt = Strukt::parse("S", Visibility::Public, &fields).unwrap();
    let layout = bitf(&params(8, Endianness::Lsb), &strukt, &vec!["Mode".to_string()]).unwrap();
    assert_eq!(layout.accessors[1].ty, TypeShape::Custom("Mode".to_string()));
    assert_eq!(layout.get(0xc3, "b"), Some(Value::Unsigned(0xc)));
}

#[test]
fn custom_type_needs_a_conversion() {
    let fields = vec![unit("a_4"), typed("b_4", "Mode")];
    let strukt = Strukt::parse("S", Visibility::Public, &fields).unwrap();
    let missing = Err(Error::MissingConversion { identifier: "Mode".to_string() });
    assert_eq!(bitf(&params(8, Endianness::Lsb), &strukt, &vec![]), missing);
    assert_eq!(bitf(&params(8, Endianness::Lsb), &strukt, &vec!["Other".to_string()]), missing);
    assert_eq!(bitf(&params(8, Endianness::Lsb), &strukt, &vec!["mode".to_string()]), missing);
    let known = vec!["Other".to_string(), "Mode".to_string()];
    assert!(bitf(&params(8, Endianness::Lsb), &strukt, &known).is_ok());
}

#[test]
fn unsupported_type_fails_the_generation() {
    let fields = vec![
        unit("a_4"),
        FieldDecl { name: "pair_2".to_string(), ty: TypeToken::Tuple(2), vis: Visibility::Public },
        FieldDecl { name: "other_2".to_string(), ty: TypeToken::Other, vis: Visibility::Public },
    ];
    let strukt = Strukt::parse("S", Visibility::Public, &fields).unwrap();
    assert_eq!(
        bitf(&params(8, Endianness::Lsb), &strukt, &vec![]),
        Err(Error::UnsupportedReturnType { field: "pair".to_string() })
    );
}

#[test]
fn first_type_error_in_declaration_order_wins() {
    let fields = vec![
        typed("a_2", "Mode"),
        FieldDecl { name: "b_2".to_string(), ty: TypeToken::Other, vis: Visibility::Public },
    ];
    let strukt = Strukt::parse("S", Visibility::Public, &fields).unwrap();
    for endianness in [Endianness::Lsb, Endianness::Msb] {
        assert_eq!(
            bitf(&params(8, endianness), &strukt, &vec![]),
            Err(Error::MissingConversion { identifier: "Mode".to_string() })
        );
    }
}

#[test]
fn reserved_field_has_no_type_to_check() {
    let fields = vec![
        unit("a_4"),
        FieldDecl { name: "_reserved_2".to_string(), ty: TypeToken::Tuple(3), vis: Visibility::Public },
        FieldDecl { name: "_reserved_1".to_string(), ty: TypeToken::Path("Nobody".to_string()), vis: Visibility::Public },
    ];
    let strukt = Strukt::parse("S", Visibility::Public, &fields).unwrap();
    let layout = bitf(&params(8, Endianness::Lsb), &strukt, &vec![]).unwrap();
    assert_eq!(layout.accessors.len(), 1);
    assert_eq!(layout.fields.len(), 3);
}

#[test]
fn fit_is_checked_before_the_types() {
    let fields = vec![
        FieldDecl { name: "a_9".to_string(), ty: TypeToken::Other, vis: Visibility::Public },
    ];
    let strukt = Strukt::parse("S", Visibility::Public, &fields).unwrap();
    assert_eq!(
        bitf(&params(8, Endianness::Lsb), &strukt, &vec![]),
        Err(Error::LayoutOverflow { excess: 1 })
    );
}

#[test]
fn unknown_field_has_no_accessor() {
    let layout = layout_of(8, Endianness::Lsb, vec![unit("a_4"), unit("b_4")]);
    assert_eq!(layout.find("a"), Some(0));
    assert_eq!(layout.find("b"), Some(1));
    assert_eq!(layout.find("c"), None);
    assert_eq!(layout.find("set_a"), None);
    assert_eq!(layout.find("a_4"), None);
    assert_eq!(layout.get(0, "c"), None);
    assert_eq!(layout.set(0, "c", 1), None);
}

#[test]
fn first_of_two_fields_with_one_name_is_found() {
    let layout = layout_of(8, Endianness::Lsb, vec![unit("a_4"), unit("a_2")]);
    assert_eq!(layout.accessors.len(), 2);
    assert_eq!(layout.find("a"), Some(0));
    assert_eq!(layout.set(0, "a", 0xf), Some(0x0f));
}

#[test]
fn accessors_skip_reserved_fields_directly() {
    let fields = vec![
        planned("a", 2, 0, TypeShape::ContainerAlias),
        BitField {
            name: "_reserved".to_string(),
            bsize: 3,
            pos: 2,
            skip: true,
            ty: TypeShape::Unsupported,
            vis: Visibility::Public,
        },
        planned("b", 3, 5, TypeShape::PrimitiveInteger { width: 8, signed: false }),
    ];
    let accessors = generate_impl_code(&fields, 8, &vec![]).unwrap();
    assert_eq!(accessors.len(), 2);
    assert_eq!(accessors[0].name, "a");
    assert_eq!(accessors[1].name, "b");
    assert_eq!(accessors[1].mask, 0b1110_0000);
}

#[test]
fn compile_derives_names_mask_and_type() {
    let field = BitField {
        name: "flag".to_string(),
        bsize: 3,
        pos: 9,
        skip: false,
        ty: TypeShape::PrimitiveInteger { width: 16, signed: true },
        vis: Visibility::Private,
    };
    assert_eq!(
        Accessor::compile(&field, 16, &vec![]),
        Ok(Accessor {
            name: "flag".to_string(),
            setter: "set_flag".to_string(),
            bsize: 3,
            pos: 9,
            container: 16,
            mask: 0b0000_1110_0000_0000,
            ty: TypeShape::PrimitiveInteger { width: 16, signed: true },
            vis: Visibility::Private,
        })
    );
}

#[test]
fn compile_reports_the_type_error() {
    let bad = planned("x", 1, 0, TypeShape::Unsupported);
    assert_eq!(
        Accessor::compile(&bad, 8, &vec![]),
        Err(Error::UnsupportedReturnType { field: "x".to_string() })
    );
    let custom = planned("y", 1, 0, TypeShape::Custom("T".to_string()));
    assert_eq!(
        Accessor::compile(&custom, 8, &vec!["U".to_string()]),
        Err(Error::MissingConversion { identifier: "T".to_string() })
    );
    assert!(Accessor::compile(&custom, 8, &vec!["U".to_string(), "T".to_string()]).is_ok());
}

#[test]
fn conversion_gets_the_field_as_the_container_integer() {
    let fields = vec![unit("a_4"), typed("b_4", "Mode")];
    let strukt = Strukt::parse("S", Visibility::Public, &fields).unwrap();
    let layout = bitf(&params(8, Endianness::Lsb), &strukt, &vec!["Mode".to_string()]).unwrap();
    let text = layout.accessors[1].get_into(0xc3, |bits| format!("mode {}", bits));
    assert_eq!(text, "mode 12");
    assert_eq!(layout.get_into(0xc3, "b", |bits| bits as u8 + 1), Some(13));
    assert_eq!(layout.get_into(0xc3, "missing", |bits| bits), None);
}
