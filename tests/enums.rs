use net_struct_serde::{
    from_slice, Atom, DeriveErr, ElemTy, EnumSchema, Field, IntTy, NetStructDeserializer,
    NetStructSerializer, Schema, SerdeErr, Shape,
};

fn test_enum() -> EnumSchema {
    EnumSchema::new(IntTy::Isize, vec![Some(0), Some(10)]).unwrap()
}

#[test]
fn simple_simple() {
    let e = test_enum();
    const A: usize = 0;
    const A_VAL: isize = 0isize;
    const B: usize = 1;
    const B_VAL: isize = 10isize;
    const A_BYTES: [u8; 8] = A_VAL.to_be_bytes();
    const B_BYTES: [u8; 8] = B_VAL.to_be_bytes();
    let mut a_serializer = NetStructSerializer::new(vec![0u8; A_BYTES.len()]);
    let mut b_serializer = NetStructSerializer::new(vec![0u8; B_BYTES.len()]);
    let mut a_deserializer = NetStructDeserializer::new(A_BYTES.as_slice());
    let mut b_deserializer = NetStructDeserializer::new(B_BYTES.as_slice());
    assert_eq!(A_VAL as u64, e.into_wire(A));
    assert_eq!(B_VAL as u64, e.into_wire(B));
    assert_eq!(Ok(A), e.try_from_wire(A_VAL as u64));
    assert_eq!(Ok(B), e.try_from_wire(B_VAL as u64));
    assert_eq!(Err(SerdeErr::ParseFailed), e.try_from_wire(100isize as u64));
    assert_eq!(Ok(()), e.serialize(A, &mut a_serializer));
    assert_eq!(Ok(()), e.serialize(B, &mut b_serializer));
    assert_eq!(A_BYTES.len(), a_serializer.finalize());
    assert_eq!(B_BYTES.len(), b_serializer.finalize());
    assert_eq!(A_BYTES.to_vec(), a_serializer.into_inner());
    assert_eq!(B_BYTES.to_vec(), b_serializer.into_inner());
    assert_eq!(Ok(A), e.deserialize(&mut a_deserializer));
    assert_eq!(Ok(B), e.deserialize(&mut b_deserializer));
}

#[test]
fn enum_wide_discriminant_bytes() {
    let e = test_enum();
    let mut ser = NetStructSerializer::new(vec![0u8; 8]);
    assert_eq!(e.serialize(1, &mut ser), Ok(()));
    assert_eq!(ser.written(), &[0, 0, 0, 0, 0, 0, 0, 10]);
    let bytes = 100isize.to_be_bytes();
    let mut de = NetStructDeserializer::new(bytes.as_slice());
    assert_eq!(e.deserialize(&mut de), Err(SerdeErr::ParseFailed));
}

#[test]
fn enum_unknown_variant_and_short_buffer() {
    let e = test_enum();
    let mut ser = NetStructSerializer::new(vec![0u8; 8]);
    assert_eq!(e.serialize(2, &mut ser), Err(SerdeErr::ParseFailed));
    assert_eq!(ser.finalize(), 0);
    let mut small = NetStructSerializer::new(vec![0u8; 7]);
    assert_eq!(e.serialize(0, &mut small), Err(SerdeErr::NotEnoughSpace));
    let mut de = NetStructDeserializer::new(&[0, 0, 0]);
    assert_eq!(e.deserialize(&mut de), Err(SerdeErr::Eof));
}

#[test]
fn enum_round_trip_every_variant() {
    let e = EnumSchema::new(IntTy::U8, vec![Some(0xff), Some(0xfe), Some(0xfd)]).unwrap();
    for v in 0..3usize {
        let mut ser = NetStructSerializer::new(vec![0u8; 1]);
        assert_eq!(e.serialize(v, &mut ser), Ok(()));
        let bytes = ser.into_inner();
        let mut de = NetStructDeserializer::new(bytes.as_slice());
        assert_eq!(e.deserialize(&mut de), Ok(v));
    }
    for w in 0..0xfdu64 {
        assert_eq!(e.try_from_wire(w), Err(SerdeErr::ParseFailed));
    }
}

#[test]
fn enum_declaration_errors() {
    assert!(matches!(
        EnumSchema::new(IntTy::U8, vec![Some(1), None]),
        Err(DeriveErr::MissingDiscriminant(1))
    ));
    // 0x101 and 1 meet once cast to one byte
    assert!(matches!(
        EnumSchema::new(IntTy::U8, vec![Some(1), Some(0x101)]),
        Err(DeriveErr::DuplicateDiscriminant(1))
    ));
    assert!(EnumSchema::new(IntTy::U16, vec![Some(1), Some(0x101)]).is_ok());
}

#[test]
fn enum_field_in_record() {
    let e = EnumSchema::new(IntTy::U8, vec![Some(0xff), Some(0xfe), Some(0xfd)]).unwrap();
    let fields = vec![
        Field { ty: ElemTy { atoms: vec![Atom::Int(IntTy::U8)], size: 1 }, shape: Shape::Scalar, phantom: false },
        Field { ty: ElemTy { atoms: vec![Atom::Enum(e)], size: 1 }, shape: Shape::Scalar, phantom: false },
        Field { ty: ElemTy { atoms: vec![Atom::Int(IntTy::I32)], size: 4 }, shape: Shape::Scalar, phantom: false },
    ];
    let schema = Schema::new(fields, None).unwrap();
    let rec = vec![vec![vec![99]], vec![vec![0]], vec![vec![(-655367i32) as u32 as u64]]];
    let bytes = schema.encode_bytes(&rec).unwrap();
    assert_eq!(bytes, vec![99u8, 255, 255, 245, 255, 249]);
    assert_eq!(from_slice(&schema, &bytes), Ok(rec));
    assert_eq!(from_slice(&schema, &[99u8, 7, 255, 245, 255, 249]), Err(SerdeErr::ParseFailed));
    let bad = vec![vec![vec![99]], vec![vec![3]], vec![vec![0]]];
    assert_eq!(schema.encode_bytes(&bad), Err(SerdeErr::ParseFailed));
}
