use net_struct_serde::{
    from_slice, to_vec, Atom, DeriveErr, ElemTy, Field, IntTy, NetStructDeserializer,
    NetStructSerializer, Schema, SerdeErr, Shape, SizeUnit, Step, StructLen,
};

fn scalar(t: IntTy, size: usize) -> Field {
    Field { ty: ElemTy { atoms: vec![Atom::Int(t)], size }, shape: Shape::Scalar, phantom: false }
}

fn array(t: IntTy, size: usize, n: usize) -> Field {
    Field { ty: ElemTy { atoms: vec![Atom::Int(t)], size }, shape: Shape::Array(n), phantom: false }
}

fn vector(t: IntTy, size: usize, cap: usize, len_field: usize, unit: SizeUnit) -> Field {
    Field {
        ty: ElemTy { atoms: vec![Atom::Int(t)], size },
        shape: Shape::Vector { cap, len_field, unit },
        phantom: false,
    }
}

fn one(v: u64) -> Vec<Vec<u64>> {
    vec![vec![v]]
}

fn many(vs: &[u64]) -> Vec<Vec<u64>> {
    vs.iter().map(|v| vec![*v]).collect()
}

fn encode_into(schema: &Schema, rec: &Vec<Vec<Vec<u64>>>, n: usize) -> (Vec<u8>, usize) {
    let mut serializer = NetStructSerializer::new(vec![0u8; n]);
    schema.encode(rec, &mut serializer).unwrap();
    let size = serializer.finalize();
    (serializer.into_inner(), size)
}

// x: u8, y: i8, z: i32
fn simple_schema(struct_len: Option<StructLen>) -> Schema {
    Schema::new(vec![scalar(IntTy::U8, 1), scalar(IntTy::I8, 1), scalar(IntTy::I32, 4)], struct_len).unwrap()
}

#[test]
fn simple() {
    let schema = simple_schema(None);
    let simple_struct = vec![one(99), one((-19i8) as u8 as u64), one((-655367i32) as u32 as u64)];
    const CORRECT_SERIALIZED: [u8; 6] = [99u8, 237u8, 255u8, 245u8, 255u8, 249u8];
    let (serialized, size) = encode_into(&schema, &simple_struct, CORRECT_SERIALIZED.len());
    assert_eq!(size, CORRECT_SERIALIZED.len());
    assert_eq!(serialized, CORRECT_SERIALIZED.to_vec());
    let mut deserializer = NetStructDeserializer::new(CORRECT_SERIALIZED.as_slice());
    let deserialized = schema.decode(&mut deserializer).unwrap();
    assert!(schema.equal(&simple_struct, &deserialized));
    assert_eq!(deserializer.finalize(), CORRECT_SERIALIZED.len());
}

// field1: u8, arr1: [u8; 4], vec1_bytes: u8, vec1: [u16; 8] in bytes,
// vec2_bits: u32, vec2: [u8; 16] in bits, vec3_len: u8, vec3: [{x: u8, y: u8}; 4]
fn sample_schema() -> Schema {
    let other = ElemTy { atoms: vec![Atom::Int(IntTy::U8), Atom::Int(IntTy::U8)], size: 2 };
    Schema::new(
        vec![
            scalar(IntTy::U8, 1),
            array(IntTy::U8, 1, 4),
            scalar(IntTy::U8, 1),
            vector(IntTy::U16, 2, 8, 2, SizeUnit::Bytes),
            scalar(IntTy::U32, 4),
            vector(IntTy::U8, 1, 16, 4, SizeUnit::Bits),
            scalar(IntTy::U8, 1),
            Field { ty: other, shape: Shape::Vector { cap: 4, len_field: 6, unit: SizeUnit::Length }, phantom: false },
        ],
        None,
    )
    .unwrap()
}

#[test]
fn sample() {
    let schema = sample_schema();
    let s = vec![
        one(99),
        many(&[1, 2, 3, 4]),
        one(6),
        many(&[4, 5, 6, 7, 8, 9, 10, 11]),
        one(8),
        many(&[73, 75, 75, 75, 75, 75, 75, 75, 75, 75, 75, 75, 75, 75, 75, 75]),
        one(2),
        vec![vec![11, 13], vec![17, 19], vec![23, 31], vec![37, 51]],
    ];
    const CORRECT_SERIALIZED: [u8; 24] = [
        99, 1, 2, 3, 4, 6, 0, 4, 0, 5, 0, 6, 0, 0, 0, 8, 73, 2, 11, 13, 17, 19, 0, 0,
    ];
    let (serialized, _) = encode_into(&schema, &s, CORRECT_SERIALIZED.len());
    assert_eq!(serialized, CORRECT_SERIALIZED.to_vec());
    let mut deserializer = NetStructDeserializer::new(&CORRECT_SERIALIZED);
    let deserialized = schema.decode(&mut deserializer).unwrap();
    assert!(schema.equal(&s, &deserialized));
}

// field1: u8, vec1: [u16; 8] in bytes of vec1_bytes, vec1_bytes: u8, field2: u8,
// _phantom_field: {arr: [u8; 64]} phantom
fn phantom_schema() -> Schema {
    let inner = ElemTy { atoms: vec![Atom::Int(IntTy::U8); 64], size: 64 };
    Schema::new(
        vec![
            scalar(IntTy::U8, 1),
            vector(IntTy::U16, 2, 8, 2, SizeUnit::Bytes),
            scalar(IntTy::U8, 1),
            scalar(IntTy::U8, 1),
            Field { ty: inner, shape: Shape::Scalar, phantom: true },
        ],
        None,
    )
    .unwrap()
}

#[test]
fn phantom() {
    let schema = phantom_schema();
    let s = vec![
        one(99),
        many(&[4, 5, 6, 7, 8, 9, 10, 11]),
        one(6),
        one(7),
        vec![vec![0xff; 64]],
    ];
    const CORRECT_SERIALIZED: [u8; 9] = [99, 0, 4, 0, 5, 0, 6, 6, 7];
    let (serialized, serialized_size) = encode_into(&schema, &s, CORRECT_SERIALIZED.len());
    assert_eq!(serialized_size, CORRECT_SERIALIZED.len());
    assert_eq!(serialized, CORRECT_SERIALIZED.to_vec());
    let mut deserializer = NetStructDeserializer::new(&CORRECT_SERIALIZED);
    let deserialized = schema.decode(&mut deserializer).unwrap();
    assert!(schema.equal(&s, &deserialized));
    assert_eq!(deserializer.finalize(), CORRECT_SERIALIZED.len());
}

// field1: u8, vec1: [u16; 8] in bytes of vec1_bytes, vec1_bytes: usize phantom, field2: u8
fn phantom2_schema() -> Schema {
    let mut len = scalar(IntTy::Usize, 8);
    len.phantom = true;
    Schema::new(
        vec![scalar(IntTy::U8, 1), vector(IntTy::U16, 2, 8, 2, SizeUnit::Bytes), len, scalar(IntTy::U8, 1)],
        None,
    )
    .unwrap()
}

#[test]
fn phantom2() {
    let schema = phantom2_schema();
    let s = vec![one(99), many(&[4, 5, 6, 7, 8, 9, 10, 11]), one(6), one(7)];
    const CORRECT_SERIALIZED: [u8; 8] = [99, 0, 4, 0, 5, 0, 6, 7];
    let (serialized, _) = encode_into(&schema, &s, CORRECT_SERIALIZED.len());
    assert_eq!(serialized, CORRECT_SERIALIZED.to_vec());
    let mut deserializer = NetStructDeserializer::new(&CORRECT_SERIALIZED);
    let deserialized = schema.decode(&mut deserializer).unwrap();
    assert!(schema.equal(&s, &deserialized));
}

// field1: u8, vec1: [u16; 8] in bytes of vec1_bytes, vec2_len: u16,
// vec2: [u8; 8] of vec2_len elements, vec1_bytes: u8, arr1: [u8; 4], field2: u8
fn reverse2_schema() -> Schema {
    Schema::new(
        vec![
            scalar(IntTy::U8, 1),
            vector(IntTy::U16, 2, 8, 4, SizeUnit::Bytes),
            scalar(IntTy::U16, 2),
            vector(IntTy::U8, 1, 8, 2, SizeUnit::Length),
            scalar(IntTy::U8, 1),
            array(IntTy::U8, 1, 4),
            scalar(IntTy::U8, 1),
        ],
        None,
    )
    .unwrap()
}

#[test]
fn reverse2() {
    let schema = reverse2_schema();
    let s = vec![
        one(99),
        many(&[4, 5, 6, 7, 8, 9, 10, 11]),
        one(3),
        many(&[255, 254, 253, 252, 251, 250, 249, 248]),
        one(6),
        many(&[13, 17, 19, 23]),
        one(7),
    ];
    const CORRECT_SERIALIZED: [u8; 18] = [99, 0, 4, 0, 5, 0, 6, 0, 3, 255, 254, 253, 6, 13, 17, 19, 23, 7];
    let (serialized, _) = encode_into(&schema, &s, CORRECT_SERIALIZED.len());
    assert_eq!(serialized, CORRECT_SERIALIZED.to_vec());
    let mut deserializer = NetStructDeserializer::new(&CORRECT_SERIALIZED);
    let deserialized = schema.decode(&mut deserializer).unwrap();
    assert!(schema.equal(&s, &deserialized));
}

#[test]
fn test_to_vec() {
    // field1: u16, arr1: [u8; 4], vec1_bytes: u8, vec1: [u16; 8] in bytes,
    // vec2_bits: u32, vec2: [u8; 16] in bits
    let schema = Schema::new(
        vec![
            scalar(IntTy::U16, 2),
            array(IntTy::U8, 1, 4),
            scalar(IntTy::U8, 1),
            vector(IntTy::U16, 2, 8, 2, SizeUnit::Bytes),
            scalar(IntTy::U32, 4),
            vector(IntTy::U8, 1, 16, 4, SizeUnit::Bits),
        ],
        None,
    )
    .unwrap();
    let s = vec![
        one(99),
        many(&[1, 2, 3, 4]),
        one(6),
        many(&[4, 5, 6, 7, 8, 9, 10, 11]),
        one(8),
        many(&[73, 75, 75, 75, 75, 75, 75, 75, 75, 75, 75, 75, 75, 75, 75, 75]),
    ];
    const CORRECT_SERIALIZED: [u8; 18] = [0, 99, 1, 2, 3, 4, 6, 0, 4, 0, 5, 0, 6, 0, 0, 0, 8, 73];
    let res = to_vec::<32>(&schema, &s);
    assert!(res.is_ok());
    assert_eq!(res.unwrap(), CORRECT_SERIALIZED.to_vec());
    assert_eq!(to_vec::<17>(&schema, &s), Err(SerdeErr::NotEnoughSpace));
}

#[test]
fn test_unambigious() {
    // field1: u8, vec1 in bytes of vec1_bytes, vec2_len: u16, vec1_bytes: u8,
    // arr1: [u8; 4], vec2 of vec2_len elements, field2: u8
    let r = Schema::new(
        vec![
            scalar(IntTy::U8, 1),
            vector(IntTy::U16, 2, 8, 3, SizeUnit::Bytes),
            scalar(IntTy::U16, 2),
            scalar(IntTy::U8, 1),
            array(IntTy::U8, 1, 4),
            vector(IntTy::U8, 1, 8, 2, SizeUnit::Length),
            scalar(IntTy::U8, 1),
        ],
        None,
    );
    assert!(r.is_err());
    assert!(matches!(r, Err(DeriveErr::AmbigiousDeserialize(1, 5))));
}

#[test]
fn reverse2_plan_has_two_reversals() {
    let schema = reverse2_schema();
    assert_eq!(
        schema.plan,
        vec![
            Step::Read(0),
            Step::Reverse,
            Step::Read(6),
            Step::Read(5),
            Step::Read(4),
            Step::Reverse,
            Step::Read(1),
            Step::Read(2),
            Step::Read(3),
        ]
    );
}

#[test]
fn phantom2_plan_reads_the_open_vector_forward_last() {
    let schema = phantom2_schema();
    assert_eq!(
        schema.plan,
        vec![Step::Read(0), Step::Reverse, Step::Read(3), Step::Reverse, Step::ReadToEnd(1)]
    );
}

#[test]
fn open_vector_count_goes_to_its_length_field_in_its_unit() {
    let schema = phantom2_schema();
    let rec = from_slice(&schema, &[99, 0, 4, 0, 5, 0, 6, 7]).unwrap();
    assert_eq!(rec[1], many(&[4, 5, 6, 0, 0, 0, 0, 0]));
    // three elements, stored as a byte count divided by the element size
    assert_eq!(rec[2], one(1));
    assert_eq!(rec[3], one(7));
}

#[test]
fn struct_len_clips_trailing_bytes() {
    let schema = simple_schema(Some(StructLen { anchor: 0, unit: SizeUnit::Bytes }));
    let rec = vec![one(6), one((-19i8) as u8 as u64), one((-655367i32) as u32 as u64)];
    let bytes = schema.encode_bytes(&rec).unwrap();
    assert_eq!(bytes, vec![6u8, 237, 255, 245, 255, 249]);
    let mut with_tail = bytes.clone();
    with_tail.extend_from_slice(&[1, 2, 3]);
    let mut de = NetStructDeserializer::new(with_tail.as_slice());
    assert_eq!(schema.decode(&mut de), Ok(rec));
    assert_eq!(de.finalize(), 6);
    assert_eq!(schema.plan, vec![Step::Read(0), Step::Truncate, Step::Read(1), Step::Read(2)]);
}

#[test]
fn struct_len_bounds_an_open_vector() {
    // len: u8 (record length in bits), data: [u8; 8] phantom-length vector, n: u8 phantom
    let mut n = scalar(IntTy::U8, 1);
    n.phantom = true;
    let schema = Schema::new(
        vec![scalar(IntTy::U8, 1), vector(IntTy::U8, 1, 8, 2, SizeUnit::Length), n],
        Some(StructLen { anchor: 0, unit: SizeUnit::Bits }),
    )
    .unwrap();
    let mut de = NetStructDeserializer::new(&[32, 7, 8, 9, 10, 11]);
    let rec = schema.decode(&mut de).unwrap();
    assert_eq!(rec[1], many(&[7, 8, 9, 0, 0, 0, 0, 0]));
    assert_eq!(rec[2], one(3));
    assert_eq!(de.finalize(), 4);
    // an anchor beyond the buffer
    assert_eq!(from_slice(&schema, &[80, 1, 2]), Err(SerdeErr::Eof));
}

#[test]
fn struct_len_in_elements_is_rejected() {
    let r = Schema::new(
        vec![scalar(IntTy::U8, 1), scalar(IntTy::I8, 1), scalar(IntTy::I32, 4)],
        Some(StructLen { anchor: 0, unit: SizeUnit::Length }),
    );
    assert!(matches!(r, Err(DeriveErr::InvalidStructLen)));
    let r = Schema::new(vec![scalar(IntTy::U8, 1)], Some(StructLen { anchor: 3, unit: SizeUnit::Bytes }));
    assert!(matches!(r, Err(DeriveErr::InvalidStructLen)));
}

#[test]
fn invalid_length_reference_is_rejected() {
    let r = Schema::new(vec![scalar(IntTy::U8, 1), vector(IntTy::U8, 1, 4, 1, SizeUnit::Length)], None);
    assert!(matches!(r, Err(DeriveErr::InvalidField(1))));
    let r = Schema::new(vec![scalar(IntTy::U8, 1), vector(IntTy::U8, 1, 4, 9, SizeUnit::Length)], None);
    assert!(matches!(r, Err(DeriveErr::InvalidField(1))));
    let r = Schema::new(vec![array(IntTy::U8, 1, 2), vector(IntTy::U8, 1, 4, 0, SizeUnit::Length)], None);
    assert!(matches!(r, Err(DeriveErr::InvalidField(1))));
}

#[test]
fn vector_body_is_length_times_element_width() {
    let schema = sample_schema();
    let mut s = vec![
        one(1),
        many(&[1, 2, 3, 4]),
        one(7),
        many(&[4, 5, 6, 7, 8, 9, 10, 11]),
        one(20),
        many(&[0; 16]),
        one(3),
        vec![vec![1, 2], vec![3, 4], vec![5, 6], vec![7, 8]],
    ];
    // 7 bytes of u16 make 3 elements, 20 bits of u8 make 2, 3 pairs make 6 bytes
    let bytes = schema.encode_bytes(&s).unwrap();
    assert_eq!(bytes.len(), 1 + 4 + 1 + 3 * 2 + 4 + 2 + 1 + 3 * 2);
    s[4] = one(8 * 16 + 8);
    assert_eq!(schema.encode_bytes(&s), Err(SerdeErr::ParseFailed));
}

#[test]
fn bits_unit_drops_a_partial_element() {
    let schema = Schema::new(vec![scalar(IntTy::U8, 1), vector(IntTy::U16, 2, 4, 0, SizeUnit::Bits)], None).unwrap();
    let s = vec![one(40), many(&[0x0102, 0x0304, 0x0506, 0x0708])];
    assert_eq!(schema.encode_bytes(&s).unwrap(), vec![40u8, 1, 2, 3, 4]);
}

#[test]
fn equality_ignores_phantom_and_unused_storage() {
    let schema = phantom_schema();
    let a = vec![one(99), many(&[4, 5, 6, 7, 8, 9, 10, 11]), one(6), one(7), vec![vec![0xff; 64]]];
    let b = vec![one(99), many(&[4, 5, 6, 0, 0, 0, 0, 0]), one(6), one(7), vec![vec![0; 64]]];
    assert!(schema.equal(&a, &b));
    let c = vec![one(99), many(&[4, 5, 7, 7, 8, 9, 10, 11]), one(6), one(7), vec![vec![0xff; 64]]];
    assert!(!schema.equal(&a, &c));
    let d = vec![one(98), many(&[4, 5, 6, 7, 8, 9, 10, 11]), one(6), one(7), vec![vec![0xff; 64]]];
    assert!(!schema.equal(&a, &d));
}

#[test]
fn short_buffers_give_eof() {
    let schema = reverse2_schema();
    let full: [u8; 18] = [99, 0, 4, 0, 5, 0, 6, 0, 3, 255, 254, 253, 6, 13, 17, 19, 23, 7];
    for n in 0..9 {
        assert_eq!(from_slice(&schema, &full[..n]), Err(SerdeErr::Eof));
    }
}

#[test]
fn encode_without_room_writes_nothing() {
    let schema = simple_schema(None);
    let rec = vec![one(99), one(1), one(2)];
    let mut serializer = NetStructSerializer::new(vec![0u8; 5]);
    assert_eq!(schema.encode(&rec, &mut serializer), Err(SerdeErr::NotEnoughSpace));
    assert_eq!(serializer.finalize(), 0);
}

#[test]
fn unit_names() {
    assert_eq!(SizeUnit::from_name(""), Some(SizeUnit::Length));
    assert_eq!(SizeUnit::from_name("len"), Some(SizeUnit::Length));
    assert_eq!(SizeUnit::from_name("bytes"), Some(SizeUnit::Bytes));
    assert_eq!(SizeUnit::from_name("B"), Some(SizeUnit::Bytes));
    assert_eq!(SizeUnit::from_name("bits"), Some(SizeUnit::Bits));
    assert_eq!(SizeUnit::from_name("bit"), None);
    assert_eq!(SizeUnit::from_name("Bytes"), None);
}

#[test]
fn shape_check() {
    let schema = simple_schema(None);
    assert!(schema.is_shaped(&vec![one(1), one(2), one(3)]));
    assert!(!schema.is_shaped(&vec![one(1), one(2)]));
    assert!(!schema.is_shaped(&vec![one(1), vec![vec![2, 3]], one(3)]));
    assert!(!schema.is_shaped(&vec![one(1), vec![], one(3)]));
}
