use net_struct_serde::{
    from_slice, Atom, ElemTy, Field, IntTy, NetStructDeserializer, Schema, SerdeErr, Shape, SizeUnit,
};

fn int_elem(t: IntTy, size: usize) -> ElemTy {
    ElemTy { atoms: vec![Atom::Int(t)], size }
}

fn scalar(t: IntTy, size: usize) -> Field {
    Field { ty: int_elem(t, size), shape: Shape::Scalar, phantom: false }
}

#[test]
fn primint1() {
    let a: [u8; 2] = [0x01, 0x02];
    let mut nsd = NetStructDeserializer::new(a.as_slice());
    assert_eq!(nsd.deserialize_u16(), Ok(0x0102));
}

#[test]
fn struct1() {
    let schema = Schema::new(vec![scalar(IntTy::I32, 4), scalar(IntTy::I16, 2)], None).unwrap();
    let a: [u8; 6] = [0x00, 0x00, 0x00, 0x01, 0x00, 0x02];
    let mut nsd = NetStructDeserializer::new(a.as_slice());
    assert_eq!(schema.decode(&mut nsd), Ok(vec![vec![vec![1]], vec![vec![2]]]));
}

#[test]
fn struct2() {
    let arr = Field {
        ty: int_elem(IntTy::I8, 1),
        shape: Shape::Vector { cap: 8, len_field: 0, unit: SizeUnit::Length },
        phantom: false,
    };
    let schema = Schema::new(vec![scalar(IntTy::I32, 4), arr], None).unwrap();
    let a: [u8; 6] = [0x00, 0x00, 0x00, 0x02, 0x03, 0x07];
    let mut nsd = NetStructDeserializer::new(a.as_slice());
    let expected: Vec<Vec<Vec<u64>>> = vec![
        vec![vec![2]],
        vec![vec![3], vec![7], vec![0], vec![0], vec![0], vec![0], vec![0], vec![0]],
    ];
    assert_eq!(schema.decode(&mut nsd), Ok(expected));
}

#[test]
fn struct3() {
    // x: u8, y: i16, arr: [i8; 8] of length l, l: i32; `l` follows the vector.
    let arr = Field {
        ty: int_elem(IntTy::I8, 1),
        shape: Shape::Vector { cap: 8, len_field: 3, unit: SizeUnit::Length },
        phantom: false,
    };
    let fields = vec![scalar(IntTy::U8, 1), scalar(IntTy::I16, 2), arr, scalar(IntTy::I32, 4)];
    let schema = Schema::new(fields, None).unwrap();
    let a = [21, 0, 11, 0x03, 0x05, 0x07, 0x00, 0x00, 0x00, 0x03];
    let mut nsd = NetStructDeserializer::new(a.as_slice());
    let expected: Vec<Vec<Vec<u64>>> = vec![
        vec![vec![21]],
        vec![vec![11]],
        vec![vec![3], vec![5], vec![7], vec![0], vec![0], vec![0], vec![0], vec![0]],
        vec![vec![3]],
    ];
    assert_eq!(schema.decode(&mut nsd), Ok(expected));
}

#[test]
fn seq1() {
    let arr = Field { ty: int_elem(IntTy::I32, 4), shape: Shape::Array(3), phantom: false };
    let schema = Schema::new(vec![arr], None).unwrap();
    let a: [u8; 12] = [0x00, 0x00, 0x00, 0x01, 0x00, 0x02, 0x00, 0x00, 0x00, 0x03, 0x00, 0x04];
    let mut nsd = NetStructDeserializer::new(a.as_slice());
    assert_eq!(
        schema.decode(&mut nsd),
        Ok(vec![vec![vec![1], vec![0x020000], vec![0x030004]]])
    );
}

#[test]
fn option1() {
    let a: [u8; 2] = [0x01, 0x02];
    let mut nsd = NetStructDeserializer::new(a.as_slice());
    assert_eq!(nsd.deserialize_option(2), Ok(Some(0x0102)));
    let b: [u8; 0] = [];
    nsd = NetStructDeserializer::new(b.as_slice());
    assert_eq!(nsd.deserialize_option(2), Ok(None));
}

#[test]
fn eof1() {
    let a: [u8; 2] = [0x01, 0x02];
    let mut nsd = NetStructDeserializer::new(a.as_slice());
    assert_eq!(nsd.deserialize_u32(), Err(SerdeErr::Eof));
}

#[test]
fn cursor_take_reverse_and_truncate() {
    let a: [u8; 6] = [1, 2, 3, 4, 5, 6];
    let mut nsd = NetStructDeserializer::new(a.as_slice());
    assert_eq!(nsd.take(2), Ok(vec![1, 2]));
    nsd.reverse();
    assert_eq!(nsd.take(1), Ok(vec![6]));
    assert_eq!(nsd.finalize(), 3);
    assert_eq!(nsd.truncate(2), Ok(()));
    assert_eq!(nsd.remaining(), 2);
    assert_eq!(nsd.take(2), Ok(vec![4, 5]));
    assert_eq!(nsd.take(1), Err(SerdeErr::Eof));
    assert_eq!(nsd.truncate(1), Err(SerdeErr::Eof));
    // the byte cut off by truncation is not counted as consumed
    assert_eq!(nsd.finalize(), 5);
}

#[test]
fn cursor_skip_and_expect() {
    let a: [u8; 4] = [9, 8, 7, 6];
    let mut nsd = NetStructDeserializer::new(a.as_slice());
    assert_eq!(nsd.expect(4), Ok(()));
    assert_eq!(nsd.expect(5), Err(SerdeErr::Eof));
    assert_eq!(nsd.skip(1), Ok(()));
    assert_eq!(nsd.deserialize_u8(), Ok(8));
    assert_eq!(nsd.deserialize_bool(), Ok(true));
    assert_eq!(nsd.skip(2), Err(SerdeErr::Eof));
    assert_eq!(nsd.finalize(), 3);
}

#[test]
fn bool_decodes_any_nonzero_byte_as_true() {
    let a: [u8; 3] = [0, 1, 0x80];
    let mut nsd = NetStructDeserializer::new(a.as_slice());
    assert_eq!(nsd.deserialize_bool(), Ok(false));
    assert_eq!(nsd.deserialize_bool(), Ok(true));
    assert_eq!(nsd.deserialize_bool(), Ok(true));
}

#[test]
fn short_buffer_is_eof() {
    let schema = Schema::new(vec![scalar(IntTy::I32, 4), scalar(IntTy::I16, 2)], None).unwrap();
    assert_eq!(from_slice(&schema, &[0, 0, 0, 1, 0]), Err(SerdeErr::Eof));
    assert_eq!(from_slice(&schema, &[]), Err(SerdeErr::Eof));
}
