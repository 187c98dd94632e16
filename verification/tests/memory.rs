use memtypes::codec::{read_to_dyn, write_from_dyn, CodecError};
use memtypes::memory::{add_num, addr, eq_num, BufMemory};
use memtypes::native::Type;
use memtypes::pointer;
use memtypes::syntax::{eval_native_decl, Scope};
use memtypes::value::Value;

fn fresh(len: usize) -> BufMemory {
    BufMemory::new(vec![0u8; len])
}

fn as_int(v: &Value) -> i64 {
    match v {
        Value::Int(i) => *i,
        _ => panic!("an integer value was expected"),
    }
}

fn as_text(v: &Value) -> &str {
    match v {
        Value::Text(s) => s.as_str(),
        _ => panic!("a text value was expected"),
    }
}

#[test]
fn test_memory() {
    let mut mem = fresh(128);

    // seed the buffer as the scenario describes
    write_from_dyn(&mut mem, &Type::Int32, 0, &Value::Int(16)).unwrap();
    write_from_dyn(&mut mem, &Type::Int32, 16, &Value::Int(420)).unwrap();
    write_from_dyn(&mut mem, &Type::Text(4), 32, &Value::Text("test".to_string())).unwrap();
    write_from_dyn(
        &mut mem,
        &Type::WideText(4),
        64,
        &Value::Text("test".to_string()),
    )
    .unwrap();

    // Read works
    let test_addr = match read_to_dyn(&mut mem, &Type::Address32, 0).unwrap() {
        Value::Addr(a) => a,
        _ => panic!("an address was expected"),
    };
    assert_eq!(
        as_int(&read_to_dyn(&mut mem, &Type::Int32, test_addr).unwrap()),
        420
    );

    // Read native works
    let mut scope = Scope::new();
    let test_ty = eval_native_decl(r#"native Test { ^ 16, num: Int32 };"#, &mut scope).unwrap();
    match read_to_dyn(&mut mem, &test_ty, 0).unwrap() {
        Value::Record(entries) => {
            let num = entries
                .iter()
                .find(|e| e.0 == "num")
                .expect("the record should hold the field");
            assert_eq!(as_int(&num.1), 420);
        }
        _ => panic!("a record was expected"),
    }

    // Read string works
    assert_eq!(
        as_text(&read_to_dyn(&mut mem, &Type::Text(4), 32).unwrap()),
        "test"
    );

    // Read widestring works
    assert_eq!(
        as_text(&read_to_dyn(&mut mem, &Type::WideText(4), 64).unwrap()),
        "test"
    );

    // Write works
    write_from_dyn(&mut mem, &Type::UInt32, 0, &Value::Int(66)).unwrap();
    assert_eq!(as_int(&read_to_dyn(&mut mem, &Type::Int32, 0).unwrap()), 66);
}

#[test]
fn test_primitive_round_trips() {
    let mut mem = fresh(64);
    let cases: Vec<(Type, Value)> = vec![
        (Type::UInt8, Value::Int(255)),
        (Type::UInt16, Value::Int(65535)),
        (Type::Int32, Value::Int(-5)),
        (Type::UInt32, Value::Int(4294967295)),
        (Type::Int64, Value::Int(i64::MIN)),
        (Type::UInt64, Value::Int(i64::MAX)),
        (Type::Fp32, Value::Float32(0x4048_F5C3)),
        (Type::Fp64, Value::Float64(0x4009_21FB_5444_2D18)),
        (Type::Address32, Value::Addr(4096)),
        (Type::Address64, Value::Addr(1 << 40)),
        (Type::Text(4), Value::Text("abcd".to_string())),
        (Type::WideText(4), Value::Text("abcd".to_string())),
    ];
    for (ty, v) in cases {
        write_from_dyn(&mut mem, &ty, 8, &v).unwrap();
        let back = read_to_dyn(&mut mem, &ty, 8).unwrap();
        match (&v, &back) {
            (Value::Int(a), Value::Int(b)) => assert_eq!(a, b),
            (Value::Float32(a), Value::Float32(b)) => assert_eq!(a, b),
            (Value::Float64(a), Value::Float64(b)) => assert_eq!(a, b),
            (Value::Addr(a), Value::Addr(b)) => assert_eq!(a, b),
            (Value::Text(a), Value::Text(b)) => assert_eq!(a, b),
            _ => panic!("the value came back as another kind"),
        }
    }
}

#[test]
fn test_uint64_widening_limitation() {
    // An unsigned 64-bit number with its high bit set cannot survive the
    // widening into the signed container: it reads back negative. This
    // pins the documented deviation.
    let mut mem = fresh(8);
    for i in 0..8 {
        mem.data[i] = 0xFF;
    }
    let got = as_int(&read_to_dyn(&mut mem, &Type::UInt64, 0).unwrap());
    assert_eq!(got, -1);
    assert!(got < 0);
}

#[test]
fn test_pointer_read_does_not_dereference() {
    let mut mem = fresh(32);
    // store the 4-byte target address 8 at address 0
    write_from_dyn(&mut mem, &Type::UInt32, 0, &Value::Int(8)).unwrap();
    write_from_dyn(&mut mem, &Type::Int32, 8, &Value::Int(1234)).unwrap();

    let ptr_ty = Type::Pointer32(Box::new(Type::Int32));
    let p = read_to_dyn(&mut mem, &ptr_ty, 0).unwrap();
    // the result pairs the pointee's descriptor with the stored target
    assert!(pointer::eq_ty(&p, &Type::Int32));
    assert!(pointer::eq_addr(&p, 8));
    assert_eq!(pointer::get_addr(&p), 8);
}

#[test]
fn test_pointer_write_dereferences() {
    let mut mem = fresh(32);
    write_from_dyn(&mut mem, &Type::UInt32, 0, &Value::Int(8)).unwrap();

    let ptr_ty = Type::Pointer32(Box::new(Type::Int32));
    write_from_dyn(&mut mem, &ptr_ty, 0, &Value::Int(777)).unwrap();

    // the pointee received the value ...
    assert_eq!(as_int(&read_to_dyn(&mut mem, &Type::Int32, 8).unwrap()), 777);
    // ... and the pointer slot itself is untouched
    assert_eq!(as_int(&read_to_dyn(&mut mem, &Type::UInt32, 0).unwrap()), 8);
}

#[test]
fn test_offset_by_magnitude() {
    // a negative offset moves forward by its magnitude
    let p = pointer::ptr(Type::Int32, 100);
    let fwd = pointer::add_num(&p, 5);
    let bwd = pointer::add_num(&p, -5);
    assert!(pointer::eq(&fwd, &bwd));
    assert_eq!(pointer::get_addr(&bwd), 105);

    assert_eq!(add_num(100, -5), add_num(100, 5));
    assert_eq!(addr(-42), 42);
    assert!(eq_num(42, -42));
    assert!(pointer::eq_num_addr(&pointer::ptr(Type::Int32, 9), -9));
}

#[test]
fn test_address_text_form() {
    assert_eq!(memtypes::memory::to_string(0x4d2), "0x4d2");
    assert_eq!(memtypes::memory::to_string(0), "0x0");
    assert_eq!(memtypes::memory::to_string(255), "0xff");
}

#[test]
fn test_text_region() {
    let mut mem = fresh(8);
    mem.data[0] = b't';
    mem.data[1] = b'e';
    mem.data[2] = b's';
    mem.data[3] = b't';
    assert_eq!(
        as_text(&read_to_dyn(&mut mem, &Type::Text(4), 0).unwrap()),
        "test"
    );
}

#[test]
fn test_collection_order() {
    // three consecutive little-endian 32-bit integers
    let mut mem = fresh(12);
    write_from_dyn(&mut mem, &Type::Int32, 0, &Value::Int(16)).unwrap();
    write_from_dyn(&mut mem, &Type::Int32, 4, &Value::Int(420)).unwrap();
    write_from_dyn(&mut mem, &Type::Int32, 8, &Value::Int(-1)).unwrap();

    let coll = Type::Collection(Box::new(Type::Int32), 3);
    match read_to_dyn(&mut mem, &coll, 0).unwrap() {
        Value::Sequence(items) => {
            assert_eq!(items.len(), 3);
            assert_eq!(as_int(&items[0]), 16);
            assert_eq!(as_int(&items[1]), 420);
            assert_eq!(as_int(&items[2]), -1);
        }
        _ => panic!("a sequence was expected"),
    }
}

#[test]
fn test_codec_errors() {
    let mut mem = fresh(8);

    // a read past the backing region fails with the starting address and
    // the backend's own message, surfaced verbatim
    match read_to_dyn(&mut mem, &Type::Int32, 6) {
        Err(CodecError::MemoryAccess { addr, msg }) => {
            assert_eq!(addr, 6);
            assert_eq!(msg, "region is not backed by memory");
        }
        _ => panic!("a memory-access failure was expected"),
    }

    // bytes that are not ASCII fail to decode as text
    mem.data[0] = 0xC3;
    assert!(matches!(
        read_to_dyn(&mut mem, &Type::Text(2), 0),
        Err(CodecError::Decode { .. })
    ));

    // a record missing a required field
    let mut scope = Scope::new();
    let st = eval_native_decl(r#"native Pair { a: UInt8, b: UInt8 };"#, &mut scope).unwrap();
    let rec = Value::Record(vec![("a".to_string(), Value::Int(1))]);
    assert!(matches!(
        write_from_dyn(&mut mem, &st, 0, &rec),
        Err(CodecError::MissingField { .. })
    ));

    // a sequence of the wrong length
    let coll = Type::Collection(Box::new(Type::UInt8), 3);
    let seq2 = Value::Sequence(vec![Value::Int(1), Value::Int(2)]);
    assert!(matches!(
        write_from_dyn(&mut mem, &coll, 0, &seq2),
        Err(CodecError::WrongLength { .. })
    ));

    // a value of the wrong kind
    assert!(matches!(
        write_from_dyn(&mut mem, &Type::Text(4), 0, &Value::Int(3)),
        Err(CodecError::WrongKind)
    ));

    // text of the wrong length
    assert!(matches!(
        write_from_dyn(&mut mem, &Type::Text(4), 0, &Value::Text("abc".to_string())),
        Err(CodecError::WrongLength { .. })
    ));

    // a failed write leaves the failing region alone and reports the
    // address and the backend's message
    match write_from_dyn(&mut mem, &Type::Int32, 100, &Value::Int(5)) {
        Err(CodecError::MemoryAccess { addr, msg }) => {
            assert_eq!(addr, 100);
            assert_eq!(msg, "region is not backed by memory");
        }
        _ => panic!("a memory-access failure was expected"),
    }
}

#[test]
fn test_struct_read_is_fail_fast() {
    // the second field lies outside the buffer: the whole read fails
    let mut scope = Scope::new();
    let st = eval_native_decl(r#"native Wide { a: UInt8, b: Int64 };"#, &mut scope).unwrap();
    let mut mem = fresh(4);
    assert!(read_to_dyn(&mut mem, &st, 0).is_err());
}
