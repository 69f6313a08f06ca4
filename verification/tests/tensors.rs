use visloc::tensorrt::{
    check, check_plan, convert, native_order, pack_inputs, single_bytes, single_bytes_in, take_output,
    tensor_bytes, ByteOrder, DataType, Input, NativeInfo, Output, Session, TensorInfo,
};

fn singles(values: &[f32]) -> Vec<u8> {
    single_bytes(&values.iter().map(|v| v.to_bits()).collect())
}

fn info(name: Option<&str>, dtype: i32, rank: i32) -> NativeInfo {
    NativeInfo {
        name: name.map(|n| n.to_string()),
        dtype,
        input: 0,
        rank,
        dims: [2, 3, 4, 0, 0, 0, 0, 0],
    }
}

#[test]
fn sizes_and_invalid_shapes() {
    assert_eq!(tensor_bytes(&[], DataType::F32).unwrap(), 4);
    assert_eq!(tensor_bytes(&[2, 0, 3], DataType::F16).unwrap(), 0);
    assert_eq!(tensor_bytes(&[2, 3], DataType::I64).unwrap(), 48);
    assert!(tensor_bytes(&[-1, 3], DataType::F32).is_err());
    assert!(tensor_bytes(&[1; 9], DataType::U8).is_err());
    assert!(tensor_bytes(&[i64::MAX, 2], DataType::F32).is_err());
}

#[test]
fn input_validation_and_float_roundtrip() {
    let data = [1.25f32, -4.0];
    let bytes = singles(&data);
    assert_eq!(bytes, data.iter().flat_map(|v| v.to_ne_bytes()).collect::<Vec<u8>>());
    let input = Input::single("x", &[2], &bytes);
    input.validate().unwrap();
    let output = Output {
        info: TensorInfo {
            name: "y".into(),
            dtype: DataType::F32,
            is_input: false,
            shape: vec![2],
        },
        data: input.data.to_vec(),
    };
    let back: Vec<f32> = output.to_f32().unwrap().into_iter().map(f32::from_bits).collect();
    assert_eq!(back, data);
    let long = Input::single("x", &[3], &bytes);
    assert_eq!(
        long.validate().unwrap_err().message(),
        "Input x byte count does not match shape/dtype"
    );
    let nul = Input::single("x\0", &[2], &bytes);
    assert_eq!(nul.validate().unwrap_err().message(), "Tensor name contains NUL");
    assert!(DataType::try_from(9).is_err());
}

#[test]
fn size_errors_have_their_words() {
    assert_eq!(
        tensor_bytes(&[-1], DataType::F32).unwrap_err().message(),
        "Expected at most eight nonnegative dimensions"
    );
    assert_eq!(
        tensor_bytes(&[i64::MAX, i64::MAX, 0], DataType::F32).unwrap_err().message(),
        "Tensor size overflow"
    );
    assert_eq!(tensor_bytes(&[0, i64::MAX, i64::MAX], DataType::F32).unwrap(), 0);
    assert_eq!(tensor_bytes(&[1; 8], DataType::Bf16).unwrap(), 2);
}

#[test]
fn codes_and_types_go_both_ways() {
    for code in 0..9 {
        assert_eq!(DataType::try_from(code).unwrap().code(), code);
    }
    assert_eq!(DataType::try_from(-3).unwrap_err().message(), "Unsupported TensorRT dtype -3");
    assert_eq!(DataType::I64.size_bytes(), 8);
    assert_eq!(DataType::Fp8.size_bytes(), 1);
    assert_eq!(DataType::Bool.size_bytes(), 1);
}

#[test]
fn integers_are_read_in_the_order_of_the_machine() {
    let values = [0i64, -1, i64::MIN, i64::MAX, 258];
    let output = Output {
        info: TensorInfo { name: "ids".into(), dtype: DataType::I64, is_input: false, shape: vec![5] },
        data: values.iter().flat_map(|v| v.to_ne_bytes()).collect(),
    };
    assert_eq!(output.to_i64().unwrap(), values);
    assert_eq!(output.to_f32().unwrap_err().message(), "Output is not a valid FP32 buffer");
    let expected = if 1u16.to_ne_bytes()[0] == 1 { ByteOrder::Little } else { ByteOrder::Big };
    assert_eq!(native_order(), expected);
    let one = Output {
        info: TensorInfo { name: "one".into(), dtype: DataType::I64, is_input: false, shape: vec![1] },
        data: vec![1, 2, 0, 0, 0, 0, 0, 0x80],
    };
    assert_eq!(one.to_i64_in(ByteOrder::Little).unwrap(), vec![i64::MIN + 513]);
    assert_eq!(one.to_i64_in(ByteOrder::Big).unwrap(), vec![0x0102_0000_0000_0080]);
}

#[test]
fn an_empty_output_has_no_integers() {
    let empty = Output {
        info: TensorInfo { name: "e".into(), dtype: DataType::I64, is_input: false, shape: vec![0] },
        data: vec![],
    };
    assert_eq!(empty.to_i64().unwrap(), Vec::<i64>::new());
    let ragged = Output {
        info: TensorInfo { name: "e".into(), dtype: DataType::I64, is_input: false, shape: vec![1] },
        data: vec![0; 7],
    };
    assert_eq!(ragged.to_i64().unwrap_err().message(), "Output is not a valid INT64 buffer");
}

#[test]
fn native_metadata_is_converted_or_refused() {
    let tensor = convert(&info(Some("x"), 3, 2)).unwrap();
    assert_eq!(tensor.name, "x");
    assert_eq!(tensor.dtype, DataType::I32);
    assert!(!tensor.is_input);
    assert_eq!(tensor.shape, vec![2, 3]);
    assert_eq!(convert(&info(None, 3, 2)).unwrap_err().message(), "Invalid native tensor metadata");
    assert_eq!(
        convert(&info(Some("x"), 3, 9)).unwrap_err().message(),
        "Invalid native tensor metadata"
    );
    assert_eq!(
        convert(&info(Some("x"), 12, 1)).unwrap_err().message(),
        "Unsupported TensorRT dtype 12"
    );
    let output = take_output(&info(Some("y"), 5, 1), vec![7, 8]).unwrap();
    assert_eq!(output.data, vec![7, 8]);
    assert_eq!(output.info.shape, vec![2]);
}

#[test]
fn plans_devices_and_statuses_are_checked() {
    assert_eq!(check_plan(&[], 0).unwrap_err().message(), "Empty engine plan");
    assert_eq!(
        check_plan(&[0], -1).unwrap_err().message(),
        "Device ordinal must be nonnegative"
    );
    assert!(check_plan(&[0], 0).is_ok());
    assert!(check(0, "unused").is_ok());
    assert_eq!(check(3, "engine failed").unwrap_err().message(), "engine failed");
}

#[test]
fn inputs_are_packed_and_outputs_listed() {
    let bytes = singles(&[0.0; 6]);
    let inputs = vec![
        Input { name: "a", dtype: DataType::F32, shape: &[2, 3], data: &bytes },
        Input { name: "b", dtype: DataType::U8, shape: &[24], data: &bytes },
    ];
    let packed = pack_inputs(&inputs).unwrap();
    assert_eq!(packed.len(), 2);
    assert_eq!(packed[0].dims, [2, 3, 0, 0, 0, 0, 0, 0]);
    assert_eq!((packed[0].rank, packed[0].dtype, packed[0].bytes), (2, 0, 24));
    assert_eq!((packed[1].rank, packed[1].dtype, packed[1].bytes), (1, 5, 24));
    let wrong = vec![Input { name: "c", dtype: DataType::F32, shape: &[7], data: &bytes }];
    assert!(pack_inputs(&wrong).is_err());
    let mut first = info(Some("in"), 0, 1);
    first.input = 1;
    let session = Session::from_infos(&vec![first, info(Some("y"), 0, 1), info(Some("z"), 0, 2)]).unwrap();
    assert_eq!(session.tensors.len(), 3);
    assert_eq!(session.outputs(), vec![1, 2]);
    assert!(Session::from_infos(&vec![info(Some("y"), 9, 1)]).is_err());
}

#[test]
fn singles_are_written_in_either_order_of_bytes() {
    let values = vec![0x0102_0304u32, f32::NAN.to_bits()];
    let little = single_bytes_in(&values, ByteOrder::Little);
    let big = single_bytes_in(&values, ByteOrder::Big);
    assert_eq!(&little[..4], &[4, 3, 2, 1]);
    assert_eq!(&big[..4], &[1, 2, 3, 4]);
    let output = |data: &Vec<u8>| Output {
        info: TensorInfo { name: "y".into(), dtype: DataType::F32, is_input: false, shape: vec![2] },
        data: data.clone(),
    };
    assert_eq!(output(&little).to_f32_in(ByteOrder::Little).unwrap(), values);
    assert_eq!(output(&big).to_f32_in(ByteOrder::Big).unwrap(), values);
    assert_ne!(output(&big).to_f32_in(ByteOrder::Little).unwrap(), values);
}
