//! Tensors that go into and come out of an inference engine: types, sizes and bytes. The engine
//! itself runs outside.
use crate::ordered::{filter_members, filter_next};
use crate::text::{append_signed, signed_decimal};
use vstd::endian::{endianness, Endian};
use vstd::prelude::*;
use vstd::utf8::encode_utf8;

verus! {

/// Why something is refused, in words.
#[derive(Clone, Debug, PartialEq, Eq)]
pub struct Error(pub String);

impl Error {
    /// The words.
    pub open spec fn text(self) -> Seq<char> {
        self.0@
    }

    fn of(text: &str) -> (error: Error)
        ensures
            error.text() == text@,
    {
        Error(text.to_owned())
    }

    /// Writes the words out.
    pub fn message(&self) -> (message: String)
        ensures
            message@ == self.text(),
    {
        self.0.clone()
    }
}

/// Whether a result is the refusal with these words.
pub open spec fn refused<T>(result: Result<T, Error>, text: Seq<char>) -> bool {
    result matches Err(e) && e.text() == text
}

/// The types that take whole bytes.
#[derive(Clone, Copy, Debug, PartialEq, Eq, Structural)]
pub enum DataType {
    F32,
    F16,
    I8,
    I32,
    Bool,
    U8,
    Fp8,
    Bf16,
    I64,
}

/// How many bytes a value of a type takes.
pub open spec fn size_of(dtype: DataType) -> nat {
    match dtype {
        DataType::F32 => 4,
        DataType::I32 => 4,
        DataType::F16 => 2,
        DataType::Bf16 => 2,
        DataType::I64 => 8,
        _ => 1,
    }
}

/// The number that the engine knows a type by.
pub open spec fn code_of(dtype: DataType) -> i32 {
    match dtype {
        DataType::F32 => 0,
        DataType::F16 => 1,
        DataType::I8 => 2,
        DataType::I32 => 3,
        DataType::Bool => 4,
        DataType::U8 => 5,
        DataType::Fp8 => 6,
        DataType::Bf16 => 7,
        DataType::I64 => 8,
    }
}

impl DataType {
    /// How many bytes a value takes.
    pub fn size_bytes(self) -> (size: usize)
        ensures
            size == size_of(self),
    {
        match self {
            DataType::F32 => 4,
            DataType::I32 => 4,
            DataType::F16 => 2,
            DataType::Bf16 => 2,
            DataType::I64 => 8,
            _ => 1,
        }
    }

    /// The number that the engine knows the type by.
    pub fn code(self) -> (code: i32)
        ensures
            code == code_of(self),
    {
        match self {
            DataType::F32 => 0,
            DataType::F16 => 1,
            DataType::I8 => 2,
            DataType::I32 => 3,
            DataType::Bool => 4,
            DataType::U8 => 5,
            DataType::Fp8 => 6,
            DataType::Bf16 => 7,
            DataType::I64 => 8,
        }
    }

    /// The type that the engine knows by a number.
    pub fn try_from(value: i32) -> (result: Result<DataType, Error>)
        ensures
            if 0 <= value <= 8 {
                result matches Ok(dtype) && code_of(dtype) == value
            } else {
                refused(result, "Unsupported TensorRT dtype "@ + signed_decimal(value as int))
            },
    {
        if value == 0 {
            Ok(DataType::F32)
        } else if value == 1 {
            Ok(DataType::F16)
        } else if value == 2 {
            Ok(DataType::I8)
        } else if value == 3 {
            Ok(DataType::I32)
        } else if value == 4 {
            Ok(DataType::Bool)
        } else if value == 5 {
            Ok(DataType::U8)
        } else if value == 6 {
            Ok(DataType::Fp8)
        } else if value == 7 {
            Ok(DataType::Bf16)
        } else if value == 8 {
            Ok(DataType::I64)
        } else {
            let mut text = String::new();
            text.append("Unsupported TensorRT dtype ");
            append_signed(&mut text, value as i64);
            assert(text@ =~= "Unsupported TensorRT dtype "@ + signed_decimal(value as int));
            Err(Error(text))
        }
    }
}

/// Numbers and types belong together one to one.
pub proof fn codes_are_distinct(a: DataType, b: DataType)
    ensures
        code_of(a) == code_of(b) ==> a == b,
        0 <= code_of(a) <= 8,
{
}

/// The bytes of a tensor with the first `n` dimensions, unless they come to exceed what can be
/// addressed on the way.
pub open spec fn bytes_of(shape: Seq<i64>, dtype: DataType, n: int) -> Option<nat>
    decreases n,
{
    if n <= 0 {
        Some(size_of(dtype))
    } else {
        match bytes_of(shape, dtype, n - 1) {
            None => None,
            Some(size) => if shape[n - 1] > usize::MAX || size * shape[n - 1] > usize::MAX {
                None
            } else {
                Some((size * shape[n - 1]) as nat)
            },
        }
    }
}

/// Whether a shape is concrete: up to eight dimensions, none negative.
pub open spec fn concrete(shape: Seq<i64>) -> bool {
    shape.len() <= 8 && forall|i: int| 0 <= i < shape.len() ==> (#[trigger] shape[i]) >= 0
}

/// Why a shape has no size.
pub open spec fn shape_fault(shape: Seq<i64>, dtype: DataType) -> Option<Seq<char>> {
    if !concrete(shape) {
        Some("Expected at most eight nonnegative dimensions"@)
    } else if bytes_of(shape, dtype, shape.len() as int) is None {
        Some("Tensor size overflow"@)
    } else {
        None
    }
}

proof fn overflow_stays(shape: Seq<i64>, dtype: DataType, i: int, n: int)
    requires
        0 <= i <= n,
        bytes_of(shape, dtype, i) is None,
    ensures
        bytes_of(shape, dtype, n) is None,
    decreases n,
{
    if i < n {
        overflow_stays(shape, dtype, i, n - 1);
    }
}

/// The bytes of a tensor of a concrete shape, a single value and an empty tensor among them.
pub fn tensor_bytes(shape: &[i64], dtype: DataType) -> (result: Result<usize, Error>)
    ensures
        match shape_fault(shape@, dtype) {
            Some(text) => refused(result, text),
            None => result matches Ok(size) && Some(size as nat) == bytes_of(
                shape@,
                dtype,
                shape@.len() as int,
            ),
        },
{
    if shape.len() > 8 {
        return Err(Error::of("Expected at most eight nonnegative dimensions"));
    }
    for i in 0..shape.len()
        invariant
            shape@.len() <= 8,
            forall|k: int| 0 <= k < i ==> (#[trigger] shape@[k]) >= 0,
    {
        if shape[i] < 0 {
            assert(shape@[i as int] < 0);
            return Err(Error::of("Expected at most eight nonnegative dimensions"));
        }
    }
    let mut size: usize = dtype.size_bytes();
    for i in 0..shape.len()
        invariant
            concrete(shape@),
            Some(size as nat) == bytes_of(shape@, dtype, i as int),
    {
        let d: i64 = shape[i];
        assert(d >= 0);
        let wide: u128 = d as u128;
        let next: Option<usize> = if wide > usize::MAX as u128 {
            None
        } else {
            size.checked_mul(d as usize)
        };
        match next {
            Some(n) => {
                size = n;
            },
            None => {
                proof {
                    assert(bytes_of(shape@, dtype, i + 1) is None);
                    overflow_stays(shape@, dtype, i + 1, shape@.len() as int);
                }
                return Err(Error::of("Tensor size overflow"));
            },
        }
    }
    Ok(size)
}

/// The product of the first `n` dimensions.
pub open spec fn volume(shape: Seq<i64>, n: int) -> int
    decreases n,
{
    if n <= 0 {
        1
    } else {
        volume(shape, n - 1) * shape[n - 1]
    }
}

/// The size of a tensor is the size of a value times the product of the dimensions.
pub proof fn sizes_are_products(shape: Seq<i64>, dtype: DataType, n: int)
    requires
        concrete(shape),
        0 <= n <= shape.len(),
        bytes_of(shape, dtype, n) is Some,
    ensures
        bytes_of(shape, dtype, n)->Some_0 == size_of(dtype) * volume(shape, n),
    decreases n,
{
    if n > 0 {
        sizes_are_products(shape, dtype, n - 1);
        let size = size_of(dtype) as int;
        let v = volume(shape, n - 1);
        let d = shape[n - 1] as int;
        assert((size * v) * d == size * (v * d)) by (nonlinear_arith);
        assert(size_of(dtype) * v * d >= 0);
    }
}

/// What is known of a tensor. A dimension of an engine may be left open as -1.
#[derive(Clone, Debug, PartialEq, Eq)]
pub struct TensorInfo {
    pub name: String,
    pub dtype: DataType,
    pub is_input: bool,
    pub shape: Vec<i64>,
}

/// A tensor that is lent for one run, its bytes in the order of the machine.
#[derive(Debug)]
pub struct Input<'a> {
    pub name: &'a str,
    pub dtype: DataType,
    pub shape: &'a [i64],
    pub data: &'a [u8],
}

/// Why a tensor cannot go in.
pub open spec fn input_fault(
    name: Seq<char>,
    dtype: DataType,
    shape: Seq<i64>,
    bytes: nat,
) -> Option<Seq<char>> {
    if encode_utf8(name).contains(0) {
        Some("Tensor name contains NUL"@)
    } else {
        match shape_fault(shape, dtype) {
            Some(text) => Some(text),
            None => if bytes_of(shape, dtype, shape.len() as int) != Some(bytes) {
                Some("Input "@ + name + " byte count does not match shape/dtype"@)
            } else {
                None
            },
        }
    }
}

impl<'a> Input<'a> {
    /// Why the tensor cannot go in.
    pub open spec fn fault(&self) -> Option<Seq<char>> {
        input_fault(self.name@, self.dtype, self.shape@, self.data@.len())
    }

    /// A tensor of single-precision numbers, given by their bytes.
    pub fn single(name: &'a str, shape: &'a [i64], data: &'a [u8]) -> (input: Input<'a>)
        ensures
            input == (Input { name, dtype: DataType::F32, shape, data }),
    {
        Input { name, dtype: DataType::F32, shape, data }
    }

    /// Checks that the tensor can go in: its name is a plain one, and its bytes fill its shape.
    pub fn validate(&self) -> (result: Result<(), Error>)
        ensures
            match self.fault() {
                Some(text) => refused(result, text),
                None => result is Ok,
            },
    {
        let bytes = self.name.as_bytes();
        for i in 0..bytes.len()
            invariant
                bytes@ == encode_utf8(self.name@),
                forall|k: int| 0 <= k < i ==> (#[trigger] bytes@[k]) != 0,
        {
            if bytes[i] == 0 {
                assert(encode_utf8(self.name@)[i as int] == 0);
                return Err(Error::of("Tensor name contains NUL"));
            }
        }
        match tensor_bytes(self.shape, self.dtype) {
            Err(e) => Err(e),
            Ok(size) => {
                if size != self.data.len() {
                    let mut text = String::new();
                    text.append("Input ");
                    text.append(self.name);
                    text.append(" byte count does not match shape/dtype");
                    assert(text@ =~= "Input "@ + self.name@
                        + " byte count does not match shape/dtype"@);
                    return Err(Error(text));
                }
                Ok(())
            },
        }
    }
}

/// The order of the bytes of a number.
#[derive(Clone, Copy, Debug, PartialEq, Eq, Structural)]
pub enum ByteOrder {
    Little,
    Big,
}

/// The order of bytes of the hardware that runs the program.
pub open spec fn machine_order() -> ByteOrder {
    match endianness() {
        Endian::Little => ByteOrder::Little,
        Endian::Big => ByteOrder::Big,
    }
}

/// Reads a number of two bytes as this machine does.
///
/// Calls `u16::from_ne_bytes`, which takes the first byte for the low one where the hardware is
/// little-endian, and for the high one where it is big-endian. Which of the two the hardware is stays
/// unsaid.
#[verifier::external_body]
fn native_probe(bytes: [u8; 2]) -> (n: u16)
    ensures
        n == match machine_order() {
            ByteOrder::Little => bytes@[0] + bytes@[1] * 0x100,
            ByteOrder::Big => bytes@[1] + bytes@[0] * 0x100,
        },
{
    u16::from_ne_bytes(bytes)
}

/// The order of bytes on this machine: the one in which it reads a number.
pub fn native_order() -> (order: ByteOrder)
    ensures
        order == machine_order(),
{
    if native_probe([1, 0]) == 1 {
        ByteOrder::Little
    } else {
        ByteOrder::Big
    }
}

/// The number of four bytes, the low one first.
pub open spec fn low_first4(b: Seq<u8>, at: int) -> int {
    b[at] + b[at + 1] * 0x100 + b[at + 2] * 0x1_0000 + b[at + 3] * 0x100_0000
}

/// The number of four bytes, the high one first.
pub open spec fn high_first4(b: Seq<u8>, at: int) -> int {
    b[at + 3] + b[at + 2] * 0x100 + b[at + 1] * 0x1_0000 + b[at] * 0x100_0000
}

/// The number of four bytes.
pub open spec fn number4(b: Seq<u8>, at: int, order: ByteOrder) -> int {
    match order {
        ByteOrder::Little => low_first4(b, at),
        ByteOrder::Big => high_first4(b, at),
    }
}

/// The number of eight bytes.
pub open spec fn number8(b: Seq<u8>, at: int, order: ByteOrder) -> int {
    match order {
        ByteOrder::Little => low_first4(b, at) + low_first4(b, at + 4) * 0x1_0000_0000,
        ByteOrder::Big => high_first4(b, at + 4) + high_first4(b, at) * 0x1_0000_0000,
    }
}

/// The signed number that eight bytes stand for.
pub open spec fn signed8(n: int) -> int {
    if n < 0x8000_0000_0000_0000 {
        n
    } else {
        n - 0x1_0000_0000_0000_0000
    }
}

fn read4(b: &Vec<u8>, at: usize, order: ByteOrder) -> (n: u32)
    requires
        at + 4 <= b@.len(),
    ensures
        n == number4(b@, at as int, order),
{
    assert(b.len() == b@.len());
    match order {
        ByteOrder::Little => b[at] as u32 + (b[at + 1] as u32) * 0x100 + (b[at + 2] as u32)
            * 0x1_0000 + (b[at + 3] as u32) * 0x100_0000,
        ByteOrder::Big => b[at + 3] as u32 + (b[at + 2] as u32) * 0x100 + (b[at + 1] as u32)
            * 0x1_0000 + (b[at] as u32) * 0x100_0000,
    }
}

fn read8(b: &Vec<u8>, at: usize, order: ByteOrder) -> (n: i64)
    requires
        at + 8 <= b@.len(),
    ensures
        n == signed8(number8(b@, at as int, order)),
{
    assert(b.len() == b@.len());
    let first: u64 = read4(b, at, order) as u64;
    let second: u64 = read4(b, at + 4, order) as u64;
    let n: u64 = match order {
        ByteOrder::Little => first + second * 0x1_0000_0000,
        ByteOrder::Big => second + first * 0x1_0000_0000,
    };
    if n < 0x8000_0000_0000_0000 {
        n as i64
    } else {
        let over: i64 = (n - 0x8000_0000_0000_0000) as i64;
        over + i64::MIN
    }
}

/// Byte `k` of a number of four bytes, counted from the low one.
pub open spec fn digit(v: u32, k: int) -> u8 {
    if k == 0 {
        (v % 0x100) as u8
    } else if k == 1 {
        (v / 0x100 % 0x100) as u8
    } else if k == 2 {
        (v / 0x1_0000 % 0x100) as u8
    } else {
        (v / 0x100_0000) as u8
    }
}

/// The bytes of numbers of four bytes.
pub open spec fn bytes4(values: Seq<u32>, order: ByteOrder) -> Seq<u8> {
    Seq::new(
        4 * values.len(),
        |i: int|
            match order {
                ByteOrder::Little => digit(values[i / 4], i % 4),
                ByteOrder::Big => digit(values[i / 4], 3 - i % 4),
            },
    )
}

proof fn digits_add_up(v: u32)
    ensures
        digit(v, 0) + digit(v, 1) * 0x100 + digit(v, 2) * 0x1_0000 + digit(v, 3) * 0x100_0000 == v,
{
    let a = v % 0x100;
    let b = v / 0x100 % 0x100;
    let c = v / 0x1_0000 % 0x100;
    let d = v / 0x100_0000;
    assert(d < 0x100);
    assert(v / 0x100 == b + 0x100 * (v / 0x100 / 0x100));
    assert(v / 0x100 / 0x100 == v / 0x1_0000);
    assert(v / 0x1_0000 == c + 0x100 * (v / 0x1_0000 / 0x100));
    assert(v / 0x1_0000 / 0x100 == d);
}

/// A number of four bytes is read back as it was written.
proof fn number_comes_back(values: Seq<u32>, order: ByteOrder, i: int)
    requires
        0 <= i < values.len(),
    ensures
        number4(bytes4(values, order), 4 * i, order) == values[i],
{
    let b = bytes4(values, order);
    let v = values[i];
    digits_add_up(v);
    assert((4 * i) / 4 == i && (4 * i) % 4 == 0);
    assert((4 * i + 1) / 4 == i && (4 * i + 1) % 4 == 1);
    assert((4 * i + 2) / 4 == i && (4 * i + 2) % 4 == 2);
    assert((4 * i + 3) / 4 == i && (4 * i + 3) % 4 == 3);
    if order is Little {
        assert(b[4 * i] == digit(v, 0) && b[4 * i + 1] == digit(v, 1));
        assert(b[4 * i + 2] == digit(v, 2) && b[4 * i + 3] == digit(v, 3));
    } else {
        assert(b[4 * i] == digit(v, 3) && b[4 * i + 1] == digit(v, 2));
        assert(b[4 * i + 2] == digit(v, 1) && b[4 * i + 3] == digit(v, 0));
    }
}

/// Writes the bits of single-precision numbers, in a given order of bytes.
pub fn single_bytes_in(values: &Vec<u32>, order: ByteOrder) -> (bytes: Vec<u8>)
    requires
        4 * values@.len() <= usize::MAX,
    ensures
        bytes@ == bytes4(values@, order),
{
    let mut bytes: Vec<u8> = Vec::new();
    for i in 0..values.len()
        invariant
            bytes@ =~= bytes4(values@, order).take(4 * i),
    {
        let v: u32 = values[i];
        let a: u8 = (v % 0x100) as u8;
        let b: u8 = (v / 0x100 % 0x100) as u8;
        let c: u8 = (v / 0x1_0000 % 0x100) as u8;
        let d: u8 = (v / 0x100_0000) as u8;
        match order {
            ByteOrder::Little => {
                bytes.push(a);
                bytes.push(b);
                bytes.push(c);
                bytes.push(d);
            },
            ByteOrder::Big => {
                bytes.push(d);
                bytes.push(c);
                bytes.push(b);
                bytes.push(a);
            },
        }
    }
    assert(bytes@ =~= bytes4(values@, order));
    bytes
}

/// Writes the bits of single-precision numbers, in the order of bytes of the machine.
pub fn single_bytes(values: &Vec<u32>) -> (bytes: Vec<u8>)
    requires
        4 * values@.len() <= usize::MAX,
    ensures
        bytes@ == bytes4(values@, machine_order()),
{
    single_bytes_in(values, native_order())
}

/// A tensor that came out.
#[derive(Clone, Debug, PartialEq, Eq)]
pub struct Output {
    pub info: TensorInfo,
    pub data: Vec<u8>,
}

impl Output {
    /// The signed numbers that the bytes stand for.
    pub open spec fn integers(&self, order: ByteOrder) -> Seq<i64> {
        Seq::new(
            self.data@.len() / 8,
            |i: int| signed8(number8(self.data@, 8 * i, order)) as i64,
        )
    }

    /// Whether the bytes are signed numbers of eight bytes.
    pub open spec fn holds_integers(&self) -> bool {
        self.info.dtype == DataType::I64 && self.data@.len() % 8 == 0
    }

    /// Copies signed numbers, none where the tensor is empty, in a given order of bytes.
    pub fn to_i64_in(&self, order: ByteOrder) -> (result: Result<Vec<i64>, Error>)
        ensures
            if self.holds_integers() {
                result matches Ok(numbers) && numbers@ == self.integers(order)
            } else {
                refused(result, "Output is not a valid INT64 buffer"@)
            },
    {
        if self.info.dtype != DataType::I64 || self.data.len() % 8 != 0 {
            return Err(Error::of("Output is not a valid INT64 buffer"));
        }
        let total: usize = self.data.len();
        let n: usize = total / 8;
        let mut out: Vec<i64> = Vec::new();
        for i in 0..n
            invariant
                total == self.data@.len(),
                n == total / 8,
                out@ == self.integers(order).take(i as int),
        {
            let v: i64 = read8(&self.data, 8 * i, order);
            out.push(v);
            assert(self.integers(order)[i as int] == v);
            assert(out@ =~= self.integers(order).take(i + 1));
        }
        assert(out@ =~= self.integers(order));
        Ok(out)
    }

    /// Copies signed numbers, in the order of bytes of the machine.
    pub fn to_i64(&self) -> (result: Result<Vec<i64>, Error>)
        ensures
            if self.holds_integers() {
                result matches Ok(numbers) && numbers@ == self.integers(machine_order())
            } else {
                refused(result, "Output is not a valid INT64 buffer"@)
            },
    {
        self.to_i64_in(native_order())
    }

    /// The bits of single-precision numbers that the bytes stand for.
    pub open spec fn singles(&self, order: ByteOrder) -> Seq<u32> {
        Seq::new(self.data@.len() / 4, |i: int| number4(self.data@, 4 * i, order) as u32)
    }

    /// Whether the bytes are single-precision numbers.
    pub open spec fn holds_singles(&self) -> bool {
        self.info.dtype == DataType::F32 && self.data@.len() % 4 == 0
    }

    /// Copies the bits of single-precision numbers, in a given order of bytes.
    pub fn to_f32_in(&self, order: ByteOrder) -> (result: Result<Vec<u32>, Error>)
        ensures
            if self.holds_singles() {
                result matches Ok(numbers) && numbers@ == self.singles(order)
            } else {
                refused(result, "Output is not a valid FP32 buffer"@)
            },
    {
        if self.info.dtype != DataType::F32 || self.data.len() % 4 != 0 {
            return Err(Error::of("Output is not a valid FP32 buffer"));
        }
        let total: usize = self.data.len();
        let n: usize = total / 4;
        let mut out: Vec<u32> = Vec::new();
        for i in 0..n
            invariant
                total == self.data@.len(),
                n == total / 4,
                out@ == self.singles(order).take(i as int),
        {
            let v: u32 = read4(&self.data, 4 * i, order);
            out.push(v);
            assert(self.singles(order)[i as int] == v);
            assert(out@ =~= self.singles(order).take(i + 1));
        }
        assert(out@ =~= self.singles(order));
        Ok(out)
    }

    /// Copies the bits of single-precision numbers, in the order of bytes of the machine.
    pub fn to_f32(&self) -> (result: Result<Vec<u32>, Error>)
        ensures
            if self.holds_singles() {
                result matches Ok(numbers) && numbers@ == self.singles(machine_order())
            } else {
                refused(result, "Output is not a valid FP32 buffer"@)
            },
    {
        self.to_f32_in(native_order())
    }
}

/// Single-precision numbers that go in as bytes come back unchanged from a tensor that holds these
/// bytes, whatever the order of bytes.
pub proof fn singles_come_back(output: Output, values: Seq<u32>, order: ByteOrder)
    requires
        output.info.dtype == DataType::F32,
        output.data@ == bytes4(values, order),
    ensures
        output.holds_singles(),
        output.singles(order) == values,
{
    assert forall|i: int| 0 <= i < values.len() implies #[trigger] output.singles(order)[i]
        == values[i] by {
        number_comes_back(values, order, i);
    }
    assert(output.singles(order) =~= values);
}

/// What the engine says of a tensor: no name where it has none, and as many of the dimensions as its
/// rank says.
#[derive(Debug)]
pub struct NativeInfo {
    pub name: Option<String>,
    pub dtype: i32,
    pub input: i32,
    pub rank: i32,
    pub dims: [i64; 8],
}

/// Why the engine's words are refused.
pub open spec fn info_fault(info: NativeInfo) -> Option<Seq<char>> {
    if info.name is None || !(0 <= info.rank <= 8) {
        Some("Invalid native tensor metadata"@)
    } else if !(0 <= info.dtype <= 8) {
        Some("Unsupported TensorRT dtype "@ + signed_decimal(info.dtype as int))
    } else {
        None
    }
}

/// Whether a tensor is what the engine says.
pub open spec fn describes(info: NativeInfo, tensor: TensorInfo) -> bool {
    &&& info.name matches Some(name) && tensor.name@ == name@
    &&& code_of(tensor.dtype) == info.dtype
    &&& tensor.is_input == (info.input != 0)
    &&& tensor.shape@ == info.dims@.take(info.rank as int)
}

/// Takes the engine's words for a tensor.
pub fn convert(info: &NativeInfo) -> (result: Result<TensorInfo, Error>)
    ensures
        match info_fault(*info) {
            Some(text) => refused(result, text),
            None => result matches Ok(tensor) && describes(*info, tensor),
        },
{
    let name = match &info.name {
        None => return Err(Error::of("Invalid native tensor metadata")),
        Some(name) => name.clone(),
    };
    if info.rank < 0 || info.rank > 8 {
        return Err(Error::of("Invalid native tensor metadata"));
    }
    let dtype = match DataType::try_from(info.dtype) {
        Err(e) => return Err(e),
        Ok(dtype) => dtype,
    };
    let n: usize = info.rank as usize;
    let mut shape: Vec<i64> = Vec::new();
    for i in 0..n
        invariant
            n <= 8,
            shape@ == info.dims@.take(i as int),
    {
        shape.push(info.dims[i]);
        assert(shape@ =~= info.dims@.take(i + 1));
    }
    Ok(TensorInfo { name, dtype, is_input: info.input != 0, shape })
}

/// Turns a status of the engine into a result, with the engine's own words where it failed.
pub fn check(status: i32, words: &str) -> (result: Result<(), Error>)
    ensures
        if status == 0 {
            result is Ok
        } else {
            refused(result, words@)
        },
{
    if status == 0 {
        Ok(())
    } else {
        Err(Error::of(words))
    }
}

/// What is asked of an engine plan and a device before the engine is opened.
pub fn check_plan(plan: &[u8], device: i32) -> (result: Result<(), Error>)
    ensures
        if plan@.len() == 0 {
            refused(result, "Empty engine plan"@)
        } else if device < 0 {
            refused(result, "Device ordinal must be nonnegative"@)
        } else {
            result is Ok
        },
{
    if plan.len() == 0 {
        return Err(Error::of("Empty engine plan"));
    }
    if device < 0 {
        return Err(Error::of("Device ordinal must be nonnegative"));
    }
    Ok(())
}

/// A tensor as the engine takes it: its type, its rank and eight dimensions.
#[derive(Clone, Copy, Debug)]
pub struct PackedInput {
    pub bytes: usize,
    pub dtype: i32,
    pub rank: i32,
    pub dims: [i64; 8],
}

/// Whether a tensor is packed as it is, with zeros behind its dimensions.
pub open spec fn packs(shape: Seq<i64>, dtype: DataType, bytes: nat, p: PackedInput) -> bool {
    &&& p.bytes == bytes
    &&& p.dtype == code_of(dtype)
    &&& p.rank == shape.len()
    &&& forall|i: int|
        0 <= i < 8 ==> #[trigger] p.dims@[i] == if i < shape.len() {
            shape[i]
        } else {
            0
        }
}

/// The first fault of the first `n` tensors.
pub open spec fn inputs_fault(inputs: Seq<Input>, n: int) -> Option<Seq<char>>
    decreases n,
{
    if n <= 0 {
        None
    } else {
        match inputs_fault(inputs, n - 1) {
            Some(text) => Some(text),
            None => inputs[n - 1].fault(),
        }
    }
}

proof fn fault_stays(inputs: Seq<Input>, i: int, n: int)
    requires
        0 <= i <= n,
        inputs_fault(inputs, i) is Some,
    ensures
        inputs_fault(inputs, n) == inputs_fault(inputs, i),
    decreases n,
{
    if i < n {
        fault_stays(inputs, i, n - 1);
    }
}

/// Checks and packs the tensors of a run, in their order.
pub fn pack_inputs<'a>(inputs: &Vec<Input<'a>>) -> (result: Result<Vec<PackedInput>, Error>)
    ensures
        match inputs_fault(inputs@, inputs@.len() as int) {
            Some(text) => refused(result, text),
            None => {
                &&& result matches Ok(packed)
                &&& packed@.len() == inputs@.len()
                &&& forall|i: int|
                    0 <= i < packed@.len() ==> packs(
                        inputs@[i].shape@,
                        inputs@[i].dtype,
                        inputs@[i].data@.len(),
                        #[trigger] packed@[i],
                    )
            },
        },
{
    let mut packed: Vec<PackedInput> = Vec::new();
    for i in 0..inputs.len()
        invariant
            inputs_fault(inputs@, i as int) is None,
            packed@.len() == i,
            forall|k: int|
                0 <= k < i ==> packs(
                    inputs@[k].shape@,
                    inputs@[k].dtype,
                    inputs@[k].data@.len(),
                    #[trigger] packed@[k],
                ),
    {
        let input = &inputs[i];
        match input.validate() {
            Err(e) => {
                proof {
                    assert(inputs_fault(inputs@, i + 1) == input.fault());
                    fault_stays(inputs@, i + 1, inputs@.len() as int);
                }
                return Err(e);
            },
            Ok(()) => {},
        }
        let rank: usize = input.shape.len();
        let mut dims: [i64; 8] = [0; 8];
        for k in 0..rank
            invariant
                rank == input.shape@.len(),
                rank <= 8,
                forall|j: int|
                    0 <= j < 8 ==> #[trigger] dims@[j] == if j < k {
                        input.shape@[j]
                    } else {
                        0
                    },
        {
            dims[k] = input.shape[k];
        }
        packed.push(
            PackedInput {
                bytes: input.data.len(),
                dtype: input.dtype.code(),
                rank: rank as i32,
                dims,
            },
        );
    }
    Ok(packed)
}

/// What is known of an opened engine: its tensors.
#[derive(Debug)]
pub struct Session {
    pub tensors: Vec<TensorInfo>,
}

/// The first fault of the engine's words on its first `n` tensors.
pub open spec fn infos_fault(infos: Seq<NativeInfo>, n: int) -> Option<Seq<char>>
    decreases n,
{
    if n <= 0 {
        None
    } else {
        match infos_fault(infos, n - 1) {
            Some(text) => Some(text),
            None => info_fault(infos[n - 1]),
        }
    }
}

proof fn info_fault_stays(infos: Seq<NativeInfo>, i: int, n: int)
    requires
        0 <= i <= n,
        infos_fault(infos, i) is Some,
    ensures
        infos_fault(infos, n) == infos_fault(infos, i),
    decreases n,
{
    if i < n {
        info_fault_stays(infos, i, n - 1);
    }
}

/// Whether tensors are what the engine says, one for one.
pub open spec fn all_described(infos: Seq<NativeInfo>, tensors: Seq<TensorInfo>) -> bool {
    infos.len() == tensors.len() && forall|i: int|
        0 <= i < infos.len() ==> describes(infos[i], #[trigger] tensors[i])
}

fn convert_all(infos: &Vec<NativeInfo>) -> (result: Result<Vec<TensorInfo>, Error>)
    ensures
        match infos_fault(infos@, infos@.len() as int) {
            Some(text) => refused(result, text),
            None => result matches Ok(tensors) && all_described(infos@, tensors@),
        },
{
    let mut tensors: Vec<TensorInfo> = Vec::new();
    for i in 0..infos.len()
        invariant
            infos_fault(infos@, i as int) is None,
            tensors@.len() == i,
            forall|k: int| 0 <= k < i ==> describes(infos@[k], #[trigger] tensors@[k]),
    {
        match convert(&infos[i]) {
            Err(e) => {
                proof {
                    assert(infos_fault(infos@, i + 1) == info_fault(infos@[i as int]));
                    info_fault_stays(infos@, i + 1, infos@.len() as int);
                }
                return Err(e);
            },
            Ok(tensor) => tensors.push(tensor),
        }
    }
    Ok(tensors)
}

impl Session {
    /// Takes the engine's words for all its tensors.
    pub fn from_infos(infos: &Vec<NativeInfo>) -> (result: Result<Session, Error>)
        ensures
            match infos_fault(infos@, infos@.len() as int) {
                Some(text) => refused(result, text),
                None => result matches Ok(session) && all_described(infos@, session.tensors@),
            },
    {
        match convert_all(infos) {
            Err(e) => Err(e),
            Ok(tensors) => Ok(Session { tensors }),
        }
    }

    /// The tensors of the engine.
    pub fn tensors(&self) -> (tensors: &Vec<TensorInfo>)
        ensures
            *tensors == self.tensors,
    {
        &self.tensors
    }

    /// The places of the tensors that come out.
    pub open spec fn output_places(&self) -> Seq<usize> {
        Seq::new(self.tensors@.len(), |i: int| i as usize).filter(
            |i: usize| !self.tensors@[i as int].is_input,
        )
    }

    /// Lists the places of the tensors that come out: those that are asked for after a run.
    pub fn outputs(&self) -> (places: Vec<usize>)
        ensures
            places@ == self.output_places(),
    {
        let ghost all = Seq::new(self.tensors@.len(), |i: int| i as usize);
        let ghost keep = |i: usize| !self.tensors@[i as int].is_input;
        let mut places: Vec<usize> = Vec::new();
        proof {
            reveal(Seq::filter);
            assert(all.take(0).filter(keep) =~= Seq::empty());
        }
        for i in 0..self.tensors.len()
            invariant
                all == Seq::new(self.tensors@.len(), |i: int| i as usize),
                keep == (|i: usize| !self.tensors@[i as int].is_input),
                places@ == all.take(i as int).filter(keep),
        {
            proof {
                filter_next(all, keep, i as int);
                assert(all[i as int] == i);
            }
            if !self.tensors[i].is_input {
                places.push(i);
            }
        }
        assert(all.take(all.len() as int) =~= all);
        places
    }
}

/// Makes the tensor that came out of the engine's words and bytes.
pub fn take_output(info: &NativeInfo, data: Vec<u8>) -> (result: Result<Output, Error>)
    ensures
        match info_fault(*info) {
            Some(text) => refused(result, text),
            None => result matches Ok(output) && describes(*info, output.info) && output.data
                == data,
        },
{
    match convert(info) {
        Err(e) => Err(e),
        Ok(tensor) => Ok(Output { info: tensor, data }),
    }
}

/// A shape is accepted exactly where it has at most eight dimensions, none negative, and every leading part of
/// it takes a number of bytes that the machine can count.
pub proof fn shapes_are_countable(shape: Seq<i64>, dtype: DataType)
    ensures
        shape_fault(shape, dtype) is None <==> {
            &&& shape.len() <= 8
            &&& forall|i: int| 0 <= i < shape.len() ==> (#[trigger] shape[i]) >= 0
            &&& forall|i: int|
                0 <= i < shape.len() ==> (#[trigger] shape[i]) <= usize::MAX && size_of(dtype)
                    * volume(shape, i + 1) <= usize::MAX
        },
        shape_fault(shape, dtype) is None ==> bytes_of(shape, dtype, shape.len() as int) == Some(
            (size_of(dtype) * volume(shape, shape.len() as int)) as nat,
        ),
{
    if concrete(shape) {
        sizes_are_countable(shape, dtype, shape.len() as int);
        if bytes_of(shape, dtype, shape.len() as int) is Some {
            sizes_are_products(shape, dtype, shape.len() as int);
        }
    }
}

proof fn sizes_are_countable(shape: Seq<i64>, dtype: DataType, n: int)
    requires
        concrete(shape),
        0 <= n <= shape.len(),
    ensures
        bytes_of(shape, dtype, n) is Some <==> forall|i: int|
            0 <= i < n ==> (#[trigger] shape[i]) <= usize::MAX && size_of(dtype) * volume(
                shape,
                i + 1,
            ) <= usize::MAX,
    decreases n,
{
    if n > 0 {
        sizes_are_countable(shape, dtype, n - 1);
        if bytes_of(shape, dtype, n - 1) is Some {
            sizes_are_products(shape, dtype, n - 1);
            let size = bytes_of(shape, dtype, n - 1)->0;
            let v = volume(shape, n - 1);
            let d = shape[n - 1];
            assert(volume(shape, n) == v * d);
            assert(size * d == size_of(dtype) * (v * d)) by (nonlinear_arith)
                requires
                    size == size_of(dtype) * v,
            ;
        }
    }
}

/// The sizes of the types: single-precision and 32-bit numbers take four bytes, half-precision ones two, 64-bit
/// ones eight, all others one. The volume of a shape is the product of its dimensions.
pub proof fn types_have_their_sizes(dtype: DataType, shape: Seq<i64>, n: int)
    requires
        0 <= n < shape.len(),
    ensures
        size_of(dtype) == 4 <==> dtype is F32 || dtype is I32,
        size_of(dtype) == 2 <==> dtype is F16 || dtype is Bf16,
        size_of(dtype) == 8 <==> dtype is I64,
        size_of(dtype) == 1 <==> dtype is I8 || dtype is Bool || dtype is U8 || dtype is Fp8,
        volume(shape, 0) == 1,
        volume(shape, n + 1) == volume(shape, n) * shape[n],
{
}

/// An input is accepted exactly where its name holds no zero byte, its shape is accepted, and it has as many
/// bytes as shape and type take.
pub proof fn inputs_match_their_shapes(
    name: Seq<char>,
    dtype: DataType,
    shape: Seq<i64>,
    bytes: nat,
)
    ensures
        input_fault(name, dtype, shape, bytes) is None <==> {
            &&& !encode_utf8(name).contains(0)
            &&& shape_fault(shape, dtype) is None
            &&& bytes == size_of(dtype) * volume(shape, shape.len() as int)
        },
{
    if shape_fault(shape, dtype) is None {
        sizes_are_products(shape, dtype, shape.len() as int);
    }
}

/// Inputs are accepted exactly where each is; otherwise what is told is said of the first that is not.
pub proof fn the_first_bad_input_is_told(inputs: Seq<Input>, n: int)
    requires
        0 <= n <= inputs.len(),
    ensures
        inputs_fault(inputs, n) is None <==> forall|i: int|
            0 <= i < n ==> (#[trigger] inputs[i]).fault() is None,
        forall|i: int|
            0 <= i < n && (#[trigger] inputs[i]).fault() is Some && (forall|j: int|
                0 <= j < i ==> (#[trigger] inputs[j]).fault() is None) ==> inputs_fault(inputs, n)
                == inputs[i].fault(),
    decreases n,
{
    if n > 0 {
        the_first_bad_input_is_told(inputs, n - 1);
    }
}

/// Numbers come back from their bytes lowest byte first or highest byte first, as the order says, and eight
/// bytes as a number with a sign.
pub proof fn numbers_are_read_in_their_order(b: Seq<u8>, at: int)
    ensures
        number4(b, at, ByteOrder::Little) == b[at] + 256 * (b[at + 1] + 256 * (b[at + 2] + 256 * b[at
            + 3])),
        number4(b, at, ByteOrder::Big) == b[at + 3] + 256 * (b[at + 2] + 256 * (b[at + 1] + 256
            * b[at])),
        number8(b, at, ByteOrder::Little) == number4(b, at, ByteOrder::Little) + 0x1_0000_0000
            * number4(b, at + 4, ByteOrder::Little),
        number8(b, at, ByteOrder::Big) == number4(b, at + 4, ByteOrder::Big) + 0x1_0000_0000
            * number4(b, at, ByteOrder::Big),
        forall|n: int|
            0 <= n < 0x1_0000_0000_0000_0000 ==> -0x8000_0000_0000_0000 <= #[trigger] signed8(n)
                < 0x8000_0000_0000_0000 && (signed8(n) - n) % 0x1_0000_0000_0000_0000 == 0,
{
}

/// The description of a tensor is accepted exactly where it has a name, a rank from zero to eight and a known
/// type; descriptions where each is, and otherwise the first that is not is told.
pub proof fn descriptions_are_complete(info: NativeInfo, infos: Seq<NativeInfo>, n: int)
    requires
        0 <= n <= infos.len(),
    ensures
        info_fault(info) is None <==> info.name is Some && 0 <= info.rank && info.rank <= 8 && 0
            <= info.dtype && info.dtype <= 8,
        infos_fault(infos, n) is None <==> forall|i: int|
            0 <= i < n ==> info_fault(#[trigger] infos[i]) is None,
        forall|i: int|
            0 <= i < n && info_fault(#[trigger] infos[i]) is Some && (forall|j: int|
                0 <= j < i ==> info_fault(#[trigger] infos[j]) is None) ==> infos_fault(infos, n)
                == info_fault(infos[i]),
    decreases n,
{
    if n > 0 {
        descriptions_are_complete(info, infos, n - 1);
    }
}

/// A tensor is described by its name, its type, whether it goes in, and as many dimensions as its rank; an
/// input is packed with its bytes, type and rank, and its dimensions before zeros.
pub proof fn tensors_are_described_as_given(
    info: NativeInfo,
    tensor: TensorInfo,
    shape: Seq<i64>,
    dtype: DataType,
    bytes: nat,
    p: PackedInput,
)
    requires
        describes(info, tensor),
        0 <= info.rank <= info.dims@.len(),
        packs(shape, dtype, bytes, p),
        shape.len() <= 8,
    ensures
        info.name is Some && tensor.name@ == info.name->0@,
        tensor.is_input <==> info.input != 0,
        tensor.shape@.len() == info.rank,
        forall|i: int| 0 <= i < info.rank ==> #[trigger] tensor.shape@[i] == info.dims@[i],
        forall|t: DataType| code_of(t) == info.dtype ==> #[trigger] code_of(t) == code_of(
            tensor.dtype,
        ) && t == tensor.dtype,
        p.bytes == bytes,
        p.dtype == code_of(dtype),
        p.rank == shape.len(),
        forall|i: int| 0 <= i < shape.len() ==> #[trigger] p.dims@[i] == shape[i],
        forall|i: int| shape.len() <= i < 8 ==> #[trigger] p.dims@[i] == 0,
{
    assert forall|t: DataType| code_of(t) == info.dtype implies #[trigger] code_of(t) == code_of(
        tensor.dtype,
    ) && t == tensor.dtype by {
        codes_are_distinct(t, tensor.dtype);
    }
}

/// The codes of the types.
pub proof fn types_have_their_codes()
    ensures
        code_of(DataType::F32) == 0,
        code_of(DataType::F16) == 1,
        code_of(DataType::I8) == 2,
        code_of(DataType::I32) == 3,
        code_of(DataType::Bool) == 4,
        code_of(DataType::U8) == 5,
        code_of(DataType::Fp8) == 6,
        code_of(DataType::Bf16) == 7,
        code_of(DataType::I64) == 8,
{
}

/// An output holds integers where it is of eight-byte integers and its bytes come in eights, single-precision
/// numbers where it is of these and its bytes come in fours; each is read from its own bytes, in their order.
pub proof fn outputs_are_read_number_by_number(output: Output, order: ByteOrder, i: int)
    ensures
        output.holds_integers() <==> output.info.dtype is I64 && output.data@.len() % 8 == 0,
        output.holds_singles() <==> output.info.dtype is F32 && output.data@.len() % 4 == 0,
        output.integers(order).len() == output.data@.len() / 8,
        output.singles(order).len() == output.data@.len() / 4,
        0 <= i < output.data@.len() / 8 ==> output.integers(order)[i] == signed8(
            number8(output.data@, 8 * i, order),
        ) as i64,
        0 <= i < output.data@.len() / 4 ==> output.singles(order)[i] == number4(
            output.data@,
            4 * i,
            order,
        ) as u32,
{
}

/// The outputs of a session are its tensors that do not go in, in their order.
pub proof fn outputs_are_the_other_tensors(session: &Session, place: usize)
    requires
        session.tensors@.len() <= usize::MAX,
    ensures
        session.output_places().contains(place) <==> place < session.tensors@.len()
            && !session.tensors@[place as int].is_input,
{
    let all = Seq::new(session.tensors@.len(), |i: int| i as usize);
    let keep = |i: usize| !session.tensors@[i as int].is_input;
    filter_members(all, keep);
    assert(session.output_places().contains(place) <==> all.contains(place) && keep(place));
    if place < session.tensors@.len() {
        assert(all[place as int] == place);
    }
}

} // verus!
