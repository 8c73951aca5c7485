use vstd::prelude::*;

verus! {

/// The outcome of a three-way comparison.
#[derive(Debug, Clone, Copy, PartialEq, Eq, Structural)]
pub enum Comparison {
    Less,
    Equal,
    Greater,
}

impl Comparison {
    pub open spec fn reversed(self) -> Comparison {
        match self {
            Comparison::Less => Comparison::Greater,
            Comparison::Equal => Comparison::Equal,
            Comparison::Greater => Comparison::Less,
        }
    }

    /// The comparison with its direction flipped.
    pub fn reverse(self) -> (r: Comparison)
        ensures
            r == self.reversed(),
    {
        match self {
            Comparison::Less => Comparison::Greater,
            Comparison::Equal => Comparison::Equal,
            Comparison::Greater => Comparison::Less,
        }
    }
}

/// Three-way comparison of two mathematical integers.
pub open spec fn int_order(a: int, b: int) -> Comparison {
    if a < b {
        Comparison::Less
    } else if a == b {
        Comparison::Equal
    } else {
        Comparison::Greater
    }
}

/// The column types of a table.
#[derive(Debug, Clone, Copy, PartialEq, Eq, Structural)]
pub enum DataType {
    Int32,
    Int64,
    Float32,
    Float64,
    String,
}

/// A column value.  Floating-point values are held as their IEEE-754 bit
/// patterns (as returned by `to_bits`); strings are held as their UTF-8
/// bytes.
#[derive(Debug)]
pub enum Data {
    Int32(i32),
    Int64(i64),
    Float32(u32),
    Float64(u64),
    String(Vec<u8>),
}

/// The mathematical value of a [`Data`].
pub enum Value {
    Int32(i32),
    Int64(i64),
    Float32(u32),
    Float64(u64),
    Str(Seq<u8>),
}

impl View for Data {
    type V = Value;

    open spec fn view(&self) -> Value {
        match self {
            Data::Int32(v) => Value::Int32(*v),
            Data::Int64(v) => Value::Int64(*v),
            Data::Float32(v) => Value::Float32(*v),
            Data::Float64(v) => Value::Float64(*v),
            Data::String(v) => Value::Str(v@),
        }
    }
}

impl Value {
    pub open spec fn data_type(self) -> DataType {
        match self {
            Value::Int32(_) => DataType::Int32,
            Value::Int64(_) => DataType::Int64,
            Value::Float32(_) => DataType::Float32,
            Value::Float64(_) => DataType::Float64,
            Value::Str(_) => DataType::String,
        }
    }
}

impl Data {
    /// A copy of this value.
    pub fn copy(&self) -> (r: Data)
        ensures
            r@ == self@,
    {
        match self {
            Data::Int32(v) => Data::Int32(*v),
            Data::Int64(v) => Data::Int64(*v),
            Data::Float32(v) => Data::Float32(*v),
            Data::Float64(v) => Data::Float64(*v),
            Data::String(v) => Data::String(copy_bytes(v)),
        }
    }

    /// The column type this value belongs to.
    pub fn data_type(&self) -> (r: DataType)
        ensures
            r == self@.data_type(),
    {
        match self {
            Data::Int32(_) => DataType::Int32,
            Data::Int64(_) => DataType::Int64,
            Data::Float32(_) => DataType::Float32,
            Data::Float64(_) => DataType::Float64,
            Data::String(_) => DataType::String,
        }
    }
}

/// A copy of a byte vector.
pub fn copy_bytes(v: &Vec<u8>) -> (r: Vec<u8>)
    ensures
        r@ == v@,
{
    let mut r: Vec<u8> = Vec::with_capacity(v.len());
    let mut i: usize = 0;
    while i < v.len()
        invariant
            i <= v.len(),
            r@ == v@.subrange(0, i as int),
        decreases v.len() - i,
    {
        r.push(v[i]);
        i += 1;
    }
    assert(v@.subrange(0, v.len() as int) =~= v@);
    r
}

// ─── IEEE-754 semantics on bit patterns ──────────────────────────────────

/// Bits of an `f32` other than the sign bit.
pub open spec fn f32_magnitude(b: u32) -> int {
    b as int % 0x8000_0000
}

pub open spec fn f32_negative(b: u32) -> bool {
    b >= 0x8000_0000
}

pub open spec fn f32_is_nan(b: u32) -> bool {
    f32_magnitude(b) > 0x7f80_0000
}

/// The position of a non-NaN `f32` on the number line: two values compare
/// as the reals they denote iff their keys compare so (both zeros get 0).
pub open spec fn f32_key(b: u32) -> int {
    if f32_negative(b) {
        -f32_magnitude(b)
    } else {
        f32_magnitude(b)
    }
}

/// The key of `f32::total_cmp`: every bit pattern, NaNs included, in the
/// IEEE total order (negative NaNs first, then -inf .. -0, +0 .. +inf, then
/// positive NaNs).
pub open spec fn f32_total_key(b: u32) -> int {
    if f32_negative(b) {
        -1 - f32_magnitude(b)
    } else {
        f32_magnitude(b)
    }
}

pub open spec fn f64_magnitude(b: u64) -> int {
    b as int % 0x8000_0000_0000_0000
}

pub open spec fn f64_negative(b: u64) -> bool {
    b >= 0x8000_0000_0000_0000
}

pub open spec fn f64_is_nan(b: u64) -> bool {
    f64_magnitude(b) > 0x7ff0_0000_0000_0000
}

pub open spec fn f64_key(b: u64) -> int {
    if f64_negative(b) {
        -f64_magnitude(b)
    } else {
        f64_magnitude(b)
    }
}

pub open spec fn f64_total_key(b: u64) -> int {
    if f64_negative(b) {
        -1 - f64_magnitude(b)
    } else {
        f64_magnitude(b)
    }
}

/// `f32::partial_cmp` on two bit patterns.
pub open spec fn f32_partial_order(a: u32, b: u32) -> Option<Comparison> {
    if f32_is_nan(a) || f32_is_nan(b) {
        None
    } else {
        Some(int_order(f32_key(a), f32_key(b)))
    }
}

/// `f64::partial_cmp` on two bit patterns.
pub open spec fn f64_partial_order(a: u64, b: u64) -> Option<Comparison> {
    if f64_is_nan(a) || f64_is_nan(b) {
        None
    } else {
        Some(int_order(f64_key(a), f64_key(b)))
    }
}

fn f32_key_exec(b: u32) -> (r: (bool, i64))
    ensures
        r.0 == f32_is_nan(b),
        r.1 == f32_key(b),
{
    let mag: u32 = b % 0x8000_0000;
    let key: i64 = if b >= 0x8000_0000 { -(mag as i64) } else { mag as i64 };
    (mag > 0x7f80_0000, key)
}

fn f64_key_exec(b: u64) -> (r: (bool, i128))
    ensures
        r.0 == f64_is_nan(b),
        r.1 == f64_key(b),
{
    let mag: u64 = b % 0x8000_0000_0000_0000;
    let key: i128 = if b >= 0x8000_0000_0000_0000 { -(mag as i128) } else { mag as i128 };
    (mag > 0x7ff0_0000_0000_0000, key)
}

/// Three-way comparison of two integers.
pub fn compare_i64(a: i64, b: i64) -> (r: Comparison)
    ensures
        r == int_order(a as int, b as int),
{
    if a < b {
        Comparison::Less
    } else if a == b {
        Comparison::Equal
    } else {
        Comparison::Greater
    }
}

fn compare_i128(a: i128, b: i128) -> (r: Comparison)
    ensures
        r == int_order(a as int, b as int),
{
    if a < b {
        Comparison::Less
    } else if a == b {
        Comparison::Equal
    } else {
        Comparison::Greater
    }
}

/// `f32::total_cmp` on two bit patterns.
pub fn f32_total_order(a: u32, b: u32) -> (r: Comparison)
    ensures
        r == int_order(f32_total_key(a), f32_total_key(b)),
{
    let ka: i64 = if a >= 0x8000_0000 { -1 - ((a % 0x8000_0000) as i64) } else { a as i64 };
    let kb: i64 = if b >= 0x8000_0000 { -1 - ((b % 0x8000_0000) as i64) } else { b as i64 };
    compare_i64(ka, kb)
}

/// `f64::total_cmp` on two bit patterns.
pub fn f64_total_order(a: u64, b: u64) -> (r: Comparison)
    ensures
        r == int_order(f64_total_key(a), f64_total_key(b)),
{
    let ka: i128 = if a >= 0x8000_0000_0000_0000 {
        -1 - ((a % 0x8000_0000_0000_0000) as i128)
    } else {
        a as i128
    };
    let kb: i128 = if b >= 0x8000_0000_0000_0000 {
        -1 - ((b % 0x8000_0000_0000_0000) as i128)
    } else {
        b as i128
    };
    compare_i128(ka, kb)
}

// ─── Byte strings ────────────────────────────────────────────────────────

/// Lexicographic comparison of byte strings (the order of `str` and
/// `String`, since UTF-8 preserves code point order).
pub open spec fn bytes_order(a: Seq<u8>, b: Seq<u8>) -> Comparison
    decreases a.len(),
{
    if a.len() == 0 && b.len() == 0 {
        Comparison::Equal
    } else if a.len() == 0 {
        Comparison::Less
    } else if b.len() == 0 {
        Comparison::Greater
    } else if a[0] < b[0] {
        Comparison::Less
    } else if a[0] > b[0] {
        Comparison::Greater
    } else {
        bytes_order(a.drop_first(), b.drop_first())
    }
}

proof fn lemma_bytes_order_skip(a: Seq<u8>, b: Seq<u8>, i: int)
    requires
        0 <= i <= a.len(),
        i <= b.len(),
        a.subrange(0, i) == b.subrange(0, i),
    ensures
        bytes_order(a, b) == bytes_order(a.skip(i), b.skip(i)),
    decreases i,
{
    if i > 0 {
        assert(a[0] == a.subrange(0, i)[0]);
        assert(b[0] == b.subrange(0, i)[0]);
        assert(a.drop_first().subrange(0, i - 1) =~= a.subrange(0, i).drop_first());
        assert(b.drop_first().subrange(0, i - 1) =~= b.subrange(0, i).drop_first());
        lemma_bytes_order_skip(a.drop_first(), b.drop_first(), i - 1);
        assert(a.drop_first().skip(i - 1) =~= a.skip(i));
        assert(b.drop_first().skip(i - 1) =~= b.skip(i));
    } else {
        assert(a.skip(0) =~= a);
        assert(b.skip(0) =~= b);
    }
}

/// Lexicographic comparison of two byte strings.
pub fn compare_bytes(a: &Vec<u8>, b: &Vec<u8>) -> (r: Comparison)
    ensures
        r == bytes_order(a@, b@),
{
    let mut i: usize = 0;
    while i < a.len() && i < b.len()
        invariant
            i <= a.len(),
            i <= b.len(),
            a@.subrange(0, i as int) == b@.subrange(0, i as int),
        decreases a.len() - i,
    {
        if a[i] != b[i] {
            proof {
                lemma_bytes_order_skip(a@, b@, i as int);
                assert(a@.skip(i as int)[0] == a@[i as int]);
                assert(b@.skip(i as int)[0] == b@[i as int]);
            }
            if a[i] < b[i] {
                return Comparison::Less;
            } else {
                return Comparison::Greater;
            }
        }
        assert(a@.subrange(0, i + 1) =~= a@.subrange(0, i as int).push(a@[i as int]));
        assert(b@.subrange(0, i + 1) =~= b@.subrange(0, i as int).push(b@[i as int]));
        i += 1;
    }
    proof {
        lemma_bytes_order_skip(a@, b@, i as int);
    }
    if i < a.len() {
        Comparison::Greater
    } else if i < b.len() {
        Comparison::Less
    } else {
        proof {
            assert(a@.skip(i as int).len() == 0);
        }
        Comparison::Equal
    }
}

/// Equality of two byte strings.
pub fn eq_bytes(a: &Vec<u8>, b: &Vec<u8>) -> (r: bool)
    ensures
        r == (a@ == b@),
{
    if a.len() != b.len() {
        return false;
    }
    let mut i: usize = 0;
    while i < a.len()
        invariant
            a.len() == b.len(),
            i <= a.len(),
            a@.subrange(0, i as int) == b@.subrange(0, i as int),
        decreases a.len() - i,
    {
        if a[i] != b[i] {
            return false;
        }
        assert(a@.subrange(0, i + 1) =~= a@.subrange(0, i as int).push(a@[i as int]));
        assert(b@.subrange(0, i + 1) =~= b@.subrange(0, i as int).push(b@[i as int]));
        i += 1;
    }
    assert(a@ =~= a@.subrange(0, i as int));
    assert(b@ =~= b@.subrange(0, i as int));
    true
}

// ─── Value comparison ────────────────────────────────────────────────────

/// `==` between two values: values of different types are never equal;
/// floats follow IEEE-754 (NaN is unequal to everything, `0.0 == -0.0`).
pub open spec fn value_eq(a: Value, b: Value) -> bool {
    match (a, b) {
        (Value::Int32(x), Value::Int32(y)) => x == y,
        (Value::Int64(x), Value::Int64(y)) => x == y,
        (Value::Float32(x), Value::Float32(y)) => f32_partial_order(x, y) == Some(Comparison::Equal),
        (Value::Float64(x), Value::Float64(y)) => f64_partial_order(x, y) == Some(Comparison::Equal),
        (Value::Str(x), Value::Str(y)) => x == y,
        _ => false,
    }
}

/// `==` on values is symmetric.
pub proof fn lemma_value_eq_symmetric(a: Value, b: Value)
    ensures
        value_eq(a, b) == value_eq(b, a),
{
}

/// `partial_cmp` between two values: `None` for values of different types
/// and for a NaN operand.
pub open spec fn value_partial_order(a: Value, b: Value) -> Option<Comparison> {
    match (a, b) {
        (Value::Int32(x), Value::Int32(y)) => Some(int_order(x as int, y as int)),
        (Value::Int64(x), Value::Int64(y)) => Some(int_order(x as int, y as int)),
        (Value::Float32(x), Value::Float32(y)) => f32_partial_order(x, y),
        (Value::Float64(x), Value::Float64(y)) => f64_partial_order(x, y),
        (Value::Str(x), Value::Str(y)) => Some(bytes_order(x, y)),
        _ => None,
    }
}

/// The comparison a sort key of type `dt` uses: integers and strings by
/// value, floats by `total_cmp`; values of another type compare equal.
pub open spec fn value_key_order(dt: DataType, a: Value, b: Value) -> Comparison {
    match (dt, a, b) {
        (DataType::Int32, Value::Int32(x), Value::Int32(y)) => int_order(x as int, y as int),
        (DataType::Int64, Value::Int64(x), Value::Int64(y)) => int_order(x as int, y as int),
        (DataType::Float32, Value::Float32(x), Value::Float32(y)) => int_order(
            f32_total_key(x),
            f32_total_key(y),
        ),
        (DataType::Float64, Value::Float64(x), Value::Float64(y)) => int_order(
            f64_total_key(x),
            f64_total_key(y),
        ),
        (DataType::String, Value::Str(x), Value::Str(y)) => bytes_order(x, y),
        _ => Comparison::Equal,
    }
}

/// `a == b` on two column values.
pub fn data_eq(a: &Data, b: &Data) -> (r: bool)
    ensures
        r == value_eq(a@, b@),
{
    match (a, b) {
        (Data::Int32(x), Data::Int32(y)) => *x == *y,
        (Data::Int64(x), Data::Int64(y)) => *x == *y,
        (Data::Float32(x), Data::Float32(y)) => {
            let (nx, kx) = f32_key_exec(*x);
            let (ny, ky) = f32_key_exec(*y);
            !nx && !ny && kx == ky
        },
        (Data::Float64(x), Data::Float64(y)) => {
            let (nx, kx) = f64_key_exec(*x);
            let (ny, ky) = f64_key_exec(*y);
            !nx && !ny && kx == ky
        },
        (Data::String(x), Data::String(y)) => eq_bytes(x, y),
        _ => false,
    }
}

/// `a.partial_cmp(b)` on two column values.
pub fn data_partial_compare(a: &Data, b: &Data) -> (r: Option<Comparison>)
    ensures
        r == value_partial_order(a@, b@),
{
    match (a, b) {
        (Data::Int32(x), Data::Int32(y)) => Some(compare_i64(*x as i64, *y as i64)),
        (Data::Int64(x), Data::Int64(y)) => Some(compare_i64(*x, *y)),
        (Data::Float32(x), Data::Float32(y)) => {
            let (nx, kx) = f32_key_exec(*x);
            let (ny, ky) = f32_key_exec(*y);
            if nx || ny {
                None
            } else {
                Some(compare_i64(kx, ky))
            }
        },
        (Data::Float64(x), Data::Float64(y)) => {
            let (nx, kx) = f64_key_exec(*x);
            let (ny, ky) = f64_key_exec(*y);
            if nx || ny {
                None
            } else {
                Some(compare_i128(kx, ky))
            }
        },
        (Data::String(x), Data::String(y)) => Some(compare_bytes(x, y)),
        _ => None,
    }
}

/// The comparison of a sort key of type `dt`.
pub fn data_key_compare(dt: DataType, a: &Data, b: &Data) -> (r: Comparison)
    ensures
        r == value_key_order(dt, a@, b@),
{
    match (dt, a, b) {
        (DataType::Int32, Data::Int32(x), Data::Int32(y)) => compare_i64(*x as i64, *y as i64),
        (DataType::Int64, Data::Int64(x), Data::Int64(y)) => compare_i64(*x, *y),
        (DataType::Float32, Data::Float32(x), Data::Float32(y)) => f32_total_order(*x, *y),
        (DataType::Float64, Data::Float64(x), Data::Float64(y)) => f64_total_order(*x, *y),
        (DataType::String, Data::String(x), Data::String(y)) => compare_bytes(x, y),
        _ => Comparison::Equal,
    }
}

} // verus!
