//! Logical types, values, validity bitmaps and typed columns.
//!
//! Floating-point numbers are held as their IEEE-754 bit patterns, so that
//! equality of values is equality of bits.

use vstd::prelude::*;

use crate::error::{invalid_argument, DevonResult, ErrorKind};

verus! {

/// The widest decimal precision.
pub const MAX_PRECISION: u8 = 38;

/// What a value weighs in memory before its own bytes.
pub const VALUE_BASE_BYTES: usize = 32;

/// How the exact rank of sign vectors is found again.
#[derive(Debug, Clone, Copy, PartialEq, Eq, Structural)]
pub enum Rescore {
    Never,
    F32,
    F16,
    I8,
}

/// How the vectors of a column are stored.
#[derive(Debug, Clone, Copy, PartialEq, Eq, Structural)]
pub enum VectorEncoding {
    F16,
    I8,
    B1 { rescore: Rescore },
}

/// A column's declared type.
#[derive(Debug, Clone, Copy, PartialEq, Eq, Structural)]
pub enum LogicalType {
    Bool,
    Int64,
    Float64,
    String,
    Vector { dim: u32 },
    VectorEncoded { dim: u32, encoding: VectorEncoding },
    GeoPoint,
    Timestamp,
    Bytes,
    Decimal { precision: u8, scale: u8 },
    Json,
}

/// A type's name in messages.
pub open spec fn type_word(ty: LogicalType) -> Seq<char> {
    match ty {
        LogicalType::Bool => "Bool"@,
        LogicalType::Int64 => "Int64"@,
        LogicalType::Float64 => "Float64"@,
        LogicalType::String => "String"@,
        LogicalType::Vector { .. } => "Vector"@,
        LogicalType::VectorEncoded { .. } => "VectorEncoded"@,
        LogicalType::GeoPoint => "GeoPoint"@,
        LogicalType::Timestamp => "Timestamp"@,
        LogicalType::Bytes => "Bytes"@,
        LogicalType::Decimal { .. } => "Decimal"@,
        LogicalType::Json => "Json"@,
    }
}

impl LogicalType {
    /// The type's name in messages.
    pub fn name(&self) -> (name: &'static str)
        ensures
            name@ == type_word(*self),
    {
        match self {
            LogicalType::Bool => "Bool",
            LogicalType::Int64 => "Int64",
            LogicalType::Float64 => "Float64",
            LogicalType::String => "String",
            LogicalType::Vector { .. } => "Vector",
            LogicalType::VectorEncoded { .. } => "VectorEncoded",
            LogicalType::GeoPoint => "GeoPoint",
            LogicalType::Timestamp => "Timestamp",
            LogicalType::Bytes => "Bytes",
            LogicalType::Decimal { .. } => "Decimal",
            LogicalType::Json => "Json",
        }
    }
}

/// Ten to the power `n`.
pub open spec fn pow10(n: nat) -> nat
    decreases n,
{
    if n == 0 {
        1
    } else {
        10 * pow10((n - 1) as nat)
    }
}

/// Whether a decimal of these digits fits a precision.
pub open spec fn digits_fit(digits: i128, precision: u8) -> bool {
    -pow10(precision as nat) < digits < pow10(precision as nat)
}

/// Whether a decimal type is declared as the format allows.
pub open spec fn decimal_declared(precision: u8, scale: u8) -> bool {
    1 <= precision <= MAX_PRECISION && scale <= precision
}

/// Digits fit a precision exactly where they are below ten to the power of it.
pub proof fn law_digits_below_their_power_fit(digits: i128, precision: u8)
    ensures
        digits_fit(digits, precision) <==> -vstd::arithmetic::power::pow(10, precision as nat)
            < digits < vstd::arithmetic::power::pow(10, precision as nat),
{
    lemma_pow10_is_pow(precision as nat);
}

proof fn lemma_pow10_is_pow(n: nat)
    ensures
        pow10(n) == vstd::arithmetic::power::pow(10, n),
    decreases n,
{
    vstd::arithmetic::power::lemma_pow0(10);
    if n > 0 {
        lemma_pow10_is_pow((n - 1) as nat);
        reveal(vstd::arithmetic::power::pow);
    }
}

/// A value fits the type that it is of; a vector has as many elements as its type says, a decimal
/// the scale and no more digits than its type says, and NULL fits every type.
pub proof fn law_values_fit_their_types(value: ValueView, ty: LogicalType)
    ensures
        value is Null ==> value.fits_type(ty),
        value is Bool ==> (value.fits_type(ty) <==> ty is Bool),
        value is Int64 ==> (value.fits_type(ty) <==> ty is Int64),
        value is Float64 ==> (value.fits_type(ty) <==> ty is Float64),
        value is String ==> (value.fits_type(ty) <==> ty is String),
        value is GeoPoint ==> (value.fits_type(ty) <==> ty is GeoPoint),
        value is Timestamp ==> (value.fits_type(ty) <==> ty is Timestamp),
        value is Bytes ==> (value.fits_type(ty) <==> ty is Bytes),
        value is Json ==> (value.fits_type(ty) <==> ty is Json),
        value matches ValueView::Vector(bits) ==> (value.fits_type(ty) <==> (
        ty matches LogicalType::Vector { dim } && dim == bits.len()) || (
        ty matches LogicalType::VectorEncoded { dim, encoding } && dim == bits.len())),
        value matches ValueView::Decimal(number) ==> (value.fits_type(ty) <==> (
        ty matches LogicalType::Decimal { precision, scale } && 1 <= precision <= 38 && scale
            <= precision && number.scale == scale && -vstd::arithmetic::power::pow(
            10,
            precision as nat,
        ) < number.digits < vstd::arithmetic::power::pow(10, precision as nat))),
{
    if let (ValueView::Decimal(number), LogicalType::Decimal { precision, scale }) = (value, ty) {
        law_digits_below_their_power_fit(number.digits, precision);
    }
}

proof fn lemma_pow10_38()
    ensures
        pow10(38) == 100_000_000_000_000_000_000_000_000_000_000_000_000,
{
    reveal_with_fuel(pow10, 39);
}

proof fn lemma_pow10_monotone(a: nat, b: nat)
    requires
        a <= b,
    ensures
        1 <= pow10(a) <= pow10(b),
    decreases b,
{
    if a < b {
        lemma_pow10_monotone(a, (b - 1) as nat);
    } else if b > 0 {
        lemma_pow10_monotone((a - 1) as nat, (b - 1) as nat);
    }
}

/// A power of ten is positive.
pub proof fn lemma_pow10_positive(n: nat)
    ensures
        pow10(n) >= 1,
{
    lemma_pow10_monotone(n, n);
}

/// Whether `digits` fits a precision of at most 38 digits.
pub fn fits_precision(digits: i128, precision: u8) -> (fits: bool)
    requires
        precision <= MAX_PRECISION,
    ensures
        fits == digits_fit(digits, precision),
{
    let mut bound: i128 = 1;
    let mut done: u8 = 0;
    proof {
        lemma_pow10_38();
    }
    while done < precision
        invariant
            done <= precision <= 38,
            bound == pow10(done as nat),
            pow10(38) == 100_000_000_000_000_000_000_000_000_000_000_000_000,
        decreases precision - done,
    {
        proof {
            lemma_pow10_monotone((done + 1) as nat, 38);
        }
        bound = bound * 10;
        done += 1;
    }
    -bound < digits && digits < bound
}

/// A decimal number: unscaled digits and the count of fraction digits.
#[derive(Debug, Clone, Copy, PartialEq, Eq, Structural)]
pub struct Decimal128 {
    /// The unscaled digits.
    pub digits: i128,
    /// How many of the digits are fraction digits.
    pub scale: u8,
}

impl Decimal128 {
    /// A decimal of at most 38 digits.
    pub fn new(digits: i128, scale: u8) -> (result: DevonResult<Decimal128>)
        ensures
            result is Ok <==> scale <= MAX_PRECISION && digits_fit(digits, MAX_PRECISION),
            result matches Ok(decimal) ==> decimal.digits == digits && decimal.scale == scale,
            result matches Err(error) ==> error.kind_of() == ErrorKind::InvalidArgument,
    {
        if scale > MAX_PRECISION {
            return Err(invalid_argument("decimal scale exceeds 38"));
        }
        if !fits_precision(digits, MAX_PRECISION) {
            return Err(invalid_argument("decimal digits exceed precision 38"));
        }
        Ok(Decimal128 { digits, scale })
    }

    /// Whether this decimal can stand in a column of this declaration.
    pub open spec fn fits_in(self, precision: u8, scale: u8) -> bool {
        self.scale == scale && digits_fit(self.digits, precision)
    }
}

/// A cell value.
#[derive(Debug, Clone, PartialEq, Eq)]
pub enum Value {
    Null,
    Bool(bool),
    Int64(i64),
    /// An IEEE-754 double by its bits.
    Float64(u64),
    String(String),
    /// IEEE-754 singles by their bits.
    Vector(Vec<u32>),
    /// Longitude and latitude by their bits.
    GeoPoint(u64, u64),
    Timestamp(i64),
    Bytes(Vec<u8>),
    Decimal(Decimal128),
    Json(String),
}

/// What a value is, independent of how it is held.
pub enum ValueView {
    Null,
    Bool(bool),
    Int64(i64),
    Float64(u64),
    String(Seq<char>),
    Vector(Seq<u32>),
    GeoPoint(u64, u64),
    Timestamp(i64),
    Bytes(Seq<u8>),
    Decimal(Decimal128),
    Json(Seq<char>),
}

impl View for Value {
    type V = ValueView;

    open spec fn view(&self) -> ValueView {
        match *self {
            Value::Null => ValueView::Null,
            Value::Bool(value) => ValueView::Bool(value),
            Value::Int64(value) => ValueView::Int64(value),
            Value::Float64(bits) => ValueView::Float64(bits),
            Value::String(text) => ValueView::String(text@),
            Value::Vector(bits) => ValueView::Vector(bits@),
            Value::GeoPoint(x, y) => ValueView::GeoPoint(x, y),
            Value::Timestamp(value) => ValueView::Timestamp(value),
            Value::Bytes(bytes) => ValueView::Bytes(bytes@),
            Value::Decimal(value) => ValueView::Decimal(value),
            Value::Json(text) => ValueView::Json(text@),
        }
    }
}

/// The views of a row or a column of values.
pub open spec fn views(values: Seq<Value>) -> Seq<ValueView> {
    values.map_values(|value: Value| value@)
}

impl ValueView {
    /// Whether this value may stand in a column of type `ty`.
    pub open spec fn fits_type(self, ty: LogicalType) -> bool {
        match self {
            ValueView::Null => true,
            ValueView::Bool(_) => ty == LogicalType::Bool,
            ValueView::Int64(_) => ty == LogicalType::Int64,
            ValueView::Float64(_) => ty == LogicalType::Float64,
            ValueView::String(_) => ty == LogicalType::String,
            ValueView::Vector(bits) => match ty {
                LogicalType::Vector { dim } => bits.len() == dim,
                LogicalType::VectorEncoded { dim, .. } => bits.len() == dim,
                _ => false,
            },
            ValueView::GeoPoint(_, _) => ty == LogicalType::GeoPoint,
            ValueView::Timestamp(_) => ty == LogicalType::Timestamp,
            ValueView::Bytes(_) => ty == LogicalType::Bytes,
            ValueView::Decimal(value) => match ty {
                LogicalType::Decimal { precision, scale } => decimal_declared(precision, scale)
                    && value.fits_in(precision, scale),
                _ => false,
            },
            ValueView::Json(_) => ty == LogicalType::Json,
        }
    }

    /// What this value weighs in memory.
    pub open spec fn weight(self) -> nat {
        match self {
            ValueView::String(text) => VALUE_BASE_BYTES as nat + vstd::utf8::encode_utf8(text).len(),
            ValueView::Json(text) => VALUE_BASE_BYTES as nat + vstd::utf8::encode_utf8(text).len(),
            ValueView::Bytes(bytes) => VALUE_BASE_BYTES as nat + bytes.len(),
            ValueView::Vector(bits) => VALUE_BASE_BYTES as nat + 4 * bits.len(),
            _ => VALUE_BASE_BYTES as nat,
        }
    }
}

/// The number of bytes of a text, as a machine word.
pub fn text_len(text: &str) -> (len: usize)
    ensures
        len == vstd::utf8::encode_utf8(text@).len(),
{
    text.as_bytes().len()
}

impl Value {
    /// A copy of this value.
    pub fn duplicate(&self) -> (copy: Value)
        ensures
            copy@ == self@,
    {
        match self {
            Value::Null => Value::Null,
            Value::Bool(value) => Value::Bool(*value),
            Value::Int64(value) => Value::Int64(*value),
            Value::Float64(bits) => Value::Float64(*bits),
            Value::String(text) => Value::String(text.clone()),
            Value::Vector(bits) => {
                let copy: Vec<u32> = bits.clone();
                assert(copy@ =~= bits@);
                Value::Vector(copy)
            },
            Value::GeoPoint(x, y) => Value::GeoPoint(*x, *y),
            Value::Timestamp(value) => Value::Timestamp(*value),
            Value::Bytes(bytes) => {
                let copy: Vec<u8> = bytes.clone();
                assert(copy@ =~= bytes@);
                Value::Bytes(copy)
            },
            Value::Decimal(value) => Value::Decimal(*value),
            Value::Json(text) => Value::Json(text.clone()),
        }
    }

    /// Whether two values are the same, floats by their bits.
    pub fn same(&self, other: &Value) -> (same: bool)
        ensures
            same == (self@ == other@),
    {
        match (self, other) {
            (Value::Null, Value::Null) => true,
            (Value::Bool(left), Value::Bool(right)) => *left == *right,
            (Value::Int64(left), Value::Int64(right)) => *left == *right,
            (Value::Float64(left), Value::Float64(right)) => *left == *right,
            (Value::String(left), Value::String(right)) => *left == *right,
            (Value::Vector(left), Value::Vector(right)) => same_words(left, right),
            (Value::GeoPoint(x, y), Value::GeoPoint(u, v)) => *x == *u && *y == *v,
            (Value::Timestamp(left), Value::Timestamp(right)) => *left == *right,
            (Value::Bytes(left), Value::Bytes(right)) => same_bytes(
                left.as_slice(),
                right.as_slice(),
            ),
            (Value::Decimal(left), Value::Decimal(right)) => left.digits == right.digits
                && left.scale == right.scale,
            (Value::Json(left), Value::Json(right)) => *left == *right,
            _ => false,
        }
    }

    /// Whether this value may stand in a column of type `ty`.
    pub fn matches_type(&self, ty: &LogicalType) -> (matches: bool)
        ensures
            matches == self@.fits_type(*ty),
    {
        match (self, ty) {
            (Value::Null, _) => true,
            (Value::Bool(_), LogicalType::Bool) => true,
            (Value::Int64(_), LogicalType::Int64) => true,
            (Value::Float64(_), LogicalType::Float64) => true,
            (Value::String(_), LogicalType::String) => true,
            (Value::Vector(bits), LogicalType::Vector { dim }) => bits.len() as u64 == *dim as u64,
            (Value::Vector(bits), LogicalType::VectorEncoded { dim, .. }) => bits.len() as u64
                == *dim as u64,
            (Value::GeoPoint(_, _), LogicalType::GeoPoint) => true,
            (Value::Timestamp(_), LogicalType::Timestamp) => true,
            (Value::Bytes(_), LogicalType::Bytes) => true,
            (Value::Decimal(value), LogicalType::Decimal { precision, scale }) => 1 <= *precision
                && *precision <= MAX_PRECISION && *scale <= *precision && value.scale == *scale
                && fits_precision(value.digits, *precision),
            (Value::Json(_), LogicalType::Json) => true,
            _ => false,
        }
    }

    /// What this value weighs in memory, `usize::MAX` when that is more.
    pub fn approx_bytes(&self) -> (bytes: usize)
        ensures
            bytes == if self@.weight() <= usize::MAX {
                self@.weight() as int
            } else {
                usize::MAX as int
            },
    {
        let heap: usize = match self {
            Value::String(text) => text_len(text.as_str()),
            Value::Json(text) => text_len(text.as_str()),
            Value::Bytes(bytes) => bytes.len(),
            Value::Vector(bits) => match bits.len().checked_mul(4) {
                Some(bytes) => bytes,
                None => usize::MAX,
            },
            _ => 0,
        };
        match VALUE_BASE_BYTES.checked_add(heap) {
            Some(bytes) => bytes,
            None => usize::MAX,
        }
    }
}

/// Copies of a row of values.
pub fn duplicate_values(values: &[Value]) -> (copy: Vec<Value>)
    ensures
        views(copy@) == views(values@),
{
    let mut copy: Vec<Value> = Vec::new();
    let mut i: usize = 0;
    while i < values.len()
        invariant
            i <= values@.len(),
            copy@.len() == i,
            forall|j: int| 0 <= j < i ==> copy@[j]@ == values@[j]@,
        decreases values@.len() - i,
    {
        copy.push(values[i].duplicate());
        i += 1;
    }
    assert(views(copy@) =~= views(values@));
    copy
}

fn same_words(left: &Vec<u32>, right: &Vec<u32>) -> (same: bool)
    ensures
        same == (left@ == right@),
{
    if left.len() != right.len() {
        return false;
    }
    let mut i: usize = 0;
    while i < left.len()
        invariant
            i <= left@.len(),
            left@.len() == right@.len(),
            forall|j: int| 0 <= j < i ==> left@[j] == right@[j],
        decreases left@.len() - i,
    {
        if left[i] != right[i] {
            assert(left@[i as int] != right@[i as int]);
            return false;
        }
        i += 1;
    }
    assert(left@ =~= right@);
    true
}

/// Whether two byte strings are equal.
pub fn same_bytes(left: &[u8], right: &[u8]) -> (same: bool)
    ensures
        same == (left@ == right@),
{
    if left.len() != right.len() {
        return false;
    }
    let mut i: usize = 0;
    while i < left.len()
        invariant
            i <= left@.len(),
            left@.len() == right@.len(),
            forall|j: int| 0 <= j < i ==> left@[j] == right@[j],
        decreases left@.len() - i,
    {
        if left[i] != right[i] {
            assert(left@[i as int] != right@[i as int]);
            return false;
        }
        i += 1;
    }
    assert(left@ =~= right@);
    true
}

/// Which rows of a column hold a value.
#[derive(Debug, Clone, PartialEq, Eq)]
pub struct Bitmap {
    bits: Vec<bool>,
}

impl View for Bitmap {
    type V = Seq<bool>;

    closed spec fn view(&self) -> Seq<bool> {
        self.bits@
    }
}

/// Whether row `row` is set in a bitmap; rows past its end are not.
pub open spec fn bit_set(bits: Seq<bool>, row: int) -> bool {
    0 <= row < bits.len() && bits[row]
}

impl Bitmap {
    /// A bitmap of `len` rows, each of them set.
    pub fn all_valid(len: usize) -> (bitmap: Bitmap)
        ensures
            bitmap@ == Seq::new(len as nat, |i: int| true),
    {
        let mut bits: Vec<bool> = Vec::new();
        while bits.len() < len
            invariant
                bits@.len() <= len,
                forall|j: int| 0 <= j < bits@.len() ==> bits@[j],
            decreases len - bits@.len(),
        {
            bits.push(true);
        }
        assert(bits@ =~= Seq::new(len as nat, |i: int| true));
        Bitmap { bits }
    }

    /// A bitmap with these bits.
    pub fn from_bits(bits: Vec<bool>) -> (bitmap: Bitmap)
        ensures
            bitmap@ == bits@,
    {
        Bitmap { bits }
    }

    /// Clears one row.
    pub fn clear(&mut self, row: usize)
        ensures
            final(self)@ == if row < old(self)@.len() {
                old(self)@.update(row as int, false)
            } else {
                old(self)@
            },
    {
        if row < self.bits.len() {
            self.bits.set(row, false);
        }
    }

    /// Whether a row is set.
    pub fn is_valid(&self, row: usize) -> (valid: bool)
        ensures
            valid == bit_set(self@, row as int),
    {
        row < self.bits.len() && self.bits[row]
    }

    /// The number of rows.
    pub fn len(&self) -> (len: usize)
        ensures
            len == self@.len(),
    {
        self.bits.len()
    }

    /// A copy of this bitmap.
    pub fn duplicate(&self) -> (copy: Bitmap)
        ensures
            copy@ == self@,
    {
        let bits: Vec<bool> = self.bits.clone();
        assert(bits@ =~= self.bits@);
        Bitmap { bits }
    }
}

/// Whether any of the first `rows` rows is unset.
pub open spec fn has_null(bits: Seq<bool>, rows: nat) -> bool {
    exists|row: int| 0 <= row < rows && !#[trigger] bit_set(bits, row)
}

/// Whether any of the first `rows` rows of `validity` is unset.
pub fn any_null(validity: &Bitmap, rows: usize) -> (any: bool)
    ensures
        any == has_null(validity@, rows as nat),
{
    let mut row: usize = 0;
    while row < rows
        invariant
            row <= rows,
            forall|j: int| 0 <= j < row ==> bit_set(validity@, j),
        decreases rows - row,
    {
        if !validity.is_valid(row) {
            assert(!bit_set(validity@, row as int));
            return true;
        }
        row += 1;
    }
    false
}

/// Whether none of the first `rows` rows is set.
pub open spec fn every_null(bits: Seq<bool>, rows: nat) -> bool {
    forall|row: int| 0 <= row < rows ==> !#[trigger] bit_set(bits, row)
}

/// Whether none of the first `rows` rows of `validity` is set.
pub fn all_null(validity: &Bitmap, rows: usize) -> (all: bool)
    ensures
        all == every_null(validity@, rows as nat),
{
    let mut row: usize = 0;
    while row < rows
        invariant
            row <= rows,
            forall|j: int| 0 <= j < row ==> !bit_set(validity@, j),
        decreases rows - row,
    {
        if validity.is_valid(row) {
            assert(bit_set(validity@, row as int));
            return false;
        }
        row += 1;
    }
    true
}

/// The validity a column keeps: none when every row holds a value.
pub fn column_validity(validity: &Bitmap, rows: usize) -> (kept: Option<Bitmap>)
    ensures
        kept is Some <==> has_null(validity@, rows as nat),
        kept matches Some(bitmap) ==> bitmap@ == validity@,
{
    if any_null(validity, rows) {
        Some(validity.duplicate())
    } else {
        None
    }
}

/// One column's values, typed where the type has a typed form.
#[derive(Debug, Clone, PartialEq, Eq)]
pub enum Column {
    Int64 { values: Vec<i64>, validity: Option<Bitmap> },
    Timestamp { values: Vec<i64>, validity: Option<Bitmap> },
    /// Doubles by their bits.
    Float64 { values: Vec<u64>, validity: Option<Bitmap> },
    Bool { values: Vec<bool>, validity: Option<Bitmap> },
    Decimal { values: Vec<i128>, scale: u8, validity: Option<Bitmap> },
    Boxed(Vec<Value>),
}

/// Whether a row of a column holds a value.
pub open spec fn row_valid(validity: Option<Bitmap>, row: int) -> bool {
    match validity {
        None => true,
        Some(bitmap) => bit_set(bitmap@, row),
    }
}

/// Whether a row of a column holds a value.
pub fn is_row_valid(validity: &Option<Bitmap>, row: usize) -> (valid: bool)
    ensures
        valid == row_valid(*validity, row as int),
{
    match validity {
        None => true,
        Some(bitmap) => bitmap.is_valid(row),
    }
}

/// Whether the kept validity is the payload's, and only where a row is NULL.
pub open spec fn validity_kept(kept: Option<Bitmap>, bits: Seq<bool>, rows: nat) -> bool {
    &&& kept is Some <==> has_null(bits, rows)
    &&& kept matches Some(bitmap) ==> bitmap@ == bits
}

impl Column {
    /// The number of rows.
    pub open spec fn row_count(self) -> nat {
        match self {
            Column::Int64 { values, .. } => values@.len(),
            Column::Timestamp { values, .. } => values@.len(),
            Column::Float64 { values, .. } => values@.len(),
            Column::Bool { values, .. } => values@.len(),
            Column::Decimal { values, .. } => values@.len(),
            Column::Boxed(values) => values@.len(),
        }
    }

    /// The value in a row.
    pub open spec fn row(self, row: int) -> ValueView {
        match self {
            Column::Int64 { values, validity } => if row_valid(validity, row) {
                ValueView::Int64(values@[row])
            } else {
                ValueView::Null
            },
            Column::Timestamp { values, validity } => if row_valid(validity, row) {
                ValueView::Timestamp(values@[row])
            } else {
                ValueView::Null
            },
            Column::Float64 { values, validity } => if row_valid(validity, row) {
                ValueView::Float64(values@[row])
            } else {
                ValueView::Null
            },
            Column::Bool { values, validity } => if row_valid(validity, row) {
                ValueView::Bool(values@[row])
            } else {
                ValueView::Null
            },
            Column::Decimal { values, scale, validity } => if row_valid(validity, row) {
                ValueView::Decimal(Decimal128 { digits: values@[row], scale })
            } else {
                ValueView::Null
            },
            Column::Boxed(values) => values@[row]@,
        }
    }

    /// The values of all rows.
    pub open spec fn rows(self) -> Seq<ValueView> {
        Seq::new(self.row_count(), |row: int| self.row(row))
    }

    /// Whether the column is stored as a decoder leaves a column of type
    /// `ty`: in the typed form where there is one, NULL slots zero, the
    /// payload's validity kept exactly where some row is NULL.
    pub open spec fn stored_as(self, ty: LogicalType, bits: Seq<bool>) -> bool {
        match (ty, self) {
            (LogicalType::Int64, Column::Int64 { values, validity }) => {
                &&& validity_kept(validity, bits, values@.len())
                &&& forall|row: int|
                    0 <= row < values@.len() && !bit_set(bits, row) ==> #[trigger] values@[row] == 0
            },
            (LogicalType::Timestamp, Column::Timestamp { values, validity }) => {
                &&& validity_kept(validity, bits, values@.len())
                &&& forall|row: int|
                    0 <= row < values@.len() && !bit_set(bits, row) ==> #[trigger] values@[row] == 0
            },
            (LogicalType::Float64, Column::Float64 { values, validity }) => {
                &&& validity_kept(validity, bits, values@.len())
                &&& forall|row: int|
                    0 <= row < values@.len() && !bit_set(bits, row) ==> #[trigger] values@[row] == 0
            },
            (LogicalType::Bool, Column::Bool { values, validity }) => {
                &&& validity_kept(validity, bits, values@.len())
                &&& forall|row: int|
                    0 <= row < values@.len() && !bit_set(bits, row) ==> !#[trigger] values@[row]
            },
            (
                LogicalType::Decimal { scale: declared, .. },
                Column::Decimal { values, scale, validity },
            ) => {
                &&& scale == declared
                &&& validity_kept(validity, bits, values@.len())
                &&& forall|row: int|
                    0 <= row < values@.len() && !bit_set(bits, row) ==> #[trigger] values@[row] == 0
            },
            (LogicalType::String, Column::Boxed(_)) => true,
            _ => false,
        }
    }

    /// The number of rows.
    pub fn len(&self) -> (len: usize)
        ensures
            len == self.row_count(),
    {
        match self {
            Column::Int64 { values, .. } => values.len(),
            Column::Timestamp { values, .. } => values.len(),
            Column::Float64 { values, .. } => values.len(),
            Column::Bool { values, .. } => values.len(),
            Column::Decimal { values, .. } => values.len(),
            Column::Boxed(values) => values.len(),
        }
    }

    /// The value in a row.
    pub fn value_at(&self, row: usize) -> (value: Value)
        requires
            row < self.row_count(),
        ensures
            value@ == self.row(row as int),
            value@ == self.rows()[row as int],
    {
        match self {
            Column::Int64 { values, validity } => if is_row_valid(validity, row) {
                Value::Int64(values[row])
            } else {
                Value::Null
            },
            Column::Timestamp { values, validity } => if is_row_valid(validity, row) {
                Value::Timestamp(values[row])
            } else {
                Value::Null
            },
            Column::Float64 { values, validity } => if is_row_valid(validity, row) {
                Value::Float64(values[row])
            } else {
                Value::Null
            },
            Column::Bool { values, validity } => if is_row_valid(validity, row) {
                Value::Bool(values[row])
            } else {
                Value::Null
            },
            Column::Decimal { values, scale, validity } => if is_row_valid(validity, row) {
                Value::Decimal(Decimal128 { digits: values[row], scale: *scale })
            } else {
                Value::Null
            },
            Column::Boxed(values) => values[row].duplicate(),
        }
    }

    /// The values of all rows.
    pub fn to_values(&self) -> (values: Vec<Value>)
        ensures
            views(values@) == self.rows(),
    {
        let mut values: Vec<Value> = Vec::new();
        let count: usize = self.len();
        let mut row: usize = 0;
        while row < count
            invariant
                row <= count,
                count == self.row_count(),
                values@.len() == row,
                forall|j: int| 0 <= j < row ==> values@[j]@ == self.row(j),
            decreases count - row,
        {
            values.push(self.value_at(row));
            row += 1;
        }
        assert(views(values@) =~= self.rows());
        values
    }

    /// A column of these values: in the typed form where the type has one
    /// and each value is NULL or of the type, boxed otherwise.
    pub fn from_values(ty: &LogicalType, values: Vec<Value>) -> (column: Column)
        ensures
            column.rows() == views(values@),
            if typed_form(*ty, views(values@)) {
                column.stored_as(*ty, validity_of(views(values@)))
            } else {
                column is Boxed
            },
    {
        let ghost shown = views(values@);
        if !has_typed_form(ty, values.as_slice()) {
            let column = Column::Boxed(values);
            assert(column.rows() =~= shown);
            return column;
        }
        let bits: Bitmap = present_bits(values.as_slice());
        let validity: Option<Bitmap> = column_validity(&bits, values.len());
        let column = match ty {
            LogicalType::Int64 => Column::Int64 { values: int_slots(values.as_slice()), validity },
            LogicalType::Timestamp => Column::Timestamp {
                values: int_slots(values.as_slice()),
                validity,
            },
            LogicalType::Float64 => Column::Float64 {
                values: float_slots(values.as_slice()),
                validity,
            },
            LogicalType::Bool => Column::Bool { values: bool_slots(values.as_slice()), validity },
            LogicalType::Decimal { scale, .. } => Column::Decimal {
                values: decimal_slots(values.as_slice()),
                scale: *scale,
                validity,
            },
            _ => Column::Boxed(values),
        };
        proof {
            assert(bits@ =~= validity_of(shown));
            assert forall|row: int| 0 <= row < shown.len() implies column.row(row) == shown[row] by {
                assert(scalar_of(*ty, shown[row]));
                assert(bit_set(bits@, row) == (shown[row] != ValueView::Null));
            }
            assert(column.rows() =~= shown);
        }
        column
    }
}

/// Which rows hold a value.
pub open spec fn validity_of(rows: Seq<ValueView>) -> Seq<bool> {
    rows.map_values(|value: ValueView| value != ValueView::Null)
}

/// Whether a value is NULL or belongs to the typed form of `ty`.
pub open spec fn scalar_of(ty: LogicalType, value: ValueView) -> bool {
    match value {
        ValueView::Null => true,
        ValueView::Bool(_) => ty == LogicalType::Bool,
        ValueView::Int64(_) => ty == LogicalType::Int64,
        ValueView::Timestamp(_) => ty == LogicalType::Timestamp,
        ValueView::Float64(_) => ty == LogicalType::Float64,
        ValueView::Decimal(decimal) => ty matches LogicalType::Decimal { scale, .. }
            && decimal.scale == scale,
        _ => false,
    }
}

/// Whether these rows have a typed form under `ty`.
pub open spec fn typed_form(ty: LogicalType, rows: Seq<ValueView>) -> bool {
    &&& ty is Bool || ty is Int64 || ty is Timestamp || ty is Float64 || ty is Decimal
    &&& forall|row: int| 0 <= row < rows.len() ==> scalar_of(ty, #[trigger] rows[row])
}

fn has_typed_form(ty: &LogicalType, values: &[Value]) -> (typed: bool)
    ensures
        typed == typed_form(*ty, views(values@)),
{
    let scalar: bool = match ty {
        LogicalType::Bool => true,
        LogicalType::Int64 => true,
        LogicalType::Timestamp => true,
        LogicalType::Float64 => true,
        LogicalType::Decimal { .. } => true,
        _ => false,
    };
    if !scalar {
        return false;
    }
    let mut row: usize = 0;
    while row < values.len()
        invariant
            row <= values@.len(),
            forall|j: int| 0 <= j < row ==> scalar_of(*ty, #[trigger] views(values@)[j]),
        decreases values@.len() - row,
    {
        let fits: bool = match (ty, &values[row]) {
            (_, Value::Null) => true,
            (LogicalType::Bool, Value::Bool(_)) => true,
            (LogicalType::Int64, Value::Int64(_)) => true,
            (LogicalType::Timestamp, Value::Timestamp(_)) => true,
            (LogicalType::Float64, Value::Float64(_)) => true,
            (LogicalType::Decimal { scale, .. }, Value::Decimal(decimal)) => decimal.scale
                == *scale,
            _ => false,
        };
        assert(fits == scalar_of(*ty, views(values@)[row as int]));
        if !fits {
            return false;
        }
        row += 1;
    }
    true
}

fn present_bits(values: &[Value]) -> (bitmap: Bitmap)
    ensures
        bitmap@ == validity_of(views(values@)),
{
    let mut bits: Vec<bool> = Vec::new();
    let mut row: usize = 0;
    while row < values.len()
        invariant
            row <= values@.len(),
            bits@.len() == row,
            forall|j: int| 0 <= j < row ==> bits@[j] == (values@[j]@ != ValueView::Null),
        decreases values@.len() - row,
    {
        let present: bool = match &values[row] {
            Value::Null => false,
            _ => true,
        };
        bits.push(present);
        row += 1;
    }
    assert(bits@ =~= validity_of(views(values@)));
    Bitmap::from_bits(bits)
}

fn int_slots(values: &[Value]) -> (slots: Vec<i64>)
    ensures
        slots@.len() == values@.len(),
        forall|j: int|
            0 <= j < slots@.len() ==> #[trigger] slots@[j] == (match values@[j]@ {
                ValueView::Int64(value) => value,
                ValueView::Timestamp(value) => value,
                _ => 0,
            }),
{
    let mut slots: Vec<i64> = Vec::new();
    let mut row: usize = 0;
    while row < values.len()
        invariant
            row <= values@.len(),
            slots@.len() == row,
            forall|j: int|
                0 <= j < slots@.len() ==> #[trigger] slots@[j] == (match values@[j]@ {
                    ValueView::Int64(value) => value,
                    ValueView::Timestamp(value) => value,
                    _ => 0,
                }),
        decreases values@.len() - row,
    {
        slots.push(
            match &values[row] {
                Value::Int64(value) => *value,
                Value::Timestamp(value) => *value,
                _ => 0,
            },
        );
        row += 1;
    }
    slots
}

fn float_slots(values: &[Value]) -> (slots: Vec<u64>)
    ensures
        slots@.len() == values@.len(),
        forall|j: int|
            0 <= j < slots@.len() ==> #[trigger] slots@[j] == (match values@[j]@ {
                ValueView::Float64(bits) => bits,
                _ => 0,
            }),
{
    let mut slots: Vec<u64> = Vec::new();
    let mut row: usize = 0;
    while row < values.len()
        invariant
            row <= values@.len(),
            slots@.len() == row,
            forall|j: int|
                0 <= j < slots@.len() ==> #[trigger] slots@[j] == (match values@[j]@ {
                    ValueView::Float64(bits) => bits,
                    _ => 0,
                }),
        decreases values@.len() - row,
    {
        slots.push(
            match &values[row] {
                Value::Float64(bits) => *bits,
                _ => 0,
            },
        );
        row += 1;
    }
    slots
}

fn bool_slots(values: &[Value]) -> (slots: Vec<bool>)
    ensures
        slots@.len() == values@.len(),
        forall|j: int|
            0 <= j < slots@.len() ==> #[trigger] slots@[j] == (match values@[j]@ {
                ValueView::Bool(value) => value,
                _ => false,
            }),
{
    let mut slots: Vec<bool> = Vec::new();
    let mut row: usize = 0;
    while row < values.len()
        invariant
            row <= values@.len(),
            slots@.len() == row,
            forall|j: int|
                0 <= j < slots@.len() ==> #[trigger] slots@[j] == (match values@[j]@ {
                    ValueView::Bool(value) => value,
                    _ => false,
                }),
        decreases values@.len() - row,
    {
        slots.push(
            match &values[row] {
                Value::Bool(value) => *value,
                _ => false,
            },
        );
        row += 1;
    }
    slots
}

fn decimal_slots(values: &[Value]) -> (slots: Vec<i128>)
    ensures
        slots@.len() == values@.len(),
        forall|j: int|
            0 <= j < slots@.len() ==> #[trigger] slots@[j] == (match values@[j]@ {
                ValueView::Decimal(decimal) => decimal.digits,
                _ => 0,
            }),
{
    let mut slots: Vec<i128> = Vec::new();
    let mut row: usize = 0;
    while row < values.len()
        invariant
            row <= values@.len(),
            slots@.len() == row,
            forall|j: int|
                0 <= j < slots@.len() ==> #[trigger] slots@[j] == (match values@[j]@ {
                    ValueView::Decimal(decimal) => decimal.digits,
                    _ => 0,
                }),
        decreases values@.len() - row,
    {
        slots.push(
            match &values[row] {
                Value::Decimal(decimal) => decimal.digits,
                _ => 0,
            },
        );
        row += 1;
    }
    slots
}

} // verus!
