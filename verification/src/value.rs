//! Values: what a field of a record can hold.

use crate::buffer::{bytes_len, contents, copy_to_vec};
use crate::error::ImprintError;
use crate::record::{ImprintRecord, RecordView};
use crate::types::TypeCode;
use bytes::Bytes;
use vstd::prelude::*;
use vstd::std_specs::cmp::PartialEqSpecImpl;
use vstd::std_specs::convert::{FromSpecImpl, TryFromSpecImpl};

verus! {

/// A value that a field of a record can hold.
///
/// The two floating-point kinds hold the IEEE-754 bit pattern of the number,
/// which is what the wire form holds too: `Float32(x.to_bits())` stands for
/// the `f32` value `x`.
#[derive(Debug, PartialEq)]
pub enum Value {
    Null,
    Bool(bool),
    Int32(i32),
    Int64(i64),
    Float32(u32),
    Float64(u64),
    Bytes(Vec<u8>),
    String(String),
    Array(Vec<Value>),
    Row(Box<ImprintRecord>),
}

/// A [`Value`] as a plain value.
pub enum ValueView {
    Null,
    Bool(bool),
    Int32(i32),
    Int64(i64),
    Float32(u32),
    Float64(u64),
    Bytes(Seq<u8>),
    String(Seq<char>),
    Array(Seq<ValueView>),
    Row(RecordView),
}

impl ValueView {
    /// The kind of the value.
    pub open spec fn type_code(self) -> TypeCode {
        match self {
            ValueView::Null => TypeCode::Null,
            ValueView::Bool(_) => TypeCode::Bool,
            ValueView::Int32(_) => TypeCode::Int32,
            ValueView::Int64(_) => TypeCode::Int64,
            ValueView::Float32(_) => TypeCode::Float32,
            ValueView::Float64(_) => TypeCode::Float64,
            ValueView::Bytes(_) => TypeCode::Bytes,
            ValueView::String(_) => TypeCode::String,
            ValueView::Array(_) => TypeCode::Array,
            ValueView::Row(_) => TypeCode::Row,
        }
    }
}

/// The plain value that `v` stands for.
pub open spec fn value_view(v: Value) -> ValueView
    decreases v,
{
    match v {
        Value::Null => ValueView::Null,
        Value::Bool(b) => ValueView::Bool(b),
        Value::Int32(n) => ValueView::Int32(n),
        Value::Int64(n) => ValueView::Int64(n),
        Value::Float32(bits) => ValueView::Float32(bits),
        Value::Float64(bits) => ValueView::Float64(bits),
        Value::Bytes(b) => ValueView::Bytes(b@),
        Value::String(s) => ValueView::String(s@),
        Value::Array(items) => ValueView::Array(
            Seq::new(
                items@.len(),
                |i: int|
                    if 0 <= i < items@.len() {
                        value_view(items@[i])
                    } else {
                        ValueView::Null
                    },
            ),
        ),
        Value::Row(record) => ValueView::Row(record@),
    }
}

impl View for Value {
    type V = ValueView;

    open spec fn view(&self) -> ValueView {
        value_view(*self)
    }
}

/// The views of the items of a vector of values.
pub open spec fn views_of(items: Seq<Value>) -> Seq<ValueView> {
    Seq::new(items.len(), |i: int| items[i]@)
}

/// The view of an array is the array of the views of its items.
pub proof fn lemma_array_view(items: Vec<Value>)
    ensures
        Value::Array(items)@ == ValueView::Array(views_of(items@)),
{
    assert(Value::Array(items)@->Array_0 =~= views_of(items@));
}

impl Value {
    /// The kind of the value.
    pub fn type_code(&self) -> (r: TypeCode)
        ensures
            r == self@.type_code(),
    {
        match self {
            Self::Null => TypeCode::Null,
            Self::Bool(_) => TypeCode::Bool,
            Self::Int32(_) => TypeCode::Int32,
            Self::Int64(_) => TypeCode::Int64,
            Self::Float32(_) => TypeCode::Float32,
            Self::Float64(_) => TypeCode::Float64,
            Self::Bytes(_) => TypeCode::Bytes,
            Self::String(_) => TypeCode::String,
            Self::Array(_) => TypeCode::Array,
            Self::Row(_) => TypeCode::Row,
        }
    }

    /// The value as a map key, if it is of one of the four kinds that can be
    /// one; else the error names the kind's code.
    pub fn as_map_key(self) -> (r: Result<MapKey, ImprintError>)
        ensures
            r == map_key_of(self),
    {
        MapKey::try_from(self)
    }

    /// A copy of the value.
    fn duplicate(&self) -> (r: Value)
        ensures
            r@ == self@,
        decreases self,
    {
        match self {
            Value::Null => Value::Null,
            Value::Bool(b) => Value::Bool(*b),
            Value::Int32(n) => Value::Int32(*n),
            Value::Int64(n) => Value::Int64(*n),
            Value::Float32(bits) => Value::Float32(*bits),
            Value::Float64(bits) => Value::Float64(*bits),
            Value::Bytes(b) => {
                let copy = b.clone();
                assert(copy@ =~= b@);
                Value::Bytes(copy)
            },
            Value::String(s) => Value::String(s.clone()),
            Value::Array(items) => {
                let mut out: Vec<Value> = Vec::with_capacity(items.len());
                let mut i: usize = 0;
                while i < items.len()
                    invariant
                        i <= items.len(),
                        out@.len() == i,
                        forall|j: int| 0 <= j < i ==> out@[j]@ == items@[j]@,
                        *self == Value::Array(*items),
                    decreases items.len() - i,
                {
                    assert(self->Array_0 == *items);
                    assert(decreases_to!(*self => self->Array_0));
                    assert(decreases_to!(*items => items[i as int]));
                    let item = items[i].duplicate();
                    out.push(item);
                    i += 1;
                }
                let r = Value::Array(out);
                assert(r@->Array_0 =~= self@->Array_0);
                r
            },
            Value::Row(record) => {
                let copy: ImprintRecord = (**record).clone();
                Value::Row(Box::new(copy))
            },
        }
    }
}

impl Clone for Value {
    fn clone(&self) -> (r: Self)
        ensures
            r@ == self@,
    {
        self.duplicate()
    }
}

impl From<bool> for Value {
    fn from(b: bool) -> (r: Value) {
        Value::Bool(b)
    }
}

impl FromSpecImpl<bool> for Value {
    open spec fn obeys_from_spec() -> bool {
        true
    }

    open spec fn from_spec(b: bool) -> Value {
        Value::Bool(b)
    }
}

impl From<i32> for Value {
    fn from(i: i32) -> (r: Value) {
        Value::Int32(i)
    }
}

impl FromSpecImpl<i32> for Value {
    open spec fn obeys_from_spec() -> bool {
        true
    }

    open spec fn from_spec(i: i32) -> Value {
        Value::Int32(i)
    }
}

impl From<i64> for Value {
    fn from(i: i64) -> (r: Value) {
        Value::Int64(i)
    }
}

impl FromSpecImpl<i64> for Value {
    open spec fn obeys_from_spec() -> bool {
        true
    }

    open spec fn from_spec(i: i64) -> Value {
        Value::Int64(i)
    }
}

impl From<Vec<u8>> for Value {
    fn from(b: Vec<u8>) -> (r: Value) {
        Value::Bytes(b)
    }
}

impl FromSpecImpl<Vec<u8>> for Value {
    open spec fn obeys_from_spec() -> bool {
        true
    }

    open spec fn from_spec(b: Vec<u8>) -> Value {
        Value::Bytes(b)
    }
}

impl From<String> for Value {
    fn from(s: String) -> (r: Value) {
        Value::String(s)
    }
}

impl FromSpecImpl<String> for Value {
    open spec fn obeys_from_spec() -> bool {
        true
    }

    open spec fn from_spec(s: String) -> Value {
        Value::String(s)
    }
}

impl From<&str> for Value {
    fn from(s: &str) -> (r: Value)
        ensures
            r@ == ValueView::String(s@),
    {
        Value::String(s.to_string())
    }
}

/// The value holds a new string, which no specification can name: what the
/// string holds is stated on `from`.
impl FromSpecImpl<&str> for Value {
    open spec fn obeys_from_spec() -> bool {
        false
    }

    open spec fn from_spec(s: &str) -> Value {
        Value::Null
    }
}

impl From<Bytes> for Value {
    fn from(b: Bytes) -> (r: Value)
        ensures
            r@ == ValueView::Bytes(contents(b)),
    {
        let mut rest = b;
        let n = bytes_len(&rest);
        let v = copy_to_vec(&mut rest, n);
        assert(v@ =~= contents(b));
        Value::Bytes(v)
    }
}

/// The value holds a new vector, which no specification can name: what the
/// vector holds is stated on `from`.
impl FromSpecImpl<Bytes> for Value {
    open spec fn obeys_from_spec() -> bool {
        false
    }

    open spec fn from_spec(b: Bytes) -> Value {
        Value::Null
    }
}

impl From<Box<ImprintRecord>> for Value {
    fn from(r: Box<ImprintRecord>) -> (v: Value) {
        Value::Row(r)
    }
}

impl FromSpecImpl<Box<ImprintRecord>> for Value {
    open spec fn obeys_from_spec() -> bool {
        true
    }

    open spec fn from_spec(r: Box<ImprintRecord>) -> Value {
        Value::Row(r)
    }
}

impl From<ImprintRecord> for Value {
    fn from(r: ImprintRecord) -> (v: Value) {
        Value::Row(Box::new(r))
    }
}

impl FromSpecImpl<ImprintRecord> for Value {
    open spec fn obeys_from_spec() -> bool {
        true
    }

    open spec fn from_spec(r: ImprintRecord) -> Value {
        Value::Row(Box::new(r))
    }
}

impl From<MapKey> for Value {
    fn from(key: MapKey) -> (v: Value) {
        match key {
            MapKey::Int32(i) => Value::Int32(i),
            MapKey::Int64(i) => Value::Int64(i),
            MapKey::Bytes(b) => Value::Bytes(b),
            MapKey::String(s) => Value::String(s),
        }
    }
}

impl FromSpecImpl<MapKey> for Value {
    open spec fn obeys_from_spec() -> bool {
        true
    }

    open spec fn from_spec(key: MapKey) -> Value {
        match key {
            MapKey::Int32(i) => Value::Int32(i),
            MapKey::Int64(i) => Value::Int64(i),
            MapKey::Bytes(b) => Value::Bytes(b),
            MapKey::String(s) => Value::String(s),
        }
    }
}

/// The values that can be the key of a map: the two integer kinds, bytes and
/// strings. No wire form holds a map key.
#[derive(Debug, Clone, PartialEq, Eq, Hash)]
pub enum MapKey {
    Int32(i32),
    Int64(i64),
    Bytes(Vec<u8>),
    String(String),
}

/// Whether a map key and a value are of the same kind and hold the same.
pub open spec fn key_matches(key: MapKey, v: Value) -> bool {
    match (key, v) {
        (MapKey::Int32(a), Value::Int32(b)) => a == b,
        (MapKey::Int64(a), Value::Int64(b)) => a == b,
        (MapKey::Bytes(a), Value::Bytes(b)) => a@ == b@,
        (MapKey::String(a), Value::String(b)) => a@ == b@,
        _ => false,
    }
}

/// The map key that a value makes: the value itself for the four kinds that
/// can be a key, and for the others the error that names the kind's code.
pub open spec fn map_key_of(v: Value) -> Result<MapKey, ImprintError> {
    match v {
        Value::Int32(i) => Ok(MapKey::Int32(i)),
        Value::Int64(i) => Ok(MapKey::Int64(i)),
        Value::Bytes(b) => Ok(MapKey::Bytes(b)),
        Value::String(s) => Ok(MapKey::String(s)),
        other => Err(ImprintError::InvalidFieldType(other@.type_code().wire_code())),
    }
}

impl TryFrom<Value> for MapKey {
    type Error = ImprintError;

    fn try_from(v: Value) -> (r: Result<Self, ImprintError>) {
        match v {
            Value::Int32(i) => Ok(MapKey::Int32(i)),
            Value::Int64(i) => Ok(MapKey::Int64(i)),
            Value::Bytes(b) => Ok(MapKey::Bytes(b)),
            Value::String(s) => Ok(MapKey::String(s)),
            other => Err(ImprintError::InvalidFieldType(other.type_code().code())),
        }
    }
}

impl TryFromSpecImpl<Value> for MapKey {
    open spec fn obeys_try_from_spec() -> bool {
        true
    }

    open spec fn try_from_spec(v: Value) -> Result<Self, ImprintError> {
        map_key_of(v)
    }
}

/// Whether two vectors hold the same bytes.
fn same_bytes(a: &Vec<u8>, b: &Vec<u8>) -> (r: bool)
    ensures
        r == (a@ == b@),
{
    if a.len() != b.len() {
        return false;
    }
    let mut i: usize = 0;
    while i < a.len()
        invariant
            a.len() == b.len(),
            i <= a.len(),
            a@.take(i as int) == b@.take(i as int),
        decreases a.len() - i,
    {
        if a[i] != b[i] {
            return false;
        }
        assert(a@.take(i + 1) =~= a@.take(i as int).push(a@[i as int]));
        assert(b@.take(i + 1) =~= b@.take(i as int).push(b@[i as int]));
        i += 1;
    }
    assert(a@ =~= a@.take(a.len() as int));
    assert(b@ =~= b@.take(b.len() as int));
    true
}

impl PartialEq<Value> for MapKey {
    fn eq(&self, other: &Value) -> (r: bool) {
        match self {
            MapKey::Int32(a) => match other {
                Value::Int32(b) => *a == *b,
                _ => false,
            },
            MapKey::Int64(a) => match other {
                Value::Int64(b) => *a == *b,
                _ => false,
            },
            MapKey::Bytes(a) => match other {
                Value::Bytes(b) => same_bytes(a, b),
                _ => false,
            },
            MapKey::String(a) => match other {
                Value::String(b) => {
                    let r = *a == *b;
                    assert(r == (a@ == b@));
                    r
                },
                _ => false,
            },
        }
    }
}

impl PartialEqSpecImpl<Value> for MapKey {
    open spec fn obeys_eq_spec() -> bool {
        true
    }

    open spec fn eq_spec(&self, other: &Value) -> bool {
        key_matches(*self, *other)
    }
}

impl PartialEq<MapKey> for Value {
    fn eq(&self, other: &MapKey) -> (r: bool) {
        other == self
    }
}

impl PartialEqSpecImpl<MapKey> for Value {
    open spec fn obeys_eq_spec() -> bool {
        true
    }

    open spec fn eq_spec(&self, other: &MapKey) -> bool {
        key_matches(*other, *self)
    }
}

} // verus!
