use vstd::prelude::*;

verus! {

/// The type of a Daihon value (`Nothing` is the type of the empty value).
#[derive(Clone, Copy, Debug, PartialEq, Eq, Structural)]
pub enum ValueType {
    Nothing,
    Number,
    String,
    Boolean,
}


/// A number a script computes with: an integer, or a floating-point number held as the
/// bits of its IEEE 754 binary64 encoding (what `f64::to_bits` gives), which is how it is
/// stored and handed back unchanged.
#[derive(Clone, Copy, Debug, PartialEq, Eq, Structural)]
pub enum DaihonNumber {
    Integer(i64),
    Float(u64),
}

impl DaihonNumber {
    /// Whether the number is an integer.
    pub fn is_integer(self) -> (b: bool)
        ensures
            b == (self is Integer),
    {
        match self {
            DaihonNumber::Integer(_) => true,
            DaihonNumber::Float(_) => false,
        }
    }
}

/// A value a script holds (`Nothing` is the empty value).
#[derive(Clone, Debug, PartialEq, Eq)]
pub enum DaihonValue {
    Nothing,
    Number(DaihonNumber),
    String(String),
    Boolean(bool),
}

impl DaihonValue {
    /// The type of the value.
    pub open spec fn spec_value_type(&self) -> ValueType {
        match self {
            DaihonValue::Nothing => ValueType::Nothing,
            DaihonValue::Number(_) => ValueType::Number,
            DaihonValue::String(_) => ValueType::String,
            DaihonValue::Boolean(_) => ValueType::Boolean,
        }
    }

    /// The type of the value.
    pub fn value_type(&self) -> (t: ValueType)
        ensures
            t == self.spec_value_type(),
    {
        match self {
            DaihonValue::Nothing => ValueType::Nothing,
            DaihonValue::Number(_) => ValueType::Number,
            DaihonValue::String(_) => ValueType::String,
            DaihonValue::Boolean(_) => ValueType::Boolean,
        }
    }

    /// The number, when the value is one.
    pub fn as_number(&self) -> (r: Option<DaihonNumber>)
        ensures
            r == match self {
                DaihonValue::Number(n) => Some(*n),
                _ => None::<DaihonNumber>,
            },
    {
        match self {
            DaihonValue::Number(n) => Some(*n),
            _ => None,
        }
    }

    /// The truth value, when the value is one.
    pub fn as_bool(&self) -> (r: Option<bool>)
        ensures
            r == match self {
                DaihonValue::Boolean(b) => Some(*b),
                _ => None::<bool>,
            },
    {
        match self {
            DaihonValue::Boolean(b) => Some(*b),
            _ => None,
        }
    }

    /// An equal copy of the value.
    pub fn copied(&self) -> (v: DaihonValue)
        ensures
            v == *self,
    {
        match self {
            DaihonValue::Nothing => DaihonValue::Nothing,
            DaihonValue::Number(n) => DaihonValue::Number(*n),
            DaihonValue::String(s) => DaihonValue::String(s.clone()),
            DaihonValue::Boolean(b) => DaihonValue::Boolean(*b),
        }
    }
}

} // verus!
