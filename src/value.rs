use vstd::prelude::*;

verus! {

/// A value stored under a key: one of a closed set of payload kinds.
#[derive(Debug, PartialEq)]
pub enum Value {
    Int32(u32),
    Int64(u64),
    String(String),
}

impl Clone for Value {
    fn clone(&self) -> (r: Self)
        ensures
            r == *self,
    {
        match self {
            Value::Int32(v) => Value::Int32(*v),
            Value::Int64(v) => Value::Int64(*v),
            Value::String(s) => Value::String(s.clone()),
        }
    }
}

impl From<u32> for Value {
    fn from(v: u32) -> Self {
        Value::Int32(v)
    }
}

impl vstd::std_specs::convert::FromSpecImpl<u32> for Value {
    open spec fn obeys_from_spec() -> bool {
        true
    }

    open spec fn from_spec(v: u32) -> Value {
        Value::Int32(v)
    }
}

impl From<u64> for Value {
    fn from(v: u64) -> Self {
        Value::Int64(v)
    }
}

impl vstd::std_specs::convert::FromSpecImpl<u64> for Value {
    open spec fn obeys_from_spec() -> bool {
        true
    }

    open spec fn from_spec(v: u64) -> Value {
        Value::Int64(v)
    }
}

impl From<String> for Value {
    fn from(v: String) -> Self {
        Value::String(v)
    }
}

impl vstd::std_specs::convert::FromSpecImpl<String> for Value {
    open spec fn obeys_from_spec() -> bool {
        true
    }

    open spec fn from_spec(v: String) -> Value {
        Value::String(v)
    }
}

impl From<&str> for Value {
    fn from(v: &str) -> Self {
        Value::String(v.to_string())
    }
}

/// A string slice becomes an owned copy of itself; a `String` value has no
/// spec-level constructor from a slice, so the result is left unstated here.
impl vstd::std_specs::convert::FromSpecImpl<&str> for Value {
    open spec fn obeys_from_spec() -> bool {
        false
    }

    open spec fn from_spec(v: &str) -> Value {
        vstd::pervasive::arbitrary()
    }
}

} // verus!
