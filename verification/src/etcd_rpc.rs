use vstd::prelude::*;

verus! {

/// A key together with its value.
#[derive(Debug, Clone)]
pub struct KeyValue {
    pub key: String,
    pub value: String,
}

} // verus!
