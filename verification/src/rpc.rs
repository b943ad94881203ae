use crate::kv::KvStore;
use vstd::prelude::*;

verus! {

/// A key together with its value, as the store's answers carry them.
#[derive(Debug, Clone)]
pub struct KeyValue {
    pub key: String,
    pub value: String,
}

/// Why the store refused a request.
#[derive(Debug, Clone, Copy, PartialEq, Eq, Structural)]
pub enum RpcError {
    /// The key asked for is not stored.
    KeyNotFound,
}

impl RpcError {
    /// The text that describes this error.
    pub fn message(&self) -> (text: String)
        ensures
            text@ == "Key not found"@,
    {
        "Key not found".to_string()
    }
}

/// The key-value service answered by a single store.
pub struct EtcdRpcImpl {
    store: KvStore,
}

impl View for EtcdRpcImpl {
    type V = Map<Seq<char>, Seq<char>>;

    closed spec fn view(&self) -> Map<Seq<char>, Seq<char>> {
        self.store@
    }
}

impl EtcdRpcImpl {
    /// A service over an empty store.
    pub fn new() -> (service: Self)
        ensures
            service@ == Map::<Seq<char>, Seq<char>>::empty(),
    {
        EtcdRpcImpl { store: KvStore::new() }
    }

    /// Stores `value` under `key` and answers with the pair.
    pub fn set(&mut self, key: String, value: String) -> (r: Result<KeyValue, RpcError>)
        ensures
            final(self)@ == old(self)@.insert(key@, value@),
            r matches Ok(kv) && kv.key == key && kv.value == value,
    {
        self.store.insert(key.clone(), value.clone());
        Ok(KeyValue { key, value })
    }

    /// Answers with the value stored under `key`.
    pub fn get(&self, key: String) -> (r: Result<KeyValue, RpcError>)
        ensures
            self@.contains_key(key@) ==> (r matches Ok(kv) && kv.key == key && kv.value@
                == self@[key@]),
            !self@.contains_key(key@) ==> r == Err::<KeyValue, RpcError>(RpcError::KeyNotFound),
    {
        match self.store.get(&key) {
            Some(value) => Ok(KeyValue { key, value }),
            None => Err(RpcError::KeyNotFound),
        }
    }

    /// Removes `key` and answers with the value it held.
    pub fn del(&mut self, key: String) -> (r: Result<KeyValue, RpcError>)
        ensures
            final(self)@ == old(self)@.remove(key@),
            old(self)@.contains_key(key@) ==> (r matches Ok(kv) && kv.key == key && kv.value@
                == old(self)@[key@]),
            !old(self)@.contains_key(key@) ==> r == Err::<KeyValue, RpcError>(
                RpcError::KeyNotFound,
            ),
    {
        match self.store.remove(&key) {
            Some(value) => Ok(KeyValue { key, value }),
            None => Err(RpcError::KeyNotFound),
        }
    }
}

} // verus!
