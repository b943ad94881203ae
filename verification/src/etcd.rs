use vstd::prelude::*;
use vstd::utf8::{decode_utf8, valid_utf8};

verus! {

/// The key under which a service registers its information.
pub open spec fn service_key_text(service_name: Seq<char>) -> Seq<char> {
    "/services/"@ + service_name + "/info"@
}

/// The key under which the service `service_name` registers its information.
pub fn service_key(service_name: &str) -> (key: String)
    ensures
        key@ == service_key_text(service_name@),
{
    let mut key = "/services/".to_string();
    key.append(service_name);
    key.append("/info");
    key
}

/// The prefix under which all services register.
pub fn services_prefix() -> (prefix: String)
    ensures
        prefix@ == "/services/"@,
{
    "/services/".to_string()
}

/// Lifetime of a service registration lease, in seconds.
pub const SERVICE_LEASE_TTL: i64 = 10;

/// The text that `String::from_utf8_lossy` makes of `bytes`.
pub uninterp spec fn utf8_lossy(bytes: Seq<u8>) -> Seq<char>;

/// Calls `String::from_utf8_lossy` and takes the text it gives. Its result is
/// named by `utf8_lossy`; where the bytes are valid UTF-8 it is the text they
/// encode, as the function's documentation states. What it makes of invalid
/// bytes (each invalid sequence replaced by U+FFFD) is left unstated.
#[verifier::external_body]
fn lossy_text(bytes: &Vec<u8>) -> (text: String)
    ensures
        text@ == utf8_lossy(bytes@),
        valid_utf8(bytes@) ==> text@ == decode_utf8(bytes@),
{
    String::from_utf8_lossy(bytes).into_owned()
}

/// The information texts of the registered services, read from the values
/// stored under their keys, in the same order.
pub fn service_infos(values: &Vec<Vec<u8>>) -> (infos: Vec<String>)
    ensures
        infos@.len() == values@.len(),
        forall|i: int| 0 <= i < values@.len() ==> (#[trigger] infos@[i])@ == utf8_lossy(values@[i]@),
        forall|i: int|
            0 <= i < values@.len() && valid_utf8(values@[i]@) ==> (#[trigger] infos@[i])@
                == decode_utf8(values@[i]@),
{
    let mut infos: Vec<String> = Vec::new();
    let mut i: usize = 0;
    while i < values.len()
        invariant
            i <= values@.len(),
            infos@.len() == i,
            forall|j: int| 0 <= j < i ==> (#[trigger] infos@[j])@ == utf8_lossy(values@[j]@),
            forall|j: int|
                0 <= j < i && valid_utf8(values@[j]@) ==> (#[trigger] infos@[j])@ == decode_utf8(
                    values@[j]@,
                ),
        decreases values@.len() - i,
    {
        let text = lossy_text(&values[i]);
        infos.push(text);
        i = i + 1;
    }
    infos
}

} // verus!
