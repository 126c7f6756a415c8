use vstd::prelude::*;

verus! {

/// Typed failure returned by store and registry operations: a human-readable
/// message.  Foreseeable conditions (unknown key, malformed input) come back
/// as this type; none of the library's verified functions panic.
#[derive(Debug)]
pub struct ProxyErr {
    pub message: String,
}

impl ProxyErr {
    pub fn new(message: &str) -> (r: ProxyErr)
        ensures
            r.message@ == message@,
    {
        ProxyErr { message: message.to_owned() }
    }

    pub fn message(&self) -> (r: &String)
        ensures
            r@ == self.message@,
    {
        &self.message
    }
}

} // verus!
