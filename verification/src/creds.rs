use vstd::prelude::*;

verus! {

/// One candidate pair, immutable once produced.
#[derive(Debug)]
pub struct Credential {
    pub username: Vec<u8>,
    pub password: Vec<u8>,
}

} // verus!
