use vstd::prelude::*;

verus! {

/// Longest base-58 text that can name a 32-byte public key.
pub const MAX_BASE58_LEN: usize = 44;

/// What base-58 text decodes to as a 32-byte public key, if it is one.
pub uninterp spec fn pubkey_from_str(s: Seq<char>) -> Option<Seq<u8>>;

/// Relies on `solana_sdk::pubkey::Pubkey::from_str` (and `to_bytes` on its
/// result): the 32 bytes that the base-58 text decodes to, or a failure; text
/// longer than 44 bytes always fails.
#[verifier::external_body]
fn decode_pubkey(s: &str) -> (r: Option<[u8; 32]>)
    ensures
        r is Some <==> pubkey_from_str(s@) is Some,
        r is Some ==> r->0@ == pubkey_from_str(s@)->0,
        s@.len() > MAX_BASE58_LEN ==> r is None,
{
    match <solana_sdk::pubkey::Pubkey as std::str::FromStr>::from_str(s) {
        Ok(key) => Some(key.to_bytes()),
        Err(_) => None,
    }
}

/// The public identity of a network participant: 32 opaque bytes.
#[derive(Clone, Copy, Debug, Hash)]
pub struct Identity {
    bytes: [u8; 32],
}

impl View for Identity {
    type V = Seq<u8>;

    closed spec fn view(&self) -> Seq<u8> {
        self.bytes@
    }
}

impl PartialEq for Identity {
    fn eq(&self, other: &Identity) -> (r: bool)
        ensures
            r == (self@ == other@),
    {
        self.same_as(other)
    }
}

impl vstd::std_specs::cmp::PartialEqSpecImpl for Identity {
    open spec fn obeys_eq_spec() -> bool {
        true
    }

    open spec fn eq_spec(&self, other: &Identity) -> bool {
        self@ == other@
    }
}

impl Identity {
    pub fn new_from_array(bytes: [u8; 32]) -> (r: Identity)
        ensures
            r@ == bytes@,
    {
        Identity { bytes }
    }

    pub fn to_bytes(&self) -> (r: [u8; 32])
        ensures
            r@ == self@,
    {
        self.bytes
    }

    /// Parses base-58 text into an identity.
    pub fn parse(s: &str) -> (r: Option<Identity>)
        ensures
            r is Some <==> pubkey_from_str(s@) is Some,
            r is Some ==> r->0@ == pubkey_from_str(s@)->0,
    {
        match decode_pubkey(s) {
            Some(bytes) => Some(Identity { bytes }),
            None => None,
        }
    }

    /// Whether both identities hold the same bytes.
    pub fn same_as(&self, other: &Identity) -> (r: bool)
        ensures
            r == (self@ == other@),
    {
        let mut i: usize = 0;
        while i < 32
            invariant
                i <= 32,
                self@.len() == 32,
                other@.len() == 32,
                forall|j: int| 0 <= j < i ==> self@[j] == other@[j],
            decreases 32 - i,
        {
            if self.bytes[i] != other.bytes[i] {
                return false;
            }
            i = i + 1;
        }
        assert(self@ =~= other@);
        true
    }
}

} // verus!
