//! Post-processing of the key material printed by the `wg` tool.
use vstd::prelude::*;

verus! {

/// A WireGuard private/public key pair, each as base64 text bytes.
pub struct Keypair {
    pub privkey: Vec<u8>,
    pub pubkey: Vec<u8>,
}

/// What removing at most one trailing newline leaves of `s`.
pub open spec fn chomped(s: Seq<u8>) -> Seq<u8> {
    if s.len() > 0 && s.last() == 10u8 {
        s.drop_last()
    } else {
        s
    }
}

/// Removes one trailing `\n`, if there is one.
pub fn chomp_newline(vec: &mut Vec<u8>)
    ensures
        final(vec)@ == chomped(old(vec)@),
{
    let n = vec.len();
    if n > 0 && vec[n - 1] == 10u8 {
        vec.pop();
    }
}

/// Builds a key pair from the raw outputs of `wg genkey` and `wg pubkey`,
/// dropping the newline that ends each of them.
pub fn generate_keypair(privkey_output: Vec<u8>, pubkey_output: Vec<u8>) -> (r: Keypair)
    ensures
        r.privkey@ == chomped(privkey_output@),
        r.pubkey@ == chomped(pubkey_output@),
{
    let mut privkey = privkey_output;
    let mut pubkey = pubkey_output;
    chomp_newline(&mut privkey);
    chomp_newline(&mut pubkey);
    Keypair { privkey, pubkey }
}

} // verus!
