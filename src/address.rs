use vstd::prelude::*;
use vstd::string::StrSliceExecFns;
use vstd::utf8::encode_utf8;

use crate::encoding::{bech32_encode, bech32_of, sha256, sha256_of};

verus! {

/// Human-readable part of every address of this chain (`cw`).
pub open spec fn address_prefix() -> Seq<char> {
    seq!['c', 'w']
}

/// The bytes of `"module"`, hashed in front of a label.
pub open spec fn module_tag() -> Seq<u8> {
    seq![109u8, 111u8, 100u8, 117u8, 108u8, 101u8]
}

/// The address of the contract with label `label`: the first twenty bytes of
/// `sha256("module" ++ label)`, in bech32 under the chain's prefix.
pub open spec fn label_address(label: Seq<char>) -> Seq<char> {
    bech32_of(address_prefix(), sha256_of(module_tag() + encode_utf8(label)).subrange(0, 20))
}

/// A label that starts like a contract address (`cw1...`) and so may not be chosen.
pub open spec fn reserved_label(label: Seq<char>) -> bool {
    label.len() >= 3 && label[0] == 'c' && label[1] == 'w' && label[2] == '1'
}

pub fn is_reserved_label(label: &str) -> (r: bool)
    ensures
        r == reserved_label(label@),
{
    if label.unicode_len() < 3 {
        return false;
    }
    label.get_char(0) == 'c' && label.get_char(1) == 'w' && label.get_char(2) == '1'
}

/// The address of the contract with label `label`.
pub fn derive_from_label(label: &str) -> (r: String)
    ensures
        r@ == label_address(label@),
{
    let bytes = label.as_bytes();
    let mut data: Vec<u8> = vec![109u8, 111u8, 100u8, 117u8, 108u8, 101u8];
    let mut i: usize = 0;
    while i < bytes.len()
        invariant
            i <= bytes@.len(),
            data@ == module_tag() + bytes@.subrange(0, i as int),
        decreases bytes@.len() - i,
    {
        data.push(bytes[i]);
        i = i + 1;
        assert(data@ =~= module_tag() + bytes@.subrange(0, i as int));
    }
    assert(bytes@.subrange(0, bytes@.len() as int) =~= bytes@);
    let hash = sha256(data.as_slice());
    let mut payload: Vec<u8> = Vec::new();
    let mut j: usize = 0;
    while j < 20
        invariant
            j <= 20,
            hash@.len() == 32,
            payload@ == hash@.subrange(0, j as int),
        decreases 20 - j,
    {
        payload.push(hash[j]);
        j = j + 1;
        assert(payload@ =~= hash@.subrange(0, j as int));
    }
    let hrp: &str = "cw";
    proof {
        reveal_strlit("cw");
        assert(hrp@ =~= address_prefix());
    }
    match bech32_encode(hrp, payload.as_slice()) {
        Some(a) => a,
        None => String::new(),
    }
}

} // verus!
