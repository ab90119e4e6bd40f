//! Reversible obfuscation used by the text asset uncooker.
use vstd::prelude::*;

verus! {

/// The number of bytes in the obfuscation password.
pub const PASSWORD_LENGTH: usize = 16;

/// The bytes of the obfuscation password, `b"invalid pointer\0"`.
pub const PASSWORD: [u8; 16] = [
    0x69, 0x6e, 0x76, 0x61, 0x6c, 0x69, 0x64, 0x20, 0x70, 0x6f, 0x69, 0x6e, 0x74, 0x65, 0x72, 0x00,
];

/// The key byte that the obfuscation XORs into position `i`: the bitwise NOT of
/// the password byte at `i` modulo the password length.
pub open spec fn key_byte(i: int) -> u8 {
    !PASSWORD@[i % 16]
}

/// The obfuscated (or deobfuscated) form of `input`.
pub open spec fn spec_toggle_obfuscation(input: Seq<u8>) -> Seq<u8> {
    Seq::new(input.len(), |i: int| input[i] ^ key_byte(i))
}

/// Obfuscates/deobfuscates the input data.
///
/// Obfuscation and deobfuscation is the same function because it is reversible.
pub fn toggle_obfuscation(input: &[u8]) -> (result: Vec<u8>)
    ensures
        result@ == spec_toggle_obfuscation(input@),
{
    let mut result: Vec<u8> = Vec::new();
    let mut i: usize = 0;
    while i < input.len()
        invariant
            i <= input.len(),
            result@.len() == i,
            forall|j: int| 0 <= j < i ==> result@[j] == input@[j] ^ key_byte(j),
        decreases input.len() - i,
    {
        let k: u8 = !PASSWORD[i % PASSWORD_LENGTH];
        result.push(input[i] ^ k);
        i = i + 1;
    }
    assert(result@ =~= spec_toggle_obfuscation(input@));
    result
}

/// Toggling the obfuscation twice gives back the data it started from: obfuscation is
/// its own inverse.
pub proof fn lemma_toggle_obfuscation_involution(input: Seq<u8>)
    ensures
        spec_toggle_obfuscation(spec_toggle_obfuscation(input)) == input,
{
    let once = spec_toggle_obfuscation(input);
    let twice = spec_toggle_obfuscation(once);
    assert forall|i: int| 0 <= i < input.len() implies twice[i] == input[i] by {
        let a = input[i];
        let k = key_byte(i);
        assert((a ^ k) ^ k == a) by (bit_vector);
    }
    assert(twice =~= input);
}

} // verus!
