use crypto::digest::Digest;
use crypto::sha3::Sha3;
use vstd::prelude::*;

verus! {

/// The SHA3-256 digest of `data`, as rust-crypto's `Sha3::sha3_256()`
/// computes it.
pub uninterp spec fn sha3_256(data: Seq<u8>) -> Seq<u8>;

/// The character of a hexadecimal digit `d` (0 to 15), lower case.
pub open spec fn hex_char(d: nat) -> char {
    if d < 10 {
        ((d + 48) as u32) as char
    } else {
        ((d + 87) as u32) as char
    }
}

/// The lower-case hexadecimal text of `bytes`: two digits per byte, the high
/// nibble first.
pub open spec fn lower_hex(bytes: Seq<u8>) -> Seq<char>
    decreases bytes.len(),
{
    if bytes.len() == 0 {
        Seq::empty()
    } else {
        seq![hex_char((bytes[0] / 16) as nat), hex_char((bytes[0] % 16) as nat)] + lower_hex(
            bytes.drop_first(),
        )
    }
}

/// The value of a lower-case hexadecimal digit character; -1 for any other
/// character.
pub open spec fn hex_value(c: char) -> int {
    if 48 <= (c as u32) <= 57 {
        (c as u32) - 48
    } else if 97 <= (c as u32) <= 102 {
        (c as u32) - 87
    } else {
        -1
    }
}

proof fn lemma_hex_char(d: nat)
    requires
        d < 16,
    ensures
        hex_value(hex_char(d)) == d,
{
    if d < 10 {
        assert(((d + 48) as u32) as char as u32 == (d + 48) as u32);
    } else {
        assert(((d + 87) as u32) as char as u32 == (d + 87) as u32);
    }
}

/// The hex text of a byte string has two lower-case hex digits per byte,
/// and the two digits at `2i` and `2i + 1` read back as byte `i`: high
/// nibble, then low nibble.
pub proof fn lemma_lower_hex(bytes: Seq<u8>)
    ensures
        lower_hex(bytes).len() == 2 * bytes.len(),
        forall|i: int|
            0 <= i < bytes.len() ==> hex_value(#[trigger] lower_hex(bytes)[2 * i]) * 16 + hex_value(
                lower_hex(bytes)[2 * i + 1],
            ) == bytes[i],
        forall|j: int|
            0 <= j < lower_hex(bytes).len() ==> 0 <= hex_value(#[trigger] lower_hex(bytes)[j]) < 16,
    decreases bytes.len(),
{
    if bytes.len() > 0 {
        let rest = bytes.drop_first();
        lemma_lower_hex(rest);
        let b = bytes[0];
        let t = lower_hex(bytes);
        let hi = (b / 16) as nat;
        let lo = (b % 16) as nat;
        lemma_hex_char(hi);
        lemma_hex_char(lo);
        assert(hi * 16 + lo == b) by (nonlinear_arith)
            requires
                hi == b / 16,
                lo == b % 16,
        ;
        assert(t == seq![hex_char(hi), hex_char(lo)] + lower_hex(rest));
        assert forall|i: int| 0 <= i < bytes.len() implies hex_value(#[trigger] t[2 * i]) * 16
            + hex_value(t[2 * i + 1]) == bytes[i] by {
            if i > 0 {
                assert(t[2 * i] == lower_hex(rest)[2 * (i - 1)]);
                assert(t[2 * i + 1] == lower_hex(rest)[2 * (i - 1) + 1]);
                assert(bytes[i] == rest[i - 1]);
            }
        }
        assert forall|j: int| 0 <= j < t.len() implies 0 <= hex_value(#[trigger] t[j]) < 16 by {
            if j >= 2 {
                assert(t[j] == lower_hex(rest)[j - 2]);
            }
        }
    }
}

/// The checksum of `bytes`: rust-crypto's SHA3-256 (`Sha3::sha3_256`, then
/// `input`, then `result_str`). Trusted: the text is the lower-case hex of
/// the digest `sha3_256(bytes)`, as `result_str` writes it through `to_hex`,
/// and 64 characters long, since `output_bits()` is 256 for this mode; the
/// digest itself is only named.
#[verifier::external_body]
pub fn get_hash(bytes: &[u8]) -> (h: String)
    ensures
        h@ == lower_hex(sha3_256(bytes@)),
        h@.len() == 64,
{
    let mut hasher = Sha3::sha3_256();
    hasher.input(bytes);
    hasher.result_str()
}

/// The checksum of the UTF-8 bytes of `data`.
pub fn get_hash_str(data: &str) -> (h: String)
    ensures
        h@ == lower_hex(sha3_256(vstd::utf8::encode_utf8(data@))),
        h@.len() == 64,
{
    get_hash(data.as_bytes())
}

} // verus!
