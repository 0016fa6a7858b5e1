//! Minting of node identities: the secret token a sampler reports with,
//! and the node id.

use vstd::prelude::*;
use rand::Rng;

verus! {

/// Number of hexadecimal digits in a token.
pub const TOKEN_LEN: usize = 40;

/// A lowercase hexadecimal digit.
pub open spec fn is_hex_digit(c: char) -> bool {
    ('0' <= c && c <= '9') || ('a' <= c && c <= 'f')
}

/// The shape of every token: a fixed number of lowercase hexadecimal digits.
pub open spec fn is_token_format(s: Seq<char>) -> bool {
    s.len() == TOKEN_LEN && forall|i: int| 0 <= i < s.len() ==> is_hex_digit(#[trigger] s[i])
}

/// Relies on rand's `thread_rng` and `Rng::gen_range`, which draws from the
/// half-open range `0..16`.
#[verifier::external_body]
fn random_nibble() -> (r: u8)
    ensures
        r < 16,
{
    rand::thread_rng().gen_range(0..16u8)
}

/// Relies on uuid's `Uuid::new_v4` and its `Display`, which writes the
/// hyphenated form: 36 characters.
#[verifier::external_body]
pub(crate) fn new_node_id() -> (r: String)
    ensures
        r@.len() == 36,
{
    uuid::Uuid::new_v4().to_string()
}

/// The lowercase hexadecimal digits, in order of value.
pub open spec fn hex_digits() -> Seq<char> {
    seq!['0', '1', '2', '3', '4', '5', '6', '7', '8', '9', 'a', 'b', 'c', 'd', 'e', 'f']
}

/// The digit for a value below 16, as a one-character string.
pub fn hex_digit(n: u8) -> (r: &'static str)
    requires
        n < 16,
    ensures
        r@ == seq![hex_digits()[n as int]],
        is_hex_digit(r@[0]),
{
    let digits = "0123456789abcdef";
    proof {
        reveal_strlit("0123456789abcdef");
    }
    assert(digits@.len() == 16);
    assert(digits@ =~= hex_digits());
    assert forall|k: int| 0 <= k < 16 implies is_hex_digit(#[trigger] digits@[k]) by {}
    let d = digits.substring_char(n as usize, n as usize + 1);
    assert(d@ =~= seq![hex_digits()[n as int]]);
    d
}

/// The token spelled by the given digit values, one hexadecimal digit each,
/// in order.
pub fn token_from_nibbles(ns: &Vec<u8>) -> (r: String)
    requires
        forall|i: int| 0 <= i < ns@.len() ==> ns@[i] < 16,
    ensures
        r@ == ns@.map_values(|n: u8| hex_digits()[n as int]),
        ns@.len() == TOKEN_LEN ==> is_token_format(r@),
{
    let mut token = String::new();
    let mut i: usize = 0;
    while i < ns.len()
        invariant
            i <= ns@.len(),
            forall|k: int| 0 <= k < ns@.len() ==> ns@[k] < 16,
            token@ == ns@.subrange(0, i as int).map_values(|n: u8| hex_digits()[n as int]),
            forall|k: int| 0 <= k < i ==> is_hex_digit(#[trigger] token@[k]),
        decreases ns@.len() - i,
    {
        let d = hex_digit(ns[i]);
        let ghost before = token@;
        token.append(d);
        assert(token@ =~= before + d@);
        assert(token@ =~= ns@.subrange(0, i + 1).map_values(|n: u8| hex_digits()[n as int]));
        assert forall|k: int| 0 <= k < i + 1 implies is_hex_digit(#[trigger] token@[k]) by {
            if k < i {
                assert(token@[k] == before[k]);
            } else {
                assert(token@[k] == d@[0]);
            }
        }
        i += 1;
    }
    assert(ns@.subrange(0, ns@.len() as int) =~= ns@);
    token
}

/// A fresh token: `TOKEN_LEN` random lowercase hexadecimal digits.
pub fn generate_token() -> (r: String)
    ensures
        is_token_format(r@),
{
    let mut ns: Vec<u8> = Vec::new();
    let mut i: usize = 0;
    while i < TOKEN_LEN
        invariant
            i <= TOKEN_LEN,
            ns@.len() == i,
            forall|k: int| 0 <= k < ns@.len() ==> ns@[k] < 16,
        decreases TOKEN_LEN - i,
    {
        ns.push(random_nibble());
        i += 1;
    }
    token_from_nibbles(&ns)
}

} // verus!
