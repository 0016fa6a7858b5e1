//! The administrative authorization gate: disabled when no admin
//! credentials are configured, else a Basic credential pair must match.

use vstd::prelude::*;
use vstd::utf8::encode_utf8;
use base64::Engine;

verus! {

/// Registry configuration.
pub struct Settings {
    /// Base URL that install commands point the sampler at.
    pub public_url: String,
    /// Seconds after the last report before a node counts as offline.
    pub offline_timeout: u64,
    /// Address the registry listens on.
    pub bind_addr: String,
    pub admin_user: Option<String>,
    pub admin_pass: Option<String>,
}

/// Authorization is required only when both admin credentials are set.
pub open spec fn auth_required(settings: Settings) -> bool {
    settings.admin_user is Some && settings.admin_pass is Some
}

/// Whether administrative operations require credentials.
pub fn auth_enabled(settings: &Settings) -> (r: bool)
    ensures
        r == auth_required(*settings),
{
    settings.admin_user.is_some() && settings.admin_pass.is_some()
}

/// The scheme prefix `Basic ` as bytes.
pub open spec fn basic_prefix() -> Seq<u8> {
    seq![66u8, 97u8, 115u8, 105u8, 99u8, 32u8]
}

/// Whether `s` starts with `p`.
pub open spec fn starts_with(s: Seq<u8>, p: Seq<u8>) -> bool {
    p.len() <= s.len() && s.subrange(0, p.len() as int) == p
}

/// `s` with every leading repetition of the scheme prefix removed.
pub open spec fn strip_scheme(s: Seq<u8>) -> Seq<u8>
    decreases s.len(),
{
    if starts_with(s, basic_prefix()) {
        strip_scheme(s.subrange(6, s.len() as int))
    } else {
        s
    }
}

/// ASCII whitespace: space, tab, line feed, vertical tab, form feed, return.
pub open spec fn is_space(b: u8) -> bool {
    b == 32 || (9 <= b && b <= 13)
}

/// `s` without leading ASCII whitespace.
pub open spec fn trim_start(s: Seq<u8>) -> Seq<u8>
    decreases s.len(),
{
    if s.len() > 0 && is_space(s[0]) {
        trim_start(s.drop_first())
    } else {
        s
    }
}

/// `s` without trailing ASCII whitespace.
pub open spec fn trim_end(s: Seq<u8>) -> Seq<u8>
    decreases s.len(),
{
    if s.len() > 0 && is_space(s.last()) {
        trim_end(s.drop_last())
    } else {
        s
    }
}

/// The encoded credentials of an `Authorization` header value: `None`
/// unless it starts with the scheme prefix; else what follows the prefix
/// (and its repetitions), without surrounding whitespace.
pub open spec fn credentials_text(h: Seq<u8>) -> Option<Seq<u8>> {
    if starts_with(h, basic_prefix()) {
        Some(trim_end(trim_start(strip_scheme(h))))
    } else {
        None
    }
}

/// Decoded credentials `user:pass` match when the user part holds no colon
/// and the text is exactly the user, a colon, and the password.
pub open spec fn credentials_match_spec(d: Seq<u8>, user: Seq<u8>, pass: Seq<u8>) -> bool {
    !user.contains(58u8) && d == user + seq![58u8] + pass
}

/// What the standard base64 alphabet, with padding, decodes the input to,
/// or `None` where the input is not valid base64.
pub uninterp spec fn base64_standard_decoded(s: Seq<u8>) -> Option<Seq<u8>>;

/// Relies on base64's `general_purpose::STANDARD` engine and
/// `Engine::decode`: the decoded bytes, or an error for invalid input; the
/// outcome depends on the input alone.
#[verifier::external_body]
fn decode_base64(input: &[u8]) -> (r: Option<Vec<u8>>)
    ensures
        r is None <==> base64_standard_decoded(input@) is None,
        r matches Some(v) ==> base64_standard_decoded(input@) == Some(v@),
{
    base64::engine::general_purpose::STANDARD.decode(input).ok()
}

/// Whether the header value holds the scheme prefix at `start`.
fn scheme_at(h: &[u8], start: usize) -> (r: bool)
    requires
        start <= h@.len(),
    ensures
        r == starts_with(h@.subrange(start as int, h@.len() as int), basic_prefix()),
{
    let ghost t = h@.subrange(start as int, h@.len() as int);
    if h.len() - start < 6 {
        return false;
    }
    let r = h[start] == 66 && h[start + 1] == 97 && h[start + 2] == 115 && h[start + 3] == 105
        && h[start + 4] == 99 && h[start + 5] == 32;
    proof {
        if r {
            assert(t.subrange(0, 6) =~= basic_prefix());
        } else if t.subrange(0, 6) == basic_prefix() {
            assert(t.subrange(0, 6)[0] == h[start as int]);
            assert(t.subrange(0, 6)[1] == h[start + 1]);
            assert(t.subrange(0, 6)[2] == h[start + 2]);
            assert(t.subrange(0, 6)[3] == h[start + 3]);
            assert(t.subrange(0, 6)[4] == h[start + 4]);
            assert(t.subrange(0, 6)[5] == h[start + 5]);
        }
    }
    r
}

fn is_space_byte(b: u8) -> (r: bool)
    ensures
        r == is_space(b),
{
    b == 32 || (9 <= b && b <= 13)
}

/// The encoded credentials of an `Authorization` header value.
pub fn basic_credentials(h: &[u8]) -> (r: Option<Vec<u8>>)
    ensures
        r is None <==> credentials_text(h@) is None,
        r matches Some(v) ==> credentials_text(h@) == Some(v@),
{
    let len = h.len();
    if !scheme_at(h, 0) {
        assert(h@.subrange(0, len as int) =~= h@);
        return None;
    }
    assert(h@.subrange(0, len as int) =~= h@);
    let mut start: usize = 0;
    while scheme_at(h, start)
        invariant
            start <= len,
            len == h@.len(),
            strip_scheme(h@) == strip_scheme(h@.subrange(start as int, len as int)),
        decreases len - start,
    {
        let ghost t = h@.subrange(start as int, len as int);
        assert(t.subrange(6, t.len() as int) =~= h@.subrange(start + 6, len as int));
        start = start + 6;
    }
    let mut a: usize = start;
    while a < len && is_space_byte(h[a])
        invariant
            start <= a <= len,
            len == h@.len(),
            trim_start(strip_scheme(h@)) == trim_start(h@.subrange(a as int, len as int)),
        decreases len - a,
    {
        let ghost t = h@.subrange(a as int, len as int);
        assert(t.drop_first() =~= h@.subrange(a + 1, len as int));
        a = a + 1;
    }
    let mut b: usize = len;
    while b > a && is_space_byte(h[b - 1])
        invariant
            a <= b <= len,
            len == h@.len(),
            trim_start(strip_scheme(h@)) == h@.subrange(a as int, len as int),
            trim_end(h@.subrange(a as int, len as int)) == trim_end(
                h@.subrange(a as int, b as int),
            ),
        decreases b - a,
    {
        let ghost t = h@.subrange(a as int, b as int);
        assert(t.drop_last() =~= h@.subrange(a as int, b - 1));
        b = b - 1;
    }
    let v = vstd::slice::slice_to_vec(vstd::slice::slice_subrange(h, a, b));
    Some(v)
}

/// Whether `d[off..]` is exactly `x`.
fn tail_equals(d: &[u8], off: usize, x: &[u8]) -> (r: bool)
    requires
        off <= d@.len(),
    ensures
        r == (d@.subrange(off as int, d@.len() as int) == x@),
{
    let ghost t = d@.subrange(off as int, d@.len() as int);
    let dlen = d.len();
    if dlen - off != x.len() {
        return false;
    }
    let mut i: usize = 0;
    while i < x.len()
        invariant
            i <= x@.len(),
            x@.len() == d@.len() - off,
            off <= d@.len(),
            dlen == d@.len(),
            t == d@.subrange(off as int, d@.len() as int),
            forall|k: int| 0 <= k < i ==> t[k] == x@[k],
        decreases x@.len() - i,
    {
        if d[off + i] != x[i] {
            assert(t[i as int] != x@[i as int]);
            return false;
        }
        i += 1;
    }
    assert(t =~= x@);
    true
}

/// Whether decoded credentials `d` are the pair `user:pass`.
pub fn credentials_match(d: &[u8], user: &[u8], pass: &[u8]) -> (r: bool)
    ensures
        r == credentials_match_spec(d@, user@, pass@),
{
    let mut k: usize = 0;
    while k < d.len() && d[k] != 58
        invariant
            k <= d@.len(),
            forall|j: int| 0 <= j < k ==> d@[j] != 58u8,
        decreases d@.len() - k,
    {
        k += 1;
    }
    let ghost spec_r = credentials_match_spec(d@, user@, pass@);
    proof {
        if spec_r {
            let u = user@;
            assert(d@[u.len() as int] == 58u8) by {
                assert(d@ == u + seq![58u8] + pass@);
            }
            assert forall|j: int| 0 <= j < u.len() implies d@[j] != 58u8 by {
                assert(d@[j] == u[j]);
                if u[j] == 58u8 {
                    assert(u.contains(58u8));
                }
            }
        }
    }
    if k == d.len() || k != user.len() {
        return false;
    }
    let front = vstd::slice::slice_subrange(d, 0, k);
    let head = tail_equals(front, 0, user);
    let rest = tail_equals(d, k + 1, pass);
    let r = head && rest;
    proof {
        let prefix = d@.subrange(0, k as int);
        assert(front@ == prefix);
        assert(prefix.subrange(0, prefix.len() as int) =~= prefix);
        if r {
            assert(d@ =~= user@ + seq![58u8] + pass@) by {
                assert forall|j: int| 0 <= j < d@.len() implies d@[j] == (user@ + seq![58u8]
                    + pass@)[j] by {
                    if j < k {
                        assert(prefix[j] == d@[j]);
                    } else if j > k {
                        assert(d@.subrange(k + 1, d@.len() as int)[j - k - 1] == d@[j]);
                    }
                }
            }
            assert(!user@.contains(58u8)) by {
                if user@.contains(58u8) {
                    let j = choose|j: int| 0 <= j < user@.len() && user@[j] == 58u8;
                    assert(prefix[j] == d@[j]);
                }
            }
        }
        if spec_r {
            assert(prefix =~= user@);
            assert(d@.subrange(k + 1, d@.len() as int) =~= pass@);
        }
    }
    r
}

/// Whether a request may perform administrative operations.
pub open spec fn authorized(settings: Settings, header: Option<Seq<u8>>) -> bool {
    !auth_required(settings) || match header {
        None => false,
        Some(h) => match credentials_text(h) {
            None => false,
            Some(c) => match base64_standard_decoded(c) {
                None => false,
                Some(d) => credentials_match_spec(
                    d,
                    encode_utf8(settings.admin_user->0@),
                    encode_utf8(settings.admin_pass->0@),
                ),
            },
        },
    }
}

/// Checks the `Authorization` header value of a request, if it had one.
/// Without admin credentials configured every request passes; otherwise
/// a refusal is `Unauthorized`.
pub fn require_auth(header: Option<&[u8]>, settings: &Settings) -> (r: Result<(), crate::error::RegistryError>)
    ensures
        r is Ok <==> authorized(*settings, match header {
            Some(h) => Some(h@),
            None => None,
        }),
        r is Err ==> r == Err::<(), crate::error::RegistryError>(
            crate::error::RegistryError::Unauthorized,
        ),
{
    if !auth_enabled(settings) {
        return Ok(());
    }
    let h = match header {
        None => return Err(crate::error::RegistryError::Unauthorized),
        Some(h) => h,
    };
    let text = match basic_credentials(h) {
        None => return Err(crate::error::RegistryError::Unauthorized),
        Some(t) => t,
    };
    let decoded = match decode_base64(text.as_slice()) {
        None => return Err(crate::error::RegistryError::Unauthorized),
        Some(d) => d,
    };
    let (user, pass) = match (&settings.admin_user, &settings.admin_pass) {
        (Some(u), Some(p)) => (u, p),
        _ => return Ok(()),
    };
    if credentials_match(decoded.as_slice(), user.as_str().as_bytes(), pass.as_str().as_bytes()) {
        Ok(())
    } else {
        Err(crate::error::RegistryError::Unauthorized)
    }
}

} // verus!
