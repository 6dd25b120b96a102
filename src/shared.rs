//! Address building and password hashing for the POS server's API.

use sha1::{Digest, Sha1};
use vstd::prelude::*;

verus! {

/// The lower-case hexadecimal SHA-1 digest of the UTF-8 bytes of `s`.
pub uninterp spec fn sha1_hex_of(s: Seq<char>) -> Seq<char>;

/// Relies on `sha1::Sha1::digest` over the UTF-8 bytes of `pass`, printed with `{:x}`:
/// the digest depends on the text alone, and its 20 bytes print as 40 hex digits.
#[verifier::external_body]
pub fn sha1sum(pass: &str) -> (r: String)
    ensures
        r@ == sha1_hex_of(pass@),
        r@.len() == 40,
{
    format!("{:x}", Sha1::digest(pass.as_bytes()))
}

/// `/a/b/c` for the segments `a`, `b`, `c`.
pub open spec fn path_of(path: Seq<&str>) -> Seq<char>
    decreases path.len(),
{
    if path.len() == 0 {
        Seq::empty()
    } else {
        path_of(path.drop_last()) + "/"@ + path.last()@
    }
}

/// The address of API path `path` on server `server`.
pub open spec fn url_of(server: Seq<char>, path: Seq<&str>) -> Seq<char> {
    "https://"@ + server + "/resto/api"@ + path_of(path)
}

/// The address of API path `path` on server `server`: `https://<server>/resto/api/<path>`.
pub fn make_url(server: &String, path: &[&str]) -> (r: String)
    ensures
        r@ == url_of(server@, path@),
{
    let mut s = String::new();
    s.append("https://");
    s.append(server.as_str());
    s.append("/resto/api");
    let mut i: usize = 0;
    while i < path.len()
        invariant
            i <= path@.len(),
            s@ == "https://"@ + server@ + "/resto/api"@ + path_of(path@.subrange(0, i as int)),
        decreases path@.len() - i,
    {
        s.append("/");
        s.append(path[i]);
        proof {
            assert(path@.subrange(0, i + 1).drop_last() =~= path@.subrange(0, i as int));
        }
        i = i + 1;
    }
    proof {
        assert(path@.subrange(0, path@.len() as int) =~= path@);
    }
    s
}

} // verus!
