use vstd::prelude::*;
use crate::backend::{format_ip, ip_text, Backend};
use crate::directory::Directory;
use crate::ring::{lookup_hash, picks};
use crate::text::{dec, decimal};

verus! {

/// Why a request could not be routed or forwarded.
#[derive(Clone, Copy, Debug, PartialEq, Eq, Structural)]
pub enum RouteError {
    /// The function is not known.
    NotFound,
    /// The function is known but has no backend.
    Unavailable,
    /// The forwarded request failed.
    Upstream,
}

impl RouteError {
    /// The HTTP status code that a client sees for this error.
    pub fn status_code(&self) -> (r: u16)
        ensures
            r == match *self {
                RouteError::NotFound => 404u16,
                RouteError::Unavailable => 503u16,
                RouteError::Upstream => 502u16,
            },
    {
        match self {
            RouteError::NotFound => 404,
            RouteError::Unavailable => 503,
            RouteError::Upstream => 502,
        }
    }
}

/// Picks the backend for a request to function `f` from the client whose
/// address text is `client`: the same client goes to the same backend while
/// the function's ring stays the same.
pub fn pick_backend(dir: &Directory, f: u128, client: &[u8]) -> (r: Result<Backend, RouteError>)
    ensures
        r == Err::<Backend, RouteError>(RouteError::NotFound) <==> !dir@.contains_key(f),
        r == Err::<Backend, RouteError>(RouteError::Unavailable) <==> dir@.contains_key(f)
            && dir@[f]@.dom() == Set::<Seq<u8>>::empty(),
        r != Err::<Backend, RouteError>(RouteError::Upstream),
        r matches Ok(b) ==> dir@.contains_key(f) && picks(dir@[f]@, lookup_hash(client@), b.pair()),
{
    match dir.get(f) {
        None => Err(RouteError::NotFound),
        Some(ring) => match ring.pick(client) {
            None => Err(RouteError::Unavailable),
            Some(b) => Ok(b),
        },
    }
}

/// The hyphenated text that the uuid crate writes for an identifier.
pub uninterp spec fn uuid_text(id: u128) -> Seq<char>;

/// Relies on `uuid::Uuid::from_u128` and its `Display`: the hyphenated text
/// of the identifier.
#[verifier::external_body]
fn format_uuid(id: u128) -> (r: String)
    ensures
        r@ == uuid_text(id),
{
    uuid::Uuid::from_u128(id).to_string()
}

/// The address that a request is forwarded to.
pub open spec fn uri_of(ip: u32, port: u16, id_text: Seq<char>, suffix: Seq<char>) -> Seq<char> {
    "http://"@ + ip_text(ip) + ":"@ + dec(port as nat) + "/invoke/"@ + id_text + "/"@ + suffix
}

/// Writes the address that a request is forwarded to, given the text of the
/// backend's instance identifier.
pub fn compose_uri(ip: u32, port: u16, id_text: &str, suffix: &str) -> (r: String)
    ensures
        r@ == uri_of(ip, port, id_text@, suffix@),
{
    proof {
        reveal_strlit("http://");
        reveal_strlit(":");
        reveal_strlit("/invoke/");
        reveal_strlit("/");
    }
    let mut r = "http://".to_owned();
    r.append(format_ip(ip).as_str());
    r.append(":");
    r.append(decimal(port as u128).as_str());
    r.append("/invoke/");
    r.append(id_text);
    r.append("/");
    r.append(suffix);
    r
}

/// The address of `suffix` under the invoke path of backend `b` at `port`:
/// `http://{ip}:{port}/invoke/{instance id}/{suffix}`.
pub fn target_uri(b: &Backend, port: u16, suffix: &str) -> (r: String)
    ensures
        r@ == uri_of(b.ip, port, uuid_text(b.container_id), suffix@),
{
    let id = format_uuid(b.container_id);
    compose_uri(b.ip, port, id.as_str(), suffix)
}

} // verus!
