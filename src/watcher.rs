use vstd::prelude::*;
use crate::backend::Backend;
use crate::codec::{decoded, unpack_backends};
use crate::directory::Directory;
use crate::ring::{built, Ring};

verus! {

/// The number of virtual nodes that each backend gets on a ring.
pub const CONHASH_REPLICAS: usize = 20;

/// The pause before a failed watch is started again, in milliseconds.
pub const RESTART_DELAY_MS: u64 = 1000;

/// What a change notification reports.
#[derive(Clone, Copy, Debug, PartialEq, Eq, Structural)]
pub enum EventKind {
    NodeCreated,
    NodeDeleted,
    NodeDataChanged,
    Session,
    Other,
}

/// The session state that a notification carries.
#[derive(Clone, Copy, Debug, PartialEq, Eq, Structural)]
pub enum SessionKind {
    Disconnected,
    Expired,
    Closed,
    Other,
}

/// One change notification of the watched subtree.
#[derive(Debug)]
pub struct WatchEvent {
    pub kind: EventKind,
    pub session: SessionKind,
    pub path: Vec<u8>,
}

/// What the watcher does with one notification.
#[derive(Clone, Copy, Debug, PartialEq, Eq, Structural)]
pub enum WatchStep {
    /// Nothing to do.
    Ignore,
    /// Fetch the backends of the function and rebuild its ring.
    Load(u128),
    /// Forget the function.
    Remove(u128),
}

/// Why a discovery step failed. Each of these ends the current watch, which
/// is started again after `RESTART_DELAY_MS`.
#[derive(Clone, Copy, Debug, PartialEq, Eq, Structural)]
pub enum DiscoveryError {
    /// The session was disconnected, expired or closed.
    SessionLost,
    /// The notification's path has no function segment.
    BadPath,
    /// A name that should be a function identifier is not one.
    BadFunctionId,
    /// A backends payload could not be decoded.
    BadPayload,
}

/// What the uuid crate reads from text, as a 128-bit value.
pub uninterp spec fn uuid_of(text: Seq<u8>) -> Option<u128>;

/// Relies on `uuid::Uuid::try_parse_ascii` and `Uuid::as_u128`: the value of
/// the identifier written in `text`, or nothing when it is not one.
#[verifier::external_body]
fn parse_uuid(text: &[u8]) -> (r: Option<u128>)
    ensures
        r == uuid_of(text@),
{
    uuid::Uuid::try_parse_ascii(text).ok().map(|u| u.as_u128())
}

/// The byte of a slash.
pub open spec fn is_slash(c: u8) -> bool {
    c == 47u8
}

/// The first slash at or after `i`, or the end of `p`.
pub open spec fn next_slash(p: Seq<u8>, i: int) -> int
    decreases p.len() - i,
{
    if i >= p.len() {
        p.len() as int
    } else if is_slash(p[i]) {
        i
    } else {
        next_slash(p, i + 1)
    }
}

/// The bounds of segment `n` of `p` counted from `start`, segments being
/// separated by slashes; nothing when `p` has fewer segments.
pub open spec fn segment_from(p: Seq<u8>, start: int, n: nat) -> Option<(int, int)>
    decreases n,
{
    let e = next_slash(p, start);
    if n == 0 {
        Some((start, e))
    } else if e >= p.len() || start > p.len() {
        None
    } else {
        segment_from(p, e + 1, (n - 1) as nat)
    }
}

/// Segment `n` of a path, counting the empty text before a leading slash as
/// segment zero.
pub open spec fn segment(p: Seq<u8>, n: nat) -> Option<Seq<u8>> {
    match segment_from(p, 0, n) {
        Some((s, e)) => Some(p.subrange(s, e)),
        None => None,
    }
}

/// The suffix that marks a backends node.
pub open spec fn backends_suffix() -> Seq<u8> {
    seq![47u8, 98u8, 97u8, 99u8, 107u8, 101u8, 110u8, 100u8, 115u8]
}

/// The path names a backends node.
pub open spec fn ends_with_backends(p: Seq<u8>) -> bool {
    p.len() >= 9 && p.subrange(p.len() - 9, p.len() as int) == backends_suffix()
}

/// The session state ends the session.
pub open spec fn is_terminal(s: SessionKind) -> bool {
    s == SessionKind::Disconnected || s == SessionKind::Expired || s == SessionKind::Closed
}

/// The step for a node notification on a backends node, given what its
/// function segment reads as.
pub open spec fn step_for(kind: EventKind, id: Option<u128>) -> Result<WatchStep, DiscoveryError> {
    match id {
        None => Err(DiscoveryError::BadFunctionId),
        Some(f) => if kind == EventKind::NodeDeleted {
            Ok(WatchStep::Remove(f))
        } else {
            Ok(WatchStep::Load(f))
        },
    }
}

/// The notification is about a backends node being created, deleted or changed.
pub open spec fn is_node_change(kind: EventKind) -> bool {
    kind == EventKind::NodeCreated || kind == EventKind::NodeDeleted || kind
        == EventKind::NodeDataChanged
}

/// What the watcher does with a notification.
pub open spec fn step_of(kind: EventKind, session: SessionKind, path: Seq<u8>) -> Result<
    WatchStep,
    DiscoveryError,
> {
    if kind == EventKind::Session && is_terminal(session) {
        Err(DiscoveryError::SessionLost)
    } else if !ends_with_backends(path) || !is_node_change(kind) {
        Ok(WatchStep::Ignore)
    } else {
        match segment(path, 2) {
            None => Err(DiscoveryError::BadPath),
            Some(seg) => step_for(kind, uuid_of(seg)),
        }
    }
}

fn find_slash(p: &[u8], i: usize) -> (e: usize)
    requires
        i <= p@.len(),
    ensures
        e as int == next_slash(p@, i as int),
        i <= e <= p@.len(),
{
    let mut j = i;
    while j < p.len() && p[j] != 47u8
        invariant
            i <= j <= p@.len(),
            next_slash(p@, i as int) == next_slash(p@, j as int),
        decreases p@.len() - j,
    {
        j = j + 1;
    }
    j
}

/// The bounds of segment `n` of `p`.
pub fn find_segment(p: &[u8], n: usize) -> (r: Option<(usize, usize)>)
    ensures
        match r {
            Some((s, e)) => segment_from(p@, 0, n as nat) == Some((s as int, e as int)) && s <= e
                <= p@.len(),
            None => segment_from(p@, 0, n as nat) is None,
        },
{
    let mut start: usize = 0;
    let mut k: usize = n;
    while k > 0
        invariant
            start <= p@.len(),
            segment_from(p@, 0, n as nat) == segment_from(p@, start as int, k as nat),
        decreases k,
    {
        let e = find_slash(p, start);
        if e >= p.len() {
            return None;
        }
        start = e + 1;
        k = k - 1;
    }
    let e = find_slash(p, start);
    Some((start, e))
}

fn has_backends_suffix(p: &[u8]) -> (r: bool)
    ensures
        r == ends_with_backends(p@),
{
    let suffix: [u8; 9] = [47u8, 98u8, 97u8, 99u8, 107u8, 101u8, 110u8, 100u8, 115u8];
    if p.len() < 9 {
        return false;
    }
    let plen = p.len();
    let base = plen - 9;
    let mut j: usize = 0;
    while j < 9
        invariant
            plen == p@.len(),
            base + 9 == p@.len(),
            j <= 9,
            suffix@ == backends_suffix(),
            forall|t: int| 0 <= t < j ==> p@[base + t] == backends_suffix()[t],
        decreases 9 - j,
    {
        if p[base + j] != suffix[j] {
            assert(p@.subrange(base as int, p@.len() as int)[j as int] != backends_suffix()[j as int]);
            return false;
        }
        j = j + 1;
    }
    assert(p@.subrange(base as int, p@.len() as int) =~= backends_suffix());
    true
}

/// The step for a node notification on a backends node, given what its
/// function segment reads as.
pub fn step_for_id(kind: EventKind, id: Option<u128>) -> (r: Result<WatchStep, DiscoveryError>)
    ensures
        r == step_for(kind, id),
{
    match id {
        None => Err(DiscoveryError::BadFunctionId),
        Some(f) => if kind == EventKind::NodeDeleted {
            Ok(WatchStep::Remove(f))
        } else {
            Ok(WatchStep::Load(f))
        },
    }
}

/// Decides what to do with one notification: a terminal session state ends
/// the watch; a creation, deletion or change of a backends node loads or
/// forgets the function named by the path's second segment; anything else is
/// ignored.
pub fn next_step(event: &WatchEvent) -> (r: Result<WatchStep, DiscoveryError>)
    ensures
        r == step_of(event.kind, event.session, event.path@),
{
    if event.kind == EventKind::Session && (event.session == SessionKind::Disconnected
        || event.session == SessionKind::Expired || event.session == SessionKind::Closed) {
        return Err(DiscoveryError::SessionLost);
    }
    let p = event.path.as_slice();
    if !has_backends_suffix(p) {
        return Ok(WatchStep::Ignore);
    }
    if !(event.kind == EventKind::NodeCreated || event.kind == EventKind::NodeDeleted
        || event.kind == EventKind::NodeDataChanged) {
        return Ok(WatchStep::Ignore);
    }
    match find_segment(p, 2) {
        None => Err(DiscoveryError::BadPath),
        Some((s, e)) => {
            let seg = vstd::slice::slice_subrange(p, s, e);
            step_for_id(event.kind, parse_uuid(seg))
        },
    }
}

/// Reads the names of the function nodes found at startup as function
/// identifiers; fails if any of them is not one.
pub fn parse_function_ids(names: &Vec<Vec<u8>>) -> (r: Result<Vec<u128>, DiscoveryError>)
    ensures
        match r {
            Ok(ids) => ids@.len() == names@.len() && forall|i: int|
                0 <= i < names@.len() ==> uuid_of(#[trigger] names@[i]@) == Some(ids@[i]),
            Err(e) => e == DiscoveryError::BadFunctionId && exists|i: int|
                0 <= i < names@.len() && uuid_of(#[trigger] names@[i]@) is None,
        },
{
    let mut ids: Vec<u128> = Vec::new();
    let mut i: usize = 0;
    while i < names.len()
        invariant
            i <= names@.len(),
            ids@.len() == i,
            forall|j: int| 0 <= j < i ==> uuid_of(#[trigger] names@[j]@) == Some(ids@[j]),
        decreases names@.len() - i,
    {
        match parse_uuid(names[i].as_slice()) {
            Some(f) => ids.push(f),
            None => {
                assert(uuid_of(names@[i as int]@) is None);
                return Err(DiscoveryError::BadFunctionId);
            },
        }
        i = i + 1;
    }
    Ok(ids)
}

/// The directory after loading a function's backends payload: on success its
/// ring is rebuilt from the payload, replacing any earlier one.
pub open spec fn loaded(before: Map<u128, Ring>, f: u128, payload: Seq<u8>, after: Map<u128, Ring>) -> bool {
    match decoded(payload) {
        Some(bs) => after.dom() == before.dom().insert(f) && after.remove(f) == before.remove(f)
            && after[f]@ == built(bs, CONHASH_REPLICAS as nat).0,
        None => after == before,
    }
}

/// Rebuilds the ring of function `f` from the payload of its backends node
/// and puts it in the directory. A payload that cannot be decoded leaves the
/// directory as it was.
pub fn load_backends(dir: &mut Directory, f: u128, payload: &[u8]) -> (r: Result<(), DiscoveryError>)
    ensures
        r is Ok <==> decoded(payload@) is Some,
        r is Err ==> r == Err::<(), DiscoveryError>(DiscoveryError::BadPayload),
        loaded(old(dir)@, f, payload@, final(dir)@),
{
    match unpack_backends(payload) {
        Err(_) => Err(DiscoveryError::BadPayload),
        Ok(backends) => {
            let ring = Ring::build(&backends, CONHASH_REPLICAS);
            dir.put(f, ring);
            proof {
                assert(final(dir)@.dom() =~= old(dir)@.dom().insert(f));
                assert(final(dir)@.remove(f) =~= old(dir)@.remove(f));
            }
            Ok(())
        },
    }
}

/// Applies a step that needs no fetch: forgets a removed function. Other
/// steps leave the directory as it is.
pub fn apply_step(dir: &mut Directory, step: WatchStep)
    ensures
        match step {
            WatchStep::Remove(f) => final(dir)@ == old(dir)@.remove(f),
            _ => final(dir)@ == old(dir)@,
        },
{
    if let WatchStep::Remove(f) = step {
        dir.remove(f);
    }
}

/// Entry `i` of `ids` is the last one naming its function.
pub open spec fn last_of(ids: Seq<u128>, i: int) -> bool {
    forall|t: int| i < t < ids.len() ==> ids[t] != ids[i]
}

/// Builds the directory at startup from each function found and the
/// payload of its backends node; fails on the first payload that cannot be
/// decoded. Where a function is listed twice, its last payload counts.
pub fn initial_directory(ids: &Vec<u128>, payloads: &Vec<Vec<u8>>) -> (r: Result<Directory, DiscoveryError>)
    requires
        ids@.len() == payloads@.len(),
    ensures
        match r {
            Ok(d) => d@.dom() == ids@.to_set() && (forall|i: int|
                0 <= i < ids@.len() ==> decoded(#[trigger] payloads@[i]@) is Some) && forall|i: int|
                0 <= i < ids@.len() && last_of(ids@, i) ==> d@[#[trigger] ids@[i]]@ == built(
                    decoded(payloads@[i]@)->Some_0,
                    CONHASH_REPLICAS as nat,
                ).0,
            Err(e) => e == DiscoveryError::BadPayload && exists|i: int|
                0 <= i < ids@.len() && decoded(#[trigger] payloads@[i]@) is None,
        },
{
    let mut dir = Directory::new();
    let mut i: usize = 0;
    while i < ids.len()
        invariant
            i <= ids@.len(),
            ids@.len() == payloads@.len(),
            dir@.dom() == ids@.take(i as int).to_set(),
            forall|j: int| 0 <= j < i ==> decoded(#[trigger] payloads@[j]@) is Some,
            forall|j: int|
                0 <= j < i && last_of(ids@.take(i as int), j) ==> dir@[#[trigger] ids@[j]]@ == built(
                    decoded(payloads@[j]@)->Some_0,
                    CONHASH_REPLICAS as nat,
                ).0,
        decreases ids@.len() - i,
    {
        let ghost before = dir@;
        let res = load_backends(&mut dir, ids[i], payloads[i].as_slice());
        if res.is_err() {
            return Err(DiscoveryError::BadPayload);
        }
        proof {
            let f = ids@[i as int];
            assert forall|j: int|
                0 <= j < i + 1 && last_of(ids@.take(i + 1), j) implies dir@[#[trigger] ids@[j]]@
                == built(decoded(payloads@[j]@)->Some_0, CONHASH_REPLICAS as nat).0 by {
                if j < i {
                    assert(ids@.take(i + 1)[i as int] == f);
                    assert(ids@[j] != f);
                    assert(last_of(ids@.take(i as int), j)) by {
                        assert forall|t: int| j < t < i implies ids@.take(i as int)[t] != ids@.take(
                            i as int,
                        )[j] by {
                            assert(ids@.take(i + 1)[t] != ids@.take(i + 1)[j]);
                        }
                    }
                    assert(dir@.remove(f)[ids@[j]] == before.remove(f)[ids@[j]]);
                }
            }
            assert(ids@.take(i + 1) =~= ids@.take(i as int).push(ids@[i as int]));
            ids@.take(i as int).lemma_push_to_set_commute(ids@[i as int]);
        }
        i = i + 1;
    }
    proof {
        assert(ids@.take(i as int) =~= ids@);
    }
    Ok(dir)
}

} // verus!
