use vstd::prelude::*;
use crate::backend::Backend;

verus! {

/// The length of one backend record: four address bytes, then sixteen
/// instance-identifier bytes, both most significant byte first.
pub const RECORD_LEN: usize = 20;

/// The integer that bytes spell out, most significant first, kept to 128 bits.
pub open spec fn be_u128(s: Seq<u8>) -> u128
    decreases s.len(),
{
    if s.len() == 0 {
        0
    } else {
        ((be_u128(s.drop_last()) << 8u128) | (s.last() as u128)) as u128
    }
}

/// The record that starts at byte `start`.
pub open spec fn record_at(b: Seq<u8>, start: int) -> Backend {
    Backend {
        ip: be_u128(b.subrange(start, start + 4)) as u32,
        container_id: be_u128(b.subrange(start + 4, start + 20)),
    }
}

/// The backends that a payload lists, or nothing when its length is not a
/// whole number of records.
pub open spec fn decoded(b: Seq<u8>) -> Option<Seq<Backend>> {
    if b.len() % 20 == 0 {
        Some(Seq::new((b.len() / 20) as nat, |i: int| record_at(b, 20 * i)))
    } else {
        None
    }
}

/// Byte `k` (from 0 to 19) of the record of a backend.
pub open spec fn record_byte(b: Backend, k: int) -> u8 {
    if k < 4 {
        ((b.ip >> ((3 - k) * 8) as u32) & 0xff) as u8
    } else {
        ((b.container_id >> ((19 - k) * 8) as u128) & 0xff) as u8
    }
}

/// The record of a backend.
pub open spec fn record(b: Backend) -> Seq<u8> {
    Seq::new(20, |k: int| record_byte(b, k))
}

/// The payload that lists `bs`: their records one after another.
pub open spec fn encoded(bs: Seq<Backend>) -> Seq<u8>
    decreases bs.len(),
{
    if bs.len() == 0 {
        Seq::empty()
    } else {
        encoded(bs.drop_last()) + record(bs.last())
    }
}

/// Writes the payload that lists `bs`.
pub fn pack_backends(bs: &[Backend]) -> (r: Vec<u8>)
    ensures
        r@ == encoded(bs@),
{
    let mut out: Vec<u8> = Vec::new();
    let mut i: usize = 0;
    while i < bs.len()
        invariant
            i <= bs@.len(),
            out@ == encoded(bs@.take(i as int)),
        decreases bs@.len() - i,
    {
        let b = bs[i];
        let ghost pre = out@;
        let mut k: u32 = 0;
        while k < 20
            invariant
                k <= 20,
                out@ == pre + record(b).take(k as int),
            decreases 20 - k,
        {
            let byte = if k < 4 {
                ((b.ip >> ((3 - k) * 8)) & 0xff) as u8
            } else {
                ((b.container_id >> ((19 - k) * 8)) & 0xff) as u8
            };
            out.push(byte);
            proof {
                assert(record(b).take(k + 1) =~= record(b).take(k as int).push(byte));
            }
            k = k + 1;
        }
        proof {
            assert(record(b).take(20) =~= record(b));
            assert(bs@.take(i + 1).drop_last() =~= bs@.take(i as int));
        }
        i = i + 1;
    }
    proof {
        assert(bs@.take(i as int) =~= bs@);
    }
    out
}

proof fn lemma_byte_step(id: u128, sh: u128)
    requires
        sh <= 112,
    ensures
        ((id >> (sh + 8)) << 8u128) | (((id >> sh) & 0xff) as u8 as u128) == id >> sh,
{
    assert(((id >> (sh + 8)) << 8u128) | (((id >> sh) & 0xff) as u8 as u128) == id >> sh)
        by (bit_vector)
        requires
            sh <= 112,
    ;
}

proof fn lemma_id_prefix(b: Backend, k: int)
    requires
        1 <= k <= 16,
    ensures
        be_u128(record(b).subrange(4, 4 + k)) == b.container_id >> ((16 - k) * 8) as u128,
    decreases k,
{
    let s = record(b).subrange(4, 4 + k);
    let id = b.container_id;
    let sh = ((16 - k) * 8) as u128;
    assert(s.last() == record_byte(b, 3 + k));
    assert(s.last() == ((id >> sh) & 0xff) as u8);
    if k == 1 {
        assert(s.drop_last() =~= Seq::<u8>::empty());
        assert(be_u128(s.drop_last()) == 0);
        assert(((0u128 << 8u128) | (((id >> 120u128) & 0xff) as u8 as u128)) == id >> 120u128)
            by (bit_vector);
    } else {
        assert(s.drop_last() =~= record(b).subrange(4, 4 + k - 1));
        lemma_id_prefix(b, k - 1);
        lemma_byte_step(id, sh);
    }
}

proof fn lemma_ip_prefix(b: Backend, k: int)
    requires
        1 <= k <= 4,
    ensures
        be_u128(record(b).subrange(0, k)) == (b.ip >> ((4 - k) * 8) as u32) as u128,
    decreases k,
{
    let s = record(b).subrange(0, k);
    let ip = b.ip;
    let sh = ((4 - k) * 8) as u32;
    assert(s.last() == record_byte(b, k - 1));
    assert(s.last() == ((ip >> sh) & 0xff) as u8);
    if k == 1 {
        assert(s.drop_last() =~= Seq::<u8>::empty());
        assert(be_u128(s.drop_last()) == 0);
        assert(((0u128 << 8u128) | (((ip >> 24u32) & 0xff) as u8 as u128)) == (ip >> 24u32) as u128)
            by (bit_vector);
    } else {
        assert(s.drop_last() =~= record(b).subrange(0, k - 1));
        lemma_ip_prefix(b, k - 1);
        assert((((ip >> (sh + 8)) as u128) << 8u128) | (((ip >> sh) & 0xff) as u8 as u128) == (ip
            >> sh) as u128) by (bit_vector)
            requires
                sh <= 16,
        ;
    }
}

proof fn lemma_encoded_records(bs: Seq<Backend>)
    ensures
        encoded(bs).len() == 20 * bs.len(),
        forall|i: int|
            0 <= i < bs.len() ==> #[trigger] encoded(bs).subrange(20 * i, 20 * i + 20) == record(
                bs[i],
            ),
    decreases bs.len(),
{
    if bs.len() > 0 {
        let pre = bs.drop_last();
        lemma_encoded_records(pre);
        assert forall|i: int| 0 <= i < bs.len() implies #[trigger] encoded(bs).subrange(
            20 * i,
            20 * i + 20,
        ) == record(bs[i]) by {
            if i < pre.len() {
                assert(encoded(bs).subrange(20 * i, 20 * i + 20) =~= encoded(pre).subrange(
                    20 * i,
                    20 * i + 20,
                ));
                assert(pre[i] == bs[i]);
            } else {
                assert(encoded(bs).subrange(20 * i, 20 * i + 20) =~= record(bs.last()));
            }
        }
    }
}

/// Reading a payload written for a list of backends gives that list back.
pub proof fn lemma_decode_encoded(bs: Seq<Backend>)
    ensures
        decoded(encoded(bs)) == Some(bs),
{
    lemma_encoded_records(bs);
    let e = encoded(bs);
    assert(e.len() % 20 == 0 && e.len() / 20 == bs.len()) by (nonlinear_arith)
        requires
            e.len() == 20 * bs.len(),
    ;
    assert forall|i: int| 0 <= i < bs.len() implies record_at(e, 20 * i) == bs[i] by {
        let r = e.subrange(20 * i, 20 * i + 20);
        assert(r == record(bs[i]));
        assert(e.subrange(20 * i, 20 * i + 4) =~= record(bs[i]).subrange(0, 4));
        assert(e.subrange(20 * i + 4, 20 * i + 20) =~= record(bs[i]).subrange(4, 20));
        lemma_ip_prefix(bs[i], 4);
        lemma_id_prefix(bs[i], 16);
        let ip = bs[i].ip;
        let id = bs[i].container_id;
        assert((ip >> 0u32) as u128 as u32 == ip) by (bit_vector);
        assert(id >> 0u128 == id) by (bit_vector);
    }
    assert(decoded(e)->Some_0 =~= bs);
}

/// The payload could not be read as a list of backends.
#[derive(Clone, Copy, Debug, PartialEq, Eq, Structural)]
pub struct DecodeError;

fn read_be(b: &[u8], start: usize, len: usize) -> (r: u128)
    requires
        start + len <= b@.len(),
    ensures
        r == be_u128(b@.subrange(start as int, start + len)),
{
    let blen = b.len();
    let mut acc: u128 = 0;
    let mut j: usize = 0;
    while j < len
        invariant
            j <= len,
            blen == b@.len(),
            start + len <= b@.len(),
            acc == be_u128(b@.subrange(start as int, start + j)),
        decreases len - j,
    {
        proof {
            assert(b@.subrange(start as int, start + j + 1).drop_last() =~= b@.subrange(
                start as int,
                start + j,
            ));
        }
        acc = (acc << 8u128) | (b[start + j] as u128);
        j = j + 1;
    }
    acc
}

/// Reads the list of backends that a payload holds: consecutive records of
/// `RECORD_LEN` bytes. An empty payload lists no backend.
pub fn unpack_backends(b: &[u8]) -> (r: Result<Vec<Backend>, DecodeError>)
    ensures
        match r {
            Ok(v) => decoded(b@) == Some(v@),
            Err(_) => decoded(b@) is None,
        },
{
    if b.len() % RECORD_LEN != 0 {
        return Err(DecodeError);
    }
    let blen = b.len();
    let n = blen / RECORD_LEN;
    let mut out: Vec<Backend> = Vec::new();
    let mut i: usize = 0;
    while i < n
        invariant
            blen == b@.len(),
            n == b@.len() / 20,
            b@.len() % 20 == 0,
            i <= n,
            out@.len() == i,
            forall|j: int| 0 <= j < i ==> out@[j] == record_at(b@, 20 * j),
        decreases n - i,
    {
        assert(i * 20 + 20 <= b@.len()) by (nonlinear_arith)
            requires
                i < n,
                n == b@.len() / 20,
        ;
        let start = i * RECORD_LEN;
        let ip = #[verifier::truncate] (read_be(b, start, 4) as u32);
        let id = read_be(b, start + 4, 16);
        out.push(Backend { ip, container_id: id });
        i = i + 1;
    }
    assert(out@ =~= decoded(b@)->Some_0);
    Ok(out)
}

} // verus!
