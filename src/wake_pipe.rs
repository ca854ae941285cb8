//! Framing of task ids sent over the executor's wake pipe: each id travels as
//! eight bytes, least significant first.
use vstd::prelude::*;

verus! {

/// The eight bytes of `x`, least significant first.
pub open spec fn id_bytes(x: u64) -> Seq<u8> {
    seq![
        (x & 0xff) as u8,
        ((x >> 8u64) & 0xff) as u8,
        ((x >> 16u64) & 0xff) as u8,
        ((x >> 24u64) & 0xff) as u8,
        ((x >> 32u64) & 0xff) as u8,
        ((x >> 40u64) & 0xff) as u8,
        ((x >> 48u64) & 0xff) as u8,
        ((x >> 56u64) & 0xff) as u8,
    ]
}

/// The id that eight bytes stand for, least significant first.
pub open spec fn id_of(b: Seq<u8>) -> u64
    recommends
        b.len() == 8,
{
    (b[0] as u64) | ((b[1] as u64) << 8u64) | ((b[2] as u64) << 16u64) | ((b[3] as u64)
        << 24u64) | ((b[4] as u64) << 32u64) | ((b[5] as u64) << 40u64) | ((b[6] as u64)
        << 48u64) | ((b[7] as u64) << 56u64)
}

/// The ids that a byte string holds, one for each full group of eight bytes.
pub open spec fn ids_of(b: Seq<u8>) -> Seq<u64> {
    Seq::new(b.len() / 8, |k: int| id_of(b.subrange(8 * k, 8 * k + 8)))
}

/// What the write end of the pipe receives for a sequence of wakeups.
pub open spec fn frames_of(ids: Seq<u64>) -> Seq<u8>
    decreases ids.len(),
{
    if ids.len() == 0 {
        Seq::empty()
    } else {
        frames_of(ids.drop_last()) + id_bytes(ids.last())
    }
}

proof fn lemma_id_round_trip(x: u64)
    ensures
        id_of(id_bytes(x)) == x,
{
    assert(((x & 0xff) as u8 as u64) | ((((x >> 8u64) & 0xff) as u8 as u64) << 8u64) | ((((x
        >> 16u64) & 0xff) as u8 as u64) << 16u64) | ((((x >> 24u64) & 0xff) as u8 as u64)
        << 24u64) | ((((x >> 32u64) & 0xff) as u8 as u64) << 32u64) | ((((x >> 40u64) & 0xff)
        as u8 as u64) << 40u64) | ((((x >> 48u64) & 0xff) as u8 as u64) << 48u64) | ((((x
        >> 56u64) & 0xff) as u8 as u64) << 56u64) == x) by (bit_vector);
}

/// The bytes that `id` is written as: eight of them, least significant first.
pub fn encode_id(id: u64) -> (r: Vec<u8>)
    ensures
        r@ == id_bytes(id),
        id_of(r@) == id,
{
    proof {
        lemma_id_round_trip(id);
    }
    let r: Vec<u8> = vec![
        (id & 0xff) as u8,
        ((id >> 8u64) & 0xff) as u8,
        ((id >> 16u64) & 0xff) as u8,
        ((id >> 24u64) & 0xff) as u8,
        ((id >> 32u64) & 0xff) as u8,
        ((id >> 40u64) & 0xff) as u8,
        ((id >> 48u64) & 0xff) as u8,
        ((id >> 56u64) & 0xff) as u8,
    ];
    assert(r@ =~= id_bytes(id));
    r
}

/// The ids that a chunk read from the pipe holds. A chunk whose length is not
/// a whole number of ids cannot have come from the write end: `None`.
pub fn decode_ids(buf: &[u8]) -> (r: Option<Vec<u64>>)
    ensures
        r is None <==> buf@.len() % 8 != 0,
        r matches Some(v) ==> v@ == ids_of(buf@),
{
    if buf.len() % 8 != 0 {
        return None;
    }
    let n = buf.len() / 8;
    let mut out: Vec<u64> = Vec::new();
    let mut k: usize = 0;
    while k < n
        invariant
            n == buf@.len() / 8,
            buf@.len() % 8 == 0,
            buf@.len() == buf.len(),
            k <= n,
            out@.len() == k,
            forall|j: int| 0 <= j < k ==> out@[j] == ids_of(buf@)[j],
        decreases n - k,
    {
        assert(8 * k + 8 <= buf@.len()) by (nonlinear_arith)
            requires
                k < n,
                n == buf@.len() / 8,
        ;
        let i = 8 * k;
        let ghost chunk = buf@.subrange(i as int, i as int + 8);
        assert(chunk[0] == buf@[i as int] && chunk[1] == buf@[i + 1] && chunk[2] == buf@[i + 2]
            && chunk[3] == buf@[i + 3] && chunk[4] == buf@[i + 4] && chunk[5] == buf@[i + 5]
            && chunk[6] == buf@[i + 6] && chunk[7] == buf@[i + 7]);
        let id = (buf[i] as u64) | ((buf[i + 1] as u64) << 8u64) | ((buf[i + 2] as u64) << 16u64)
            | ((buf[i + 3] as u64) << 24u64) | ((buf[i + 4] as u64) << 32u64) | ((buf[i + 5]
            as u64) << 40u64) | ((buf[i + 6] as u64) << 48u64) | ((buf[i + 7] as u64) << 56u64);
        assert(id == id_of(chunk));
        out.push(id);
        k = k + 1;
    }
    assert(out@ =~= ids_of(buf@));
    Some(out)
}

proof fn lemma_frames_layout(ids: Seq<u64>)
    ensures
        frames_of(ids).len() == 8 * ids.len(),
        forall|k: int|
            0 <= k < ids.len() ==> #[trigger] frames_of(ids).subrange(8 * k, 8 * k + 8)
                == id_bytes(ids[k]),
    decreases ids.len(),
{
    if ids.len() > 0 {
        let front = ids.drop_last();
        lemma_frames_layout(front);
        let f = frames_of(ids);
        assert forall|k: int| 0 <= k < ids.len() implies #[trigger] f.subrange(8 * k, 8 * k + 8)
            == id_bytes(ids[k]) by {
            if k < front.len() {
                assert(f.subrange(8 * k, 8 * k + 8) =~= frames_of(front).subrange(8 * k, 8 * k + 8));
            } else {
                assert(f.subrange(8 * k, 8 * k + 8) =~= id_bytes(ids.last()));
            }
        }
    }
}

/// Whatever ids are written into the pipe, reading all the bytes back yields
/// the same ids, in the order in which they were written.
pub proof fn lemma_wake_pipe_round_trip(ids: Seq<u64>)
    ensures
        ids_of(frames_of(ids)) == ids,
{
    lemma_frames_layout(ids);
    assert forall|k: int| 0 <= k < ids.len() implies #[trigger] ids_of(frames_of(ids))[k]
        == ids[k] by {
        assert(frames_of(ids).subrange(8 * k, 8 * k + 8) == id_bytes(ids[k]));
        lemma_id_round_trip(ids[k]);
    }
    assert(ids_of(frames_of(ids)) =~= ids);
}

} // verus!
