//! The chunking protocol: deterministic fragmentation of an oversized payload
//! into an ordered run of tagged chunks sharing one logical id, such that the
//! peer reconstructs the payload by concatenating the chunks in index order.

use vstd::prelude::*;

use crate::message::IdGen;
use crate::message::Message;
use crate::message::MessageView;
use crate::message::Priority;

verus! {

/// How many chunks a payload of `len` bytes yields at chunk size `c`:
/// the ceiling of `len / c`.
pub open spec fn spec_chunk_count(len: nat, c: nat) -> nat
    recommends
        c >= 1,
{
    if len % c == 0 {
        len / c
    } else {
        len / c + 1
    }
}

/// The bytes of chunk `i`: the `i`-th piece of `data` cut every `c` bytes,
/// with only the last piece possibly shorter.
pub open spec fn spec_chunk_payload(data: Seq<u8>, c: nat, i: nat) -> Seq<u8>
    recommends
        c >= 1,
        i < spec_chunk_count(data.len(), c),
{
    let start = (i * c) as int;
    let end = if (i + 1) * c <= data.len() {
        ((i + 1) * c) as int
    } else {
        data.len() as int
    };
    data.subrange(start, end)
}

/// The full run of chunk envelopes for an oversized payload: one per piece,
/// all sharing `id` and `priority`, with `total_chunks` the piece count and
/// `chunk_index` the piece position.
pub open spec fn spec_chunks(data: Seq<u8>, p: Priority, c: nat, id: u64) -> Seq<MessageView>
    recommends
        c >= 1,
{
    Seq::new(
        spec_chunk_count(data.len(), c),
        |i: int|
            MessageView {
                id,
                priority: p,
                total_chunks: spec_chunk_count(data.len(), c) as u32,
                chunk_index: i as u32,
                data: Some(spec_chunk_payload(data, c, i as nat)),
            },
    )
}

/// What fragmentation yields: a payload within the chunk size rides whole in
/// a single unchunked envelope; a larger one is cut into its chunk run.
pub open spec fn spec_fragment(data: Seq<u8>, p: Priority, c: nat, id: u64) -> Seq<MessageView>
    recommends
        c >= 1,
{
    if data.len() <= c {
        seq![
            MessageView { id, priority: p, total_chunks: 0, chunk_index: 0, data: Some(data) },
        ]
    } else {
        spec_chunks(data, p, c, id)
    }
}

/// The views of a run of envelopes.
pub open spec fn views_of(ms: Seq<Message>) -> Seq<MessageView> {
    ms.map_values(|m: Message| m@)
}

/// The payloads of a run of envelopes, concatenated in the run's order.
pub open spec fn payload_concat(ms: Seq<MessageView>) -> Seq<u8>
    decreases ms.len(),
{
    if ms.len() == 0 {
        Seq::empty()
    } else {
        payload_concat(ms.drop_last()) + ms.last().payload()
    }
}

/// Cuts `data` into `ceil(len / chunk_size)` chunk envelopes sharing one
/// fresh id and the given priority; chunk `i` carries bytes
/// `i * chunk_size ..` up to the next cut or the payload's end. An empty
/// payload yields no envelope.
pub fn split_into_chunks(
    data: &[u8],
    p: Priority,
    chunk_size: usize,
    ids: &mut IdGen,
) -> (msgs: Vec<Message>)
    requires
        chunk_size >= 1,
        old(ids)@ < u64::MAX,
        spec_chunk_count(data@.len(), chunk_size as nat) <= u32::MAX,
    ensures
        views_of(msgs@) == spec_chunks(data@, p, chunk_size as nat, old(ids)@),
        final(ids)@ == old(ids)@ + 1,
{
    let id = ids.next_id();
    let len = data.len();
    proof {
        vstd::arithmetic::div_mod::lemma_fundamental_div_mod(len as int, chunk_size as int);
        vstd::arithmetic::div_mod::lemma_mod_division_less_than_divisor(
            len as int,
            chunk_size as int,
        );
        assert(chunk_size * (len / chunk_size) <= len && len / chunk_size <= len)
            by (nonlinear_arith)
            requires
                chunk_size >= 1,
                len / chunk_size >= 0,
                len == chunk_size * (len / chunk_size) + len % chunk_size,
                len % chunk_size >= 0,
        ;
    }
    let count = len / chunk_size + if len % chunk_size == 0 {
        0
    } else {
        1
    };
    let total: u32 = count as u32;
    let mut msgs: Vec<Message> = Vec::new();
    let mut i: usize = 0;
    while i < count
        invariant
            chunk_size >= 1,
            len == data@.len(),
            count == spec_chunk_count(data@.len(), chunk_size as nat),
            count <= u32::MAX,
            total == count as u32,
            i <= count,
            msgs@.len() == i,
            id == old(ids)@,
            ids@ == old(ids)@ + 1,
            views_of(msgs@) == spec_chunks(data@, p, chunk_size as nat, id).take(i as int),
        decreases count - i,
    {
        proof {
            lemma_chunk_bounds(data@.len() as nat, chunk_size as nat, i as nat);
            assert((i as nat + 1) * (chunk_size as nat) == i as nat * (chunk_size as nat)
                + chunk_size as nat) by (nonlinear_arith);
        }
        let start = i * chunk_size;
        let end = if len - start > chunk_size {
            start + chunk_size
        } else {
            len
        };
        let mut piece: Vec<u8> = Vec::new();
        let mut j: usize = start;
        while j < end
            invariant
                start <= j <= end <= data@.len(),
                piece@ == data@.subrange(start as int, j as int),
            decreases end - j,
        {
            piece.push(data[j]);
            proof {
                assert(piece@ =~= data@.subrange(start as int, j + 1 as int));
            }
            j = j + 1;
        }
        msgs.push(
            Message { id, priority: p, total_chunks: total, chunk_index: i as u32, data: Some(piece) },
        );
        proof {
            assert(piece@ =~= spec_chunk_payload(data@, chunk_size as nat, i as nat));
            assert(views_of(msgs@) =~= spec_chunks(data@, p, chunk_size as nat, id).take(
                i + 1 as int,
            ));
        }
        i = i + 1;
    }
    proof {
        assert(views_of(msgs@) =~= spec_chunks(data@, p, chunk_size as nat, id));
    }
    msgs
}

/// Fragments a payload for submission: within the chunk size it rides whole
/// as one unchunked envelope; beyond it, [`split_into_chunks`] cuts it.
/// Either way one fresh id is taken.
pub fn fragment(data: Vec<u8>, p: Priority, chunk_size: usize, ids: &mut IdGen) -> (msgs: Vec<
    Message,
>)
    requires
        chunk_size >= 1,
        old(ids)@ < u64::MAX,
        spec_chunk_count(data@.len(), chunk_size as nat) <= u32::MAX,
    ensures
        views_of(msgs@) == spec_fragment(data@, p, chunk_size as nat, old(ids)@),
        final(ids)@ == old(ids)@ + 1,
{
    if data.len() <= chunk_size {
        let id = ids.next_id();
        let ghost d = data@;
        let mut msgs: Vec<Message> = Vec::new();
        msgs.push(Message { id, priority: p, total_chunks: 0, chunk_index: 0, data: Some(data) });
        proof {
            assert(views_of(msgs@) =~= spec_fragment(d, p, chunk_size as nat, id));
        }
        msgs
    } else {
        split_into_chunks(data.as_slice(), p, chunk_size, ids)
    }
}

/// The chunk count covers the payload: `n` chunks of `c` bytes reach its end,
/// while `n - 1` do not.
pub proof fn lemma_count_bounds(len: nat, c: nat)
    requires
        c >= 1,
    ensures
        spec_chunk_count(len, c) * c >= len,
        len > 0 ==> spec_chunk_count(len, c) >= 1 && (spec_chunk_count(len, c) - 1) * c < len,
        len == 0 ==> spec_chunk_count(len, c) == 0,
{
    let n = spec_chunk_count(len, c);
    let q = len / c;
    let r = len % c;
    vstd::arithmetic::div_mod::lemma_fundamental_div_mod(len as int, c as int);
    vstd::arithmetic::div_mod::lemma_mod_division_less_than_divisor(len as int, c as int);
    assert(len == c * q + r);
    if r == 0 {
        assert(n == q);
        assert(n * c == c * q) by (nonlinear_arith)
            requires
                n == q,
        ;
        if len > 0 {
            assert(q >= 1) by (nonlinear_arith)
                requires
                    c * q == len,
                    len > 0,
                    c >= 1,
            ;
            assert((q - 1) * c == c * q - c) by (nonlinear_arith)
                requires
                    q >= 1,
            ;
        }
    } else {
        assert(n == q + 1);
        assert(n * c == c * q + c) by (nonlinear_arith)
            requires
                n == q + 1,
        ;
        assert(q * c == c * q) by (nonlinear_arith);
    }
}

/// Chunk `i` starts strictly inside the payload and ends within it.
proof fn lemma_chunk_bounds(len: nat, c: nat, i: nat)
    requires
        c >= 1,
        i < spec_chunk_count(len, c),
    ensures
        i * c < len,
        (i + 1) * c <= len || (i * c < len <= (i + 1) * c),
        i + 1 < spec_chunk_count(len, c) ==> (i + 1) * c <= len,
{
    let n = spec_chunk_count(len, c);
    lemma_count_bounds(len, c);
    assert(len > 0) by {
        if len == 0 {
            assert(n == 0);
        }
    }
    assert(i * c <= (n - 1) * c) by (nonlinear_arith)
        requires
            i <= n - 1,
            c >= 1,
    ;
    if i + 1 < n {
        assert((i + 1) * c <= (n - 1) * c) by (nonlinear_arith)
            requires
                i + 1 <= n - 1,
                c >= 1,
        ;
    } else {
        assert((i + 1) * c == n * c) by (nonlinear_arith)
            requires
                i + 1 == n,
        ;
    }
}

/// Concatenating the first `k` chunk payloads in index order yields exactly
/// the payload's first bytes up to the `k`-th cut.
proof fn lemma_chunks_prefix(data: Seq<u8>, p: Priority, c: nat, id: u64, k: nat)
    requires
        c >= 1,
        k <= spec_chunk_count(data.len(), c),
    ensures
        payload_concat(spec_chunks(data, p, c, id).take(k as int)) == data.take(
            if k * c <= data.len() {
                (k * c) as int
            } else {
                data.len() as int
            },
        ),
    decreases k,
{
    let run = spec_chunks(data, p, c, id);
    if k == 0 {
        assert(k * c == 0) by (nonlinear_arith)
            requires
                k == 0,
        ;
        assert(payload_concat(run.take(0)) =~= data.take(0));
        assert(payload_concat(run.take(k as int)) == data.take((k * c) as int));
    } else {
        lemma_chunks_prefix(data, p, c, id, (k - 1) as nat);
        lemma_chunk_bounds(data.len(), c, (k - 1) as nat);
        assert(run.take(k as int).drop_last() =~= run.take(k - 1 as int));
        assert((k - 1) * c <= data.len() && (k - 1) * c < k * c) by (nonlinear_arith)
            requires
                c >= 1,
                k >= 1,
                (k - 1) * c < data.len() || ((k - 1) * c < data.len() <= k * c),
        ;
        let prev_end = ((k - 1) * c) as int;
        let this_end = if k * c <= data.len() {
            (k * c) as int
        } else {
            data.len() as int
        };
        assert(run.take(k as int).last() == run[k - 1 as int]);
        assert(run.take(k as int).last().payload() == data.subrange(prev_end, this_end));
        assert(data.take(prev_end) + data.subrange(prev_end, this_end) =~= data.take(this_end));
        assert(payload_concat(run.take(k as int)) == payload_concat(run.take(k - 1 as int))
            + run[k - 1 as int].payload());
        assert(payload_concat(run.take(k - 1 as int)) == data.take(prev_end));
        assert(payload_concat(run.take(k as int)) == data.take(this_end));
    }
}

/// Fragmentation round-trip: for every payload and every chunk size,
/// concatenating the payloads of `fragment`'s output in index order
/// reproduces the original bytes exactly.
pub proof fn lemma_fragment_round_trip(data: Seq<u8>, p: Priority, c: nat, id: u64)
    requires
        c >= 1,
    ensures
        payload_concat(spec_fragment(data, p, c, id)) == data,
{
    if data.len() <= c {
        let run = spec_fragment(data, p, c, id);
        assert(run.drop_last() =~= Seq::<MessageView>::empty());
        assert(payload_concat(run.drop_last()) == Seq::<u8>::empty());
        assert(run.last().payload() == data);
        assert(payload_concat(run) =~= data);
    } else {
        let n = spec_chunk_count(data.len(), c);
        let run = spec_chunks(data, p, c, id);
        lemma_count_bounds(data.len(), c);
        lemma_chunks_prefix(data, p, c, id, n);
        assert(run.take(n as int) =~= run);
        if n * c <= data.len() {
            assert(n * c == data.len());
        }
        assert(data.take(data.len() as int) =~= data);
    }
}

/// Every envelope that `fragment` yields is well formed, and its chunk
/// indices are exactly `0 .. n-1` with `total_chunks` equal on every sibling:
/// `n` in the chunked case and 0 in the unchunked one.
pub proof fn lemma_fragment_shape(data: Seq<u8>, p: Priority, c: nat, id: u64)
    requires
        c >= 1,
        spec_chunk_count(data.len(), c) <= u32::MAX,
    ensures
        data.len() <= c ==> spec_fragment(data, p, c, id).len() == 1,
        data.len() > c ==> spec_fragment(data, p, c, id).len() == spec_chunk_count(data.len(), c),
        forall|i: int|
            0 <= i < spec_fragment(data, p, c, id).len() ==> {
                let m = #[trigger] spec_fragment(data, p, c, id)[i];
                &&& m.wf()
                &&& m.id == id
                &&& m.priority == p
                &&& m.chunk_index == i
                &&& m.data is Some
                &&& m.payload().len() <= c
                &&& m.total_chunks == if data.len() <= c {
                    0
                } else {
                    spec_chunk_count(data.len(), c)
                }
            },
{
    if data.len() > c {
        assert forall|i: int| 0 <= i < spec_fragment(data, p, c, id).len() implies {
            let m = #[trigger] spec_fragment(data, p, c, id)[i];
            m.payload().len() <= c
        } by {
            lemma_chunk_bounds(data.len(), c, i as nat);
            assert((i as nat + 1) * c == i as nat * c + c) by (nonlinear_arith);
        }
    }
}

} // verus!
