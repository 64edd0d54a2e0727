//! The chunked unary path's result rule: a payload too large for one request
//! is fragmented and each chunk sent as its own request/response exchange,
//! strictly in sequence. The logical result of the whole exchange is the
//! first chunk response that carries a payload; later responses' payloads are
//! ignored, and if no response ever carries one, the call fails as a timeout.

use vstd::prelude::*;

use crate::error::TransferError;

verus! {

/// The position of the first response carrying a payload, if any.
pub open spec fn spec_first_payload(rs: Seq<Option<Vec<u8>>>) -> Option<int>
    decreases rs.len(),
{
    if rs.len() == 0 {
        None
    } else if rs[0] is Some {
        Some(0)
    } else {
        match spec_first_payload(rs.drop_first()) {
            Some(i) => Some(i + 1),
            None => None,
        }
    }
}

/// Folds the per-chunk response payloads, in exchange order, into the
/// exchange's logical result: the first payload carried by any response, or
/// a timeout when none carried one.
pub fn collect_chunk_responses(responses: Vec<Option<Vec<u8>>>) -> (r: Result<
    Vec<u8>,
    TransferError,
>)
    ensures
        r is Ok <==> spec_first_payload(responses@) is Some,
        match r {
            Ok(b) => {
                let i = spec_first_payload(responses@)->0;
                &&& responses@[i] == Some(b)
                &&& forall|j: int| 0 <= j < i ==> responses@[j] is None
            },
            Err(e) => {
                &&& e == TransferError::Timeout
                &&& forall|j: int| 0 <= j < responses@.len() ==> responses@[j] is None
            },
        },
{
    let ghost all = responses@;
    let mut rest = responses;
    let mut k: usize = 0;
    let total = rest.len();
    proof {
        lemma_first_payload_in_range(all);
        assert(all.skip(0) =~= all);
    }
    while k < total
        invariant
            all == responses@,
            total == all.len(),
            rest@ == all.skip(k as int),
            k <= total,
            forall|j: int| 0 <= j < k ==> all[j] is None,
            spec_first_payload(all) matches Some(i) ==> i >= k,
        decreases total - k,
    {
        let head = rest.remove(0);
        proof {
            assert(head == all[k as int]);
            assert(rest@ =~= all.skip(k as int + 1));
        }
        match head {
            Some(b) => {
                proof {
                    lemma_first_payload_at(all, k as int);
                }
                return Ok(b);
            },
            None => {
                proof {
                    lemma_first_payload_in_range(all);
                    lemma_first_payload_prefix_none(all);
                    if spec_first_payload(all) is Some {
                        let i = spec_first_payload(all)->0;
                        assert(all[i] is Some);
                        assert(i != k);
                    }
                }
            },
        }
        k = k + 1;
    }
    proof {
        lemma_first_payload_in_range(all);
        assert(spec_first_payload(all) is None) by {
            if spec_first_payload(all) is Some {
                let i = spec_first_payload(all)->0;
                assert(all[i] is Some);
            }
        }
    }
    Err(TransferError::Timeout)
}

/// When every response ahead of `k` is empty and the one at `k` carries a
/// payload, `k` is the first payload's position.
proof fn lemma_first_payload_at(rs: Seq<Option<Vec<u8>>>, k: int)
    requires
        0 <= k < rs.len(),
        rs[k] is Some,
        forall|j: int| 0 <= j < k ==> rs[j] is None,
    ensures
        spec_first_payload(rs) == Some(k),
    decreases k,
{
    if k == 0 {
    } else {
        let t = rs.drop_first();
        assert forall|j: int| 0 <= j < k - 1 implies t[j] is None by {
            assert(t[j] == rs[j + 1]);
        }
        assert(t[k - 1] == rs[k]);
        lemma_first_payload_at(t, k - 1);
    }
}

/// Every response ahead of the first payload's position is empty.
proof fn lemma_first_payload_prefix_none(rs: Seq<Option<Vec<u8>>>)
    ensures
        spec_first_payload(rs) matches Some(i) ==> forall|j: int|
            0 <= j < i ==> (#[trigger] rs[j]) is None,
    decreases rs.len(),
{
    if rs.len() > 0 && rs[0] is None {
        let t = rs.drop_first();
        lemma_first_payload_prefix_none(t);
        lemma_first_payload_in_range(t);
        if spec_first_payload(rs) is Some {
            let i = spec_first_payload(rs)->0;
            assert forall|j: int| 0 <= j < i implies (#[trigger] rs[j]) is None by {
                if j > 0 {
                    assert(t[j - 1] == rs[j]);
                }
            }
        }
    }
}

/// The first payload's position, when there is one, lies inside the run and
/// carries a payload.
proof fn lemma_first_payload_in_range(rs: Seq<Option<Vec<u8>>>)
    ensures
        spec_first_payload(rs) matches Some(i) ==> 0 <= i < rs.len() && rs[i] is Some,
    decreases rs.len(),
{
    if rs.len() > 0 && rs[0] is None {
        lemma_first_payload_in_range(rs.drop_first());
    }
}

} // verus!
