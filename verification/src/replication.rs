//! Replication bookkeeping: which peers an outbound broadcast goes to.
//! The HTTP calls themselves live outside the library.
use vstd::prelude::*;

use crate::chain::strs_without;

verus! {

/// The peers a broadcast goes to: every known node except the origin of
/// the block (or of the registration), so that nothing is reflected back
/// to its sender.
pub fn broadcast_targets(nodes: &Vec<String>, origin: &Option<String>) -> (r: Vec<String>)
    ensures
        r.deep_view() == match origin {
            Some(o) => strs_without(nodes.deep_view(), o@),
            None => nodes.deep_view(),
        },
{
    let ghost src = nodes.deep_view();
    let mut out: Vec<String> = Vec::new();
    let mut i: usize = 0;
    while i < nodes.len()
        invariant
            i <= nodes@.len(),
            src == nodes.deep_view(),
            out.deep_view() == match origin {
                Some(o) => strs_without(src.take(i as int), o@),
                None => src.take(i as int),
            },
        decreases nodes@.len() - i,
    {
        let ghost pre = out.deep_view();
        let keep_it = match origin {
            Some(o) => !(nodes[i] == *o),
            None => true,
        };
        proof {
            assert(src[i as int] == nodes@[i as int]@);
        }
        if keep_it {
            out.push(nodes[i].clone());
            proof {
                assert forall|j: int| 0 <= j < out@.len() implies out.deep_view()[j] == pre.push(
                    src[i as int],
                )[j] by {
                    assert(out.deep_view()[j] == out@[j]@);
                }
                assert(out.deep_view() =~= pre.push(src[i as int]));
            }
        }
        proof {
            match origin {
                Some(o) => {
                    crate::chain::lemma_strs_without_take_step(src, o@, i as int);
                },
                None => {
                    assert(src.take(i as int + 1) =~= src.take(i as int).push(src[i as int]));
                },
            }
        }
        i += 1;
    }
    proof {
        assert(src.take(src.len() as int) =~= src);
    }
    out
}

/// The shape of an inbound block submission.
pub struct BlockRequest {
    pub data: String,
}

/// The shape of an inbound node registration.
pub struct NodeRequest {
    pub address: String,
}

/// The shape of the peer-list response.
pub struct RegisteredNodes {
    pub nodes: Vec<String>,
}

/// The shape of an inbound message submission.
pub struct MessageRequest {
    pub message: String,
}

} // verus!
