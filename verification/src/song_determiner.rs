//! Fingerprinting songs: the decoded waveforms of a batch are used only
//! where every song of the batch decoded.
use vstd::prelude::*;

verus! {

/// The decoded values of `results`, in order, where every one decoded;
/// `None` where any failed.
pub fn decode_all<T, E>(results: Vec<Result<T, E>>) -> (decoded: Option<Vec<T>>)
    ensures
        decoded is Some <==> forall|i: int| 0 <= i < results.len() ==> #[trigger] results@[i] is Ok,
        decoded matches Some(v) ==> v.len() == results.len() && forall|i: int|
            0 <= i < results.len() ==> v@[i] == #[trigger] results@[i]->Ok_0,
{
    let ghost all = results@;
    let mut rest = results;
    let mut out: Vec<T> = Vec::new();
    while rest.len() > 0
        invariant
            all == results@,
            out.len() + rest.len() == all.len(),
            rest@ == all.skip(out.len() as int),
            forall|i: int| 0 <= i < out.len() ==> #[trigger] all[i] is Ok && out@[i] == all[i]->Ok_0,
        decreases rest.len(),
    {
        let ghost k = out.len() as int;
        let r = rest.remove(0);
        proof {
            assert(all[k] == r);
            assert(rest@ =~= all.skip(k + 1));
        }
        match r {
            Ok(t) => {
                out.push(t);
            },
            Err(_) => {
                assert(!(all[k] is Ok));
                return None;
            },
        }
    }
    Some(out)
}

} // verus!
