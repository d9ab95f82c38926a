//! The choice of the stream configuration to record with.

use vstd::prelude::*;

verus! {

/// Whether a configuration with `(bits per sample, sample rate)` equal to `a`
/// is better than one equal to `b`: more bits per sample, or as many bits and a
/// higher sample rate.
pub open spec fn ranks_above(a: (u32, u32), b: (u32, u32)) -> bool {
    a.0 > b.0 || (a.0 == b.0 && a.1 > b.1)
}

/// The ranking is by bits per sample first and by sample rate second: more
/// bits always rank above fewer whatever the rates, fewer bits never rank above
/// more, and with equal bits the higher rate ranks above. No configuration
/// ranks above itself, and the ranking is transitive.
pub proof fn lemma_ranking_order(a: (u32, u32), b: (u32, u32), c: (u32, u32))
    ensures
        a.0 > b.0 ==> ranks_above(a, b),
        a.0 < b.0 ==> !ranks_above(a, b),
        a.0 == b.0 ==> (ranks_above(a, b) <==> a.1 > b.1),
        !ranks_above(a, a),
        ranks_above(a, b) && ranks_above(b, c) ==> ranks_above(a, c),
{
}

/// The index of the configuration with the highest bits per sample and, among
/// those, the highest sample rate, given each configuration as
/// `(bits per sample, sample rate)`; the first such one when several tie.
/// `None` when there is no configuration.
pub fn best_config(configs: &[(u32, u32)]) -> (best: Option<usize>)
    ensures
        best is None <==> configs.len() == 0,
        best matches Some(i) ==> {
            &&& i < configs.len()
            &&& forall|k: int| 0 <= k < configs.len() ==> !ranks_above(#[trigger] configs@[k], configs@[i as int])
            &&& forall|k: int| 0 <= k < i ==> ranks_above(configs@[i as int], #[trigger] configs@[k])
            &&& forall|k: int| 0 <= k < configs.len() ==> (#[trigger] configs@[k]).0 <= configs@[i as int].0
            &&& forall|k: int|
                0 <= k < configs.len() && (#[trigger] configs@[k]).0 == configs@[i as int].0
                    ==> configs@[k].1 <= configs@[i as int].1
        },
{
    if configs.len() == 0 {
        return None;
    }
    let mut best: usize = 0;
    let mut k: usize = 1;
    while k < configs.len()
        invariant
            0 < k <= configs.len(),
            best < k,
            forall|m: int| 0 <= m < k ==> !ranks_above(#[trigger] configs@[m], configs@[best as int]),
            forall|m: int| 0 <= m < best ==> ranks_above(configs@[best as int], #[trigger] configs@[m]),
        decreases configs.len() - k,
    {
        let (bits, rate) = configs[k];
        let (best_bits, best_rate) = configs[best];
        if bits > best_bits || (bits == best_bits && rate > best_rate) {
            best = k;
        }
        k = k + 1;
    }
    Some(best)
}

} // verus!
