//! The aggregation server: group a batch of triples by tag, recover every
//! group that reached the threshold, drop the rest unread.
//!
//! One call is a pure function of the batch and the configuration; nothing
//! persists between calls. Groups below the threshold leave no trace at
//! all — that silence is the scheme's privacy guarantee. Groups at or above
//! it that still fail recovery are reported as failures, per group, without
//! disturbing the others.

use vstd::prelude::*;
use crate::client::Triple;
use crate::errors::Error;
use crate::field::copy_bytes;
use crate::share::{Share, ShareV};
use crate::sharks::{recover_spec, share_dup, Sharks};

verus! {

/// The mathematical content of one triple.
pub struct TripleV {
    pub tag: Seq<u8>,
    pub share: ShareV,
    pub epoch: u8,
}

impl View for Triple {
    type V = TripleV;

    open spec fn view(&self) -> TripleV {
        TripleV { tag: self.tag@, share: self.share@, epoch: self.epoch }
    }
}

/// The views of a batch of triples.
pub open spec fn triple_views(ts: Seq<Triple>) -> Seq<TripleV> {
    ts.map_values(|t: Triple| t@)
}

/// The shares reported under one tag, in batch order.
pub open spec fn group_shares(ts: Seq<TripleV>, tag: Seq<u8>) -> Seq<ShareV>
    decreases ts.len(),
{
    if ts.len() == 0 {
        Seq::empty()
    } else {
        let rest = group_shares(ts.drop_last(), tag);
        if ts.last().tag == tag {
            rest.push(ts.last().share)
        } else {
            rest
        }
    }
}

/// The distinct tags of a batch, first appearance first.
pub open spec fn distinct_tags(ts: Seq<TripleV>) -> Seq<Seq<u8>>
    decreases ts.len(),
{
    if ts.len() == 0 {
        Seq::empty()
    } else {
        let rest = distinct_tags(ts.drop_last());
        if rest.contains(ts.last().tag) {
            rest
        } else {
            rest.push(ts.last().tag)
        }
    }
}

/// The recovered secrets of the tags (in order) whose group reached the
/// threshold and recovered.
pub open spec fn outputs_for(t: int, ts: Seq<TripleV>, tags: Seq<Seq<u8>>) -> Seq<Seq<u8>>
    decreases tags.len(),
{
    if tags.len() == 0 {
        Seq::empty()
    } else {
        let rest = outputs_for(t, ts, tags.drop_last());
        let g = group_shares(ts, tags.last());
        if g.len() >= t && recover_spec(t, g) is Ok {
            rest.push(recover_spec(t, g)->Ok_0)
        } else {
            rest
        }
    }
}

/// The diagnostics of the tags whose group reached the threshold and still
/// failed recovery, distinguishable from groups that never reached it.
pub open spec fn failures_for(t: int, ts: Seq<TripleV>, tags: Seq<Seq<u8>>) -> Seq<(Seq<u8>, Error)>
    decreases tags.len(),
{
    if tags.len() == 0 {
        Seq::empty()
    } else {
        let rest = failures_for(t, ts, tags.drop_last());
        let g = group_shares(ts, tags.last());
        if g.len() >= t && recover_spec(t, g) is Err {
            rest.push((tags.last(), recover_spec(t, g)->Err_0))
        } else {
            rest
        }
    }
}

/// One group that reached the threshold but failed recovery.
pub struct RecoveryFailure {
    pub tag: Vec<u8>,
    pub error: Error,
}

/// What one aggregation call returns: the recovered secrets, and the
/// per-group failures of groups that reached the threshold.
pub struct AggregationResult {
    pub outputs: Vec<Vec<u8>>,
    pub failures: Vec<RecoveryFailure>,
}

/// The aggregation server's immutable configuration for one epoch.
pub struct AggregationServer {
    pub threshold: u32,
    pub epoch: u8,
}

impl AggregationServer {
    /// A server that reveals a measurement only when at least `threshold`
    /// clients reported it in this epoch.
    pub fn new(threshold: u32, epoch: u8) -> (r: AggregationServer)
        ensures
            r.threshold == threshold,
            r.epoch == epoch,
    {
        AggregationServer { threshold, epoch }
    }

    /// Group the batch by tag and recover every group that reached the
    /// threshold. Smaller groups are dropped silently — by design, not as
    /// an error; groups at the threshold that fail recovery are reported
    /// per group.
    pub fn retrieve_outputs(&self, triples: &Vec<Triple>) -> (r: AggregationResult)
        requires
            self.threshold >= 1,
            forall|i: int| 0 <= i < triples@.len() ==> (#[trigger] triples@[i]).share.wf(),
        ensures
            r.outputs@.map_values(|v: Vec<u8>| v@) == outputs_for(
                self.threshold as int,
                triple_views(triples@),
                distinct_tags(triple_views(triples@)),
            ),
            r.failures@.map_values(|f: RecoveryFailure| (f.tag@, f.error)) == failures_for(
                self.threshold as int,
                triple_views(triples@),
                distinct_tags(triple_views(triples@)),
            ),
    {
        let ghost tv = triple_views(triples@);
        let n = triples.len();

        // The distinct tags, in order of first appearance.
        let mut tags: Vec<Vec<u8>> = Vec::new();
        let mut i: usize = 0;
        while i < n
            invariant
                i <= n,
                n == triples@.len(),
                tv == triple_views(triples@),
                tags@.map_values(|v: Vec<u8>| v@) == distinct_tags(tv.take(i as int)),
            decreases n - i,
        {
            proof {
                assert(tv.take(i + 1).drop_last() =~= tv.take(i as int));
                assert(tv.take(i + 1).last() == tv[i as int]);
            }
            if !contains_tag(&tags, &triples[i].tag) {
                let dup = copy_bytes(&triples[i].tag);
                tags.push(dup);
                proof {
                    assert(tags@.map_values(|v: Vec<u8>| v@) =~= distinct_tags(tv.take(i + 1)));
                }
            }
            i += 1;
        }
        proof {
            assert(tv.take(n as int) =~= tv);
        }

        // Recover each group that reached the threshold.
        let ghost dtags = distinct_tags(tv);
        let sharks = Sharks(self.threshold);
        let t = self.threshold as usize;
        let mut outputs: Vec<Vec<u8>> = Vec::new();
        let mut failures: Vec<RecoveryFailure> = Vec::new();
        let mut g: usize = 0;
        while g < tags.len()
            invariant
                g <= tags@.len(),
                n == triples@.len(),
                tv == triple_views(triples@),
                forall|k: int| 0 <= k < triples@.len() ==> (#[trigger] triples@[k]).share.wf(),
                dtags == distinct_tags(tv),
                tags@.map_values(|v: Vec<u8>| v@) == dtags,
                t == self.threshold,
                self.threshold >= 1,
                sharks.0 == self.threshold,
                outputs@.map_values(|v: Vec<u8>| v@) == outputs_for(
                    self.threshold as int,
                    tv,
                    dtags.take(g as int),
                ),
                failures@.map_values(|f: RecoveryFailure| (f.tag@, f.error)) == failures_for(
                    self.threshold as int,
                    tv,
                    dtags.take(g as int),
                ),
            decreases tags@.len() - g,
        {
            proof {
                assert(dtags.take(g + 1).drop_last() =~= dtags.take(g as int));
                assert(dtags.take(g + 1).last() == dtags[g as int]);
                assert(tags@[g as int]@ == dtags[g as int]);
            }
            let shares = collect_group(triples, &tags[g]);
            if shares.len() >= t {
                match sharks.recover(&shares) {
                    Ok(secret) => {
                        outputs.push(secret);
                        proof {
                            assert(outputs@.map_values(|v: Vec<u8>| v@) =~= outputs_for(
                                self.threshold as int,
                                tv,
                                dtags.take(g + 1),
                            ));
                            assert(failures@.map_values(|f: RecoveryFailure| (f.tag@, f.error))
                                =~= failures_for(self.threshold as int, tv, dtags.take(g + 1)));
                        }
                    },
                    Err(e) => {
                        let tag = copy_bytes(&tags[g]);
                        failures.push(RecoveryFailure { tag, error: e });
                        proof {
                            assert(outputs@.map_values(|v: Vec<u8>| v@) =~= outputs_for(
                                self.threshold as int,
                                tv,
                                dtags.take(g + 1),
                            ));
                            assert(failures@.map_values(|f: RecoveryFailure| (f.tag@, f.error))
                                =~= failures_for(self.threshold as int, tv, dtags.take(g + 1)));
                        }
                    },
                }
            } else {
                proof {
                    assert(outputs@.map_values(|v: Vec<u8>| v@) =~= outputs_for(
                        self.threshold as int,
                        tv,
                        dtags.take(g + 1),
                    ));
                    assert(failures@.map_values(|f: RecoveryFailure| (f.tag@, f.error))
                        =~= failures_for(self.threshold as int, tv, dtags.take(g + 1)));
                }
            }
            g += 1;
        }
        proof {
            assert(dtags.take(tags@.len() as int) =~= dtags);
        }
        AggregationResult { outputs, failures }
    }
}

/// Law: a batch in which no tag reaches the threshold produces nothing —
/// no output and no diagnostic. Fewer than `threshold` agreeing clients
/// leak nothing at all.
pub proof fn lemma_small_groups_leak_nothing(t: int, ts: Seq<TripleV>, tags: Seq<Seq<u8>>)
    requires
        forall|i: int| 0 <= i < tags.len() ==> group_shares(ts, #[trigger] tags[i]).len() < t,
    ensures
        outputs_for(t, ts, tags).len() == 0,
        failures_for(t, ts, tags).len() == 0,
    decreases tags.len(),
{
    if tags.len() > 0 {
        assert(group_shares(ts, tags.last()).len() < t);
        lemma_small_groups_leak_nothing(t, ts, tags.drop_last());
    }
}


/// Law (aggregation grouping): in a batch whose distinct tags are exactly
/// two, with the first group at the threshold and recovering and the second
/// below it, the batch yields exactly the first group's secret — one
/// output, no diagnostics; the small group leaves no trace.
pub proof fn lemma_two_group_batch(t: int, tv: Seq<TripleV>, a: Seq<u8>, b: Seq<u8>)
    requires
        distinct_tags(tv) == seq![a, b],
        group_shares(tv, a).len() >= t,
        recover_spec(t, group_shares(tv, a)) is Ok,
        group_shares(tv, b).len() < t,
    ensures
        outputs_for(t, tv, distinct_tags(tv)) == seq![
            recover_spec(t, group_shares(tv, a))->Ok_0,
        ],
        failures_for(t, tv, distinct_tags(tv)).len() == 0,
{
    let tags = seq![a, b];
    assert(tags.drop_last() =~= seq![a]);
    assert(tags.last() == b);
    assert(seq![a].drop_last() =~= Seq::<Seq<u8>>::empty());
    assert(seq![a].last() == a);
    assert(outputs_for(t, tv, Seq::empty()) =~= Seq::<Seq<u8>>::empty());
    assert(outputs_for(t, tv, seq![a]) =~= Seq::empty().push(
        recover_spec(t, group_shares(tv, a))->Ok_0,
    ));
    assert(outputs_for(t, tv, tags) =~= seq![recover_spec(t, group_shares(tv, a))->Ok_0]);
    assert(failures_for(t, tv, Seq::empty()) =~= Seq::<(Seq<u8>, Error)>::empty());
    assert(failures_for(t, tv, seq![a]) =~= Seq::<(Seq<u8>, Error)>::empty());
    assert(failures_for(t, tv, tags).len() == 0);
}

/// Is this tag already collected?
fn contains_tag(tags: &Vec<Vec<u8>>, tag: &Vec<u8>) -> (r: bool)
    ensures
        r <==> tags@.map_values(|v: Vec<u8>| v@).contains(tag@),
{
    let mut i: usize = 0;
    while i < tags.len()
        invariant
            i <= tags@.len(),
            forall|k: int| 0 <= k < i ==> (#[trigger] tags@[k])@ != tag@,
        decreases tags@.len() - i,
    {
        if bytes_eq(&tags[i], tag) {
            proof {
                assert(tags@.map_values(|v: Vec<u8>| v@)[i as int] == tag@);
            }
            return true;
        }
        i += 1;
    }
    proof {
        let m = tags@.map_values(|v: Vec<u8>| v@);
        assert forall|k: int| 0 <= k < m.len() implies m[k] != tag@ by {
            assert(tags@[k]@ != tag@);
        }
    }
    false
}

/// Byte-string equality.
fn bytes_eq(a: &Vec<u8>, b: &Vec<u8>) -> (r: bool)
    ensures
        r <==> a@ == b@,
{
    if a.len() != b.len() {
        return false;
    }
    let mut i: usize = 0;
    while i < a.len()
        invariant
            i <= a@.len(),
            a@.len() == b@.len(),
            forall|k: int| 0 <= k < i ==> a@[k] == b@[k],
        decreases a@.len() - i,
    {
        if a[i] != b[i] {
            return false;
        }
        i += 1;
    }
    proof {
        assert(a@ =~= b@);
    }
    true
}

/// The shares of every triple carrying this tag, in batch order.
fn collect_group(triples: &Vec<Triple>, tag: &Vec<u8>) -> (r: Vec<Share>)
    requires
        forall|i: int| 0 <= i < triples@.len() ==> (#[trigger] triples@[i]).share.wf(),
    ensures
        crate::share::views_of(r@) == group_shares(triple_views(triples@), tag@),
        forall|i: int| 0 <= i < r@.len() ==> (#[trigger] r@[i]).wf(),
{
    let ghost tv = triple_views(triples@);
    let mut r: Vec<Share> = Vec::new();
    let mut i: usize = 0;
    while i < triples.len()
        invariant
            i <= triples@.len(),
            tv == triple_views(triples@),
            forall|k: int| 0 <= k < triples@.len() ==> (#[trigger] triples@[k]).share.wf(),
            crate::share::views_of(r@) == group_shares(tv.take(i as int), tag@),
            forall|k: int| 0 <= k < r@.len() ==> (#[trigger] r@[k]).wf(),
        decreases triples@.len() - i,
    {
        proof {
            assert(tv.take(i + 1).drop_last() =~= tv.take(i as int));
            assert(tv.take(i + 1).last() == tv[i as int]);
        }
        if bytes_eq(&triples[i].tag, tag) {
            let dup = share_dup(&triples[i].share);
            r.push(dup);
            proof {
                assert(crate::share::views_of(r@) =~= group_shares(tv.take(i + 1), tag@));
            }
        }
        i += 1;
    }
    proof {
        assert(tv.take(triples@.len() as int) =~= tv);
    }
    r
}

} // verus!
