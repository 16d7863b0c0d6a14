//! The reconciler: from declared topology to running forwarders.
//!
//! The pool owns the set of forwarder parameters that ought to be running.
//! Feeding it a snapshot of the restream list yields the exact actions the
//! process layer must take — stop, start or restart — and leaves the pool
//! holding the derived worker set. Reconciling the same snapshot again
//! yields no actions at all.

use vstd::prelude::*;

use crate::types::{outputs_view, restreams_view, OutputView, Restream, RestreamView};

verus! {

/// How long to wait before the first restart of a crashed forwarder.
pub const INITIAL_BACKOFF_SECS: u64 = 1;

/// The longest wait between restarts of a crashing forwarder.
pub const MAX_BACKOFF_SECS: u64 = 30;

/// A forwarder that stays up this long has its backoff reset.
pub const STABLE_RUN_RESET_SECS: u64 = 10;

/// The wait before the next restart: doubled, capped at [`MAX_BACKOFF_SECS`].
pub fn next_backoff_secs(cur: u64) -> (r: u64)
    requires
        1 <= cur <= MAX_BACKOFF_SECS,
    ensures
        r == if cur >= 15 { MAX_BACKOFF_SECS as int } else { 2 * cur },
        1 <= r <= MAX_BACKOFF_SECS,
{
    if cur >= 15 {
        MAX_BACKOFF_SECS
    } else {
        cur * 2
    }
}

/// The parameters of one forwarder: its key, the broker URL it reads, and
/// the destinations it writes.
#[derive(Debug, PartialEq, Eq)]
pub struct Restreamer {
    pub key: u64,
    pub from_url: String,
    pub to_urls: Vec<String>,
}

/// The mathematical value of a [`Restreamer`].
pub ghost struct RestreamerView {
    pub key: u64,
    pub from_url: Seq<char>,
    pub to_urls: Seq<Seq<char>>,
}

impl View for Restreamer {
    type V = RestreamerView;

    open spec fn view(&self) -> RestreamerView {
        RestreamerView {
            key: self.key,
            from_url: self.from_url@,
            to_urls: self.to_urls@.map_values(|s: String| s@),
        }
    }
}

impl Clone for Restreamer {
    fn clone(&self) -> (r: Self)
        ensures
            r@ == self@,
    {
        let mut to_urls: Vec<String> = Vec::new();
        let mut i: usize = 0;
        while i < self.to_urls.len()
            invariant
                0 <= i <= self.to_urls@.len(),
                to_urls@.len() == i,
                forall|k: int| 0 <= k < i ==> (#[trigger] to_urls@[k])@ == self.to_urls@[k]@,
            decreases self.to_urls@.len() - i,
        {
            to_urls.push(self.to_urls[i].clone());
            i = i + 1;
        }
        let r = Restreamer { key: self.key, from_url: self.from_url.clone(), to_urls };
        proof {
            assert(r@.to_urls =~= self@.to_urls);
        }
        r
    }
}

/// The view of a list of workers.
pub open spec fn workers_view(v: Seq<Restreamer>) -> Seq<RestreamerView> {
    v.map_values(|w: Restreamer| w@)
}

/// One action the process layer must take.
#[derive(Debug, PartialEq, Eq)]
pub enum PoolAction {
    /// Spawn a forwarder with these parameters.
    Start(Restreamer),
    /// Terminate the forwarder with this key.
    Stop(u64),
    /// Restart the forwarder with these (changed) parameters.
    Restart(Restreamer),
}

/// The mathematical value of a [`PoolAction`].
pub ghost enum PoolActionView {
    Start(RestreamerView),
    Stop(u64),
    Restart(RestreamerView),
}

impl View for PoolAction {
    type V = PoolActionView;

    open spec fn view(&self) -> PoolActionView {
        match self {
            PoolAction::Start(w) => PoolActionView::Start(w@),
            PoolAction::Stop(k) => PoolActionView::Stop(*k),
            PoolAction::Restart(w) => PoolActionView::Restart(w@),
        }
    }
}

/// The view of a list of actions.
pub open spec fn actions_view(v: Seq<PoolAction>) -> Seq<PoolActionView> {
    v.map_values(|a: PoolAction| a@)
}

/// Whether the restream must have a forwarder: enabled, with at least one
/// enabled output.
pub open spec fn active(r: RestreamView) -> bool {
    r.enabled && exists|j: int| 0 <= j < r.outputs.len() && (#[trigger] r.outputs[j]).enabled
}

/// The destinations of the enabled outputs, in order.
pub open spec fn enabled_dsts(outs: Seq<OutputView>) -> Seq<Seq<char>> {
    outs.filter(|o: OutputView| o.enabled).map_values(|o: OutputView| o.dst)
}

/// The forwarder parameters a restream calls for.
pub open spec fn worker_of(r: RestreamView) -> RestreamerView {
    RestreamerView {
        key: r.input.fingerprint(),
        from_url: r.input.srs_url(),
        to_urls: enabled_dsts(r.outputs),
    }
}

/// The derived worker set of a snapshot, walking the restreams in order and
/// keeping the first worker of each key.
pub open spec fn desired_from(rs: Seq<RestreamView>, seen: Set<u64>) -> Seq<RestreamerView>
    decreases rs.len(),
{
    if rs.len() == 0 {
        Seq::empty()
    } else {
        let w = worker_of(rs[0]);
        if active(rs[0]) && !seen.contains(w.key) {
            seq![w] + desired_from(rs.drop_first(), seen.insert(w.key))
        } else {
            desired_from(rs.drop_first(), seen)
        }
    }
}

/// The derived worker set of a snapshot.
pub open spec fn desired_workers(rs: Seq<RestreamView>) -> Seq<RestreamerView> {
    desired_from(rs, Set::empty())
}

/// No two workers share a key.
pub open spec fn keys_unique(ws: Seq<RestreamerView>) -> bool {
    forall|i: int, j: int|
        #![trigger ws[i], ws[j]]
        0 <= i < ws.len() && 0 <= j < ws.len() && i != j ==> ws[i].key != ws[j].key
}

/// Whether some worker carries this key.
pub open spec fn has_key(ws: Seq<RestreamerView>, k: u64) -> bool {
    exists|j: int| 0 <= j < ws.len() && (#[trigger] ws[j]).key == k
}

/// The position of the worker with this key (meaningful when `has_key`
/// holds and keys are unique).
pub open spec fn widx(ws: Seq<RestreamerView>, k: u64) -> int {
    choose|j: int| 0 <= j < ws.len() && (#[trigger] ws[j]).key == k
}

/// The derived worker set has unique keys, none of them from `seen`.
pub proof fn lemma_desired_unique(rs: Seq<RestreamView>, seen: Set<u64>)
    ensures
        keys_unique(desired_from(rs, seen)),
        forall|j: int|
            0 <= j < desired_from(rs, seen).len() ==> !seen.contains(
                (#[trigger] desired_from(rs, seen)[j]).key,
            ),
    decreases rs.len(),
{
    if rs.len() > 0 {
        let w = worker_of(rs[0]);
        let rest = rs.drop_first();
        if active(rs[0]) && !seen.contains(w.key) {
            lemma_desired_unique(rest, seen.insert(w.key));
            let d = desired_from(rs, seen);
            let dr = desired_from(rest, seen.insert(w.key));
            assert forall|i: int, j: int|
                #![trigger d[i], d[j]]
                0 <= i < d.len() && 0 <= j < d.len() && i != j implies d[i].key != d[j].key by {
                if i == 0 {
                    assert(!seen.insert(w.key).contains(dr[j - 1].key));
                } else if j == 0 {
                    assert(!seen.insert(w.key).contains(dr[i - 1].key));
                } else {
                    assert(dr[i - 1].key != dr[j - 1].key);
                }
            }
        } else {
            lemma_desired_unique(rest, seen);
        }
    }
}

/// The stops owed: one per running worker whose key left the derived set,
/// in the pool's order.
pub open spec fn stops_from(old: Seq<RestreamerView>, new: Seq<RestreamerView>) -> Seq<
    PoolActionView,
>
    decreases old.len(),
{
    if old.len() == 0 {
        Seq::empty()
    } else {
        let rest = stops_from(old.drop_first(), new);
        if !has_key(new, old[0].key) {
            seq![PoolActionView::Stop(old[0].key)] + rest
        } else {
            rest
        }
    }
}

/// The starts and restarts owed: one `Start` per derived worker whose key
/// was not running, one `Restart` per derived worker whose running
/// parameters differ, in the derived order.
pub open spec fn starts_from(old: Seq<RestreamerView>, new: Seq<RestreamerView>) -> Seq<
    PoolActionView,
>
    decreases new.len(),
{
    if new.len() == 0 {
        Seq::empty()
    } else {
        let rest = starts_from(old, new.drop_first());
        if !has_key(old, new[0].key) {
            seq![PoolActionView::Start(new[0])] + rest
        } else if old[widx(old, new[0].key)] != new[0] {
            seq![PoolActionView::Restart(new[0])] + rest
        } else {
            rest
        }
    }
}

/// Every action one reconciliation step owes: stops first, then starts and
/// restarts.
pub open spec fn reconcile_actions(
    old: Seq<RestreamerView>,
    new: Seq<RestreamerView>,
) -> Seq<PoolActionView> {
    stops_from(old, new) + starts_from(old, new)
}

proof fn lemma_stops_self_empty(old: Seq<RestreamerView>, new: Seq<RestreamerView>)
    requires
        forall|k: int| 0 <= k < old.len() ==> has_key(new, (#[trigger] old[k]).key),
    ensures
        stops_from(old, new) == Seq::<PoolActionView>::empty(),
    decreases old.len(),
{
    if old.len() > 0 {
        assert(has_key(new, old[0].key));
        let rest = old.drop_first();
        assert forall|k: int| 0 <= k < rest.len() implies has_key(
            new,
            (#[trigger] rest[k]).key,
        ) by {
            assert(rest[k] == old[k + 1]);
        }
        lemma_stops_self_empty(rest, new);
    }
}

proof fn lemma_starts_self_empty(old: Seq<RestreamerView>, new: Seq<RestreamerView>)
    requires
        forall|k: int|
            0 <= k < new.len() ==> has_key(old, (#[trigger] new[k]).key) && old[widx(
                old,
                new[k].key,
            )] == new[k],
    ensures
        starts_from(old, new) == Seq::<PoolActionView>::empty(),
    decreases new.len(),
{
    if new.len() > 0 {
        assert(has_key(old, new[0].key) && old[widx(old, new[0].key)] == new[0]);
        let rest = new.drop_first();
        assert forall|k: int| 0 <= k < rest.len() implies has_key(old, (#[trigger] rest[k]).key)
            && old[widx(old, rest[k].key)] == rest[k] by {
            assert(rest[k] == new[k + 1]);
        }
        lemma_starts_self_empty(old, rest);
    }
}

/// Law: reconciliation is idempotent — once the pool holds exactly the
/// derived worker set, reconciling it against itself owes no action.
pub proof fn lemma_reconcile_idempotent(ws: Seq<RestreamerView>)
    requires
        keys_unique(ws),
    ensures
        reconcile_actions(ws, ws) == Seq::<PoolActionView>::empty(),
{
    assert forall|k: int| 0 <= k < ws.len() implies has_key(ws, (#[trigger] ws[k]).key) by {
        assert(ws[k].key == ws[k].key);
    }
    lemma_stops_self_empty(ws, ws);
    assert forall|k: int| 0 <= k < ws.len() implies has_key(ws, (#[trigger] ws[k]).key) && ws[widx(
        ws,
        ws[k].key,
    )] == ws[k] by {
        let j = widx(ws, ws[k].key);
        assert(0 <= j < ws.len() && ws[j].key == ws[k].key);
        if j != k {
            assert(ws[j].key != ws[k].key);
        }
    }
    lemma_starts_self_empty(ws, ws);
    assert(reconcile_actions(ws, ws) =~= Seq::<PoolActionView>::empty());
}

/// Whether the restream calls for a forwarder.
fn is_active(r: &Restream) -> (b: bool)
    ensures
        b == active(r@),
{
    if !r.enabled {
        return false;
    }
    let ghost outs = outputs_view(r.outputs@);
    let mut j: usize = 0;
    while j < r.outputs.len()
        invariant
            r@.enabled,
            0 <= j <= r.outputs@.len(),
            outs == outputs_view(r.outputs@),
            outs.len() == r.outputs@.len(),
            forall|k: int| 0 <= k < j ==> !(#[trigger] outs[k]).enabled,
        decreases r.outputs@.len() - j,
    {
        if r.outputs[j].enabled {
            proof {
                assert(outs[j as int].enabled);
            }
            return true;
        }
        proof {
            assert(!outs[j as int].enabled);
        }
        j = j + 1;
    }
    false
}

/// Builds the forwarder parameters a restream calls for.
fn make_worker(r: &Restream) -> (w: Restreamer)
    ensures
        w@ == worker_of(r@),
{
    let ghost outs = outputs_view(r.outputs@);
    let ghost p = |o: OutputView| o.enabled;
    let mut to_urls: Vec<String> = Vec::new();
    let mut j: usize = 0;
    while j < r.outputs.len()
        invariant
            0 <= j <= r.outputs@.len(),
            outs == outputs_view(r.outputs@),
            outs.len() == r.outputs@.len(),
            p == (|o: OutputView| o.enabled),
            to_urls@.map_values(|s: String| s@) == enabled_dsts(outs.take(j as int)),
        decreases r.outputs@.len() - j,
    {
        proof {
            crate::state::lemma_filter_take_step(outs, p, j as int);
        }
        if r.outputs[j].enabled {
            to_urls.push(r.outputs[j].dst.clone());
            proof {
                assert(to_urls@.map_values(|s: String| s@) =~= enabled_dsts(
                    outs.take(j as int),
                ).push(outs[j as int].dst));
                assert(enabled_dsts(outs.take(j + 1)) =~= enabled_dsts(outs.take(j as int)).push(
                    outs[j as int].dst,
                ));
            }
        } else {
            proof {
                assert(enabled_dsts(outs.take(j + 1)) =~= enabled_dsts(outs.take(j as int)));
            }
        }
        j = j + 1;
    }
    proof {
        assert(outs.take(outs.len() as int) =~= outs);
    }
    Restreamer { key: r.input.hash(), from_url: r.input.srs_url(), to_urls }
}

/// Whether some worker of `ws` carries this key.
fn key_in(ws: &Vec<Restreamer>, k: u64) -> (b: bool)
    ensures
        b == has_key(workers_view(ws@), k),
{
    let ghost wv = workers_view(ws@);
    let mut i: usize = 0;
    while i < ws.len()
        invariant
            0 <= i <= ws@.len(),
            wv == workers_view(ws@),
            wv.len() == ws@.len(),
            forall|j: int| 0 <= j < i ==> (#[trigger] wv[j]).key != k,
        decreases ws@.len() - i,
    {
        if ws[i].key == k {
            proof {
                assert(wv[i as int].key == k);
            }
            return true;
        }
        proof {
            assert(wv[i as int].key != k);
        }
        i = i + 1;
    }
    false
}

/// Finds the worker with this key.
fn find_by_key(ws: &Vec<Restreamer>, k: u64) -> (r: Option<usize>)
    ensures
        match r {
            Some(j) => j < ws@.len() && workers_view(ws@)[j as int].key == k,
            None => !has_key(workers_view(ws@), k),
        },
{
    let ghost wv = workers_view(ws@);
    let mut i: usize = 0;
    while i < ws.len()
        invariant
            0 <= i <= ws@.len(),
            wv == workers_view(ws@),
            wv.len() == ws@.len(),
            forall|j: int| 0 <= j < i ==> (#[trigger] wv[j]).key != k,
        decreases ws@.len() - i,
    {
        if ws[i].key == k {
            proof {
                assert(wv[i as int].key == k);
            }
            return Some(i);
        }
        proof {
            assert(wv[i as int].key != k);
        }
        i = i + 1;
    }
    None
}

/// Compares two lists of URLs.
fn vec_str_eq(a: &Vec<String>, b: &Vec<String>) -> (r: bool)
    ensures
        r == (a@.map_values(|s: String| s@) == b@.map_values(|s: String| s@)),
{
    let ghost av = a@.map_values(|s: String| s@);
    let ghost bv = b@.map_values(|s: String| s@);
    if a.len() != b.len() {
        proof {
            assert(av.len() != bv.len());
        }
        return false;
    }
    let mut i: usize = 0;
    while i < a.len()
        invariant
            0 <= i <= a@.len(),
            av == a@.map_values(|s: String| s@),
            bv == b@.map_values(|s: String| s@),
            av.len() == a@.len(),
            bv.len() == b@.len(),
            a@.len() == b@.len(),
            forall|k: int| 0 <= k < i ==> av[k] == bv[k],
        decreases a@.len() - i,
    {
        if !(a[i] == b[i]) {
            proof {
                assert(av[i as int] != bv[i as int]);
                assert(av != bv);
            }
            return false;
        }
        i = i + 1;
    }
    proof {
        assert(av =~= bv);
    }
    true
}

/// Whether two forwarders have the same parameters.
fn worker_eq(a: &Restreamer, b: &Restreamer) -> (r: bool)
    ensures
        r == (a@ == b@),
{
    if a.key != b.key {
        return false;
    }
    if !(a.from_url == b.from_url) {
        return false;
    }
    vec_str_eq(&a.to_urls, &b.to_urls)
}

/// The pool of forwarder parameters that ought to be running, keyed by the
/// input fingerprint of their restream.
pub struct RestreamersPool {
    pub workers: Vec<Restreamer>,
}

impl RestreamersPool {
    /// The pool invariant: no two workers share a key.
    pub open spec fn wf(self) -> bool {
        keys_unique(workers_view(self.workers@))
    }

    /// An empty pool: nothing running.
    pub fn new() -> (p: Self)
        ensures
            p.wf(),
            workers_view(p.workers@) == Seq::<RestreamerView>::empty(),
    {
        let p = RestreamersPool { workers: Vec::new() };
        proof {
            assert(workers_view(p.workers@) =~= Seq::<RestreamerView>::empty());
        }
        p
    }

    /// Reconciles the pool against a snapshot of the restream list: the
    /// pool then holds exactly the derived worker set, and the returned
    /// actions are everything the process layer owes — stops of workers
    /// whose key left the set, then starts and restarts in derived order.
    pub fn apply(&mut self, restreams: &Vec<Restream>) -> (actions: Vec<PoolAction>)
        requires
            old(self).wf(),
        ensures
            final(self).wf(),
            workers_view(final(self).workers@) == desired_workers(restreams_view(restreams@)),
            actions_view(actions@) == reconcile_actions(
                workers_view(old(self).workers@),
                desired_workers(restreams_view(restreams@)),
            ),
    {
        let ghost rs = restreams_view(restreams@);
        let ghost goal = desired_workers(rs);
        // Derive the worker set from the snapshot.
        let mut desired: Vec<Restreamer> = Vec::new();
        let ghost mut seen: Set<u64> = Set::empty();
        let mut i: usize = 0;
        proof {
            assert(rs.skip(0) =~= rs);
            assert(workers_view(desired@) =~= Seq::<RestreamerView>::empty());
            assert(goal =~= workers_view(desired@) + desired_from(rs.skip(0), seen));
        }
        while i < restreams.len()
            invariant
                0 <= i <= restreams@.len(),
                rs == restreams_view(restreams@),
                rs.len() == restreams@.len(),
                goal == desired_workers(rs),
                goal =~= workers_view(desired@) + desired_from(rs.skip(i as int), seen),
                forall|k: u64| seen.contains(k) <==> has_key(workers_view(desired@), k),
            decreases restreams@.len() - i,
        {
            proof {
                assert(rs.skip(i as int).drop_first() =~= rs.skip(i + 1));
                assert(rs.skip(i as int)[0] == rs[i as int]);
            }
            let r = &restreams[i];
            if is_active(r) {
                let w = make_worker(r);
                let ghost wv = w@;
                if !key_in(&desired, w.key) {
                    let ghost dv0 = workers_view(desired@);
                    desired.push(w);
                    proof {
                        seen = seen.insert(wv.key);
                        let dv1 = workers_view(desired@);
                        assert(dv1 =~= dv0.push(wv));
                        assert forall|k: u64| seen.contains(k) <==> has_key(dv1, k) by {
                            if seen.contains(k) {
                                if k == wv.key {
                                    assert(dv1[dv1.len() - 1].key == k);
                                    assert(has_key(dv1, k));
                                } else {
                                    let j = choose|j: int|
                                        0 <= j < dv0.len() && (#[trigger] dv0[j]).key == k;
                                    assert(dv1[j].key == k);
                                    assert(has_key(dv1, k));
                                }
                            }
                            if has_key(dv1, k) {
                                let j = choose|j: int|
                                    0 <= j < dv1.len() && (#[trigger] dv1[j]).key == k;
                                if j < dv0.len() {
                                    assert(dv0[j].key == k);
                                    assert(has_key(dv0, k));
                                } else {
                                    assert(k == wv.key);
                                }
                            }
                        }
                        assert(goal =~= workers_view(desired@) + desired_from(
                            rs.skip(i + 1),
                            seen,
                        ));
                    }
                } else {
                    proof {
                        assert(seen.contains(worker_of(rs[i as int]).key));
                    }
                }
            }
            i = i + 1;
        }
        proof {
            assert(rs.skip(rs.len() as int) =~= Seq::<RestreamView>::empty());
            assert(goal =~= workers_view(desired@));
        }
        // Stops: every running key that left the derived set.
        let ghost oldw = workers_view(old(self).workers@);
        let mut actions: Vec<PoolAction> = Vec::new();
        let mut i: usize = 0;
        proof {
            assert(oldw.skip(0) =~= oldw);
            assert(actions_view(actions@) =~= Seq::<PoolActionView>::empty());
        }
        while i < self.workers.len()
            invariant
                0 <= i <= self.workers@.len(),
                oldw == workers_view(self.workers@),
                oldw.len() == self.workers@.len(),
                goal == workers_view(desired@),
                actions_view(actions@) + stops_from(oldw.skip(i as int), goal) =~= stops_from(
                    oldw,
                    goal,
                ),
            decreases self.workers@.len() - i,
        {
            proof {
                assert(oldw.skip(i as int).drop_first() =~= oldw.skip(i + 1));
                assert(oldw.skip(i as int)[0] == oldw[i as int]);
            }
            let k = self.workers[i].key;
            if !key_in(&desired, k) {
                actions.push(PoolAction::Stop(k));
                proof {
                    assert(actions_view(actions@) =~= actions_view(actions@.drop_last()).push(
                        PoolActionView::Stop(oldw[i as int].key),
                    ));
                }
            }
            i = i + 1;
        }
        proof {
            assert(oldw.skip(oldw.len() as int) =~= Seq::<RestreamerView>::empty());
        }
        // Starts and restarts, in derived order.
        let mut j: usize = 0;
        proof {
            assert(goal.skip(0) =~= goal);
        }
        while j < desired.len()
            invariant
                0 <= j <= desired@.len(),
                oldw == workers_view(self.workers@),
                goal == workers_view(desired@),
                goal.len() == desired@.len(),
                old(self).wf(),
                actions_view(actions@) + starts_from(oldw, goal.skip(j as int)) =~= stops_from(
                    oldw,
                    goal,
                ) + starts_from(oldw, goal),
            decreases desired@.len() - j,
        {
            proof {
                assert(goal.skip(j as int).drop_first() =~= goal.skip(j + 1));
                assert(goal.skip(j as int)[0] == goal[j as int]);
            }
            let w = &desired[j];
            match find_by_key(&self.workers, w.key) {
                None => {
                    actions.push(PoolAction::Start(w.clone()));
                    proof {
                        assert(actions_view(actions@) =~= actions_view(actions@.drop_last()).push(
                            PoolActionView::Start(goal[j as int]),
                        ));
                    }
                },
                Some(oi) => {
                    proof {
                        let wj = widx(oldw, goal[j as int].key);
                        assert(0 <= wj < oldw.len() && oldw[wj].key == goal[j as int].key);
                        if wj != oi as int {
                            assert(oldw[wj].key != oldw[oi as int].key);
                        }
                    }
                    if !worker_eq(&self.workers[oi], w) {
                        actions.push(PoolAction::Restart(w.clone()));
                        proof {
                            assert(actions_view(actions@) =~= actions_view(
                                actions@.drop_last(),
                            ).push(PoolActionView::Restart(goal[j as int])));
                        }
                    }
                },
            }
            j = j + 1;
        }
        proof {
            assert(goal.skip(goal.len() as int) =~= Seq::<RestreamerView>::empty());
            assert(actions_view(actions@) =~= reconcile_actions(oldw, goal));
            lemma_desired_unique(rs, Set::empty());
        }
        self.workers = desired;
        actions
    }
}

} // verus!
