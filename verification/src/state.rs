//! The state store: the authoritative, journaled forwarding configuration.
//!
//! All mutation goes through the methods here. Each method reports precisely
//! what it did (`None` / `Some(false)` / `Some(true)`), preserves the store's
//! invariants, and appends to the ghost stream of published values exactly
//! when the restream list actually changed, so consecutive published values
//! are never equal.

use vstd::prelude::*;

use crate::ids::{InputId, OutputId};
use crate::types::{
    clone_restreams, outputs_view, restreams_view, Input, InputView, Output,
    OutputView, PullInput, PushInput, Restream, RestreamView, Status,
};

verus! {

broadcast use vstd::seq_lib::group_filter_ensures;

/// The mathematical value of the store: the journaled configuration.
pub ghost struct StateView {
    pub password_hash: Option<Seq<char>>,
    pub restreams: Seq<RestreamView>,
}

/// No two restreams share an input identity.
pub open spec fn inputs_unique(rs: Seq<RestreamView>) -> bool {
    forall|i: int, j: int|
        #![trigger rs[i], rs[j]]
        0 <= i < rs.len() && 0 <= j < rs.len() && i != j ==> !rs[i].input.same_identity(
            rs[j].input,
        )
}

/// No two outputs of one restream share a destination URL.
pub open spec fn outputs_unique(outs: Seq<OutputView>) -> bool {
    forall|i: int, j: int|
        #![trigger outs[i], outs[j]]
        0 <= i < outs.len() && 0 <= j < outs.len() && i != j ==> outs[i].dst != outs[j].dst
}

impl RestreamView {
    /// Internal invariant of one restream: unique output destinations, a
    /// broker publisher only while the input is online, and none at all
    /// while the restream is disabled.
    pub open spec fn wf(self) -> bool {
        &&& outputs_unique(self.outputs)
        &&& (self.srs_publisher_id is Some ==> self.input.status() == Status::Online)
        &&& (!self.enabled ==> self.srs_publisher_id is None)
    }
}

/// Invariants of the whole restream list.
pub open spec fn restreams_wf(rs: Seq<RestreamView>) -> bool {
    &&& inputs_unique(rs)
    &&& forall|i: int| 0 <= i < rs.len() ==> (#[trigger] rs[i]).wf()
}

impl StateView {
    /// Invariants of the configuration.
    pub open spec fn wf(self) -> bool {
        restreams_wf(self.restreams)
    }
}

/// No two consecutive published values are equal.
pub open spec fn hist_dedup(h: Seq<Seq<RestreamView>>) -> bool {
    forall|i: int| 0 <= i < h.len() - 1 ==> #[trigger] h[i] != h[i + 1]
}

/// How the published change stream advances when the list takes the value
/// `new`: a value equal to the last published one is not published again.
pub open spec fn hist_push(h: Seq<Seq<RestreamView>>, new: Seq<RestreamView>) -> Seq<
    Seq<RestreamView>,
> {
    if h.len() >= 1 && h.last() == new {
        h
    } else {
        h.push(new)
    }
}

/// Publishing preserves the shape of the change stream: it stays non-empty,
/// de-duplicated, and ends with the published value.
pub proof fn lemma_hist_push_wf(h: Seq<Seq<RestreamView>>, new: Seq<RestreamView>)
    requires
        h.len() >= 1,
        hist_dedup(h),
    ensures
        hist_push(h, new).len() >= 1,
        hist_push(h, new).last() == new,
        hist_dedup(hist_push(h, new)),
        h.last() == new ==> hist_push(h, new) == h,
{
    let h2 = hist_push(h, new);
    if h.last() != new {
        assert forall|i: int| 0 <= i < h2.len() - 1 implies #[trigger] h2[i] != h2[i + 1] by {
            if i < h.len() - 1 {
                assert(h[i] != h[i + 1]);
            }
        }
    }
}

/// The root state: the shared password hash and the restream list, together
/// with the ghost stream of values the list has been published under.
pub struct State {
    pub password_hash: Option<String>,
    pub restreams: Vec<Restream>,
    /// Every distinct value the restream list has taken, oldest first.
    pub history: Ghost<Seq<Seq<RestreamView>>>,
}

impl View for State {
    type V = StateView;

    open spec fn view(&self) -> StateView {
        StateView {
            password_hash: match self.password_hash {
                Some(ref h) => Some(h@),
                None => None,
            },
            restreams: restreams_view(self.restreams@),
        }
    }
}

impl State {
    /// Full well-formedness: configuration invariants plus a de-duplicated
    /// change stream whose last entry is the current restream list.
    pub open spec fn wf(self) -> bool {
        &&& self@.wf()
        &&& self.history@.len() >= 1
        &&& self.history@.last() == self@.restreams
        &&& hist_dedup(self.history@)
    }
}

impl Default for State {
    /// The empty configuration: no password, no restreams.
    fn default() -> (s: Self)
        ensures
            s.wf(),
            s@.password_hash is None,
            s@.restreams == Seq::<RestreamView>::empty(),
            s.history@ == seq![Seq::<RestreamView>::empty()],
    {
        let ghost h: Seq<Seq<RestreamView>> = seq![Seq::<RestreamView>::empty()];
        let s = State {
            password_hash: None,
            restreams: Vec::new(),
            history: Ghost(h),
        };
        proof {
            assert(restreams_view(s.restreams@) =~= Seq::<RestreamView>::empty());
        }
        s
    }
}

/// `i` is the position of the first restream with this `id`.
pub open spec fn first_match(rs: Seq<RestreamView>, id: u128, i: int) -> bool {
    &&& 0 <= i < rs.len()
    &&& rs[i].id == id
    &&& forall|k: int| 0 <= k < i ==> (#[trigger] rs[k]).id != id
}

/// Whether some restream carries this `id`.
pub open spec fn has_restream(rs: Seq<RestreamView>, id: u128) -> bool {
    exists|i: int| 0 <= i < rs.len() && (#[trigger] rs[i]).id == id
}

/// The position of the first restream with this `id` (meaningful only when
/// `has_restream` holds).
pub open spec fn first_idx(rs: Seq<RestreamView>, id: u128) -> int {
    choose|i: int| first_match(rs, id, i)
}

/// At most one position is the first match.
pub proof fn lemma_first_match_unique(rs: Seq<RestreamView>, id: u128, i: int, j: int)
    requires
        first_match(rs, id, i),
        first_match(rs, id, j),
    ensures
        i == j,
{
    if i < j {
        assert(rs[i].id != id);
    }
    if j < i {
        assert(rs[j].id != id);
    }
}

proof fn lemma_first_match_exists_upto(rs: Seq<RestreamView>, id: u128, n: int)
    requires
        0 <= n <= rs.len(),
        exists|i: int| 0 <= i < n && (#[trigger] rs[i]).id == id,
    ensures
        exists|i: int| first_match(rs, id, i),
    decreases n,
{
    if exists|i: int| 0 <= i < n - 1 && (#[trigger] rs[i]).id == id {
        lemma_first_match_exists_upto(rs, id, n - 1);
    } else {
        let w = choose|i: int| 0 <= i < n && (#[trigger] rs[i]).id == id;
        assert(w == n - 1);
        assert(first_match(rs, id, n - 1));
    }
}

/// When some restream carries the `id`, `first_idx` is its first position.
pub proof fn lemma_first_idx_works(rs: Seq<RestreamView>, id: u128)
    requires
        has_restream(rs, id),
    ensures
        first_match(rs, id, first_idx(rs, id)),
{
    lemma_first_match_exists_upto(rs, id, rs.len() as int);
}

/// Finds the first restream with the given ID.
fn find_restream_idx(v: &Vec<Restream>, id: InputId) -> (r: Option<usize>)
    ensures
        match r {
            Some(i) => first_match(restreams_view(v@), id@, i as int),
            None => !has_restream(restreams_view(v@), id@),
        },
{
    let ghost rs = restreams_view(v@);
    let mut i: usize = 0;
    while i < v.len()
        invariant
            0 <= i <= v@.len(),
            rs == restreams_view(v@),
            rs.len() == v@.len(),
            forall|k: int| 0 <= k < i ==> (#[trigger] rs[k]).id != id@,
        decreases v@.len() - i,
    {
        if v[i].id == id {
            proof {
                assert(rs[i as int].id == id@);
            }
            return Some(i);
        }
        proof {
            assert(rs[i as int].id != id@);
        }
        i = i + 1;
    }
    None
}

/// Some restream other than the one at `skip` has this input's identity.
pub open spec fn dup_identity_exists(
    rs: Seq<RestreamView>,
    input: InputView,
    skip: Option<int>,
) -> bool {
    exists|j: int|
        0 <= j < rs.len() && Some(j) != skip && (#[trigger] rs[j]).input.same_identity(input)
}

/// The view of an optional restream ID.
pub open spec fn opt_input_id_view(o: Option<InputId>) -> Option<u128> {
    match o {
        Some(i) => Some(i@),
        None => None,
    }
}

/// All output statuses reset to `Offline`.
pub open spec fn reset_statuses(outs: Seq<OutputView>) -> Seq<OutputView> {
    outs.map_values(|o: OutputView| OutputView { status: Status::Offline, ..o })
}

/// What adding or replacing an input does: the result reported to the
/// caller, and the restream list afterwards.
///
/// A duplicate identity elsewhere is rejected with `Some(false)`; a
/// `replace_id` that no restream carries yields `None`; replacing with an
/// input of the same identity changes nothing and reports `Some(true)`;
/// otherwise the input is swapped in place (publisher cleared, output
/// statuses reset) or, with no `replace_id`, a fresh enabled restream with
/// no outputs is appended under `new_id`.
pub open spec fn spec_add_input(
    rs: Seq<RestreamView>,
    input: InputView,
    replace_id: Option<u128>,
    new_id: u128,
) -> (Option<bool>, Seq<RestreamView>) {
    match replace_id {
        None => {
            if dup_identity_exists(rs, input, None) {
                (Some(false), rs)
            } else {
                (
                    Some(true),
                    rs.push(
                        RestreamView {
                            id: new_id,
                            input: input,
                            outputs: Seq::empty(),
                            enabled: true,
                            srs_publisher_id: None,
                        },
                    ),
                )
            }
        },
        Some(rid) => {
            if !has_restream(rs, rid) {
                if dup_identity_exists(rs, input, None) {
                    (Some(false), rs)
                } else {
                    (None, rs)
                }
            } else {
                let i = first_idx(rs, rid);
                if dup_identity_exists(rs, input, Some(i)) {
                    (Some(false), rs)
                } else if rs[i].input.same_identity(input) {
                    (Some(true), rs)
                } else {
                    (
                        Some(true),
                        rs.update(
                            i,
                            RestreamView {
                                input: input,
                                srs_publisher_id: None,
                                outputs: reset_statuses(rs[i].outputs),
                                ..rs[i]
                            },
                        ),
                    )
                }
            }
        },
    }
}

impl State {
    /// A deep copy of the current state.
    pub fn get_snapshot(&self) -> (s: State)
        ensures
            s@ == self@,
            s.history@ == self.history@,
    {
        State {
            password_hash: match &self.password_hash {
                Some(h) => Some(h.clone()),
                None => None,
            },
            restreams: clone_restreams(&self.restreams),
            history: Ghost(self.history@),
        }
    }

    /// Whether a restream other than the one at `skip` has this identity.
    fn has_identity(&self, input: &Input, skip: Option<usize>) -> (r: bool)
        ensures
            r == dup_identity_exists(
                restreams_view(self.restreams@),
                input@,
                match skip {
                    Some(s) => Some(s as int),
                    None => None,
                },
            ),
    {
        let ghost rs = restreams_view(self.restreams@);
        let mut i: usize = 0;
        while i < self.restreams.len()
            invariant
                0 <= i <= self.restreams@.len(),
                rs == restreams_view(self.restreams@),
                rs.len() == self.restreams@.len(),
                forall|k: int|
                    0 <= k < i ==> !(Some(k) != (match skip {
                        Some(s) => Some(s as int),
                        None => None,
                    }) && (#[trigger] rs[k]).input.same_identity(input@)),
            decreases self.restreams@.len() - i,
        {
            let skipped = match skip {
                Some(s) => i == s,
                None => false,
            };
            if !skipped {
                if self.restreams[i].input.is(input) {
                    proof {
                        assert(rs[i as int].input.same_identity(input@));
                    }
                    return true;
                }
            }
            i = i + 1;
        }
        false
    }

    /// Adds a pull input, or replaces the input of `replace_id` in place.
    pub fn add_pull_input(&mut self, src: String, replace_id: Option<InputId>) -> (r: Option<
        bool,
    >)
        requires
            old(self).wf(),
        ensures
            final(self).wf(),
            ({
                let new_id: u128 = if final(self)@.restreams.len() > old(self)@.restreams.len() {
                    final(self)@.restreams.last().id
                } else {
                    0
                };
                let step = spec_add_input(
                    old(self)@.restreams,
                    InputView::Pull(
                        crate::types::PullInputView { src: src@, status: Status::Offline },
                    ),
                    opt_input_id_view(replace_id),
                    new_id,
                );
                r == step.0 && final(self)@.restreams == step.1
            }),
            final(self)@.password_hash == old(self)@.password_hash,
            final(self).history@ == hist_push(old(self).history@, final(self)@.restreams),
    {
        self.add_input_to(Input::Pull(PullInput { src, status: Status::Offline }), replace_id)
    }

    /// Adds a push input, or replaces the input of `replace_id` in place.
    pub fn add_push_input(&mut self, name: String, replace_id: Option<InputId>) -> (r: Option<
        bool,
    >)
        requires
            old(self).wf(),
        ensures
            final(self).wf(),
            ({
                let new_id: u128 = if final(self)@.restreams.len() > old(self)@.restreams.len() {
                    final(self)@.restreams.last().id
                } else {
                    0
                };
                let step = spec_add_input(
                    old(self)@.restreams,
                    InputView::Push(
                        crate::types::PushInputView { name: name@, status: Status::Offline },
                    ),
                    opt_input_id_view(replace_id),
                    new_id,
                );
                r == step.0 && final(self)@.restreams == step.1
            }),
            final(self)@.password_hash == old(self)@.password_hash,
            final(self).history@ == hist_push(old(self).history@, final(self)@.restreams),
    {
        self.add_input_to(Input::Push(PushInput { name, status: Status::Offline }), replace_id)
    }

    /// Adds the input as a fresh restream, or replaces the input of
    /// `replace_id` in place.
    fn add_input_to(&mut self, input: Input, replace_id: Option<InputId>) -> (r: Option<bool>)
        requires
            old(self).wf(),
        ensures
            final(self).wf(),
            ({
                let new_id: u128 = if final(self)@.restreams.len() > old(self)@.restreams.len() {
                    final(self)@.restreams.last().id
                } else {
                    0
                };
                let step = spec_add_input(
                    old(self)@.restreams,
                    input@,
                    opt_input_id_view(replace_id),
                    new_id,
                );
                r == step.0 && final(self)@.restreams == step.1
            }),
            final(self)@.password_hash == old(self)@.password_hash,
            final(self).history@ == hist_push(old(self).history@, final(self)@.restreams),
    {
        let ghost rs0 = restreams_view(old(self).restreams@);
        match replace_id {
            None => {
                if self.has_identity(&input, None) {
                    return Some(false);
                }
                let id = InputId::new();
                let nr = Restream {
                    id,
                    input,
                    outputs: Vec::new(),
                    enabled: true,
                    srs_publisher_id: None,
                };
                let ghost nv = nr@;
                self.restreams.push(nr);
                proof {
                    assert(outputs_view(Seq::<Output>::empty()) =~= Seq::<OutputView>::empty());
                    assert(restreams_view(self.restreams@) =~= rs0.push(nv));
                    let rs1 = restreams_view(self.restreams@);
                    assert forall|i: int, j: int|
                        #![trigger rs1[i], rs1[j]]
                        0 <= i < rs1.len() && 0 <= j < rs1.len() && i
                            != j implies !rs1[i].input.same_identity(rs1[j].input) by {
                        if i < rs0.len() && j < rs0.len() {
                            assert(!rs0[i].input.same_identity(rs0[j].input));
                        } else if i < rs0.len() {
                            assert(!rs0[i].input.same_identity(input@));
                        } else if j < rs0.len() {
                            assert(!rs0[j].input.same_identity(input@));
                        }
                    }
                    lemma_hist_push_wf(old(self).history@, rs1);
                }
                let ghost h0 = self.history@;
                self.history = Ghost(hist_push(h0, restreams_view(self.restreams@)));
                Some(true)
            },
            Some(rid) => {
                let found = find_restream_idx(&self.restreams, rid);
                match found {
                    None => {
                        if self.has_identity(&input, None) {
                            Some(false)
                        } else {
                            None
                        }
                    },
                    Some(i) => {
                        proof {
                            lemma_first_idx_works(rs0, rid@);
                            lemma_first_match_unique(
                                rs0,
                                rid@,
                                i as int,
                                first_idx(rs0, rid@),
                            );
                        }
                        if self.has_identity(&input, Some(i)) {
                            return Some(false);
                        }
                        if self.restreams[i].input.is(&input) {
                            return Some(true);
                        }
                        let new_outputs = outputs_with_reset(&self.restreams[i].outputs);
                        let old_id = self.restreams[i].id;
                        let old_enabled = self.restreams[i].enabled;
                        let nr = Restream {
                            id: old_id,
                            input,
                            outputs: new_outputs,
                            enabled: old_enabled,
                            srs_publisher_id: None,
                        };
                        let ghost nv = nr@;
                        self.restreams[i] = nr;
                        proof {
                            assert(restreams_view(self.restreams@) =~= rs0.update(i as int, nv));
                            let rs1 = restreams_view(self.restreams@);
                            assert forall|p: int, q: int|
                                #![trigger rs1[p], rs1[q]]
                                0 <= p < rs1.len() && 0 <= q < rs1.len() && p
                                    != q implies !rs1[p].input.same_identity(rs1[q].input) by {
                                if p != i as int && q != i as int {
                                    assert(!rs0[p].input.same_identity(rs0[q].input));
                                } else if p == i as int {
                                    assert(!rs0[q].input.same_identity(input@));
                                } else {
                                    assert(!rs0[p].input.same_identity(input@));
                                }
                            }
                            assert forall|k: int| 0 <= k < rs1.len() implies (
                            #[trigger] rs1[k]).wf() by {
                                if k != i as int {
                                    assert(rs0[k].wf());
                                } else {
                                    assert(outputs_unique(nv.outputs)) by {
                                        assert(nv.outputs =~= reset_statuses(rs0[i as int].outputs));
                                        assert(outputs_unique(rs0[i as int].outputs));
                                    }
                                }
                            }
                            lemma_hist_push_wf(old(self).history@, rs1);
                        }
                        let ghost h0 = self.history@;
                        self.history = Ghost(hist_push(h0, restreams_view(self.restreams@)));
                        Some(true)
                    },
                }
            },
        }
    }
}

/// Every element of a filtered sequence occurs in the original.
proof fn lemma_filter_subset<A>(s: Seq<A>, p: spec_fn(A) -> bool)
    ensures
        forall|i: int| 0 <= i < s.filter(p).len() ==> s.contains(#[trigger] s.filter(p)[i]),
    decreases s.len(),
{
    reveal(Seq::filter);
    if s.len() > 0 {
        let d = s.drop_last();
        lemma_filter_subset(d, p);
        let f = s.filter(p);
        let fd = d.filter(p);
        assert forall|i: int| 0 <= i < f.len() implies s.contains(f[i]) by {
            if i < fd.len() {
                assert(d.contains(fd[i]));
                let j = choose|j: int| 0 <= j < d.len() && d[j] == fd[i];
                assert(s[j] == fd[i]);
            } else {
                assert(f[i] == s.last());
                assert(s[s.len() - 1] == s.last());
            }
        }
    }
}

/// Filtering a list of restreams keeps its invariants.
proof fn lemma_filter_keeps_restreams_wf(rs: Seq<RestreamView>, p: spec_fn(RestreamView) -> bool)
    requires
        restreams_wf(rs),
    ensures
        restreams_wf(rs.filter(p)),
    decreases rs.len(),
{
    reveal(Seq::filter);
    if rs.len() > 0 {
        let d = rs.drop_last();
        assert(restreams_wf(d)) by {
            assert forall|i: int, j: int|
                #![trigger d[i], d[j]]
                0 <= i < d.len() && 0 <= j < d.len() && i != j implies !d[i].input.same_identity(
                d[j].input,
            ) by {
                assert(rs[i] == d[i] && rs[j] == d[j]);
            }
            assert forall|i: int| 0 <= i < d.len() implies (#[trigger] d[i]).wf() by {
                assert(rs[i] == d[i]);
            }
        }
        lemma_filter_keeps_restreams_wf(d, p);
        if p(rs.last()) {
            let f = rs.filter(p);
            let fd = d.filter(p);
            lemma_filter_subset(d, p);
            assert(f =~= fd.push(rs.last()));
            assert forall|i: int, j: int|
                #![trigger f[i], f[j]]
                0 <= i < f.len() && 0 <= j < f.len() && i != j implies !f[i].input.same_identity(
                f[j].input,
            ) by {
                if i < fd.len() && j < fd.len() {
                    assert(!fd[i].input.same_identity(fd[j].input));
                } else if i < fd.len() {
                    assert(d.contains(fd[i]));
                    let k = choose|k: int| 0 <= k < d.len() && d[k] == fd[i];
                    assert(rs[k] == fd[i]);
                    assert(!rs[k].input.same_identity(rs[rs.len() - 1].input));
                } else if j < fd.len() {
                    assert(d.contains(fd[j]));
                    let k = choose|k: int| 0 <= k < d.len() && d[k] == fd[j];
                    assert(rs[k] == fd[j]);
                    assert(!rs[rs.len() - 1].input.same_identity(rs[k].input));
                }
            }
            assert forall|i: int| 0 <= i < f.len() implies (#[trigger] f[i]).wf() by {
                if i < fd.len() {
                    assert(fd[i].wf());
                } else {
                    assert(f[i] == rs[rs.len() - 1]);
                    assert(rs[rs.len() - 1].wf());
                }
            }
        }
    } else {
        assert(rs.filter(p) =~= rs);
    }
}

/// Filtering a list of outputs keeps its destinations unique.
proof fn lemma_filter_keeps_outputs_unique(outs: Seq<OutputView>, p: spec_fn(OutputView) -> bool)
    requires
        outputs_unique(outs),
    ensures
        outputs_unique(outs.filter(p)),
    decreases outs.len(),
{
    reveal(Seq::filter);
    if outs.len() > 0 {
        let d = outs.drop_last();
        assert(outputs_unique(d)) by {
            assert forall|i: int, j: int|
                #![trigger d[i], d[j]]
                0 <= i < d.len() && 0 <= j < d.len() && i != j implies d[i].dst != d[j].dst by {
                assert(outs[i] == d[i] && outs[j] == d[j]);
            }
        }
        lemma_filter_keeps_outputs_unique(d, p);
        if p(outs.last()) {
            let f = outs.filter(p);
            let fd = d.filter(p);
            lemma_filter_subset(d, p);
            assert(f =~= fd.push(outs.last()));
            assert forall|i: int, j: int|
                #![trigger f[i], f[j]]
                0 <= i < f.len() && 0 <= j < f.len() && i != j implies f[i].dst != f[j].dst by {
                if i < fd.len() && j < fd.len() {
                    assert(fd[i].dst != fd[j].dst);
                } else if i < fd.len() {
                    assert(d.contains(fd[i]));
                    let k = choose|k: int| 0 <= k < d.len() && d[k] == fd[i];
                    assert(outs[k] == fd[i]);
                    assert(outs[k].dst != outs[outs.len() - 1].dst);
                } else if j < fd.len() {
                    assert(d.contains(fd[j]));
                    let k = choose|k: int| 0 <= k < d.len() && d[k] == fd[j];
                    assert(outs[k] == fd[j]);
                    assert(outs[k].dst != outs[outs.len() - 1].dst);
                }
            }
        }
    } else {
        assert(outs.filter(p) =~= outs);
    }
}

/// One step of filtering: extending the prefix by one element.
pub proof fn lemma_filter_take_step<A>(s: Seq<A>, p: spec_fn(A) -> bool, i: int)
    requires
        0 <= i < s.len(),
    ensures
        s.take(i + 1).filter(p) == if p(s[i]) {
            s.take(i).filter(p).push(s[i])
        } else {
            s.take(i).filter(p)
        },
{
    reveal(Seq::filter);
    assert(s.take(i + 1).drop_last() =~= s.take(i));
    assert(s.take(i + 1).last() == s[i]);
    assert(s.take(i + 1).len() == i + 1);
}

/// The restreams left after removing every one with this `id`.
pub open spec fn spec_remove_input(rs: Seq<RestreamView>, id: u128) -> Seq<RestreamView> {
    rs.filter(|r: RestreamView| r.id != id)
}

/// What enabling an input does: `None` when the `id` is unknown,
/// `Some(false)` when the restream is already enabled, else `Some(true)`
/// with the restream enabled.
pub open spec fn spec_enable_input(rs: Seq<RestreamView>, id: u128) -> (Option<bool>, Seq<
    RestreamView,
>) {
    if !has_restream(rs, id) {
        (None, rs)
    } else {
        let i = first_idx(rs, id);
        if rs[i].enabled {
            (Some(false), rs)
        } else {
            (Some(true), rs.update(i, RestreamView { enabled: true, ..rs[i] }))
        }
    }
}

/// What disabling an input does: as enabling, and a disabled restream also
/// loses its broker publisher.
pub open spec fn spec_disable_input(rs: Seq<RestreamView>, id: u128) -> (Option<bool>, Seq<
    RestreamView,
>) {
    if !has_restream(rs, id) {
        (None, rs)
    } else {
        let i = first_idx(rs, id);
        if !rs[i].enabled {
            (Some(false), rs)
        } else {
            (
                Some(true),
                rs.update(i, RestreamView { enabled: false, srs_publisher_id: None, ..rs[i] }),
            )
        }
    }
}

impl State {
    /// Removes the restream with this ID; reports whether one existed.
    pub fn remove_input(&mut self, id: InputId) -> (r: bool)
        requires
            old(self).wf(),
        ensures
            final(self).wf(),
            final(self)@.restreams == spec_remove_input(old(self)@.restreams, id@),
            r == (final(self)@.restreams.len() != old(self)@.restreams.len()),
            final(self)@.password_hash == old(self)@.password_hash,
            final(self).history@ == hist_push(old(self).history@, final(self)@.restreams),
    {
        let ghost rs0 = restreams_view(self.restreams@);
        let ghost p = |r: RestreamView| r.id != id@;
        let mut kept: Vec<Restream> = Vec::new();
        let mut i: usize = 0;
        while i < self.restreams.len()
            invariant
                0 <= i <= self.restreams@.len(),
                rs0 == restreams_view(self.restreams@),
                rs0.len() == self.restreams@.len(),
                p == (|r: RestreamView| r.id != id@),
                restreams_view(kept@) == rs0.take(i as int).filter(p),
            decreases self.restreams@.len() - i,
        {
            proof {
                lemma_filter_take_step(rs0, p, i as int);
            }
            if !(self.restreams[i].id == id) {
                let c = self.restreams[i].clone();
                kept.push(c);
                proof {
                    assert(restreams_view(kept@) =~= rs0.take(i as int).filter(p).push(
                        rs0[i as int],
                    ));
                }
            }
            i = i + 1;
        }
        proof {
            assert(rs0.take(rs0.len() as int) =~= rs0);
            lemma_filter_keeps_restreams_wf(rs0, p);
        }
        let prev_len = self.restreams.len();
        let new_len = kept.len();
        self.restreams = kept;
        proof {
            assert(spec_remove_input(rs0, id@) =~= rs0.filter(p));
            lemma_hist_push_wf(old(self).history@, restreams_view(self.restreams@));
        }
        let ghost h0 = self.history@;
        self.history = Ghost(hist_push(h0, restreams_view(self.restreams@)));
        new_len != prev_len
    }

    /// Enables the restream with this ID.
    pub fn enable_input(&mut self, id: InputId) -> (r: Option<bool>)
        requires
            old(self).wf(),
        ensures
            final(self).wf(),
            r == spec_enable_input(old(self)@.restreams, id@).0,
            final(self)@.restreams == spec_enable_input(old(self)@.restreams, id@).1,
            final(self)@.password_hash == old(self)@.password_hash,
            final(self).history@ == hist_push(old(self).history@, final(self)@.restreams),
    {
        let ghost rs0 = restreams_view(self.restreams@);
        let found = find_restream_idx(&self.restreams, id);
        match found {
            None => None,
            Some(i) => {
                proof {
                    lemma_first_idx_works(rs0, id@);
                    lemma_first_match_unique(rs0, id@, i as int, first_idx(rs0, id@));
                }
                if self.restreams[i].enabled {
                    return Some(false);
                }
                self.restreams[i].enabled = true;
                proof {
                    let rs1 = restreams_view(self.restreams@);
                    assert(rs1 =~= rs0.update(
                        i as int,
                        RestreamView { enabled: true, ..rs0[i as int] },
                    ));
                    lemma_update_keeps_wf_same_input(rs0, i as int, rs1);
                    lemma_hist_push_wf(old(self).history@, rs1);
                }
                let ghost h0 = self.history@;
                self.history = Ghost(hist_push(h0, restreams_view(self.restreams@)));
                Some(true)
            },
        }
    }

    /// Disables the restream with this ID, clearing its broker publisher.
    pub fn disable_input(&mut self, id: InputId) -> (r: Option<bool>)
        requires
            old(self).wf(),
        ensures
            final(self).wf(),
            r == spec_disable_input(old(self)@.restreams, id@).0,
            final(self)@.restreams == spec_disable_input(old(self)@.restreams, id@).1,
            final(self)@.password_hash == old(self)@.password_hash,
            final(self).history@ == hist_push(old(self).history@, final(self)@.restreams),
    {
        let ghost rs0 = restreams_view(self.restreams@);
        let found = find_restream_idx(&self.restreams, id);
        match found {
            None => None,
            Some(i) => {
                proof {
                    lemma_first_idx_works(rs0, id@);
                    lemma_first_match_unique(rs0, id@, i as int, first_idx(rs0, id@));
                }
                if !self.restreams[i].enabled {
                    return Some(false);
                }
                self.restreams[i].enabled = false;
                self.restreams[i].srs_publisher_id = None;
                proof {
                    let rs1 = restreams_view(self.restreams@);
                    assert(rs1 =~= rs0.update(
                        i as int,
                        RestreamView { enabled: false, srs_publisher_id: None, ..rs0[i as int] },
                    ));
                    lemma_update_keeps_wf_same_input(rs0, i as int, rs1);
                    lemma_hist_push_wf(old(self).history@, rs1);
                }
                let ghost h0 = self.history@;
                self.history = Ghost(hist_push(h0, restreams_view(self.restreams@)));
                Some(true)
            },
        }
    }
}

/// Updating one restream without changing its input's identity or breaking
/// its own invariant keeps the list invariants.
pub proof fn lemma_update_keeps_wf_same_input(rs0: Seq<RestreamView>, i: int, rs1: Seq<RestreamView>)
    requires
        restreams_wf(rs0),
        0 <= i < rs0.len(),
        rs1.len() == rs0.len(),
        forall|k: int| 0 <= k < rs0.len() && k != i ==> rs1[k] == #[trigger] rs0[k],
        rs1[i].input.same_identity(rs0[i].input),
        rs1[i].wf(),
    ensures
        restreams_wf(rs1),
{
    assert forall|p: int, q: int|
        #![trigger rs1[p], rs1[q]]
        0 <= p < rs1.len() && 0 <= q < rs1.len() && p != q implies !rs1[p].input.same_identity(
        rs1[q].input,
    ) by {
        assert(!rs0[p].input.same_identity(rs0[q].input));
    }
    assert forall|k: int| 0 <= k < rs1.len() implies (#[trigger] rs1[k]).wf() by {
        if k != i {
            assert(rs0[k].wf());
        }
    }
}

/// `j` is the position of the first output with this `id`.
pub open spec fn first_out_match(outs: Seq<OutputView>, id: u128, j: int) -> bool {
    &&& 0 <= j < outs.len()
    &&& outs[j].id == id
    &&& forall|k: int| 0 <= k < j ==> (#[trigger] outs[k]).id != id
}

/// Whether some output carries this `id`.
pub open spec fn has_output(outs: Seq<OutputView>, id: u128) -> bool {
    exists|j: int| 0 <= j < outs.len() && (#[trigger] outs[j]).id == id
}

/// The position of the first output with this `id` (meaningful only when
/// `has_output` holds).
pub open spec fn first_out_idx(outs: Seq<OutputView>, id: u128) -> int {
    choose|j: int| first_out_match(outs, id, j)
}

/// At most one position is the first matching output.
pub proof fn lemma_first_out_unique(outs: Seq<OutputView>, id: u128, i: int, j: int)
    requires
        first_out_match(outs, id, i),
        first_out_match(outs, id, j),
    ensures
        i == j,
{
    if i < j {
        assert(outs[i].id != id);
    }
    if j < i {
        assert(outs[j].id != id);
    }
}

proof fn lemma_first_out_exists_upto(outs: Seq<OutputView>, id: u128, n: int)
    requires
        0 <= n <= outs.len(),
        exists|j: int| 0 <= j < n && (#[trigger] outs[j]).id == id,
    ensures
        exists|j: int| first_out_match(outs, id, j),
    decreases n,
{
    if exists|j: int| 0 <= j < n - 1 && (#[trigger] outs[j]).id == id {
        lemma_first_out_exists_upto(outs, id, n - 1);
    } else {
        let w = choose|j: int| 0 <= j < n && (#[trigger] outs[j]).id == id;
        assert(w == n - 1);
        assert(first_out_match(outs, id, n - 1));
    }
}

/// When some output carries the `id`, `first_out_idx` is its first position.
pub proof fn lemma_first_out_idx_works(outs: Seq<OutputView>, id: u128)
    requires
        has_output(outs, id),
    ensures
        first_out_match(outs, id, first_out_idx(outs, id)),
{
    lemma_first_out_exists_upto(outs, id, outs.len() as int);
}

/// Finds the first output with the given ID.
fn find_output_idx(v: &Vec<Output>, id: OutputId) -> (r: Option<usize>)
    ensures
        match r {
            Some(j) => first_out_match(outputs_view(v@), id@, j as int),
            None => !has_output(outputs_view(v@), id@),
        },
{
    let ghost outs = outputs_view(v@);
    let mut j: usize = 0;
    while j < v.len()
        invariant
            0 <= j <= v@.len(),
            outs == outputs_view(v@),
            outs.len() == v@.len(),
            forall|k: int| 0 <= k < j ==> (#[trigger] outs[k]).id != id@,
        decreases v@.len() - j,
    {
        if v[j].id == id {
            proof {
                assert(outs[j as int].id == id@);
            }
            return Some(j);
        }
        proof {
            assert(outs[j as int].id != id@);
        }
        j = j + 1;
    }
    None
}

/// Whether some output already forwards to `dst`.
pub open spec fn dst_exists(outs: Seq<OutputView>, dst: Seq<char>) -> bool {
    exists|j: int| 0 <= j < outs.len() && (#[trigger] outs[j]).dst == dst
}

/// The view of an optional label.
pub open spec fn opt_str_view(o: Option<String>) -> Option<Seq<char>> {
    match o {
        Some(s) => Some(s@),
        None => None,
    }
}

/// What adding an output does: `None` when the restream is unknown,
/// `Some(false)` when the destination is already forwarded to, else
/// `Some(true)` with a fresh disabled, offline output appended.
pub open spec fn spec_add_new_output(
    rs: Seq<RestreamView>,
    input_id: u128,
    dst: Seq<char>,
    label: Option<Seq<char>>,
    new_id: u128,
) -> (Option<bool>, Seq<RestreamView>) {
    if !has_restream(rs, input_id) {
        (None, rs)
    } else {
        let i = first_idx(rs, input_id);
        if dst_exists(rs[i].outputs, dst) {
            (Some(false), rs)
        } else {
            (
                Some(true),
                rs.update(
                    i,
                    RestreamView {
                        outputs: rs[i].outputs.push(
                            OutputView {
                                id: new_id,
                                dst: dst,
                                label: label,
                                enabled: false,
                                status: Status::Offline,
                            },
                        ),
                        ..rs[i]
                    },
                ),
            )
        }
    }
}

/// What removing an output does: `None` when the restream is unknown, else
/// `Some(existed)` with every output of that `id` removed.
pub open spec fn spec_remove_output(
    rs: Seq<RestreamView>,
    input_id: u128,
    output_id: u128,
) -> (Option<bool>, Seq<RestreamView>) {
    if !has_restream(rs, input_id) {
        (None, rs)
    } else {
        let i = first_idx(rs, input_id);
        let kept = rs[i].outputs.filter(|o: OutputView| o.id != output_id);
        (
            Some(kept.len() != rs[i].outputs.len()),
            rs.update(i, RestreamView { outputs: kept, ..rs[i] }),
        )
    }
}

/// What setting one output's `enabled` flag does: `None` when the restream
/// or the output is unknown, `Some(false)` when the flag already has the
/// requested value, else `Some(true)` with the flag set.
pub open spec fn spec_set_output_enabled(
    rs: Seq<RestreamView>,
    input_id: u128,
    output_id: u128,
    en: bool,
) -> (Option<bool>, Seq<RestreamView>) {
    if !has_restream(rs, input_id) {
        (None, rs)
    } else {
        let i = first_idx(rs, input_id);
        if !has_output(rs[i].outputs, output_id) {
            (None, rs)
        } else {
            let j = first_out_idx(rs[i].outputs, output_id);
            if rs[i].outputs[j].enabled == en {
                (Some(false), rs)
            } else {
                (
                    Some(true),
                    rs.update(
                        i,
                        RestreamView {
                            outputs: rs[i].outputs.update(
                                j,
                                OutputView { enabled: en, ..rs[i].outputs[j] },
                            ),
                            ..rs[i]
                        },
                    ),
                )
            }
        }
    }
}

/// What setting the `enabled` flag of all outputs does: `None` when the
/// restream is unknown, else `Some(changed)` with every output's flag set.
pub open spec fn spec_set_all_outputs_enabled(
    rs: Seq<RestreamView>,
    input_id: u128,
    en: bool,
) -> (Option<bool>, Seq<RestreamView>) {
    if !has_restream(rs, input_id) {
        (None, rs)
    } else {
        let i = first_idx(rs, input_id);
        (
            Some(exists|j: int| 0 <= j < rs[i].outputs.len() && (#[trigger] rs[i].outputs[j]).enabled != en),
            rs.update(
                i,
                RestreamView {
                    outputs: rs[i].outputs.map_values(|o: OutputView| OutputView { enabled: en, ..o }),
                    ..rs[i]
                },
            ),
        )
    }
}

/// A copy of the outputs with the flag of the output at `j` set to `en`.
fn outputs_with_enabled_at(v: &Vec<Output>, j: usize, en: bool) -> (r: Vec<Output>)
    requires
        j < v@.len(),
    ensures
        outputs_view(r@) == outputs_view(v@).update(
            j as int,
            OutputView { enabled: en, ..v@[j as int]@ },
        ),
{
    let mut r: Vec<Output> = Vec::new();
    let mut i: usize = 0;
    while i < v.len()
        invariant
            0 <= i <= v@.len(),
            j < v@.len(),
            r@.len() == i,
            forall|k: int|
                0 <= k < i && k != j ==> (#[trigger] r@[k])@ == v@[k]@,
            j < i ==> r@[j as int]@ == (OutputView { enabled: en, ..v@[j as int]@ }),
        decreases v@.len() - i,
    {
        let mut c = v[i].clone();
        if i == j {
            c.enabled = en;
        }
        r.push(c);
        i = i + 1;
    }
    proof {
        assert(outputs_view(r@) =~= outputs_view(v@).update(
            j as int,
            OutputView { enabled: en, ..v@[j as int]@ },
        ));
    }
    r
}

/// A copy of the outputs with every flag set to `en`, and whether any flag
/// actually changed.
fn outputs_with_all_enabled(v: &Vec<Output>, en: bool) -> (r: (Vec<Output>, bool))
    ensures
        outputs_view(r.0@) == outputs_view(v@).map_values(
            |o: OutputView| OutputView { enabled: en, ..o },
        ),
        r.1 == exists|j: int|
            0 <= j < outputs_view(v@).len() && (#[trigger] outputs_view(v@)[j]).enabled != en,
{
    let ghost outs = outputs_view(v@);
    let mut r: Vec<Output> = Vec::new();
    let mut changed = false;
    let mut i: usize = 0;
    while i < v.len()
        invariant
            0 <= i <= v@.len(),
            outs == outputs_view(v@),
            outs.len() == v@.len(),
            r@.len() == i,
            forall|k: int| 0 <= k < i ==> (#[trigger] r@[k])@ == (OutputView { enabled: en, ..outs[k] }),
            changed == exists|j: int| 0 <= j < i && (#[trigger] outs[j]).enabled != en,
        decreases v@.len() - i,
    {
        let mut c = v[i].clone();
        if c.enabled != en {
            changed = true;
            proof {
                assert(outs[i as int].enabled != en);
            }
        }
        c.enabled = en;
        r.push(c);
        i = i + 1;
    }
    proof {
        assert(outputs_view(r@) =~= outs.map_values(|o: OutputView| OutputView { enabled: en, ..o }));
    }
    (r, changed)
}

/// A copy of the outputs without those carrying `id`.
fn outputs_without(v: &Vec<Output>, id: OutputId) -> (r: Vec<Output>)
    ensures
        outputs_view(r@) == outputs_view(v@).filter(|o: OutputView| o.id != id@),
{
    let ghost outs = outputs_view(v@);
    let ghost p = |o: OutputView| o.id != id@;
    let mut r: Vec<Output> = Vec::new();
    let mut i: usize = 0;
    while i < v.len()
        invariant
            0 <= i <= v@.len(),
            outs == outputs_view(v@),
            outs.len() == v@.len(),
            p == (|o: OutputView| o.id != id@),
            outputs_view(r@) == outs.take(i as int).filter(p),
        decreases v@.len() - i,
    {
        proof {
            lemma_filter_take_step(outs, p, i as int);
        }
        if !(v[i].id == id) {
            let c = v[i].clone();
            r.push(c);
            proof {
                assert(outputs_view(r@) =~= outs.take(i as int).filter(p).push(outs[i as int]));
            }
        }
        i = i + 1;
    }
    proof {
        assert(outs.take(outs.len() as int) =~= outs);
    }
    r
}

/// Whether some output of `v` already forwards to `dst`.
fn dst_already_used(v: &Vec<Output>, dst: &String) -> (r: bool)
    ensures
        r == dst_exists(outputs_view(v@), dst@),
{
    let ghost outs = outputs_view(v@);
    let mut j: usize = 0;
    while j < v.len()
        invariant
            0 <= j <= v@.len(),
            outs == outputs_view(v@),
            outs.len() == v@.len(),
            forall|k: int| 0 <= k < j ==> (#[trigger] outs[k]).dst != dst@,
        decreases v@.len() - j,
    {
        if v[j].dst == *dst {
            proof {
                assert(outs[j as int].dst == dst@);
            }
            return true;
        }
        proof {
            assert(outs[j as int].dst != dst@);
        }
        j = j + 1;
    }
    false
}

impl State {
    /// Appends a disabled, offline output forwarding to `dst`.
    pub fn add_new_output(
        &mut self,
        input_id: InputId,
        output_dst: String,
        label: Option<String>,
    ) -> (r: Option<bool>)
        requires
            old(self).wf(),
        ensures
            final(self).wf(),
            ({
                let i = first_idx(old(self)@.restreams, input_id@);
                let new_id: u128 = if r == Some(true) {
                    final(self)@.restreams[i].outputs.last().id
                } else {
                    0
                };
                let step = spec_add_new_output(
                    old(self)@.restreams,
                    input_id@,
                    output_dst@,
                    opt_str_view(label),
                    new_id,
                );
                r == step.0 && final(self)@.restreams == step.1
            }),
            final(self)@.password_hash == old(self)@.password_hash,
            final(self).history@ == hist_push(old(self).history@, final(self)@.restreams),
    {
        let ghost rs0 = restreams_view(self.restreams@);
        let found = find_restream_idx(&self.restreams, input_id);
        match found {
            None => None,
            Some(i) => {
                proof {
                    lemma_first_idx_works(rs0, input_id@);
                    lemma_first_match_unique(rs0, input_id@, i as int, first_idx(rs0, input_id@));
                }
                if dst_already_used(&self.restreams[i].outputs, &output_dst) {
                    return Some(false);
                }
                let no = Output {
                    id: OutputId::new(),
                    dst: output_dst,
                    label,
                    enabled: false,
                    status: Status::Offline,
                };
                let ghost nov = no@;
                self.restreams[i].outputs.push(no);
                proof {
                    let rs1 = restreams_view(self.restreams@);
                    assert(outputs_view(self.restreams@[i as int].outputs@) =~= rs0[i as int].outputs.push(nov));
                    assert(rs1 =~= rs0.update(
                        i as int,
                        RestreamView { outputs: rs0[i as int].outputs.push(nov), ..rs0[i as int] },
                    ));
                    let nouts = rs0[i as int].outputs.push(nov);
                    assert forall|p: int, q: int|
                        #![trigger nouts[p], nouts[q]]
                        0 <= p < nouts.len() && 0 <= q < nouts.len() && p != q implies nouts[p].dst
                        != nouts[q].dst by {
                        let outs0 = rs0[i as int].outputs;
                        if p < outs0.len() && q < outs0.len() {
                            assert(outs0[p].dst != outs0[q].dst);
                        } else if p < outs0.len() {
                            assert(outs0[p].dst != nov.dst);
                        } else if q < outs0.len() {
                            assert(outs0[q].dst != nov.dst);
                        }
                    }
                    lemma_update_keeps_wf_same_input(rs0, i as int, rs1);
                    lemma_hist_push_wf(old(self).history@, rs1);
                }
                let ghost h0 = self.history@;
                self.history = Ghost(hist_push(h0, restreams_view(self.restreams@)));
                Some(true)
            },
        }
    }

    /// Removes the output with this ID from the restream; reports whether it
    /// existed.
    pub fn remove_output(&mut self, input_id: InputId, output_id: OutputId) -> (r: Option<bool>)
        requires
            old(self).wf(),
        ensures
            final(self).wf(),
            r == spec_remove_output(old(self)@.restreams, input_id@, output_id@).0,
            final(self)@.restreams == spec_remove_output(old(self)@.restreams, input_id@, output_id@).1,
            final(self)@.password_hash == old(self)@.password_hash,
            final(self).history@ == hist_push(old(self).history@, final(self)@.restreams),
    {
        let ghost rs0 = restreams_view(self.restreams@);
        let found = find_restream_idx(&self.restreams, input_id);
        match found {
            None => None,
            Some(i) => {
                proof {
                    lemma_first_idx_works(rs0, input_id@);
                    lemma_first_match_unique(rs0, input_id@, i as int, first_idx(rs0, input_id@));
                }
                let kept = outputs_without(&self.restreams[i].outputs, output_id);
                let prev_len = self.restreams[i].outputs.len();
                let new_len = kept.len();
                self.restreams[i].outputs = kept;
                proof {
                    let rs1 = restreams_view(self.restreams@);
                    let ghost p = |o: OutputView| o.id != output_id@;
                    assert(rs1 =~= rs0.update(
                        i as int,
                        RestreamView { outputs: rs0[i as int].outputs.filter(p), ..rs0[i as int] },
                    ));
                    lemma_filter_keeps_outputs_unique(rs0[i as int].outputs, p);
                    lemma_update_keeps_wf_same_input(rs0, i as int, rs1);
                    lemma_hist_push_wf(old(self).history@, rs1);
                }
                let ghost h0 = self.history@;
                self.history = Ghost(hist_push(h0, restreams_view(self.restreams@)));
                Some(new_len != prev_len)
            },
        }
    }

    /// Enables the output with this ID.
    pub fn enable_output(&mut self, input_id: InputId, output_id: OutputId) -> (r: Option<bool>)
        requires
            old(self).wf(),
        ensures
            final(self).wf(),
            r == spec_set_output_enabled(old(self)@.restreams, input_id@, output_id@, true).0,
            final(self)@.restreams == spec_set_output_enabled(
                old(self)@.restreams,
                input_id@,
                output_id@,
                true,
            ).1,
            final(self)@.password_hash == old(self)@.password_hash,
            final(self).history@ == hist_push(old(self).history@, final(self)@.restreams),
    {
        self.set_output_enabled(input_id, output_id, true)
    }

    /// Disables the output with this ID.
    pub fn disable_output(&mut self, input_id: InputId, output_id: OutputId) -> (r: Option<bool>)
        requires
            old(self).wf(),
        ensures
            final(self).wf(),
            r == spec_set_output_enabled(old(self)@.restreams, input_id@, output_id@, false).0,
            final(self)@.restreams == spec_set_output_enabled(
                old(self)@.restreams,
                input_id@,
                output_id@,
                false,
            ).1,
            final(self)@.password_hash == old(self)@.password_hash,
            final(self).history@ == hist_push(old(self).history@, final(self)@.restreams),
    {
        self.set_output_enabled(input_id, output_id, false)
    }

    /// Sets the `enabled` flag of one output.
    fn set_output_enabled(&mut self, input_id: InputId, output_id: OutputId, en: bool) -> (r:
        Option<bool>)
        requires
            old(self).wf(),
        ensures
            final(self).wf(),
            r == spec_set_output_enabled(old(self)@.restreams, input_id@, output_id@, en).0,
            final(self)@.restreams == spec_set_output_enabled(
                old(self)@.restreams,
                input_id@,
                output_id@,
                en,
            ).1,
            final(self)@.password_hash == old(self)@.password_hash,
            final(self).history@ == hist_push(old(self).history@, final(self)@.restreams),
    {
        let ghost rs0 = restreams_view(self.restreams@);
        let found = find_restream_idx(&self.restreams, input_id);
        match found {
            None => None,
            Some(i) => {
                proof {
                    lemma_first_idx_works(rs0, input_id@);
                    lemma_first_match_unique(rs0, input_id@, i as int, first_idx(rs0, input_id@));
                }
                let ghost outs0 = rs0[i as int].outputs;
                let foundo = find_output_idx(&self.restreams[i].outputs, output_id);
                match foundo {
                    None => None,
                    Some(j) => {
                        proof {
                            lemma_first_out_idx_works(outs0, output_id@);
                            lemma_first_out_unique(
                                outs0,
                                output_id@,
                                j as int,
                                first_out_idx(outs0, output_id@),
                            );
                        }
                        if self.restreams[i].outputs[j].enabled == en {
                            return Some(false);
                        }
                        let no = outputs_with_enabled_at(&self.restreams[i].outputs, j, en);
                        self.restreams[i].outputs = no;
                        proof {
                            let rs1 = restreams_view(self.restreams@);
                            assert(rs1 =~= rs0.update(
                                i as int,
                                RestreamView {
                                    outputs: outs0.update(
                                        j as int,
                                        OutputView { enabled: en, ..outs0[j as int] },
                                    ),
                                    ..rs0[i as int]
                                },
                            ));
                            let nouts = outs0.update(
                                j as int,
                                OutputView { enabled: en, ..outs0[j as int] },
                            );
                            assert forall|p: int, q: int|
                                #![trigger nouts[p], nouts[q]]
                                0 <= p < nouts.len() && 0 <= q < nouts.len() && p
                                    != q implies nouts[p].dst != nouts[q].dst by {
                                assert(outs0[p].dst != outs0[q].dst);
                            }
                            lemma_update_keeps_wf_same_input(rs0, i as int, rs1);
                            lemma_hist_push_wf(old(self).history@, rs1);
                        }
                        let ghost h0 = self.history@;
                        self.history = Ghost(hist_push(h0, restreams_view(self.restreams@)));
                        Some(true)
                    },
                }
            },
        }
    }

    /// Enables every output of the restream; reports whether any changed.
    pub fn enable_all_outputs(&mut self, input_id: InputId) -> (r: Option<bool>)
        requires
            old(self).wf(),
        ensures
            final(self).wf(),
            r == spec_set_all_outputs_enabled(old(self)@.restreams, input_id@, true).0,
            final(self)@.restreams == spec_set_all_outputs_enabled(
                old(self)@.restreams,
                input_id@,
                true,
            ).1,
            final(self)@.password_hash == old(self)@.password_hash,
            final(self).history@ == hist_push(old(self).history@, final(self)@.restreams),
    {
        self.set_all_outputs_enabled(input_id, true)
    }

    /// Disables every output of the restream; reports whether any changed.
    pub fn disable_all_outputs(&mut self, input_id: InputId) -> (r: Option<bool>)
        requires
            old(self).wf(),
        ensures
            final(self).wf(),
            r == spec_set_all_outputs_enabled(old(self)@.restreams, input_id@, false).0,
            final(self)@.restreams == spec_set_all_outputs_enabled(
                old(self)@.restreams,
                input_id@,
                false,
            ).1,
            final(self)@.password_hash == old(self)@.password_hash,
            final(self).history@ == hist_push(old(self).history@, final(self)@.restreams),
    {
        self.set_all_outputs_enabled(input_id, false)
    }

    /// Sets the `enabled` flag of every output of the restream.
    fn set_all_outputs_enabled(&mut self, input_id: InputId, en: bool) -> (r: Option<bool>)
        requires
            old(self).wf(),
        ensures
            final(self).wf(),
            r == spec_set_all_outputs_enabled(old(self)@.restreams, input_id@, en).0,
            final(self)@.restreams == spec_set_all_outputs_enabled(
                old(self)@.restreams,
                input_id@,
                en,
            ).1,
            final(self)@.password_hash == old(self)@.password_hash,
            final(self).history@ == hist_push(old(self).history@, final(self)@.restreams),
    {
        let ghost rs0 = restreams_view(self.restreams@);
        let found = find_restream_idx(&self.restreams, input_id);
        match found {
            None => None,
            Some(i) => {
                proof {
                    lemma_first_idx_works(rs0, input_id@);
                    lemma_first_match_unique(rs0, input_id@, i as int, first_idx(rs0, input_id@));
                }
                let ghost outs0 = rs0[i as int].outputs;
                let (no, changed) = outputs_with_all_enabled(&self.restreams[i].outputs, en);
                self.restreams[i].outputs = no;
                proof {
                    let rs1 = restreams_view(self.restreams@);
                    let nouts = outs0.map_values(|o: OutputView| OutputView { enabled: en, ..o });
                    assert(rs1 =~= rs0.update(
                        i as int,
                        RestreamView { outputs: nouts, ..rs0[i as int] },
                    ));
                    assert forall|p: int, q: int|
                        #![trigger nouts[p], nouts[q]]
                        0 <= p < nouts.len() && 0 <= q < nouts.len() && p != q implies nouts[p].dst
                        != nouts[q].dst by {
                        assert(outs0[p].dst != outs0[q].dst);
                    }
                    lemma_update_keeps_wf_same_input(rs0, i as int, rs1);
                    lemma_hist_push_wf(old(self).history@, rs1);
                }
                let ghost h0 = self.history@;
                self.history = Ghost(hist_push(h0, restreams_view(self.restreams@)));
                Some(changed)
            },
        }
    }
}

impl State {
    /// Checks the configuration invariants, as one does on a freshly loaded
    /// state before trusting it.
    pub fn is_well_formed(&self) -> (r: bool)
        ensures
            r == self@.wf(),
    {
        let ghost rs = restreams_view(self.restreams@);
        let n = self.restreams.len();
        let mut i: usize = 0;
        while i < n
            invariant
                0 <= i <= n,
                n == self.restreams@.len(),
                rs == restreams_view(self.restreams@),
                rs.len() == n,
                forall|p: int, q: int|
                    #![trigger rs[p], rs[q]]
                    0 <= p < i && 0 <= q < rs.len() && p != q ==> !rs[p].input.same_identity(
                        rs[q].input,
                    ),
                forall|p: int| 0 <= p < i ==> (#[trigger] rs[p]).wf(),
            decreases n - i,
        {
            let mut j: usize = 0;
            while j < n
                invariant
                    0 <= j <= n,
                    i < n,
                    n == self.restreams@.len(),
                    rs == restreams_view(self.restreams@),
                    rs.len() == n,
                    forall|q: int|
                        0 <= q < j && q != i ==> !rs[i as int].input.same_identity(
                            (#[trigger] rs[q]).input,
                        ),
                decreases n - j,
            {
                if j != i {
                    if self.restreams[i].input.is(&self.restreams[j].input) {
                        proof {
                            assert(rs[i as int].input.same_identity(rs[j as int].input));
                        }
                        return false;
                    }
                }
                j = j + 1;
            }
            let m = self.restreams[i].outputs.len();
            let ghost outs = rs[i as int].outputs;
            let mut a: usize = 0;
            while a < m
                invariant
                    0 <= a <= m,
                    i < n,
                    n == self.restreams@.len(),
                    rs == restreams_view(self.restreams@),
                    rs.len() == n,
                    outs == rs[i as int].outputs,
                    outs.len() == m,
                    m == self.restreams@[i as int].outputs@.len(),
                    forall|p: int, q: int|
                        #![trigger outs[p], outs[q]]
                        0 <= p < a && 0 <= q < outs.len() && p != q ==> outs[p].dst != outs[q].dst,
                decreases m - a,
            {
                let mut b: usize = 0;
                while b < m
                    invariant
                        0 <= b <= m,
                        0 <= a < m,
                        i < n,
                        n == self.restreams@.len(),
                        rs == restreams_view(self.restreams@),
                        rs.len() == n,
                        outs == rs[i as int].outputs,
                        outs.len() == m,
                        m == self.restreams@[i as int].outputs@.len(),
                        forall|q: int|
                            0 <= q < b && q != a ==> (#[trigger] outs[q]).dst != outs[a as int].dst,
                    decreases m - b,
                {
                    if b != a {
                        if self.restreams[i].outputs[a].is(&self.restreams[i].outputs[b]) {
                            proof {
                                assert(outs[a as int].dst == outs[b as int].dst);
                                assert(!outputs_unique(outs));
                            }
                            return false;
                        }
                    }
                    b = b + 1;
                }
                a = a + 1;
            }
            let has_publisher = match self.restreams[i].srs_publisher_id {
                Some(_) => true,
                None => false,
            };
            if has_publisher {
                let st = self.restreams[i].input.status();
                if !(st == Status::Online) {
                    proof {
                        assert(!rs[i as int].wf());
                    }
                    return false;
                }
                if !self.restreams[i].enabled {
                    proof {
                        assert(!rs[i as int].wf());
                    }
                    return false;
                }
            }
            proof {
                assert(rs[i as int].wf());
            }
            i = i + 1;
        }
        true
    }
}

/// Law: input identity uniqueness — in a well-formed state, as every
/// mutator's contract maintains, no two restreams share an input identity.
pub proof fn lemma_no_shared_input_identity(s: State, i: int, j: int)
    requires
        s.wf(),
        0 <= i < s@.restreams.len(),
        0 <= j < s@.restreams.len(),
        i != j,
    ensures
        !s@.restreams[i].input.same_identity(s@.restreams[j].input),
{
}

/// Law: output destination uniqueness — in a well-formed state, as every
/// mutator's contract maintains, no two outputs of one restream share a
/// destination.
pub proof fn lemma_no_shared_output_destination(s: State, i: int, a: int, b: int)
    requires
        s.wf(),
        0 <= i < s@.restreams.len(),
        0 <= a < s@.restreams[i].outputs.len(),
        0 <= b < s@.restreams[i].outputs.len(),
        a != b,
    ensures
        s@.restreams[i].outputs[a].dst != s@.restreams[i].outputs[b].dst,
{
    assert(s@.restreams[i].wf());
}

/// Law: enabling an input is idempotent — an enable that reported a change
/// makes a second enable report `Some(false)` and change nothing.
pub proof fn lemma_enable_input_idempotent(rs: Seq<RestreamView>, id: u128)
    requires
        spec_enable_input(rs, id).0 == Some(true),
    ensures
        spec_enable_input(spec_enable_input(rs, id).1, id).0 == Some(false),
        spec_enable_input(spec_enable_input(rs, id).1, id).1 == spec_enable_input(rs, id).1,
{
    lemma_first_idx_works(rs, id);
    let i = first_idx(rs, id);
    let rs1 = spec_enable_input(rs, id).1;
    assert(first_match(rs1, id, i)) by {
        assert(forall|k: int| 0 <= k < i ==> (#[trigger] rs1[k]).id == rs[k].id);
    }
    lemma_first_idx_works(rs1, id);
    lemma_first_match_unique(rs1, id, i, first_idx(rs1, id));
}

/// Law: disabling an input is idempotent — a disable that reported a change
/// makes a second disable report `Some(false)` and change nothing.
pub proof fn lemma_disable_input_idempotent(rs: Seq<RestreamView>, id: u128)
    requires
        spec_disable_input(rs, id).0 == Some(true),
    ensures
        spec_disable_input(spec_disable_input(rs, id).1, id).0 == Some(false),
        spec_disable_input(spec_disable_input(rs, id).1, id).1 == spec_disable_input(rs, id).1,
{
    lemma_first_idx_works(rs, id);
    let i = first_idx(rs, id);
    let rs1 = spec_disable_input(rs, id).1;
    assert(first_match(rs1, id, i)) by {
        assert(forall|k: int| 0 <= k < i ==> (#[trigger] rs1[k]).id == rs[k].id);
    }
    lemma_first_idx_works(rs1, id);
    lemma_first_match_unique(rs1, id, i, first_idx(rs1, id));
}

/// Law: setting one output's flag is idempotent — a set that reported a
/// change makes a second identical set report `Some(false)` and change
/// nothing. This covers enabling and disabling alike.
pub proof fn lemma_set_output_enabled_idempotent(
    rs: Seq<RestreamView>,
    input_id: u128,
    output_id: u128,
    en: bool,
)
    requires
        spec_set_output_enabled(rs, input_id, output_id, en).0 == Some(true),
    ensures
        spec_set_output_enabled(
            spec_set_output_enabled(rs, input_id, output_id, en).1,
            input_id,
            output_id,
            en,
        ).0 == Some(false),
        spec_set_output_enabled(
            spec_set_output_enabled(rs, input_id, output_id, en).1,
            input_id,
            output_id,
            en,
        ).1 == spec_set_output_enabled(rs, input_id, output_id, en).1,
{
    lemma_first_idx_works(rs, input_id);
    let i = first_idx(rs, input_id);
    let outs = rs[i].outputs;
    lemma_first_out_idx_works(outs, output_id);
    let j = first_out_idx(outs, output_id);
    let rs1 = spec_set_output_enabled(rs, input_id, output_id, en).1;
    assert(first_match(rs1, input_id, i)) by {
        assert(forall|k: int| 0 <= k < i ==> (#[trigger] rs1[k]).id == rs[k].id);
    }
    lemma_first_idx_works(rs1, input_id);
    lemma_first_match_unique(rs1, input_id, i, first_idx(rs1, input_id));
    let outs1 = rs1[i].outputs;
    assert(first_out_match(outs1, output_id, j)) by {
        assert(forall|k: int| 0 <= k < j ==> (#[trigger] outs1[k]).id == outs[k].id);
    }
    lemma_first_out_idx_works(outs1, output_id);
    lemma_first_out_unique(outs1, output_id, j, first_out_idx(outs1, output_id));
}

/// Law: disabling an input clears its liveness — after a disable that found
/// the restream, that restream holds no broker publisher.
pub proof fn lemma_disable_clears_publisher(rs: Seq<RestreamView>, id: u128, i: int)
    requires
        restreams_wf(rs),
        spec_disable_input(rs, id).0 is Some,
        first_match(spec_disable_input(rs, id).1, id, i),
    ensures
        spec_disable_input(rs, id).1[i].srs_publisher_id is None,
{
    lemma_first_idx_works(rs, id);
    let i0 = first_idx(rs, id);
    let rs1 = spec_disable_input(rs, id).1;
    assert(first_match(rs1, id, i0)) by {
        assert(forall|k: int| 0 <= k < i0 ==> (#[trigger] rs1[k]).id == rs[k].id);
    }
    lemma_first_match_unique(rs1, id, i, i0);
    if !rs[i0].enabled {
        assert(rs[i0].wf());
    }
}

/// A copy of the outputs with every status reset to `Offline`.
fn outputs_with_reset(v: &Vec<Output>) -> (r: Vec<Output>)
    ensures
        outputs_view(r@) == reset_statuses(outputs_view(v@)),
{
    let mut r: Vec<Output> = Vec::new();
    let mut i: usize = 0;
    while i < v.len()
        invariant
            0 <= i <= v@.len(),
            r@.len() == i,
            forall|k: int|
                0 <= k < i ==> (#[trigger] r@[k])@ == (OutputView {
                    status: Status::Offline,
                    ..v@[k]@
                }),
        decreases v@.len() - i,
    {
        let o = &v[i];
        r.push(
            Output {
                id: o.id,
                dst: o.dst.clone(),
                label: match &o.label {
                    Some(l) => Some(l.clone()),
                    None => None,
                },
                enabled: o.enabled,
                status: Status::Offline,
            },
        );
        i = i + 1;
    }
    proof {
        assert(outputs_view(r@) =~= reset_statuses(outputs_view(v@)));
    }
    r
}

} // verus!
