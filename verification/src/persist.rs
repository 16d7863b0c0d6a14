//! The persisted form of the configuration.
//!
//! The journal keeps the whole root as one document: the password hash and
//! the restreams with their IDs, kinds, identities, labels and enabled
//! flags. Liveness (`status`) and the transient broker publisher are never
//! persisted: a reload starts both afresh.

use vstd::prelude::*;

use crate::ids::{InputId, OutputId};
use crate::state::{State, StateView};
use crate::types::{
    outputs_view, restreams_view, Input, InputView, Output, OutputView, PullInput, PullInputView,
    PushInput, PushInputView, Restream, RestreamView, Status,
};

verus! {

/// The persisted form of an output: no status.
#[derive(Debug, PartialEq, Eq)]
pub struct PersistedOutput {
    pub id: OutputId,
    pub dst: String,
    pub label: Option<String>,
    pub enabled: bool,
}

/// The mathematical value of a [`PersistedOutput`].
pub ghost struct PersistedOutputView {
    pub id: u128,
    pub dst: Seq<char>,
    pub label: Option<Seq<char>>,
    pub enabled: bool,
}

impl View for PersistedOutput {
    type V = PersistedOutputView;

    open spec fn view(&self) -> PersistedOutputView {
        PersistedOutputView {
            id: self.id@,
            dst: self.dst@,
            label: match self.label {
                Some(ref l) => Some(l@),
                None => None,
            },
            enabled: self.enabled,
        }
    }
}

/// The persisted form of an input: kind and identity, no status.
#[derive(Debug, PartialEq, Eq)]
pub enum PersistedInput {
    Push { name: String },
    Pull { src: String },
}

/// The mathematical value of a [`PersistedInput`].
pub ghost enum PersistedInputView {
    Push { name: Seq<char> },
    Pull { src: Seq<char> },
}

impl View for PersistedInput {
    type V = PersistedInputView;

    open spec fn view(&self) -> PersistedInputView {
        match self {
            PersistedInput::Push { name } => PersistedInputView::Push { name: name@ },
            PersistedInput::Pull { src } => PersistedInputView::Pull { src: src@ },
        }
    }
}

/// The persisted form of a restream: no broker publisher.
#[derive(Debug, PartialEq, Eq)]
pub struct PersistedRestream {
    pub id: InputId,
    pub input: PersistedInput,
    pub outputs: Vec<PersistedOutput>,
    pub enabled: bool,
}

/// The mathematical value of a [`PersistedRestream`].
pub ghost struct PersistedRestreamView {
    pub id: u128,
    pub input: PersistedInputView,
    pub outputs: Seq<PersistedOutputView>,
    pub enabled: bool,
}

impl View for PersistedRestream {
    type V = PersistedRestreamView;

    open spec fn view(&self) -> PersistedRestreamView {
        PersistedRestreamView {
            id: self.id@,
            input: self.input@,
            outputs: self.outputs@.map_values(|o: PersistedOutput| o@),
            enabled: self.enabled,
        }
    }
}

/// The persisted form of the whole root.
#[derive(Debug, PartialEq, Eq)]
pub struct PersistedState {
    pub password_hash: Option<String>,
    pub restreams: Vec<PersistedRestream>,
}

/// The mathematical value of a [`PersistedState`].
pub ghost struct PersistedStateView {
    pub password_hash: Option<Seq<char>>,
    pub restreams: Seq<PersistedRestreamView>,
}

impl View for PersistedState {
    type V = PersistedStateView;

    open spec fn view(&self) -> PersistedStateView {
        PersistedStateView {
            password_hash: match self.password_hash {
                Some(ref h) => Some(h@),
                None => None,
            },
            restreams: self.restreams@.map_values(|r: PersistedRestream| r@),
        }
    }
}

/// What one output persists to.
pub open spec fn persist_output(o: OutputView) -> PersistedOutputView {
    PersistedOutputView { id: o.id, dst: o.dst, label: o.label, enabled: o.enabled }
}

/// What one input persists to.
pub open spec fn persist_input(i: InputView) -> PersistedInputView {
    match i {
        InputView::Push(p) => PersistedInputView::Push { name: p.name },
        InputView::Pull(p) => PersistedInputView::Pull { src: p.src },
    }
}

/// What one restream persists to.
pub open spec fn persist_restream(r: RestreamView) -> PersistedRestreamView {
    PersistedRestreamView {
        id: r.id,
        input: persist_input(r.input),
        outputs: r.outputs.map_values(|o: OutputView| persist_output(o)),
        enabled: r.enabled,
    }
}

/// What the whole root persists to.
pub open spec fn persist_state(s: StateView) -> PersistedStateView {
    PersistedStateView {
        password_hash: s.password_hash,
        restreams: s.restreams.map_values(|r: RestreamView| persist_restream(r)),
    }
}

/// What one persisted output reloads to: offline.
pub open spec fn reload_output(o: PersistedOutputView) -> OutputView {
    OutputView { id: o.id, dst: o.dst, label: o.label, enabled: o.enabled, status: Status::Offline }
}

/// What one persisted input reloads to: offline.
pub open spec fn reload_input(i: PersistedInputView) -> InputView {
    match i {
        PersistedInputView::Push { name } => InputView::Push(
            PushInputView { name: name, status: Status::Offline },
        ),
        PersistedInputView::Pull { src } => InputView::Pull(
            PullInputView { src: src, status: Status::Offline },
        ),
    }
}

/// What one persisted restream reloads to: no publisher, all offline.
pub open spec fn reload_restream(r: PersistedRestreamView) -> RestreamView {
    RestreamView {
        id: r.id,
        input: reload_input(r.input),
        outputs: r.outputs.map_values(|o: PersistedOutputView| reload_output(o)),
        enabled: r.enabled,
        srs_publisher_id: None,
    }
}

/// What the whole persisted root reloads to.
pub open spec fn reload_state(p: PersistedStateView) -> StateView {
    StateView {
        password_hash: p.password_hash,
        restreams: p.restreams.map_values(|r: PersistedRestreamView| reload_restream(r)),
    }
}

/// The same state with all liveness forgotten: every status offline and no
/// broker publisher anywhere.
pub open spec fn reset_view(s: StateView) -> StateView {
    StateView {
        password_hash: s.password_hash,
        restreams: s.restreams.map_values(
            |r: RestreamView| RestreamView {
                id: r.id,
                input: reload_input(persist_input(r.input)),
                outputs: r.outputs.map_values(
                    |o: OutputView| OutputView { status: Status::Offline, ..o },
                ),
                enabled: r.enabled,
                srs_publisher_id: None,
            },
        ),
    }
}

/// Law: the persist-then-reload round trip loses exactly the liveness — the
/// reloaded root equals the original with every status reset to `Offline`
/// and every broker publisher cleared.
pub proof fn lemma_persist_reload_round_trip(s: StateView)
    ensures
        reload_state(persist_state(s)) == reset_view(s),
{
    let lhs = reload_state(persist_state(s));
    let rhs = reset_view(s);
    assert forall|i: int| 0 <= i < s.restreams.len() implies lhs.restreams[i] == #[trigger] rhs.restreams[i] by {
        let r = s.restreams[i];
        assert(reload_restream(persist_restream(r)).outputs =~= r.outputs.map_values(
            |o: OutputView| OutputView { status: Status::Offline, ..o },
        ));
    }
    assert(lhs.restreams =~= rhs.restreams);
}

/// Persists one output.
fn persist_output_exec(o: &Output) -> (p: PersistedOutput)
    ensures
        p@ == persist_output(o@),
{
    PersistedOutput {
        id: o.id,
        dst: o.dst.clone(),
        label: match &o.label {
            Some(l) => Some(l.clone()),
            None => None,
        },
        enabled: o.enabled,
    }
}

impl State {
    /// The persisted form of the current configuration.
    pub fn to_persisted(&self) -> (p: PersistedState)
        ensures
            p@ == persist_state(self@),
    {
        let mut prs: Vec<PersistedRestream> = Vec::new();
        let mut i: usize = 0;
        while i < self.restreams.len()
            invariant
                0 <= i <= self.restreams@.len(),
                prs@.len() == i,
                forall|k: int|
                    0 <= k < i ==> (#[trigger] prs@[k])@ == persist_restream(
                        restreams_view(self.restreams@)[k],
                    ),
            decreases self.restreams@.len() - i,
        {
            let r = &self.restreams[i];
            let mut pouts: Vec<PersistedOutput> = Vec::new();
            let mut j: usize = 0;
            while j < r.outputs.len()
                invariant
                    0 <= j <= r.outputs@.len(),
                    pouts@.len() == j,
                    forall|k: int|
                        0 <= k < j ==> (#[trigger] pouts@[k])@ == persist_output(
                            outputs_view(r.outputs@)[k],
                        ),
                decreases r.outputs@.len() - j,
            {
                pouts.push(persist_output_exec(&r.outputs[j]));
                j = j + 1;
            }
            let pinput = match &r.input {
                Input::Push(pi) => PersistedInput::Push { name: pi.name.clone() },
                Input::Pull(pi) => PersistedInput::Pull { src: pi.src.clone() },
            };
            let pr = PersistedRestream { id: r.id, input: pinput, outputs: pouts, enabled: r.enabled };
            proof {
                assert(pr@.outputs =~= persist_restream(restreams_view(self.restreams@)[i as int]).outputs);
            }
            prs.push(pr);
            i = i + 1;
        }
        let p = PersistedState {
            password_hash: match &self.password_hash {
                Some(h) => Some(h.clone()),
                None => None,
            },
            restreams: prs,
        };
        proof {
            assert(p@.restreams =~= persist_state(self@).restreams);
        }
        p
    }

    /// Rebuilds the in-memory state from its persisted form: every status
    /// starts `Offline` and no restream holds a broker publisher.
    pub fn from_persisted(p: PersistedState) -> (s: State)
        ensures
            s@ == reload_state(p@),
            s.history@ == seq![s@.restreams],
    {
        let ghost pv = p@;
        let mut rs: Vec<Restream> = Vec::new();
        let mut i: usize = 0;
        let PersistedState { password_hash, restreams } = p;
        while i < restreams.len()
            invariant
                0 <= i <= restreams@.len(),
                rs@.len() == i,
                pv.restreams == restreams@.map_values(|r: PersistedRestream| r@),
                pv.restreams.len() == restreams@.len(),
                forall|k: int|
                    0 <= k < i ==> (#[trigger] rs@[k])@ == reload_restream(pv.restreams[k]),
            decreases restreams@.len() - i,
        {
            let r = &restreams[i];
            let mut outs: Vec<Output> = Vec::new();
            let mut j: usize = 0;
            while j < r.outputs.len()
                invariant
                    0 <= j <= r.outputs@.len(),
                    outs@.len() == j,
                    forall|k: int|
                        0 <= k < j ==> (#[trigger] outs@[k])@ == reload_output(r.outputs@[k]@),
                decreases r.outputs@.len() - j,
            {
                let po = &r.outputs[j];
                outs.push(
                    Output {
                        id: po.id,
                        dst: po.dst.clone(),
                        label: match &po.label {
                            Some(l) => Some(l.clone()),
                            None => None,
                        },
                        enabled: po.enabled,
                        status: Status::Offline,
                    },
                );
                j = j + 1;
            }
            let input = match &r.input {
                PersistedInput::Push { name } => Input::Push(
                    PushInput { name: name.clone(), status: Status::Offline },
                ),
                PersistedInput::Pull { src } => Input::Pull(
                    PullInput { src: src.clone(), status: Status::Offline },
                ),
            };
            let nr = Restream {
                id: r.id,
                input,
                outputs: outs,
                enabled: r.enabled,
                srs_publisher_id: None,
            };
            proof {
                assert(nr@.outputs =~= reload_restream(pv.restreams[i as int]).outputs);
                assert(pv.restreams[i as int] == restreams@[i as int]@);
            }
            rs.push(nr);
            i = i + 1;
        }
        let ghost h: Seq<Seq<RestreamView>> = seq![restreams_view(rs@)];
        let s = State { password_hash, restreams: rs, history: Ghost(h) };
        proof {
            assert(s@.restreams =~= reload_state(pv).restreams);
        }
        s
    }
}

} // verus!
