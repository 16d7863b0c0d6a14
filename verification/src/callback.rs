//! The broker callback plane.
//!
//! The embedded RTMP broker reports lifecycle events over HTTP; the
//! functions here decide each request against the current state and set the
//! liveness of the addressed input. Rejections map to HTTP statuses: a
//! `NotFound` to 404, a `Forbidden` to 403.

use vstd::prelude::*;

use crate::state::{hist_push, lemma_hist_push_wf, opt_str_view, State};
use crate::types::{chars_eq, restreams_view, RestreamView, Status};

verus! {

/// The action a broker callback reports.
#[derive(Clone, Copy, Debug, PartialEq, Eq, Structural)]
pub enum CallbackAction {
    OnConnect,
    OnPublish,
    OnUnpublish,
}

/// The caller address a broker callback reports, as far as the gating rule
/// reads it: the four octets of an IPv4 address, or whether an IPv6 address
/// is the loopback one.
#[derive(Clone, Copy, Debug, PartialEq, Eq, Structural)]
pub enum CallerIp {
    V4(u8, u8, u8, u8),
    V6Loopback,
    V6Other,
}

impl CallerIp {
    /// Whether the address is a loopback address.
    pub open spec fn spec_is_loopback(self) -> bool {
        match self {
            CallerIp::V4(a, _b, _c, _d) => a == 127,
            CallerIp::V6Loopback => true,
            CallerIp::V6Other => false,
        }
    }

    /// Whether the address is a loopback address.
    pub fn is_loopback(&self) -> (r: bool)
        ensures
            r == self.spec_is_loopback(),
    {
        match self {
            CallerIp::V4(a, _, _, _) => *a == 127,
            CallerIp::V6Loopback => true,
            CallerIp::V6Other => false,
        }
    }
}

/// One broker callback request.
pub struct CallbackRequest {
    pub action: CallbackAction,
    pub app: String,
    pub stream: Option<String>,
    pub client_id: u64,
    pub ip: CallerIp,
}

/// Why a callback was rejected.
#[derive(Clone, Copy, Debug, PartialEq, Eq, Structural)]
pub enum CallbackError {
    /// No matching app or stream: HTTP 404.
    NotFound,
    /// A pull input may be published only from loopback: HTTP 403.
    Forbidden,
}

/// `i` is the position of the first restream whose input the `app`
/// addresses, among the enabled ones when `need_enabled` is set.
pub open spec fn app_match_at(
    rs: Seq<RestreamView>,
    app: Seq<char>,
    need_enabled: bool,
    i: int,
) -> bool {
    &&& 0 <= i < rs.len()
    &&& (rs[i].enabled || !need_enabled)
    &&& rs[i].input.uses_app(app)
    &&& forall|k: int|
        0 <= k < i ==> !(((#[trigger] rs[k]).enabled || !need_enabled) && rs[k].input.uses_app(
            app,
        ))
}

/// Whether the `app` addresses some restream (an enabled one, when
/// `need_enabled` is set).
pub open spec fn has_app_match(rs: Seq<RestreamView>, app: Seq<char>, need_enabled: bool) -> bool {
    exists|i: int|
        0 <= i < rs.len() && ((#[trigger] rs[i]).enabled || !need_enabled)
            && rs[i].input.uses_app(app)
}

/// The position of the first restream the `app` addresses (meaningful only
/// when `has_app_match` holds).
pub open spec fn app_match_idx(rs: Seq<RestreamView>, app: Seq<char>, need_enabled: bool) -> int {
    choose|i: int| app_match_at(rs, app, need_enabled, i)
}

/// At most one position is the first app match.
pub proof fn lemma_app_match_unique(
    rs: Seq<RestreamView>,
    app: Seq<char>,
    need_enabled: bool,
    i: int,
    j: int,
)
    requires
        app_match_at(rs, app, need_enabled, i),
        app_match_at(rs, app, need_enabled, j),
    ensures
        i == j,
{
    if i < j {
        assert(!((rs[i].enabled || !need_enabled) && rs[i].input.uses_app(app)));
    }
    if j < i {
        assert(!((rs[j].enabled || !need_enabled) && rs[j].input.uses_app(app)));
    }
}

proof fn lemma_app_match_exists_upto(
    rs: Seq<RestreamView>,
    app: Seq<char>,
    need_enabled: bool,
    n: int,
)
    requires
        0 <= n <= rs.len(),
        exists|i: int|
            0 <= i < n && ((#[trigger] rs[i]).enabled || !need_enabled) && rs[i].input.uses_app(
                app,
            ),
    ensures
        exists|i: int| app_match_at(rs, app, need_enabled, i),
    decreases n,
{
    if exists|i: int|
        0 <= i < n - 1 && ((#[trigger] rs[i]).enabled || !need_enabled) && rs[i].input.uses_app(
            app,
        ) {
        lemma_app_match_exists_upto(rs, app, need_enabled, n - 1);
    } else {
        let w = choose|i: int|
            0 <= i < n && ((#[trigger] rs[i]).enabled || !need_enabled) && rs[i].input.uses_app(
                app,
            );
        assert(w == n - 1);
        assert(app_match_at(rs, app, need_enabled, n - 1));
    }
}

/// When the `app` addresses some restream, `app_match_idx` is the first one.
pub proof fn lemma_app_match_idx_works(rs: Seq<RestreamView>, app: Seq<char>, need_enabled: bool)
    requires
        has_app_match(rs, app, need_enabled),
    ensures
        app_match_at(rs, app, need_enabled, app_match_idx(rs, app, need_enabled)),
{
    lemma_app_match_exists_upto(rs, app, need_enabled, rs.len() as int);
}

/// Finds the first restream the `app` addresses.
fn find_app_match(v: &Vec<crate::types::Restream>, app: &str, need_enabled: bool) -> (r: Option<
    usize,
>)
    ensures
        match r {
            Some(i) => app_match_at(restreams_view(v@), app@, need_enabled, i as int),
            None => !has_app_match(restreams_view(v@), app@, need_enabled),
        },
{
    let ghost rs = restreams_view(v@);
    let mut i: usize = 0;
    while i < v.len()
        invariant
            0 <= i <= v@.len(),
            rs == restreams_view(v@),
            rs.len() == v@.len(),
            forall|k: int|
                0 <= k < i ==> !(((#[trigger] rs[k]).enabled || !need_enabled)
                    && rs[k].input.uses_app(app@)),
        decreases v@.len() - i,
    {
        if (v[i].enabled || !need_enabled) && v[i].input.uses_srs_app(app) {
            proof {
                assert((rs[i as int].enabled || !need_enabled) && rs[i as int].input.uses_app(
                    app@,
                ));
            }
            return Some(i);
        }
        i = i + 1;
    }
    None
}

/// What `on_connect` answers: success exactly when some enabled restream's
/// input is addressed by the `app`.
pub open spec fn spec_on_connect(rs: Seq<RestreamView>, app: Seq<char>) -> Result<
    (),
    CallbackError,
> {
    if has_app_match(rs, app, true) {
        Ok(())
    } else {
        Err(CallbackError::NotFound)
    }
}

/// What `on_publish` answers and leaves behind: the stream must be `in` and
/// the `app` must address an enabled restream (else `NotFound`); a pull
/// input published from a non-loopback address is `Forbidden`; otherwise the
/// publisher is recorded and the input goes online.
pub open spec fn spec_on_publish(
    rs: Seq<RestreamView>,
    app: Seq<char>,
    stream: Option<Seq<char>>,
    client_id: u64,
    ip: CallerIp,
) -> (Result<(), CallbackError>, Seq<RestreamView>) {
    if stream != Some("in"@) {
        (Err(CallbackError::NotFound), rs)
    } else if !has_app_match(rs, app, true) {
        (Err(CallbackError::NotFound), rs)
    } else {
        let i = app_match_idx(rs, app, true);
        if rs[i].input.is_pull() && !ip.spec_is_loopback() {
            (Err(CallbackError::Forbidden), rs)
        } else {
            (
                Ok(()),
                rs.update(
                    i,
                    RestreamView {
                        srs_publisher_id: Some(client_id),
                        input: rs[i].input.with_status(Status::Online),
                        ..rs[i]
                    },
                ),
            )
        }
    }
}

/// What `on_unpublish` answers and leaves behind: the `app` must address
/// some restream, enabled or not (else `NotFound`); its publisher is cleared
/// and its input goes offline.
pub open spec fn spec_on_unpublish(rs: Seq<RestreamView>, app: Seq<char>) -> (Result<
    (),
    CallbackError,
>, Seq<RestreamView>) {
    if !has_app_match(rs, app, false) {
        (Err(CallbackError::NotFound), rs)
    } else {
        let i = app_match_idx(rs, app, false);
        (
            Ok(()),
            rs.update(
                i,
                RestreamView {
                    srs_publisher_id: None,
                    input: rs[i].input.with_status(Status::Offline),
                    ..rs[i]
                },
            ),
        )
    }
}

/// Answers an `on_connect` callback: the `app` must address an enabled
/// restream.
pub fn on_connect(state: &State, app: &str) -> (r: Result<(), CallbackError>)
    ensures
        r == spec_on_connect(state@.restreams, app@),
{
    match find_app_match(&state.restreams, app, true) {
        Some(_) => Ok(()),
        None => Err(CallbackError::NotFound),
    }
}

/// Answers an `on_publish` callback, recording the publisher and setting the
/// input online on success.
pub fn on_publish(
    state: &mut State,
    app: &str,
    stream: &Option<String>,
    client_id: u64,
    ip: CallerIp,
) -> (r: Result<(), CallbackError>)
    requires
        old(state).wf(),
    ensures
        final(state).wf(),
        r == spec_on_publish(
            old(state)@.restreams,
            app@,
            opt_str_view(*stream),
            client_id,
            ip,
        ).0,
        final(state)@.restreams == spec_on_publish(
            old(state)@.restreams,
            app@,
            opt_str_view(*stream),
            client_id,
            ip,
        ).1,
        final(state)@.password_hash == old(state)@.password_hash,
        final(state).history@ == hist_push(old(state).history@, final(state)@.restreams),
{
    let ghost rs0 = restreams_view(state.restreams@);
    let stream_ok = match stream {
        Some(s) => chars_eq(s.as_str(), "in"),
        None => false,
    };
    if !stream_ok {
        return Err(CallbackError::NotFound);
    }
    match find_app_match(&state.restreams, app, true) {
        None => Err(CallbackError::NotFound),
        Some(i) => {
            proof {
                lemma_app_match_idx_works(rs0, app@, true);
                lemma_app_match_unique(rs0, app@, true, i as int, app_match_idx(rs0, app@, true));
            }
            if state.restreams[i].input.is_pull() && !ip.is_loopback() {
                return Err(CallbackError::Forbidden);
            }
            state.restreams[i].srs_publisher_id = Some(client_id);
            state.restreams[i].input.set_status(Status::Online);
            proof {
                let rs1 = restreams_view(state.restreams@);
                assert(rs1 =~= rs0.update(
                    i as int,
                    RestreamView {
                        srs_publisher_id: Some(client_id),
                        input: rs0[i as int].input.with_status(Status::Online),
                        ..rs0[i as int]
                    },
                ));
                crate::state::lemma_update_keeps_wf_same_input(rs0, i as int, rs1);
                lemma_hist_push_wf(old(state).history@, rs1);
            }
            let ghost h0 = state.history@;
            state.history = Ghost(hist_push(h0, restreams_view(state.restreams@)));
            Ok(())
        },
    }
}

/// Answers an `on_unpublish` callback, clearing the publisher and setting
/// the input offline.
pub fn on_unpublish(state: &mut State, app: &str) -> (r: Result<(), CallbackError>)
    requires
        old(state).wf(),
    ensures
        final(state).wf(),
        r == spec_on_unpublish(old(state)@.restreams, app@).0,
        final(state)@.restreams == spec_on_unpublish(old(state)@.restreams, app@).1,
        final(state)@.password_hash == old(state)@.password_hash,
        final(state).history@ == hist_push(old(state).history@, final(state)@.restreams),
{
    let ghost rs0 = restreams_view(state.restreams@);
    match find_app_match(&state.restreams, app, false) {
        None => Err(CallbackError::NotFound),
        Some(i) => {
            proof {
                lemma_app_match_idx_works(rs0, app@, false);
                lemma_app_match_unique(rs0, app@, false, i as int, app_match_idx(rs0, app@, false));
            }
            state.restreams[i].srs_publisher_id = None;
            state.restreams[i].input.set_status(Status::Offline);
            proof {
                let rs1 = restreams_view(state.restreams@);
                assert(rs1 =~= rs0.update(
                    i as int,
                    RestreamView {
                        srs_publisher_id: None,
                        input: rs0[i as int].input.with_status(Status::Offline),
                        ..rs0[i as int]
                    },
                ));
                crate::state::lemma_update_keeps_wf_same_input(rs0, i as int, rs1);
                lemma_hist_push_wf(old(state).history@, rs1);
            }
            let ghost h0 = state.history@;
            state.history = Ghost(hist_push(h0, restreams_view(state.restreams@)));
            Ok(())
        },
    }
}

/// Answers one broker callback, whatever its action.
pub fn handle_callback(state: &mut State, req: &CallbackRequest) -> (r: Result<(), CallbackError>)
    requires
        old(state).wf(),
    ensures
        final(state).wf(),
        final(state)@.password_hash == old(state)@.password_hash,
        final(state).history@ == hist_push(old(state).history@, final(state)@.restreams),
        match req.action {
            CallbackAction::OnConnect => r == spec_on_connect(old(state)@.restreams, req.app@)
                && final(state)@.restreams == old(state)@.restreams,
            CallbackAction::OnPublish => r == spec_on_publish(
                old(state)@.restreams,
                req.app@,
                opt_str_view(req.stream),
                req.client_id,
                req.ip,
            ).0 && final(state)@.restreams == spec_on_publish(
                old(state)@.restreams,
                req.app@,
                opt_str_view(req.stream),
                req.client_id,
                req.ip,
            ).1,
            CallbackAction::OnUnpublish => r == spec_on_unpublish(old(state)@.restreams, req.app@).0
                && final(state)@.restreams == spec_on_unpublish(old(state)@.restreams, req.app@).1,
        },
{
    match req.action {
        CallbackAction::OnConnect => on_connect(state, req.app.as_str()),
        CallbackAction::OnPublish => on_publish(
            state,
            req.app.as_str(),
            &req.stream,
            req.client_id,
            req.ip,
        ),
        CallbackAction::OnUnpublish => on_unpublish(state, req.app.as_str()),
    }
}

/// Law: callback gating — when the `in` stream of an enabled pull input is
/// published, a non-loopback caller is rejected as forbidden and nothing
/// changes, while a loopback caller succeeds, the input goes online and the
/// publisher is recorded.
pub proof fn lemma_publish_gating(
    rs: Seq<RestreamView>,
    app: Seq<char>,
    client_id: u64,
    ip: CallerIp,
    i: int,
)
    requires
        app_match_at(rs, app, true, i),
        rs[i].input.is_pull(),
    ensures
        !ip.spec_is_loopback() ==> spec_on_publish(rs, app, Some("in"@), client_id, ip) == (
            Result::<(), CallbackError>::Err(CallbackError::Forbidden),
            rs,
        ),
        ip.spec_is_loopback() ==> {
            let step = spec_on_publish(rs, app, Some("in"@), client_id, ip);
            &&& step.0 == Result::<(), CallbackError>::Ok(())
            &&& step.1[i].input.status() == Status::Online
            &&& step.1[i].srs_publisher_id == Some(client_id)
        },
{
    assert(has_app_match(rs, app, true));
    lemma_app_match_idx_works(rs, app, true);
    lemma_app_match_unique(rs, app, true, i, app_match_idx(rs, app, true));
}

} // verus!
