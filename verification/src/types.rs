//! The forwarding topology: inputs, outputs and restreams.
//!
//! A restream couples one input (pulled from a source URL or pushed by a
//! publisher under a name) with an ordered list of output destinations.
//! URLs and names are carried as plain strings; identifiers are opaque
//! 128-bit values.

use vstd::prelude::*;

use crate::decimal::{dec_seq, parse_u64_spec, parse_u64, u64_to_dec, lemma_parse_of_dec};
use crate::fingerprint::{fingerprint_of, fingerprint_str};
use crate::ids::{InputId, OutputId};

verus! {

/// Liveness of an input or an output, as last reported at runtime.
///
/// Liveness is runtime truth only: a persisted and reloaded configuration
/// starts with every status at `Offline`.
#[derive(Clone, Copy, Debug, PartialEq, Eq, Structural)]
pub enum Status {
    Offline,
    Initializing,
    Online,
}

/// An input that the system itself fetches from a remote `src` URL.
#[derive(Debug, PartialEq, Eq)]
pub struct PullInput {
    pub src: String,
    pub status: Status,
}

/// The mathematical value of a [`PullInput`].
pub ghost struct PullInputView {
    pub src: Seq<char>,
    pub status: Status,
}

impl View for PullInput {
    type V = PullInputView;

    open spec fn view(&self) -> PullInputView {
        PullInputView { src: self.src@, status: self.status }
    }
}

impl Clone for PullInput {
    fn clone(&self) -> (r: Self)
        ensures
            r@ == self@,
    {
        PullInput { src: self.src.clone(), status: self.status }
    }
}

impl PullInput {
    /// Whether `other` denotes the same stream: same source URL.
    pub fn is(&self, other: &Self) -> (r: bool)
        ensures
            r == (self@.src == other@.src),
    {
        self.src == other.src
    }
}

/// An input that a remote publisher pushes into the broker under `name`.
#[derive(Debug, PartialEq, Eq)]
pub struct PushInput {
    pub name: String,
    pub status: Status,
}

/// The mathematical value of a [`PushInput`].
pub ghost struct PushInputView {
    pub name: Seq<char>,
    pub status: Status,
}

impl View for PushInput {
    type V = PushInputView;

    open spec fn view(&self) -> PushInputView {
        PushInputView { name: self.name@, status: self.status }
    }
}

impl Clone for PushInput {
    fn clone(&self) -> (r: Self)
        ensures
            r@ == self@,
    {
        PushInput { name: self.name.clone(), status: self.status }
    }
}

impl PushInput {
    /// Whether `other` denotes the same stream: same app name.
    pub fn is(&self, other: &Self) -> (r: bool)
        ensures
            r == (self@.name == other@.name),
    {
        self.name == other.name
    }
}

/// The input of a restream: either pushed into the broker or pulled by us.
#[derive(Debug, PartialEq, Eq)]
pub enum Input {
    Push(PushInput),
    Pull(PullInput),
}

/// The mathematical value of an [`Input`].
pub ghost enum InputView {
    Push(PushInputView),
    Pull(PullInputView),
}

impl View for Input {
    type V = InputView;

    open spec fn view(&self) -> InputView {
        match self {
            Input::Push(i) => InputView::Push(i@),
            Input::Pull(i) => InputView::Pull(i@),
        }
    }
}

impl Clone for Input {
    fn clone(&self) -> (r: Self)
        ensures
            r@ == self@,
    {
        match self {
            Input::Push(i) => Input::Push(i.clone()),
            Input::Pull(i) => Input::Pull(i.clone()),
        }
    }
}

impl InputView {
    /// Whether this is a pull input.
    pub open spec fn is_pull(self) -> bool {
        self is Pull
    }

    /// The identity of the input under its kind: the source URL of a pull
    /// input, the app name of a push input.
    pub open spec fn identity(self) -> Seq<char> {
        match self {
            InputView::Pull(i) => i.src,
            InputView::Push(i) => i.name,
        }
    }

    /// Whether two inputs denote the same stream: same kind, same identity.
    pub open spec fn same_identity(self, other: InputView) -> bool {
        self.is_pull() == other.is_pull() && self.identity() == other.identity()
    }

    /// The current liveness of the input.
    pub open spec fn status(self) -> Status {
        match self {
            InputView::Pull(i) => i.status,
            InputView::Push(i) => i.status,
        }
    }

    /// The same input with its liveness replaced.
    pub open spec fn with_status(self, new: Status) -> InputView {
        match self {
            InputView::Pull(i) => InputView::Pull(PullInputView { status: new, ..i }),
            InputView::Push(i) => InputView::Push(PushInputView { status: new, ..i }),
        }
    }

    /// The 64-bit fingerprint of the input's identity.
    pub open spec fn fingerprint(self) -> u64 {
        fingerprint_of(self.identity())
    }

    /// The broker app under which this input's stream lives: the plain name
    /// for a push input, `pull_<fingerprint>` for a pull input.
    pub open spec fn srs_app(self) -> Seq<char> {
        match self {
            InputView::Pull(i) => "pull_"@ + dec_seq(fingerprint_of(i.src) as nat),
            InputView::Push(i) => i.name,
        }
    }

    /// The broker URL from which a forwarder reads this input.
    pub open spec fn srs_url(self) -> Seq<char> {
        "rtmp://127.0.0.1:1935/"@ + self.srs_app() + "/in"@
    }

    /// Whether a broker-reported `app` addresses this input: for a pull
    /// input, `app` is `pull_` followed by decimal digits denoting the
    /// input's fingerprint; for a push input, `app` equals its name.
    pub open spec fn uses_app(self, app: Seq<char>) -> bool {
        match self {
            InputView::Pull(i) => app.len() >= 5 && app.take(5) == "pull_"@
                && parse_u64_spec(app.skip(5)) == Some(fingerprint_of(i.src)),
            InputView::Push(i) => app == i.name,
        }
    }
}

/// Compares two string slices character by character.
pub fn chars_eq(a: &str, b: &str) -> (r: bool)
    ensures
        r == (a@ == b@),
{
    let la = a.unicode_len();
    let lb = b.unicode_len();
    if la != lb {
        return false;
    }
    let mut i: usize = 0;
    while i < la
        invariant
            0 <= i <= la,
            la == a@.len(),
            la == b@.len(),
            forall|k: int| 0 <= k < i ==> a@[k] == b@[k],
        decreases la - i,
    {
        if a.get_char(i) != b.get_char(i) {
            return false;
        }
        i = i + 1;
    }
    proof {
        assert(a@ =~= b@);
    }
    true
}

impl Input {
    /// Whether this is a pull input.
    pub fn is_pull(&self) -> (r: bool)
        ensures
            r == self@.is_pull(),
    {
        match self {
            Input::Pull(_) => true,
            Input::Push(_) => false,
        }
    }

    /// The current liveness of the input.
    pub fn status(&self) -> (r: Status)
        ensures
            r == self@.status(),
    {
        match self {
            Input::Pull(i) => i.status,
            Input::Push(i) => i.status,
        }
    }

    /// Replaces the liveness of the input.
    pub fn set_status(&mut self, new: Status)
        ensures
            final(self)@ == old(self)@.with_status(new),
    {
        match self {
            Input::Pull(i) => i.status = new,
            Input::Push(i) => i.status = new,
        }
    }

    /// Whether `other` denotes the same stream: same kind, same identity.
    pub fn is(&self, other: &Self) -> (r: bool)
        ensures
            r == self@.same_identity(other@),
    {
        match (self, other) {
            (Input::Pull(a), Input::Pull(b)) => a.is(b),
            (Input::Push(a), Input::Push(b)) => a.is(b),
            _ => false,
        }
    }

    /// The 64-bit fingerprint of the input's identity.
    pub fn hash(&self) -> (r: u64)
        ensures
            r == self@.fingerprint(),
    {
        match self {
            Input::Pull(i) => fingerprint_str(i.src.as_str()),
            Input::Push(i) => fingerprint_str(i.name.as_str()),
        }
    }

    /// The remote URL this input is pulled from, for a pull input.
    pub fn upstream_url(&self) -> (r: Option<&String>)
        ensures
            match r {
                Some(u) => self@.is_pull() && u@ == self@.identity(),
                None => !self@.is_pull(),
            },
    {
        match self {
            Input::Pull(i) => Some(&i.src),
            Input::Push(_) => None,
        }
    }

    /// The fingerprint of the upstream URL, for a pull input.
    pub fn upstream_url_hash(&self) -> (r: Option<u64>)
        ensures
            match r {
                Some(h) => self@.is_pull() && h == self@.fingerprint(),
                None => !self@.is_pull(),
            },
    {
        match self.upstream_url() {
            Some(u) => Some(fingerprint_str(u.as_str())),
            None => None,
        }
    }

    /// The broker app under which this input's stream lives.
    pub fn srs_app(&self) -> (r: String)
        ensures
            r@ == self@.srs_app(),
    {
        match self {
            Input::Pull(_) => {
                let mut s = "pull_".to_owned();
                s.append(u64_to_dec(self.hash()).as_str());
                s
            },
            Input::Push(i) => i.name.clone(),
        }
    }

    /// The broker URL from which a forwarder reads this input.
    pub fn srs_url(&self) -> (r: String)
        ensures
            r@ == self@.srs_url(),
    {
        let mut s = "rtmp://127.0.0.1:1935/".to_owned();
        s.append(self.srs_app().as_str());
        s.append("/in");
        proof {
            assert(s@ =~= self@.srs_url());
        }
        s
    }

    /// The fingerprint of the broker URL of this input.
    pub fn srs_url_hash(&self) -> (r: u64)
        ensures
            r == fingerprint_of(self@.srs_url()),
    {
        fingerprint_str(self.srs_url().as_str())
    }

    /// Whether a broker-reported `app` addresses this input.
    pub fn uses_srs_app(&self, app: &str) -> (r: bool)
        ensures
            r == self@.uses_app(app@),
    {
        match self {
            Input::Pull(_) => {
                let n = app.unicode_len();
                if n < 5 {
                    return false;
                }
                let prefix = app.substring_char(0, 5);
                if !chars_eq(prefix, "pull_") {
                    return false;
                }
                let digits = app.substring_char(5, n);
                let parsed = parse_u64(digits);
                match parsed {
                    Some(v) => v == self.hash(),
                    None => false,
                }
            },
            Input::Push(i) => chars_eq(app, i.name.as_str()),
        }
    }
}

/// The broker app name of an input always addresses that input.
pub proof fn lemma_srs_app_addresses_input(i: InputView)
    ensures
        i.uses_app(i.srs_app()),
{
    match i {
        InputView::Pull(p) => {
            let app = i.srs_app();
            reveal_strlit("pull_");
            assert(app.take(5) =~= "pull_"@);
            assert(app.skip(5) =~= dec_seq(fingerprint_of(p.src) as nat));
            lemma_parse_of_dec(fingerprint_of(p.src));
        },
        InputView::Push(_) => {},
    }
}

/// One output destination of a restream.
#[derive(Debug, PartialEq, Eq)]
pub struct Output {
    pub id: OutputId,
    pub dst: String,
    pub label: Option<String>,
    pub enabled: bool,
    pub status: Status,
}

/// The mathematical value of an [`Output`].
pub ghost struct OutputView {
    pub id: u128,
    pub dst: Seq<char>,
    pub label: Option<Seq<char>>,
    pub enabled: bool,
    pub status: Status,
}

impl View for Output {
    type V = OutputView;

    open spec fn view(&self) -> OutputView {
        OutputView {
            id: self.id@,
            dst: self.dst@,
            label: match self.label {
                Some(l) => Some(l@),
                None => None,
            },
            enabled: self.enabled,
            status: self.status,
        }
    }
}

impl Clone for Output {
    fn clone(&self) -> (r: Self)
        ensures
            r@ == self@,
    {
        Output {
            id: self.id,
            dst: self.dst.clone(),
            label: match &self.label {
                Some(l) => Some(l.clone()),
                None => None,
            },
            enabled: self.enabled,
            status: self.status,
        }
    }
}

impl Output {
    /// Whether `other` forwards to the same place: same destination URL.
    pub fn is(&self, other: &Self) -> (r: bool)
        ensures
            r == (self@.dst == other@.dst),
    {
        self.dst == other.dst
    }

    /// The 64-bit fingerprint of the destination URL.
    pub fn hash(&self) -> (r: u64)
        ensures
            r == fingerprint_of(self@.dst),
    {
        fingerprint_str(self.dst.as_str())
    }
}

/// The view of a sequence of outputs.
pub open spec fn outputs_view(v: Seq<Output>) -> Seq<OutputView> {
    v.map_values(|o: Output| o@)
}

/// One declared forwarding unit: an input and its output destinations.
#[derive(Debug, PartialEq, Eq)]
pub struct Restream {
    pub id: InputId,
    pub input: Input,
    pub outputs: Vec<Output>,
    pub enabled: bool,
    pub srs_publisher_id: Option<u64>,
}

/// The mathematical value of a [`Restream`].
pub ghost struct RestreamView {
    pub id: u128,
    pub input: InputView,
    pub outputs: Seq<OutputView>,
    pub enabled: bool,
    pub srs_publisher_id: Option<u64>,
}

impl View for Restream {
    type V = RestreamView;

    open spec fn view(&self) -> RestreamView {
        RestreamView {
            id: self.id@,
            input: self.input@,
            outputs: outputs_view(self.outputs@),
            enabled: self.enabled,
            srs_publisher_id: self.srs_publisher_id,
        }
    }
}

/// Clones a list of outputs.
pub fn clone_outputs(v: &Vec<Output>) -> (r: Vec<Output>)
    ensures
        outputs_view(r@) == outputs_view(v@),
{
    let mut r: Vec<Output> = Vec::new();
    let mut i: usize = 0;
    while i < v.len()
        invariant
            0 <= i <= v.len(),
            r@.len() == i,
            forall|k: int| 0 <= k < i ==> r@[k]@ == v@[k]@,
        decreases v.len() - i,
    {
        r.push(v[i].clone());
        i = i + 1;
    }
    proof {
        assert(outputs_view(r@) =~= outputs_view(v@));
    }
    r
}

impl Clone for Restream {
    fn clone(&self) -> (r: Self)
        ensures
            r@ == self@,
    {
        Restream {
            id: self.id,
            input: self.input.clone(),
            outputs: clone_outputs(&self.outputs),
            enabled: self.enabled,
            srs_publisher_id: self.srs_publisher_id,
        }
    }
}

/// The view of a sequence of restreams.
pub open spec fn restreams_view(v: Seq<Restream>) -> Seq<RestreamView> {
    v.map_values(|r: Restream| r@)
}

/// Clones a list of restreams.
pub fn clone_restreams(v: &Vec<Restream>) -> (r: Vec<Restream>)
    ensures
        restreams_view(r@) == restreams_view(v@),
{
    let mut r: Vec<Restream> = Vec::new();
    let mut i: usize = 0;
    while i < v.len()
        invariant
            0 <= i <= v.len(),
            r@.len() == i,
            forall|k: int| 0 <= k < i ==> r@[k]@ == v@[k]@,
        decreases v.len() - i,
    {
        r.push(v[i].clone());
        i = i + 1;
    }
    proof {
        assert(restreams_view(r@) =~= restreams_view(v@));
    }
    r
}

} // verus!
