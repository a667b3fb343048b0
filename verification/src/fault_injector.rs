//! Fault injection: named points at which a test makes an operation fail.
//!
//! A [`FaultRegistry`] holds, for each point, how often it was hit and what
//! happens there. Nothing happens while injection is disabled.

use crate::name_map::NameMap;
use vstd::prelude::*;

verus! {

/// `std::io::ErrorKind`, carried through unread.
#[verifier::external_type_specification]
#[verifier::external_body]
pub struct ExErrorKind(std::io::ErrorKind);

/// What an injected fault does.
#[derive(Debug)]
pub enum FaultAction {
    /// Do nothing, continue normally.
    Pass,
    /// Return an I/O error.
    IoError(std::io::ErrorKind),
    /// Return an error message.
    Error(String),
    /// Pause (for synchronizing concurrent tests).
    Pause,
    /// Trigger the fault on the Nth invocation, then recover.
    FailOnNth(u64, Box<FaultAction>),
}

/// What an action says.
pub enum ActionModel {
    /// Do nothing, continue normally.
    Pass,
    /// Return an I/O error.
    IoError(std::io::ErrorKind),
    /// Return an error message.
    Error(Seq<char>),
    /// Pause.
    Pause,
    /// Trigger the fault on the Nth invocation, then recover.
    FailOnNth(u64, Box<ActionModel>),
}

impl FaultAction {
    /// What the action says.
    pub open spec fn model(self) -> ActionModel
        decreases self,
    {
        match self {
            FaultAction::Pass => ActionModel::Pass,
            FaultAction::IoError(kind) => ActionModel::IoError(kind),
            FaultAction::Error(text) => ActionModel::Error(text@),
            FaultAction::Pause => ActionModel::Pause,
            FaultAction::FailOnNth(n, action) => ActionModel::FailOnNth(n, Box::new((*action).model())),
        }
    }
}

impl Clone for FaultAction {
    fn clone(&self) -> (r: Self)
        ensures
            r.model() == self.model(),
        decreases self,
    {
        match self {
            FaultAction::Pass => FaultAction::Pass,
            FaultAction::IoError(kind) => FaultAction::IoError(*kind),
            FaultAction::Error(text) => FaultAction::Error(text.as_str().to_owned()),
            FaultAction::Pause => FaultAction::Pause,
            FaultAction::FailOnNth(n, action) => {
                let inner: FaultAction = (&**action).clone();
                FaultAction::FailOnNth(*n, Box::new(inner))
            },
        }
    }
}

/// What the application makes happen at a fault point, in its own way.
pub trait FaultSource: Sized {
    /// Says what the next call of the fault point does.
    fn next_fault(&mut self) -> FaultAction;
}

/// The source of an application that has no way of its own.
#[derive(Debug, Clone, Copy, PartialEq, Eq, Structural)]
pub struct NoSource;

impl FaultSource for NoSource {
    fn next_fault(&mut self) -> (r: FaultAction)
        ensures
            r.model() == ActionModel::Pass,
    {
        FaultAction::Pass
    }
}

/// What happens at a fault point.
#[derive(Debug)]
pub enum FaultCallback<U = NoSource> {
    /// The same action every time.
    Always(FaultAction),
    /// The action on call number `n` alone, counted from the time at which
    /// the callback was set.
    OnNth {
        /// Which call fails.
        n: u64,
        /// Calls so far.
        seen: u64,
        /// What the failing call does.
        action: FaultAction,
    },
    /// What the application says, call by call.
    Custom(U),
}

/// What a callback that counts its calls says.
pub enum CallbackModel {
    /// The same action every time.
    Always(ActionModel),
    /// The action on call `n` alone.
    OnNth {
        /// Which call fails.
        n: u64,
        /// Calls so far.
        seen: u64,
        /// What the failing call does.
        action: ActionModel,
    },
}

impl CallbackModel {
    /// The callback after one more call.
    pub open spec fn called(self) -> CallbackModel {
        match self {
            CallbackModel::Always(action) => self,
            CallbackModel::OnNth { n, seen, action } => CallbackModel::OnNth {
                n,
                seen: (seen + 1) as u64,
                action,
            },
        }
    }

    /// What the next call does.
    pub open spec fn next_action(self) -> ActionModel {
        match self {
            CallbackModel::Always(action) => action,
            CallbackModel::OnNth { n, seen, action } => if seen + 1 == n {
                action
            } else {
                ActionModel::Pass
            },
        }
    }

    /// The next call can be counted.
    pub open spec fn countable(self) -> bool {
        self matches CallbackModel::OnNth { seen, .. } ==> seen < u64::MAX
    }
}

impl<U> FaultCallback<U> {
    /// What the callback says, unless the application decides.
    pub open spec fn model(self) -> Option<CallbackModel> {
        match self {
            FaultCallback::Always(action) => Some(CallbackModel::Always(action.model())),
            FaultCallback::OnNth { n, seen, action } => Some(
                CallbackModel::OnNth { n, seen, action: action.model() },
            ),
            FaultCallback::Custom(_) => None,
        }
    }
}

impl<U: FaultSource> FaultCallback<U> {
    /// Makes one call.
    fn call(self) -> (r: (FaultCallback<U>, FaultAction))
        requires
            self.model() matches Some(m) ==> m.countable(),
        ensures
            self.model() matches Some(m) ==> r.0.model() == Some(m.called()) && r.1.model()
                == m.next_action(),
            self matches FaultCallback::Custom(source) ==> exists|u: &mut U| *u == source && r.0
                == FaultCallback::Custom(*final(u)) && #[trigger] call_ensures(
                U::next_fault,
                (u,),
                r.1,
            ),
    {
        match self {
            FaultCallback::Always(action) => {
                let out = action.clone();
                (FaultCallback::Always(action), out)
            },
            FaultCallback::Custom(source) => {
                let mut source = source;
                let out = source.next_fault();
                (FaultCallback::Custom(source), out)
            },
            FaultCallback::OnNth { n, seen, action } => {
                let seen: u64 = seen + 1;
                let out = if seen == n {
                    action.clone()
                } else {
                    FaultAction::Pass
                };
                (FaultCallback::OnNth { n, seen, action }, out)
            },
        }
    }
}

/// The fault points of one run.
#[derive(Debug)]
pub struct FaultRegistry<U = NoSource> {
    /// What happens at each point.
    pub callbacks: NameMap<FaultCallback<U>>,
    /// How often each point was hit.
    pub hit_counts: NameMap<u64>,
    /// Whether anything is injected.
    pub enabled: bool,
}

impl FaultRegistry<NoSource> {
    /// Makes a disabled registry without points, for callbacks that count.
    pub fn new() -> (r: Self)
        ensures
            r.wf(),
            r.blank(),
            !r.enabled,
    {
        FaultRegistry::with_sources()
    }
}

impl<U> FaultRegistry<U> {
    /// No name occurs twice.
    pub open spec fn wf(&self) -> bool {
        self.callbacks.wf() && self.hit_counts.wf()
    }

    /// How often a point was hit.
    pub open spec fn hits(&self, name: Seq<char>) -> u64 {
        if self.hit_counts@.contains_key(name) {
            self.hit_counts@[name]
        } else {
            0
        }
    }

    /// Nothing is counted, and nothing happens anywhere.
    pub open spec fn blank(&self) -> bool {
        &&& self.callbacks@ == Map::<Seq<char>, FaultCallback<U>>::empty()
        &&& self.hit_counts@ == Map::<Seq<char>, u64>::empty()
    }

    /// Makes a disabled registry without points, for callbacks of the
    /// application's own too.
    pub fn with_sources() -> (r: Self)
        ensures
            r.wf(),
            r.blank(),
            !r.enabled,
    {
        FaultRegistry { callbacks: NameMap::new(), hit_counts: NameMap::new(), enabled: false }
    }
}

/// The counts of `after` are those of `before` with one more hit of a point,
/// or with none.
pub open spec fn counted<U>(
    before: FaultRegistry<U>,
    after: FaultRegistry<U>,
    hit: Option<Seq<char>>,
) -> bool {
    match hit {
        Some(name) => after.hit_counts@ == before.hit_counts@.insert(
            name,
            (before.hits(name) + 1) as u64,
        ),
        None => after.hit_counts@ == before.hit_counts@,
    }
}

/// How often a point occurs in a series of hits and other events.
pub open spec fn hits_in(events: Seq<Option<Seq<char>>>, name: Seq<char>) -> nat
    decreases events.len(),
{
    if events.len() == 0 {
        0
    } else {
        hits_in(events.drop_last(), name) + (if events.last() == Some(name) {
            1nat
        } else {
            0
        })
    }
}

/// After injection was enabled and any series of hits, of this point and of
/// others, between which callbacks may be set and counts asked for, the count
/// of a point is the number of its hits.
pub proof fn law_hits_are_counted<U>(
    states: Seq<FaultRegistry<U>>,
    events: Seq<Option<Seq<char>>>,
    name: Seq<char>,
)
    requires
        events.len() <= u64::MAX,
        states.len() == events.len() + 1,
        states[0].blank(),
        forall|i: int|
            0 <= i < events.len() ==> counted(states[i], states[i + 1], #[trigger] events[i]),
    ensures
        states.last().hits(name) == hits_in(events, name),
        hits_in(events, name) <= events.len(),
    decreases events.len(),
{
    if events.len() > 0 {
        let n = events.len() - 1;
        let before = states.drop_last();
        assert forall|i: int| 0 <= i < n implies counted(
            before[i],
            before[i + 1],
            #[trigger] events.drop_last()[i],
        ) by {
            assert(events.drop_last()[i] == events[i]);
        }
        law_hits_are_counted(before, events.drop_last(), name);
        assert(counted(states[n], states[n + 1], events[n]));
    }
}

/// Triggers the fault point `name`: while injection is enabled the hit is
/// counted and the point's callback, if there is one, says what to do.
pub fn trigger<U: FaultSource>(registry: &mut FaultRegistry<U>, name: &str) -> (r: Option<
    FaultAction,
>)
    requires
        old(registry).wf(),
        old(registry).hits(name@) < u64::MAX,
        old(registry).callbacks@.contains_key(name@) ==> (old(
            registry,
        ).callbacks@[name@].model() matches Some(m) ==> m.countable()),
    ensures
        final(registry).wf(),
        final(registry).enabled == old(registry).enabled,
        !old(registry).enabled ==> r is None && *final(registry) == *old(registry),
        old(registry).enabled ==> {
            &&& counted(*old(registry), *final(registry), Some(name@))
            &&& r is Some <==> old(registry).callbacks@.contains_key(name@)
            &&& final(registry).callbacks@.dom() == old(registry).callbacks@.dom()
            &&& final(registry).callbacks@.remove(name@) == old(registry).callbacks@.remove(name@)
            &&& r matches Some(action) ==> {
                let (was, is) = (old(registry).callbacks@[name@], final(registry).callbacks@[name@]);
                &&& was.model() matches Some(m) ==> action.model() == m.next_action()
                    && is.model() == Some(m.called())
                &&& was matches FaultCallback::Custom(source) ==> exists|u: &mut U| *u == source
                    && is == FaultCallback::Custom(*final(u)) && #[trigger] call_ensures(
                    U::next_fault,
                    (u,),
                    action,
                )
            }
        },
{
    if !registry.enabled {
        return None;
    }
    let count: u64 = match registry.hit_counts.get(name) {
        Some(n) => *n,
        None => 0,
    };
    registry.hit_counts.insert(name, count + 1);
    match registry.callbacks.remove(name) {
        Some(callback) => {
            let (next, action) = callback.call();
            registry.callbacks.insert(name, next);
            proof {
                assert(registry.callbacks@.dom() =~= old(registry).callbacks@.dom());
                assert(registry.callbacks@.remove(name@) =~= old(registry).callbacks@.remove(name@));
            }
            Some(action)
        },
        None => {
            assert(registry.callbacks@ =~= old(registry).callbacks@);
            None
        },
    }
}

/// How often the fault point `name` has been triggered.
pub fn hit_count<U>(registry: &FaultRegistry<U>, name: &str) -> (r: u64)
    requires
        registry.wf(),
    ensures
        r == registry.hits(name@),
{
    match registry.hit_counts.get(name) {
        Some(n) => *n,
        None => 0,
    }
}

/// Switches fault injection on and off.
#[derive(Debug)]
pub struct FaultInjector;

impl FaultInjector {
    /// Enables fault injection, with no callbacks and no hits.
    pub fn enable<U>(registry: &mut FaultRegistry<U>) -> (r: Self)
        ensures
            final(registry).wf(),
            final(registry).blank(),
            final(registry).enabled,
    {
        registry.enabled = true;
        registry.callbacks.clear();
        registry.hit_counts.clear();
        FaultInjector
    }

    /// Disables fault injection and forgets callbacks and hits.
    pub fn disable<U>(self, registry: &mut FaultRegistry<U>)
        ensures
            final(registry).wf(),
            final(registry).blank(),
            !final(registry).enabled,
    {
        registry.enabled = false;
        registry.callbacks.clear();
        registry.hit_counts.clear();
    }

    /// Sets the callback of a fault point.
    pub fn set_callback<U>(
        registry: &mut FaultRegistry<U>,
        name: &str,
        callback: FaultCallback<U>,
    )
        requires
            old(registry).wf(),
        ensures
            final(registry).wf(),
            final(registry).callbacks@ == old(registry).callbacks@.insert(name@, callback),
            final(registry).hit_counts@ == old(registry).hit_counts@,
            final(registry).enabled == old(registry).enabled,
    {
        registry.callbacks.insert(name, callback);
    }

    /// Makes call number `n` of a fault point, counted from now, do `action`,
    /// and every other call nothing.
    pub fn set_fail_on_nth<U>(
        registry: &mut FaultRegistry<U>,
        name: &str,
        n: u64,
        action: FaultAction,
    )
        requires
            old(registry).wf(),
        ensures
            final(registry).wf(),
            final(registry).callbacks@ == old(registry).callbacks@.insert(
                name@,
                FaultCallback::OnNth { n, seen: 0, action },
            ),
            final(registry).hit_counts@ == old(registry).hit_counts@,
            final(registry).enabled == old(registry).enabled,
    {
        FaultInjector::set_callback(
            registry,
            name,
            FaultCallback::OnNth { n, seen: 0, action },
        );
    }
}

/// The callback after `k` more calls.
pub open spec fn called_times(c: CallbackModel, k: nat) -> CallbackModel
    decreases k,
{
    if k == 0 {
        c
    } else {
        called_times(c, (k - 1) as nat).called()
    }
}

/// Of the calls of a fail-on-nth callback, call `n` alone fails: the calls
/// before and after it pass.
pub proof fn law_fails_once(n: u64, action: ActionModel, k: nat)
    requires
        k < u64::MAX,
    ensures
        ({
            let c = CallbackModel::OnNth { n, seen: 0, action };
            called_times(c, k).next_action() == (if k + 1 == n {
                action
            } else {
                ActionModel::Pass
            })
        }),
{
    lemma_seen(n, action, k);
}

proof fn lemma_seen(n: u64, action: ActionModel, k: nat)
    requires
        k < u64::MAX,
    ensures
        called_times(CallbackModel::OnNth { n, seen: 0, action }, k) == (CallbackModel::OnNth {
            n,
            seen: k as u64,
            action,
        }),
    decreases k,
{
    if k > 0 {
        lemma_seen(n, action, (k - 1) as nat);
    }
}

} // verus!
