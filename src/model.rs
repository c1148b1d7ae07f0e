//! A ready-made stage type, whose hooks are closures, and a ready-made
//! entity type, whose identity and payload are a string.
use vstd::prelude::*;

use crate::{PipeB, PipeState, PipeU};

verus! {

/// A hook that a stage calls on an entity.
trait Hook: Send + Sync {
    /// The hook may be called on every entity.
    spec fn total(&self) -> bool;

    /// `r` is an answer that the hook may give for `u`.
    spec fn post(&self, u: &PipeUser, r: PipeState) -> bool;

    fn call_hook(&self, u: &PipeUser) -> (r: PipeState)
        requires
            self.total(),
        ensures
            self.post(u, r),
    ;
}

impl<F: Fn(&PipeUser) -> PipeState + Send + Sync> Hook for F {
    closed spec fn total(&self) -> bool {
        forall|u: &PipeUser| call_requires(*self, (u,))
    }

    closed spec fn post(&self, u: &PipeUser, r: PipeState) -> bool {
        call_ensures(*self, (u,), r)
    }

    fn call_hook(&self, u: &PipeUser) -> (r: PipeState) {
        self(u)
    }
}

/// A hook stored in a stage, callable on every entity.
struct Handle {
    f: Box<dyn Hook>,
}

impl Handle {
    #[verifier::type_invariant]
    spec fn inv(&self) -> bool {
        self.f.total()
    }

    spec fn post(&self, u: &PipeUser, r: PipeState) -> bool {
        self.f.post(u, r)
    }

    fn from_fn<F: Fn(&PipeUser) -> PipeState + Send + Sync + 'static>(f: F) -> (r: Handle)
        requires
            forall|u: &PipeUser| call_requires(f, (u,)),
        ensures
            forall|u: &PipeUser, s: PipeState| r.post(u, s) == call_ensures(f, (u,), s),
    {
        Handle { f: Box::new(f) }
    }

    fn call(&self, u: &PipeUser) -> (r: PipeState)
        ensures
            self.post(u, r),
    {
        proof {
            use_type_invariant(self);
        }
        self.f.call_hook(u)
    }
}

/// A stage whose hooks are closures. Without an admission hook of its own
/// the stage admits every entity (`ConsumeState`); without a processing hook
/// of its own it advances every entity (`NextState`).
pub struct PipeBox {
    function_control: Option<Handle>,
    function_core: Option<Handle>,
    internal_state: PipeState,
}

impl PipeBox {
    /// Whether an admission hook was set.
    pub closed spec fn has_control(&self) -> bool {
        self.function_control is Some
    }

    /// Whether a processing hook was set.
    pub closed spec fn has_core(&self) -> bool {
        self.function_core is Some
    }

    /// A stage with the default hooks, which cascades (`ConsumeState`).
    pub fn new() -> (r: Self)
        ensures
            !r.has_control(),
            !r.has_core(),
            r.disposition() == PipeState::ConsumeState,
            forall|u: &PipeUser, s: PipeState| r.control_post(u, s) == (s == PipeState::ConsumeState),
            forall|u: &PipeUser, s: PipeState| r.consume_post(u, s) == (s == PipeState::NextState),
    {
        PipeBox { function_control: None, function_core: None, internal_state: PipeState::ConsumeState }
    }

    /// Without an admission hook of its own, the stage admits every entity.
    pub proof fn lemma_default_gate_open(&self)
        requires
            !self.has_control(),
        ensures
            forall|u: &PipeUser, a: PipeState|
                #[trigger] self.control_post(u, a) == (a == PipeState::ConsumeState),
    {
    }

    /// Replaces the admission hook.
    pub fn set_control<F: Fn(&PipeUser) -> PipeState + Send + Sync + 'static>(self, func: F) -> (r: Self)
        requires
            forall|u: &PipeUser| call_requires(func, (u,)),
        ensures
            r.has_control(),
            r.has_core() == self.has_core(),
            r.disposition() == self.disposition(),
            forall|u: &PipeUser, s: PipeState| r.control_post(u, s) == call_ensures(func, (u,), s),
            forall|u: &PipeUser, s: PipeState| r.consume_post(u, s) == self.consume_post(u, s),
    {
        PipeBox {
            function_control: Some(Handle::from_fn(func)),
            function_core: self.function_core,
            internal_state: self.internal_state,
        }
    }

    /// Replaces the processing hook.
    pub fn set_consume<F: Fn(&PipeUser) -> PipeState + Send + Sync + 'static>(self, func: F) -> (r: Self)
        requires
            forall|u: &PipeUser| call_requires(func, (u,)),
        ensures
            r.has_core(),
            r.has_control() == self.has_control(),
            r.disposition() == self.disposition(),
            forall|u: &PipeUser, s: PipeState| r.consume_post(u, s) == call_ensures(func, (u,), s),
            forall|u: &PipeUser, s: PipeState| r.control_post(u, s) == self.control_post(u, s),
    {
        PipeBox {
            function_control: self.function_control,
            function_core: Some(Handle::from_fn(func)),
            internal_state: self.internal_state,
        }
    }

    /// Replaces the disposition.
    pub fn set_internal_state(&mut self, state: PipeState)
        ensures
            final(self).disposition() == state,
            final(self).has_control() == old(self).has_control(),
            final(self).has_core() == old(self).has_core(),
            forall|u: &PipeUser, s: PipeState|
                final(self).control_post(u, s) == old(self).control_post(u, s),
            forall|u: &PipeUser, s: PipeState|
                final(self).consume_post(u, s) == old(self).consume_post(u, s),
    {
        self.internal_state = state;
    }
}

impl PipeB<PipeUser> for PipeBox {
    open spec fn disposition(&self) -> PipeState {
        self.internal_state_view()
    }

    closed spec fn control_post(&self, u: &PipeUser, r: PipeState) -> bool {
        match self.function_control {
            Some(h) => h.post(u, r),
            None => r == PipeState::ConsumeState,
        }
    }

    closed spec fn consume_post(&self, u: &PipeUser, r: PipeState) -> bool {
        match self.function_core {
            Some(h) => h.post(u, r),
            None => r == PipeState::NextState,
        }
    }

    fn internal_state(&self) -> (r: PipeState) {
        self.internal_state
    }

    fn control(&self, pipe_u: &PipeUser) -> (r: PipeState) {
        match &self.function_control {
            Some(h) => h.call(pipe_u),
            None => PipeState::ConsumeState,
        }
    }

    fn consume(&self, pipe_u: &PipeUser) -> (r: PipeState) {
        match &self.function_core {
            Some(h) => h.call(pipe_u),
            None => PipeState::NextState,
        }
    }
}

impl PipeBox {
    /// The disposition fixed for this stage.
    pub closed spec fn internal_state_view(&self) -> PipeState {
        self.internal_state
    }
}

/// An entity whose identity and payload are one string.
pub struct PipeUser {
    say: String,
}

impl PipeUser {
    /// The string the entity carries.
    pub closed spec fn say(&self) -> Seq<char> {
        self.say@
    }

    pub fn new(say: &str) -> (r: Self)
        ensures
            r.say() == say@,
    {
        PipeUser { say: say.to_owned() }
    }

    /// The payload that `get_item` hands out is the carried string.
    pub proof fn lemma_item_is_say(&self)
        ensures
            self.item()@ == self.say(),
    {
    }
}

impl PartialEq for PipeUser {
    fn eq(&self, other: &Self) -> (r: bool)
        ensures
            r == (self.say() == other.say()),
    {
        self.say == other.say
    }
}

impl vstd::std_specs::cmp::PartialEqSpecImpl for PipeUser {
    open spec fn obeys_eq_spec() -> bool {
        true
    }

    open spec fn eq_spec(&self, other: &PipeUser) -> bool {
        self.say() == other.say()
    }
}

impl Eq for PipeUser {

}

impl PipeU for PipeUser {
    type Item = String;

    closed spec fn item(&self) -> String {
        self.say
    }

    fn get_item(&self) -> (r: &String) {
        &self.say
    }
}

} // verus!
