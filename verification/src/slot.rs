//! The launch-path slot: the process-wide holder of the last resolved
//! file-association path that the front end has not yet consumed.
//!
//! The slot starts empty, is written during startup argument parsing
//! and again on a secondary-instance activation, and is read by the
//! front end's query. The query deliberately does not clear the slot,
//! so repeated polling is idempotent and a front-end reload does not
//! lose the value; a new resolution simply overwrites any prior one.

use vstd::prelude::*;

use crate::resolver::looks_like_url;
use crate::resolver::parse_json_path_from_args;
use crate::resolver::spec_accepted;
use crate::resolver::spec_arg_match;
use crate::resolver::spec_resolve;
use crate::resolver::spec_trim;

verus! {

/// What the front end's query returns and leaves behind, given the
/// slot's content and the outcome of a fresh resolution of the live
/// arguments: a populated slot wins, and a successful fallback
/// resolution both fills the slot and is returned.
pub open spec fn spec_query(slot: Option<Seq<char>>, resolved: Option<Seq<char>>) -> Option<
    Seq<char>,
> {
    if slot is Some {
        slot
    } else {
        resolved
    }
}

/// Holder of the most recently resolved launch path. At most one path
/// is held at a time; storing a new one overwrites any prior
/// unconsumed value.
pub struct LaunchSlot {
    path: Option<String>,
}

impl View for LaunchSlot {
    type V = Option<Seq<char>>;

    closed spec fn view(&self) -> Option<Seq<char>> {
        self.path.deep_view()
    }
}

impl LaunchSlot {
    /// The empty slot that the process starts with.
    pub fn new() -> (s: LaunchSlot)
        ensures
            s@ is None,
    {
        LaunchSlot { path: None }
    }

    /// Overwrites the slot with a freshly resolved path.
    pub fn store(&mut self, path: String)
        ensures
            final(self)@ == Some(path@),
    {
        self.path = Some(path);
    }

    /// A copy of the held path, the slot left as it is.
    pub fn peek(&self) -> (r: Option<String>)
        ensures
            r.deep_view() == self@,
    {
        match &self.path {
            Some(p) => Some(p.clone()),
            None => None,
        }
    }

    /// Runs the resolver on `args` and keeps a successful result,
    /// which is also returned so that the caller can push it to the
    /// front end at once. Serves the startup parse and the
    /// secondary-instance activation alike; without a result the slot
    /// is untouched.
    pub fn absorb_args(&mut self, args: &[String]) -> (r: Option<String>)
        ensures
            r matches Some(p) ==> final(self)@ == Some(p@),
            r is None ==> final(self)@ == old(self)@ && spec_resolve(args.deep_view()) is None,
            spec_resolve(args.deep_view()) is Some ==> r is Some,
            (forall|i: int|
                0 <= i < args.deep_view().len() ==> !looks_like_url(
                    spec_trim(#[trigger] args.deep_view()[i]),
                )) ==> r.deep_view() == spec_resolve(args.deep_view()),
            r matches Some(p) ==> exists|i: int|
                0 <= i < args.deep_view().len() && #[trigger] spec_accepted(
                    p@,
                    args.deep_view()[i],
                ),
    {
        let r = parse_json_path_from_args(args);
        match r {
            Some(p) => {
                self.store(p.clone());
                Some(p)
            },
            None => None,
        }
    }

    /// The front end's query. A populated slot is returned as it is,
    /// without being cleared. An empty slot falls back to a fresh
    /// resolution of the live arguments, whose result, if any, is
    /// stored and returned; this makes the query robust to an
    /// ordering in which the startup parse never ran.
    pub fn get_launch_file_path(&mut self, args: &[String]) -> (r: Option<String>)
        ensures
            old(self)@ is Some ==> r.deep_view() == old(self)@ && final(self)@ == old(self)@,
            r matches Some(p) ==> final(self)@ == Some(p@),
            r is None ==> final(self)@ == old(self)@ && old(self)@ is None && spec_resolve(
                args.deep_view(),
            ) is None,
            (forall|i: int|
                0 <= i < args.deep_view().len() ==> !looks_like_url(
                    spec_trim(#[trigger] args.deep_view()[i]),
                )) ==> r.deep_view() == spec_query(old(self)@, spec_resolve(args.deep_view()))
                && final(self)@ == spec_query(old(self)@, spec_resolve(args.deep_view())),
    {
        let cached = self.peek();
        if let Some(p) = cached {
            return Some(p);
        }
        self.absorb_args(args)
    }

    /// Querying twice without an intervening store returns the same
    /// value both times: the state the query leaves behind is a fixed
    /// point, and the answer read from it does not change.
    pub proof fn lemma_query_idempotent(slot: Option<Seq<char>>, resolved: Option<Seq<char>>)
        ensures
            spec_query(spec_query(slot, resolved), resolved) == spec_query(slot, resolved),
    {
    }
}

/// The delivery schedule for the startup notification: the slot is
/// re-checked and, if still populated, pushed to the front end after
/// each of these delays, in milliseconds, so that a listener that
/// attaches at an unpredictable time within the window still hears of
/// the path. Deliveries may repeat; the front end is idempotent to
/// receiving the same path more than once.
pub fn notify_delays_ms() -> (v: Vec<u64>)
    ensures
        v@ == seq![800u64, 1500u64, 2500u64],
{
    let mut v: Vec<u64> = Vec::new();
    v.push(800);
    v.push(1500);
    v.push(2500);
    proof {
        assert(v@ =~= seq![800u64, 1500u64, 2500u64]);
    }
    v
}

} // verus!
