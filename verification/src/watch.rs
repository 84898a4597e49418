//! The single workspace watch and the "open workspace folder" flow.
//!
//! At most one filesystem watch is live at a time. `WatchRegistration`
//! is the one slot that holds it: installing a watch for a new root
//! replaces the previous one, and every watch is stamped with a fresh
//! generation number. A change signal carries the generation of the
//! watch that raised it, and `accepts` delivers a signal only when its
//! generation is the current one — so once a new workspace is opened,
//! no stale signal from the superseded watch is delivered.
//!
//! The shell performs the picker dialog, the OS watch construction and
//! the scan; `open_next` is the decision table that drives those steps
//! and turns each outcome into the next step or a failure.

use vstd::prelude::*;
use crate::errors::WsError;

verus! {

/// The mathematical state of the watch slot: the active watch's
/// generation and root, if one is live, and the next generation to
/// issue.
pub struct RegV {
    pub active: Option<(u64, Seq<char>)>,
    pub next: u64,
}

/// A well-formed slot never reuses a generation: every issued
/// generation lies below `next`.
pub open spec fn reg_wf(v: RegV) -> bool {
    v.active matches Some(p) ==> p.0 < v.next
}

/// Installing a watch: the slot is replaced by a watch on `root`
/// stamped with a fresh generation, and that generation is handed out.
pub open spec fn install_trans(v: RegV, root: Seq<char>) -> (RegV, u64)
    recommends
        v.next < u64::MAX,
{
    (RegV { active: Some((v.next, root)), next: (v.next + 1) as u64 }, v.next)
}

/// Whether a change signal stamped with `generation` is delivered:
/// only a signal from the currently live watch is.
pub open spec fn accepts_v(v: RegV, generation: u64) -> bool {
    v.active matches Some(p) && p.0 == generation
}

/// The process-wide slot holding at most one live filesystem watch.
pub struct WatchRegistration {
    active_generation: Option<u64>,
    root: String,
    next_generation: u64,
}

impl WatchRegistration {
    /// The slot's mathematical state.
    pub closed spec fn view_spec(&self) -> RegV {
        RegV {
            active: match self.active_generation {
                Some(g) => Some((g, self.root@)),
                None => None,
            },
            next: self.next_generation,
        }
    }

    /// An empty slot: no watch is live and no generation was issued.
    pub fn new() -> (r: Self)
        ensures
            r.view_spec() == (RegV { active: None::<(u64, Seq<char>)>, next: 0u64 }),
            reg_wf(r.view_spec()),
    {
        WatchRegistration { active_generation: None, root: String::new(), next_generation: 0 }
    }

    /// Replaces whatever watch was live by a watch rooted at `root` and
    /// returns the fresh generation that stamps it. The superseded
    /// watch's generation is no longer accepted from this moment on.
    pub fn install(&mut self, root: String) -> (generation: u64)
        requires
            reg_wf(old(self).view_spec()),
            old(self).view_spec().next < u64::MAX,
        ensures
            reg_wf(final(self).view_spec()),
            final(self).view_spec() == install_trans(old(self).view_spec(), root@).0,
            generation == install_trans(old(self).view_spec(), root@).1,
    {
        let generation = self.next_generation;
        self.active_generation = Some(generation);
        self.root = root;
        self.next_generation = generation + 1;
        generation
    }

    /// Whether another watch can still be installed: the generation
    /// counter has not been exhausted. (At one install per user action
    /// this never fails in practice.)
    pub fn can_install(&self) -> (r: bool)
        ensures
            r == (self.view_spec().next < u64::MAX),
    {
        self.next_generation < u64::MAX
    }

    /// Whether a change signal stamped with `generation` is delivered.
    pub fn accepts(&self, generation: u64) -> (r: bool)
        ensures
            r == accepts_v(self.view_spec(), generation),
    {
        match self.active_generation {
            Some(g) => g == generation,
            None => false,
        }
    }

    /// The root of the live watch, if one is live.
    pub fn current_root(&self) -> (r: Option<&String>)
        ensures
            match r {
                Some(p) => self.view_spec().active matches Some(a) && a.1 == p@,
                None => self.view_spec().active is None,
            },
    {
        match self.active_generation {
            Some(_) => Some(&self.root),
            None => None,
        }
    }
}

/// Opening a second workspace supersedes the first watch: after the
/// second install, a change signal stamped by the first watch is no
/// longer delivered, a signal stamped by the second is, and only it —
/// no other generation is accepted either.
pub proof fn lemma_second_watch_supersedes(v0: RegV, root1: Seq<char>, root2: Seq<char>)
    requires
        reg_wf(v0),
        v0.next + 1 < u64::MAX,
    ensures
        install_trans(v0, root1).1 != install_trans(install_trans(v0, root1).0, root2).1,
        !accepts_v(
            install_trans(install_trans(v0, root1).0, root2).0,
            install_trans(v0, root1).1,
        ),
        accepts_v(
            install_trans(install_trans(v0, root1).0, root2).0,
            install_trans(install_trans(v0, root1).0, root2).1,
        ),
        forall|g: u64|
            accepts_v(install_trans(install_trans(v0, root1).0, root2).0, g) <==> g
                == install_trans(install_trans(v0, root1).0, root2).1,
{
}

/// A signal from the live watch is delivered and a signal from any
/// superseded watch is not: delivery happens exactly for the current
/// generation.
pub proof fn lemma_accepts_current_only(v: RegV, root: Seq<char>, g: u64)
    requires
        reg_wf(v),
        v.next < u64::MAX,
    ensures
        accepts_v(install_trans(v, root).0, g) <==> g == install_trans(v, root).1,
{
}

/// The stages of one "open workspace folder" request. The shell owns
/// the I/O of each stage; the library owns the transitions.
pub enum OpenStep {
    /// Ask the shell to present the folder picker.
    PickFolder,
    /// Ask the shell to canonicalize the picked path.
    Resolve { picked: String },
    /// Ask the shell to construct a recursive OS watch at the root and
    /// install it into the registration slot.
    Watch { root: String },
    /// Ask the shell to snapshot and scan the root.
    Scan { root: String },
    /// Hand the root and its tree to the collaborator layer.
    Done { root: String },
    /// Report the failure; `Cancelled` is the normal declined-picker
    /// outcome.
    Failed { error: WsError },
}

/// What the shell reports back after performing a stage.
pub enum OpenEvent {
    /// The picker closed: the chosen path, or nothing on cancel.
    Picked(Option<String>),
    /// Resolution finished: the canonical path, or nothing when the
    /// path does not exist.
    Resolved(Option<String>),
    /// Watch construction finished: whether the watch was installed.
    Watched(bool),
    /// The scan of the root finished.
    Scanned,
}

/// The decision table of the open-workspace flow: which step follows
/// each (step, outcome) pair. An event that does not belong to the
/// current step leaves the step unchanged.
pub open spec fn open_next_spec(step: OpenStep, event: OpenEvent) -> OpenStep {
    match (step, event) {
        (OpenStep::PickFolder, OpenEvent::Picked(Some(p))) => OpenStep::Resolve { picked: p },
        (OpenStep::PickFolder, OpenEvent::Picked(None)) => OpenStep::Failed {
            error: WsError::Cancelled,
        },
        (OpenStep::Resolve { .. }, OpenEvent::Resolved(Some(c))) => OpenStep::Watch { root: c },
        (OpenStep::Resolve { .. }, OpenEvent::Resolved(None)) => OpenStep::Failed {
            error: WsError::NotFound,
        },
        (OpenStep::Watch { root }, OpenEvent::Watched(true)) => OpenStep::Scan { root },
        (OpenStep::Watch { .. }, OpenEvent::Watched(false)) => OpenStep::Failed {
            error: WsError::WatchSetupError,
        },
        (OpenStep::Scan { root }, OpenEvent::Scanned) => OpenStep::Done { root },
        (s, _) => s,
    }
}

/// Advances the open-workspace flow by one shell outcome.
pub fn open_next(step: OpenStep, event: OpenEvent) -> (r: OpenStep)
    ensures
        r == open_next_spec(step, event),
{
    match (step, event) {
        (OpenStep::PickFolder, OpenEvent::Picked(Some(p))) => OpenStep::Resolve { picked: p },
        (OpenStep::PickFolder, OpenEvent::Picked(None)) => OpenStep::Failed {
            error: WsError::Cancelled,
        },
        (OpenStep::Resolve { .. }, OpenEvent::Resolved(Some(c))) => OpenStep::Watch { root: c },
        (OpenStep::Resolve { .. }, OpenEvent::Resolved(None)) => OpenStep::Failed {
            error: WsError::NotFound,
        },
        (OpenStep::Watch { root }, OpenEvent::Watched(true)) => OpenStep::Scan { root },
        (OpenStep::Watch { .. }, OpenEvent::Watched(false)) => OpenStep::Failed {
            error: WsError::WatchSetupError,
        },
        (OpenStep::Scan { root }, OpenEvent::Scanned) => OpenStep::Done { root },
        (s, _) => s,
    }
}

/// The outcome of a file or folder picker: a declined picker is the
/// normal `Cancelled` outcome, not a fault.
pub fn picker_outcome(picked: Option<String>) -> (r: Result<String, WsError>)
    ensures
        match picked {
            Some(p) => r matches Ok(q) && q == p,
            None => r matches Err(e) && e is Cancelled,
        },
{
    match picked {
        Some(p) => Ok(p),
        None => Err(WsError::Cancelled),
    }
}

} // verus!
