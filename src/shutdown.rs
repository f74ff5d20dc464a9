use vstd::prelude::*;
use crate::config::{BackendConfig, FrontendConfig, release_result, released_view};

verus! {

/// What the main loop does after one look at the shutdown flag.
#[derive(PartialEq, Eq, Structural, Clone, Copy, Debug)]
pub enum PollAction {
    /// Sleep for the poll interval and look again.
    Wait,
    /// Release the configuration files and exit successfully.
    Shutdown,
}

/// The decision taken when the flag reads `flag_set`, given whether shutdown
/// has already begun.
pub open spec fn poll_action(begun: bool, flag_set: bool) -> PollAction {
    if !begun && flag_set {
        PollAction::Shutdown
    } else {
        PollAction::Wait
    }
}

/// Decides, on each reading of the shared shutdown flag, whether the main
/// loop shuts down. Shutdown is ordered at most once.
pub struct ShutdownCoordinator {
    begun: bool,
}

impl View for ShutdownCoordinator {
    type V = bool;

    /// Whether shutdown has begun.
    closed spec fn view(&self) -> bool {
        self.begun
    }
}

impl ShutdownCoordinator {
    /// A coordinator for a process that is running.
    pub fn new() -> (r: ShutdownCoordinator)
        ensures
            !r@,
    {
        ShutdownCoordinator { begun: false }
    }

    /// Whether shutdown has begun.
    pub fn has_begun(&self) -> (r: bool)
        ensures
            r == self@,
    {
        self.begun
    }

    /// Takes one reading of the flag and says what to do.
    pub fn poll(&mut self, flag_set: bool) -> (r: PollAction)
        ensures
            r == poll_action(old(self)@, flag_set),
            final(self)@ == (old(self)@ || flag_set),
    {
        if !self.begun && flag_set {
            self.begun = true;
            PollAction::Shutdown
        } else {
            PollAction::Wait
        }
    }
}

/// The actions taken for successive readings of the flag.
pub open spec fn poll_run(begun: bool, readings: Seq<bool>) -> Seq<PollAction>
    decreases readings.len(),
{
    if readings.len() == 0 {
        Seq::empty()
    } else {
        seq![poll_action(begun, readings[0])] + poll_run(
            begun || readings[0],
            readings.drop_first(),
        )
    }
}

/// How many of the actions order shutdown.
pub open spec fn shutdown_count(actions: Seq<PollAction>) -> nat
    decreases actions.len(),
{
    if actions.len() == 0 {
        0
    } else {
        (if actions[0] == PollAction::Shutdown {
            1nat
        } else {
            0nat
        }) + shutdown_count(actions.drop_first())
    }
}

/// However often the flag is set, a running process shuts down exactly once
/// if any reading finds it set, and never otherwise; once shutdown has begun
/// it is never ordered again.
pub proof fn lemma_shutdown_once(begun: bool, readings: Seq<bool>)
    ensures
        shutdown_count(poll_run(begun, readings)) == (if !begun && readings.contains(true) {
            1nat
        } else {
            0nat
        }),
    decreases readings.len(),
{
    if readings.len() > 0 {
        let run = poll_run(begun, readings);
        lemma_shutdown_once(begun || readings[0], readings.drop_first());
        assert(run.drop_first() =~= poll_run(begun || readings[0], readings.drop_first()));
        if readings[0] {
            assert(readings.contains(true));
        } else {
            if readings.contains(true) {
                let k = choose|k: int| 0 <= k < readings.len() && readings[k] == true;
                assert(readings.drop_first()[k - 1] == true);
            }
            if readings.drop_first().contains(true) {
                let k = choose|k: int|
                    0 <= k < readings.drop_first().len() && readings.drop_first()[k] == true;
                assert(readings[k + 1] == true);
            }
        }
    }
}

/// The paths of the files to remove at shutdown, in a fixed order: the
/// backend descriptor, then the frontend routing file. Both configurations
/// are left released; a path comes only from one that was installed.
pub fn release_all(backend: &mut BackendConfig, frontend: &mut FrontendConfig) -> (r: Vec<String>)
    ensures
        r.deep_view() == release_order(release_result(old(backend)@), release_result(old(frontend)@)),
        final(backend)@ == released_view(old(backend)@),
        final(frontend)@ == released_view(old(frontend)@),
{
    let mut r: Vec<String> = Vec::new();
    let b = backend.release();
    match b {
        Some(p) => r.push(p),
        None => {},
    }
    let f = frontend.release();
    match f {
        Some(p) => r.push(p),
        None => {},
    }
    proof {
        let rb = release_result(old(backend)@);
        let rf = release_result(old(frontend)@);
        assert(r.deep_view() =~= release_order(rb, rf));
    }
    r
}

/// The released paths, the backend's first.
pub open spec fn release_order(backend: Option<Seq<char>>, frontend: Option<Seq<char>>) -> Seq<
    Seq<char>,
> {
    let b = match backend {
        Some(p) => seq![p],
        None => Seq::empty(),
    };
    let f = match frontend {
        Some(p) => seq![p],
        None => Seq::empty(),
    };
    b + f
}

} // verus!
