use vstd::prelude::*;

verus! {

/// A compiled executable that can run benchmarks, and the build target it came from.
#[derive(Debug)]
pub struct BenchTarget {
    pub name: String,
    pub executable: String,
}

/// The build target named in an artifact message.
#[derive(Debug)]
pub struct Target {
    pub name: String,
    pub kind: Vec<String>,
}

/// One message of the build tool's structured output.
#[derive(Debug)]
pub enum Message {
    CompilerArtifact { target: Target, executable: Option<String> },
    CompilerMessage,
    BuildScriptExecuted,
    BuildFinished,
}

/// How a build process ended.
#[derive(Clone, Copy, Debug, PartialEq, Eq, Structural)]
pub struct BuildExit {
    pub success: bool,
    pub code: Option<i32>,
}

/// The ways compiling the benchmarks can fail once the build tool ran.
#[derive(Debug)]
pub enum CompileError {
    /// The build tool reported failure; this is how its structured run ended.
    CompileFailed(BuildExit),
}

/// Kinds whose artifacts may hold benchmarks: benchmarks, tests, and libraries that
/// carry tests.
pub open spec fn is_bench_kind(k: Seq<char>) -> bool {
    k == seq!['b', 'e', 'n', 'c', 'h'] || k == seq!['t', 'e', 's', 't'] || k == seq![
        'l',
        'i',
        'b',
    ]
}

pub open spec fn has_bench_kind(kinds: Seq<String>) -> bool {
    exists|i: int| 0 <= i < kinds.len() && is_bench_kind(#[trigger] kinds[i]@)
}

/// The benchmark executable that a message announces, if any.
pub open spec fn artifact_of(m: Message) -> Option<BenchTarget> {
    match m {
        Message::CompilerArtifact { target, executable } => if has_bench_kind(target.kind@) {
            match executable {
                Some(e) => Some(BenchTarget { name: target.name, executable: e }),
                None => None,
            }
        } else {
            None
        },
        _ => None,
    }
}

/// The benchmark executables that a message sequence announces, in order.
pub open spec fn targets_of(ms: Seq<Message>) -> Seq<BenchTarget>
    decreases ms.len(),
{
    if ms.len() == 0 {
        Seq::empty()
    } else {
        let before = targets_of(ms.drop_last());
        match artifact_of(ms.last()) {
            Some(t) => before.push(t),
            None => before,
        }
    }
}

fn text_is(a: &String, lit: &str) -> (r: bool)
    ensures
        r == (a@ == lit@),
{
    *a == String::from_str(lit)
}

/// Whether `kind` is one whose artifacts may hold benchmarks.
pub fn is_bench_kind_exec(kind: &String) -> (r: bool)
    ensures
        r == is_bench_kind(kind@),
{
    proof {
        reveal_strlit("bench");
        reveal_strlit("test");
        reveal_strlit("lib");
        assert("bench"@ =~= seq!['b', 'e', 'n', 'c', 'h']);
        assert("test"@ =~= seq!['t', 'e', 's', 't']);
        assert("lib"@ =~= seq!['l', 'i', 'b']);
    }
    text_is(kind, "bench") || text_is(kind, "test") || text_is(kind, "lib")
}

/// Whether any of `kinds` is one whose artifacts may hold benchmarks.
pub fn has_bench_kind_exec(kinds: &Vec<String>) -> (r: bool)
    ensures
        r == has_bench_kind(kinds@),
{
    let mut i: usize = 0;
    while i < kinds.len()
        invariant
            i <= kinds@.len(),
            forall|j: int| 0 <= j < i ==> !is_bench_kind(#[trigger] kinds@[j]@),
        decreases kinds.len() - i,
    {
        if is_bench_kind_exec(&kinds[i]) {
            return true;
        }
        i += 1;
    }
    false
}

/// The benchmark executable that `message` announces: an artifact of a benchmark, test or
/// library kind that produced an executable.
pub fn artifact_target(message: Message) -> (r: Option<BenchTarget>)
    ensures
        r == artifact_of(message),
{
    match message {
        Message::CompilerArtifact { target, executable } => {
            if has_bench_kind_exec(&target.kind) {
                match executable {
                    Some(e) => Some(BenchTarget { name: target.name, executable: e }),
                    None => None,
                }
            } else {
                None
            }
        },
        _ => None,
    }
}

/// The benchmark executables that `messages` announce, in arrival order.
pub fn collect_targets(messages: Vec<Message>) -> (r: Vec<BenchTarget>)
    ensures
        r@ == targets_of(messages@),
{
    let mut messages = messages;
    let ghost all = messages@;
    let ghost mut i: int = 0;
    let mut targets: Vec<BenchTarget> = Vec::new();
    while messages.len() > 0
        invariant
            0 <= i <= all.len(),
            messages@ == all.skip(i),
            targets@ == targets_of(all.take(i)),
        decreases messages.len(),
    {
        let m = messages.remove(0);
        proof {
            assert(all.take(i + 1).drop_last() =~= all.take(i));
            assert(m == all[i]);
            assert(messages@ =~= all.skip(i + 1));
            i = i + 1;
        }
        if let Some(t) = artifact_target(m) {
            targets.push(t);
        }
    }
    proof {
        assert(all.take(i) =~= all);
    }
    targets
}

/// What happened last while compiling.
pub enum BuildEvent {
    /// The structured run sent a message.
    Received(Message),
    /// The structured run ended.
    BuildExited(BuildExit),
    /// The plain diagnostic run ended; how it ended decides nothing.
    DiagnosticsExited,
}

/// What the caller does next.
#[derive(Clone, Copy, Debug, PartialEq, Eq, Structural)]
pub enum Action {
    /// Hand over the next message, or how the structured run ended.
    ReadMore,
    /// Run the build once more in plain mode, so that the user sees the diagnostics.
    RunDiagnostics,
    /// The outcome is known: take it with `finish`.
    Finish,
}

#[derive(Clone, Copy, Debug, PartialEq, Eq, Structural)]
pub enum Phase {
    Streaming,
    Diagnosing(BuildExit),
    Succeeded,
    Failed(BuildExit),
}

pub open spec fn action_in(p: Phase) -> Action {
    match p {
        Phase::Streaming => Action::ReadMore,
        Phase::Diagnosing(_) => Action::ReadMore,
        _ => Action::Finish,
    }
}

/// The phase after `e`; an event out of place changes nothing.
pub open spec fn next_phase(p: Phase, e: BuildEvent) -> Phase {
    match (p, e) {
        (Phase::Streaming, BuildEvent::BuildExited(s)) => if s.success {
            Phase::Succeeded
        } else {
            Phase::Diagnosing(s)
        },
        (Phase::Diagnosing(s), BuildEvent::DiagnosticsExited) => Phase::Failed(s),
        _ => p,
    }
}

pub open spec fn next_action(p: Phase, e: BuildEvent) -> Action {
    match (p, e) {
        (Phase::Streaming, BuildEvent::BuildExited(s)) => if s.success {
            Action::Finish
        } else {
            Action::RunDiagnostics
        },
        _ => action_in(next_phase(p, e)),
    }
}

/// The phase reached from `p` through `events`, and how many diagnostic runs were asked.
pub open spec fn run_events(p: Phase, events: Seq<BuildEvent>) -> (Phase, nat)
    decreases events.len(),
{
    if events.len() == 0 {
        (p, 0)
    } else {
        let (q, n) = run_events(p, events.drop_last());
        let extra: nat = if next_action(q, events.last()) == Action::RunDiagnostics {
            1
        } else {
            0
        };
        (next_phase(q, events.last()), n + extra)
    }
}

/// The decisions of one compile: which messages count, whether to run the build again
/// for its diagnostics, and what the outcome is.
pub struct CompileSession {
    pub targets: Vec<BenchTarget>,
    pub phase: Phase,
}

impl CompileSession {
    pub fn new() -> (r: CompileSession)
        ensures
            r.targets@ == Seq::<BenchTarget>::empty(),
            r.phase == Phase::Streaming,
    {
        CompileSession { targets: Vec::new(), phase: Phase::Streaming }
    }

    /// Takes in one event and says what to do next. A message counts only while the
    /// structured run lasts.
    pub fn handle(&mut self, event: BuildEvent) -> (r: Action)
        ensures
            r == next_action(old(self).phase, event),
            final(self).phase == next_phase(old(self).phase, event),
            final(self).targets@ == match (old(self).phase, event) {
                (Phase::Streaming, BuildEvent::Received(m)) => match artifact_of(m) {
                    Some(t) => old(self).targets@.push(t),
                    None => old(self).targets@,
                },
                _ => old(self).targets@,
            },
    {
        match (self.phase, event) {
            (Phase::Streaming, BuildEvent::Received(m)) => {
                if let Some(t) = artifact_target(m) {
                    self.targets.push(t);
                }
                Action::ReadMore
            },
            (Phase::Streaming, BuildEvent::BuildExited(s)) => {
                if s.success {
                    self.phase = Phase::Succeeded;
                    Action::Finish
                } else {
                    self.phase = Phase::Diagnosing(s);
                    Action::RunDiagnostics
                }
            },
            (Phase::Diagnosing(s), BuildEvent::DiagnosticsExited) => {
                self.phase = Phase::Failed(s);
                Action::Finish
            },
            (Phase::Streaming, _) => Action::ReadMore,
            (Phase::Diagnosing(_), _) => Action::ReadMore,
            _ => Action::Finish,
        }
    }

    /// The outcome once known: the targets in arrival order after a successful build, and
    /// the structured run's exit after a failed one.
    pub fn finish(self) -> (r: Result<Vec<BenchTarget>, CompileError>)
        requires
            action_in(self.phase) == Action::Finish,
        ensures
            self.phase == Phase::Succeeded ==> r == Ok::<Vec<BenchTarget>, CompileError>(
                self.targets,
            ),
            forall|s: BuildExit|
                self.phase == Phase::Failed(s) ==> r == Err::<Vec<BenchTarget>, CompileError>(
                    CompileError::CompileFailed(s),
                ),
    {
        match self.phase {
            Phase::Failed(s) => Err(CompileError::CompileFailed(s)),
            _ => Ok(self.targets),
        }
    }
}

proof fn lemma_messages_only(ms: Seq<BuildEvent>)
    requires
        forall|i: int| 0 <= i < ms.len() ==> (#[trigger] ms[i]) is Received,
    ensures
        run_events(Phase::Streaming, ms) == (Phase::Streaming, 0nat),
    decreases ms.len(),
{
    if ms.len() > 0 {
        lemma_messages_only(ms.drop_last());
    }
}

proof fn lemma_after_failure(head: Seq<BuildEvent>, rest: Seq<BuildEvent>, s: BuildExit)
    requires
        run_events(Phase::Streaming, head) == (Phase::Diagnosing(s), 1nat),
    ensures
        run_events(Phase::Streaming, head + rest).1 == 1,
        run_events(Phase::Streaming, head + rest).0 == Phase::Diagnosing(s) || run_events(
            Phase::Streaming,
            head + rest,
        ).0 == Phase::Failed(s),
    decreases rest.len(),
{
    if rest.len() == 0 {
        assert(head + rest =~= head);
    } else {
        lemma_after_failure(head, rest.drop_last(), s);
        assert((head + rest).drop_last() =~= head + rest.drop_last());
    }
}

/// A failed build asks for exactly one diagnostic run, whatever follows, and the compile
/// ends in failure with the structured run's exit: messages, then the failed exit `s`,
/// then any events.
pub proof fn lemma_failed_build_reruns_once(
    messages: Seq<BuildEvent>,
    s: BuildExit,
    rest: Seq<BuildEvent>,
)
    requires
        forall|i: int| 0 <= i < messages.len() ==> (#[trigger] messages[i]) is Received,
        !s.success,
    ensures
        run_events(Phase::Streaming, messages.push(BuildEvent::BuildExited(s)) + rest).1 == 1,
        run_events(Phase::Streaming, messages.push(BuildEvent::BuildExited(s)) + rest).0
            == Phase::Diagnosing(s) || run_events(
            Phase::Streaming,
            messages.push(BuildEvent::BuildExited(s)) + rest,
        ).0 == Phase::Failed(s),
        run_events(
            Phase::Streaming,
            messages.push(BuildEvent::BuildExited(s)).push(BuildEvent::DiagnosticsExited),
        ) == (Phase::Failed(s), 1nat),
{
    lemma_messages_only(messages);
    let head = messages.push(BuildEvent::BuildExited(s));
    assert(head.drop_last() =~= messages);
    assert(run_events(Phase::Streaming, head) == (Phase::Diagnosing(s), 1nat));
    lemma_after_failure(head, rest, s);
    let h2 = head.push(BuildEvent::DiagnosticsExited);
    assert(h2.drop_last() =~= head);
    assert(h2.last() == BuildEvent::DiagnosticsExited);
}

/// A successful build asks for no diagnostic run and ends with the targets collected.
pub proof fn lemma_successful_build_no_rerun(messages: Seq<BuildEvent>, s: BuildExit)
    requires
        forall|i: int| 0 <= i < messages.len() ==> (#[trigger] messages[i]) is Received,
        s.success,
    ensures
        run_events(Phase::Streaming, messages.push(BuildEvent::BuildExited(s))) == (
            Phase::Succeeded,
            0nat,
        ),
{
    lemma_messages_only(messages);
    assert(messages.push(BuildEvent::BuildExited(s)).drop_last() =~= messages);
}

} // verus!
