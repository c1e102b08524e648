use bench_history::compile::{
    artifact_target, collect_targets, is_bench_kind_exec, Action, BuildEvent, BuildExit,
    CompileError, CompileSession, Message, Phase, Target,
};

fn artifact(name: &str, kinds: &[&str], exe: Option<&str>) -> Message {
    Message::CompilerArtifact {
        target: Target {
            name: name.to_string(),
            kind: kinds.iter().map(|k| k.to_string()).collect(),
        },
        executable: exe.map(|e| e.to_string()),
    }
}

#[test]
fn classification_keeps_bench_test_lib_in_order() {
    let messages = vec![
        artifact("b", &["bench"], Some("/t/b")),
        Message::CompilerMessage,
        artifact("t", &["test"], Some("/t/t")),
        Message::BuildScriptExecuted,
        artifact("l", &["lib"], Some("/t/l")),
        artifact("x", &["bin"], Some("/t/x")),
        Message::BuildFinished,
    ];
    let targets = collect_targets(messages);
    let names: Vec<(String, String)> =
        targets.into_iter().map(|t| (t.name, t.executable)).collect();
    assert_eq!(
        names,
        vec![
            ("b".to_string(), "/t/b".to_string()),
            ("t".to_string(), "/t/t".to_string()),
            ("l".to_string(), "/t/l".to_string()),
        ]
    );
}

#[test]
fn artifact_without_executable_is_skipped() {
    assert!(artifact_target(artifact("l", &["lib"], None)).is_none());
    assert!(artifact_target(artifact("m", &["rlib", "lib"], Some("/m"))).is_some());
    assert!(artifact_target(artifact("p", &["proc-macro"], Some("/p"))).is_none());
}

#[test]
fn bench_kinds() {
    assert!(is_bench_kind_exec(&"bench".to_string()));
    assert!(is_bench_kind_exec(&"test".to_string()));
    assert!(is_bench_kind_exec(&"lib".to_string()));
    assert!(!is_bench_kind_exec(&"bin".to_string()));
    assert!(!is_bench_kind_exec(&"".to_string()));
}

#[test]
fn failed_build_asks_one_diagnostic_run() {
    let failed = BuildExit { success: false, code: Some(101) };
    let mut session = CompileSession::new();
    let mut reruns = 0;
    let events = vec![
        BuildEvent::Received(artifact("b", &["bench"], Some("/t/b"))),
        BuildEvent::BuildExited(failed),
        BuildEvent::BuildExited(BuildExit { success: true, code: Some(0) }),
        BuildEvent::DiagnosticsExited,
        BuildEvent::DiagnosticsExited,
    ];
    let mut last = Action::ReadMore;
    for e in events {
        last = session.handle(e);
        if last == Action::RunDiagnostics {
            reruns += 1;
        }
    }
    assert_eq!(reruns, 1);
    assert_eq!(last, Action::Finish);
    assert_eq!(session.phase, Phase::Failed(failed));
    match session.finish() {
        Err(CompileError::CompileFailed(s)) => assert_eq!(s, failed),
        Ok(_) => panic!("a failed build must not succeed"),
    }
}

#[test]
fn successful_build_returns_targets() {
    let mut session = CompileSession::new();
    assert_eq!(
        session.handle(BuildEvent::Received(artifact("b", &["bench"], Some("/t/b")))),
        Action::ReadMore
    );
    assert_eq!(
        session.handle(BuildEvent::Received(artifact("x", &["bin"], Some("/t/x")))),
        Action::ReadMore
    );
    assert_eq!(
        session.handle(BuildEvent::BuildExited(BuildExit { success: true, code: Some(0) })),
        Action::Finish
    );
    let targets = session.finish().unwrap();
    assert_eq!(targets.len(), 1);
    assert_eq!(targets[0].name, "b");
}

#[test]
fn messages_after_exit_are_ignored() {
    let mut session = CompileSession::new();
    session.handle(BuildEvent::BuildExited(BuildExit { success: true, code: Some(0) }));
    assert_eq!(
        session.handle(BuildEvent::Received(artifact("b", &["bench"], Some("/t/b")))),
        Action::Finish
    );
    assert_eq!(session.finish().unwrap().len(), 0);
}
