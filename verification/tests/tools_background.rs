use cki::tools::background::TaskRegistry;
use cki::tools::background::{next_status, render_output, spawn_refusal, status_label, task_id, TaskStatus, WaitObservation};

#[test]
fn rejected_command_returns_error_not_task() {
    let err = spawn_refusal("sudo whoami", false, false).unwrap();
    assert!(err.contains("not in allowed list") || err.contains("blocked"));
    assert_eq!(spawn_refusal("  ", false, true), Some("empty command".to_string()));
    assert!(spawn_refusal("rm /x", true, true).unwrap().starts_with("command rejected"));
    assert_eq!(spawn_refusal("echo hi", false, true), None);
}

#[test]
fn polling_moves_status_on() {
    assert_eq!(next_status(WaitObservation::Exited(Some(0)), true), (TaskStatus::Done { exit_code: Some(0), timed_out: false }, false));
    assert_eq!(next_status(WaitObservation::StillRunning, false), (TaskStatus::Running, false));
    assert_eq!(next_status(WaitObservation::StillRunning, true), (TaskStatus::Done { exit_code: None, timed_out: true }, true));
    assert_eq!(next_status(WaitObservation::Failed, false), (TaskStatus::Done { exit_code: None, timed_out: false }, false));
}

#[test]
fn labels_and_output() {
    assert_eq!(status_label(&TaskStatus::Running), "running");
    assert_eq!(status_label(&TaskStatus::Done { exit_code: Some(-1), timed_out: false }), "done (exit -1)");
    assert_eq!(status_label(&TaskStatus::Done { exit_code: None, timed_out: true }), "done (timed out)");
    assert_eq!(status_label(&TaskStatus::Done { exit_code: None, timed_out: false }), "done");
    assert_eq!(render_output("", ""), "(no output yet)");
    assert_eq!(render_output("a", "b"), "a\nSTDERR:\nb");
    assert_eq!(render_output("", "b"), "STDERR:\nb");
    assert_eq!(task_id(3), "bg3");
}

#[test]
fn registry_tracks_status_output_and_lists_in_id_order() {
    let mut reg = TaskRegistry::new();
    let id = reg.register("echo hello-bg");
    assert_eq!(id, "bg1");
    assert_eq!(reg.status("bg1"), Some((TaskStatus::Running, "(no output yet)".to_string())));
    assert!(reg.set_output("bg1", "hello-bg\n".to_string(), String::new()));
    assert!(reg.set_status("bg1", TaskStatus::Done { exit_code: Some(0), timed_out: false }));
    let (status, output) = reg.status(&id).unwrap();
    assert_eq!(status, TaskStatus::Done { exit_code: Some(0), timed_out: false });
    assert!(output.contains("hello-bg"));
    for k in 2..=10 {
        assert_eq!(reg.register("sleep 1"), format!("bg{k}"));
    }
    let list = reg.list();
    let ids: Vec<&str> = list.iter().map(|(i, _, _)| i.as_str()).collect();
    assert_eq!(ids, vec!["bg1", "bg10", "bg2", "bg3", "bg4", "bg5", "bg6", "bg7", "bg8", "bg9"]);
    assert_eq!(list[0], ("bg1".to_string(), "echo hello-bg".to_string(), "done (exit 0)".to_string()));
    assert_eq!(list[2].2, "running");
    assert!(reg.kill("bg2"));
    assert_eq!(reg.status("bg2").unwrap().0, TaskStatus::Done { exit_code: None, timed_out: false });
    assert!(!reg.kill("bg99"));
    assert!(reg.status("bg99").is_none());
    assert_eq!(reg.len(), 10);
}
