use active_app_volume::streams::{
    announced_node, core_error_means_disconnect, first_known_pid, NodeInfo, StreamRegistry,
};
use std::collections::HashMap;

fn stream(name: &str, pid: Option<u32>, client: Option<u32>) -> NodeInfo {
    announced_node(
        Some("Stream/Output/Audio"),
        Some(name.to_string()),
        pid,
        client,
    )
}

fn sorted(mut v: Vec<u32>) -> Vec<u32> {
    v.sort();
    v
}

#[test]
fn only_application_output_streams_count() {
    let node = announced_node(Some("Stream/Output/Audio"), Some("Brave".into()), Some(5), None);
    assert!(node.is_stream && !node.mute);
    assert!(!announced_node(Some("Stream/Input/Audio"), Some("Brave".into()), None, None).is_stream);
    assert!(!announced_node(Some("Stream/Output/Audio"), None, None, None).is_stream);
    assert!(!announced_node(None, Some("Brave".into()), None, None).is_stream);
    assert!(!announced_node(Some("Audio/Sink"), Some("x".into()), None, None).is_stream);
}

#[test]
fn exact_focused_pid_wins_over_related_processes() {
    let mut reg = StreamRegistry::new();
    reg.insert_node(40, stream("Brave", Some(10), None));
    reg.insert_node(41, stream("Brave", Some(11), None));
    reg.insert_node(42, stream("Other", Some(99), None));
    assert_eq!(sorted(reg.targets(&[10, 11])), vec![40]);
    // Without audio on the exact PID, every related PID is reached.
    assert_eq!(sorted(reg.targets(&[12, 10, 11])), vec![40, 41]);
    assert_eq!(reg.targets(&[]), Vec::<u32>::new());
    assert_eq!(reg.targets(&[77]), Vec::<u32>::new());
}

#[test]
fn client_pid_stands_in_when_the_node_exposes_none() {
    let mut reg = StreamRegistry::new();
    reg.insert_node(50, stream("game.exe", None, Some(7)));
    assert_eq!(reg.targets(&[3000]), Vec::<u32>::new());
    reg.set_client_pid(7, 3000);
    assert_eq!(reg.targets(&[3000]), vec![50]);
    assert_eq!(reg.node_pid(&stream("x", None, Some(7))), Some(3000));
    assert_eq!(reg.node_pid(&stream("x", Some(1), Some(7))), Some(1));
    assert_eq!(reg.node_pid(&stream("x", None, Some(8))), None);
    // A PID that the node reports later replaces the client's.
    reg.set_node_process_id(50, Some(3001));
    assert_eq!(reg.targets(&[3001]), vec![50]);
    reg.set_node_process_id(50, None);
    assert_eq!(reg.targets(&[3001]), vec![50]);
}

#[test]
fn mute_toggle_mutes_unless_everything_is_muted() {
    let mut reg = StreamRegistry::new();
    reg.insert_node(1, stream("a", Some(10), None));
    reg.insert_node(2, stream("a", Some(10), None));
    let (targets, mute) = reg.mute_command(&[10], None);
    assert_eq!(sorted(targets), vec![1, 2]);
    assert!(mute);
    reg.set_node_mute(1, Some(true));
    assert!(reg.mute_command(&[10], None).1);
    reg.set_node_mute(2, Some(true));
    assert!(!reg.mute_command(&[10], None).1);
    // Explicit values are kept.
    assert!(reg.mute_command(&[10], Some(true)).1);
    assert!(!reg.mute_command(&[10], Some(false)).1);
    // No stream: a toggle mutes (and reaches nothing).
    let (none, m) = reg.mute_command(&[11], None);
    assert!(none.is_empty() && m);
    reg.set_node_mute(1, None);
    assert!(!reg.mute_command(&[10], None).1);
}

#[test]
fn toggling_twice_restores() {
    let mut reg = StreamRegistry::new();
    reg.insert_node(1, stream("a", Some(10), None));
    reg.insert_node(2, stream("a", Some(10), None));
    let (targets, m) = reg.mute_command(&[10], None);
    for id in &targets {
        reg.set_node_mute(*id, Some(m));
    }
    let (again, m2) = reg.mute_command(&[10], None);
    assert_eq!(sorted(again), sorted(targets));
    assert_eq!(m2, !m);
}

#[test]
fn apps_group_named_streams_by_pid() {
    let mut reg = StreamRegistry::new();
    reg.insert_node(1, stream("Brave", Some(10), None));
    reg.insert_node(2, stream("Brave", Some(10), None));
    reg.insert_node(3, stream("", Some(11), None));
    reg.insert_node(4, stream("Game", None, Some(9)));
    reg.insert_node(5, announced_node(Some("Audio/Sink"), Some("sink".into()), Some(12), None));
    reg.set_client_pid(9, 20);
    reg.set_node_mute(1, Some(true));
    let mut groups = reg.app_groups();
    groups.sort_by_key(|g| g.pid);
    assert_eq!(groups.len(), 2);
    assert_eq!(groups[0].pid, 10);
    assert_eq!(groups[0].name, "Brave");
    assert_eq!(sorted(groups[0].nodes.clone()), vec![1, 2]);
    assert!(!groups[0].mute);
    assert_eq!(groups[1].pid, 20);
    assert_eq!(groups[1].name, "Game");
    assert_eq!(groups[1].nodes, vec![4]);
    assert!(!groups[1].mute);
    reg.set_node_mute(2, Some(true));
    let groups = reg.app_groups();
    let brave = groups.iter().find(|g| g.pid == 10).unwrap();
    assert!(brave.mute);
}

#[test]
fn removal_and_reset_forget_objects() {
    let mut reg = StreamRegistry::new();
    reg.insert_node(1, stream("a", None, Some(2)));
    reg.set_client_pid(2, 10);
    assert_eq!(reg.targets(&[10]), vec![1]);
    reg.remove_global(2);
    assert_eq!(reg.targets(&[10]), Vec::<u32>::new());
    reg.set_client_pid(2, 10);
    reg.remove_global(1);
    assert_eq!(reg.targets(&[10]), Vec::<u32>::new());
    reg.insert_node(1, stream("a", Some(10), None));
    reg.reset();
    assert!(reg.app_groups().is_empty());
    assert!(!reg.has_stream(10));
}

#[test]
fn first_known_pid_prefers_the_exact_pid() {
    let known: HashMap<u32, &str> = HashMap::from([(11, "b"), (12, "c")]);
    assert_eq!(first_known_pid(&known, &[10, 12, 11]), Some(12));
    assert_eq!(first_known_pid(&known, &[11, 12]), Some(11));
    assert_eq!(first_known_pid(&known, &[10]), None);
    assert_eq!(first_known_pid(&known, &[]), None);
}

#[test]
fn only_core_errors_other_than_enoent_mean_disconnect() {
    assert!(core_error_means_disconnect(0, 0, -32));
    assert!(!core_error_means_disconnect(0, 0, -2));
    assert!(!core_error_means_disconnect(5, 0, -32));
}
