use std::collections::HashMap;

use process_manager::commands::kill_process::kill_report;
use process_manager::commands::kill_process::kill_signal;
use process_manager::commands::kill_process::KillSignal;
use process_manager::commands::ps::process_matches;
use process_manager::commands::ps::select_processes;
use process_manager::commands::ps::sort_key_of;
use process_manager::commands::ps::sort_processes;
use process_manager::commands::ps::SortKey;
use process_manager::commands::tree_mode::has_matching_descendant;
use process_manager::commands::tree_mode::tree_lines;
use process_manager::process_info::ProcessSnapshot;

fn snap(pid: u32, name: &str, cpu: f32, mem: u64, status: &str, parent: u32) -> ProcessSnapshot {
    ProcessSnapshot {
        pid,
        name: name.to_string(),
        cpu_usage: cpu.to_bits(),
        memory_bytes: mem,
        status: status.to_string(),
        parent_pid: parent,
        start_time: 0,
    }
}

fn sample() -> Vec<ProcessSnapshot> {
    vec![
        snap(30, "code.exe", 8.1, 126_100_000, "sleeping", 1),
        snap(12, "chrome.exe", 15.2, 389_900_000, "running", 1),
        snap(7, "svchost.exe", 3.4, 63_600_000, "sleeping", 1),
        snap(1, "init", 0.0, 1_000_000, "sleeping", 0),
        snap(44, "Chrome Helper", 8.1, 50_000_000, "idle", 12),
    ]
}

fn pids(procs: &[ProcessSnapshot]) -> Vec<u32> {
    procs.iter().map(|p| p.pid).collect()
}

#[test]
fn sort_by_pid_is_the_default() {
    let mut procs = sample();
    sort_processes(&mut procs, "pid");
    assert_eq!(pids(&procs), vec![1, 7, 12, 30, 44]);
    let mut procs = sample();
    sort_processes(&mut procs, "whatever");
    assert_eq!(pids(&procs), vec![1, 7, 12, 30, 44]);
}

#[test]
fn sort_by_name_compares_code_points() {
    let mut procs = sample();
    sort_processes(&mut procs, "name");
    // upper case letters come before lower case ones
    assert_eq!(pids(&procs), vec![44, 12, 30, 1, 7]);
}

#[test]
fn sort_by_cpu_highest_first_and_stable() {
    let mut procs = sample();
    sort_processes(&mut procs, "CPU");
    // 30 and 44 use the same CPU and keep their order
    assert_eq!(pids(&procs), vec![12, 30, 44, 7, 1]);
}

#[test]
fn sort_by_memory_largest_first() {
    let mut procs = sample();
    sort_processes(&mut procs, "mem");
    assert_eq!(pids(&procs), vec![12, 30, 7, 44, 1]);
    let mut procs = sample();
    sort_processes(&mut procs, "Memory");
    assert_eq!(pids(&procs), vec![12, 30, 7, 44, 1]);
}

#[test]
fn sort_by_status_keeps_ties_in_order() {
    let mut procs = sample();
    sort_processes(&mut procs, "status");
    assert_eq!(pids(&procs), vec![44, 12, 30, 7, 1]);
}

#[test]
fn sorting_twice_changes_nothing() {
    for option in ["name", "cpu", "memory", "status", "pid"] {
        let mut once = sample();
        sort_processes(&mut once, option);
        let mut twice = once.clone();
        sort_processes(&mut twice, option);
        assert_eq!(pids(&once), pids(&twice));
    }
}

#[test]
fn sort_keys_ignore_case() {
    assert_eq!(sort_key_of("NAME"), SortKey::Name);
    assert_eq!(sort_key_of("Cpu"), SortKey::Cpu);
    assert_eq!(sort_key_of("MEM"), SortKey::Memory);
    assert_eq!(sort_key_of("memory"), SortKey::Memory);
    assert_eq!(sort_key_of("Status"), SortKey::Status);
    assert_eq!(sort_key_of("user"), SortKey::Pid);
}

#[test]
fn filter_matches_name_only() {
    let procs = sample();
    let chosen = select_processes(&procs, &Some("CHROME".to_string()), "pid", None);
    assert_eq!(pids(&chosen), vec![12, 44]);
    // ids do not count: 44 and 12 hold a "4" and a "1" but no name does
    let chosen = select_processes(&procs, &Some("4".to_string()), "pid", None);
    assert!(chosen.is_empty());
    let chosen = select_processes(&procs, &Some("1".to_string()), "pid", None);
    assert!(chosen.is_empty());
    let chosen = select_processes(&procs, &Some("zzz".to_string()), "pid", None);
    assert!(chosen.is_empty());
    assert!(process_matches(&procs[4], "helper"));
    assert!(!process_matches(&procs[4], "Helper"));
    assert!(!process_matches(&procs[0], "30"));
    assert!(process_matches(&procs[0], "code"));
}

#[test]
fn limit_keeps_the_first_entries() {
    let procs = sample();
    let chosen = select_processes(&procs, &None, "cpu", Some(2));
    assert_eq!(pids(&chosen), vec![12, 30]);
    let chosen = select_processes(&procs, &None, "cpu", Some(10));
    assert_eq!(chosen.len(), 5);
    let chosen = select_processes(&procs, &None, "cpu", Some(0));
    assert!(chosen.is_empty());
    let chosen = select_processes(&procs, &Some(".exe".to_string()), "name", Some(2));
    assert_eq!(pids(&chosen), vec![12, 30]);
}

fn maps(edges: &[(u32, &[u32])], names: &[(u32, &str)]) -> (HashMap<u32, Vec<u32>>, HashMap<u32, String>) {
    let mut children = HashMap::new();
    for (parent, kids) in edges {
        children.insert(*parent, kids.to_vec());
    }
    let mut named = HashMap::new();
    for (pid, name) in names {
        named.insert(*pid, name.to_string());
    }
    (children, named)
}

#[test]
fn descendant_search_looks_below_only() {
    let (children, names) = maps(
        &[(1, &[2, 3]), (3, &[4])],
        &[(1, "init"), (2, "bash"), (3, "sshd"), (4, "Vim")],
    );
    assert!(has_matching_descendant(1, &children, &names, "vim"));
    assert!(has_matching_descendant(3, &children, &names, "vim"));
    assert!(!has_matching_descendant(2, &children, &names, "vim"));
    // a process does not count as its own descendant
    assert!(!has_matching_descendant(1, &children, &names, "init"));
    assert!(!has_matching_descendant(4, &children, &names, "vim"));
}

#[test]
fn descendant_search_ends_on_cycles() {
    let (children, names) = maps(&[(1, &[2]), (2, &[1])], &[(1, "a"), (2, "b")]);
    assert!(!has_matching_descendant(1, &children, &names, "zzz"));
    // through the cycle, a process is its own descendant
    assert!(has_matching_descendant(1, &children, &names, "a"));
    // a child without a recorded name has the empty name
    let (children, names) = maps(&[(5, &[6])], &[(5, "x")]);
    assert!(has_matching_descendant(5, &children, &names, ""));
    assert!(!has_matching_descendant(5, &children, &names, "x"));
}

fn tree_sample() -> Vec<ProcessSnapshot> {
    vec![
        snap(0, "Idle", 0.0, 0, "idle", 0),
        snap(4, "System", 0.0, 0, "running", 0),
        snap(100, "explorer.exe", 0.0, 0, "running", 50),
        snap(120, "code.exe", 0.0, 0, "running", 100),
        snap(110, "chrome.exe", 0.0, 0, "running", 100),
        snap(130, "chrome.exe", 0.0, 0, "running", 110),
        snap(140, "notepad.exe", 0.0, 0, "running", 120),
    ]
}

#[test]
fn tree_draws_children_in_order() {
    let lines = tree_lines(&tree_sample(), &None);
    assert_eq!(
        lines,
        vec![
            "Idle (PID: 0)",
            "└── System (PID: 4)",
            "explorer.exe (PID: 100)",
            "├── chrome.exe (PID: 110)",
            "│   └── chrome.exe (PID: 130)",
            "└── code.exe (PID: 120)",
            "    └── notepad.exe (PID: 140)",
        ]
    );
}

#[test]
fn tree_filter_keeps_ancestors_of_matches() {
    let lines = tree_lines(&tree_sample(), &Some("NOTEPAD".to_string()));
    assert_eq!(
        lines,
        vec![
            "explorer.exe (PID: 100)",
            "└── code.exe (PID: 120)",
            "    └── notepad.exe (PID: 140)",
        ]
    );
    let lines = tree_lines(&tree_sample(), &Some("chrome".to_string()));
    assert_eq!(
        lines,
        vec![
            "explorer.exe (PID: 100)",
            "├── chrome.exe (PID: 110)",
            "│   └── chrome.exe (PID: 130)",
        ]
    );
    assert!(tree_lines(&tree_sample(), &Some("nothing".to_string())).is_empty());
}

#[test]
fn tree_lists_each_process_once() {
    // 2 is listed twice; 7 and 8 are each other's parent, so no root leads to them
    let procs = vec![
        snap(0, "Idle", 0.0, 0, "idle", 0),
        snap(1, "init", 0.0, 0, "running", 0),
        snap(2, "a", 0.0, 0, "running", 1),
        snap(2, "a", 0.0, 0, "running", 1),
        snap(7, "x", 0.0, 0, "running", 8),
        snap(8, "y", 0.0, 0, "running", 7),
    ];
    let lines = tree_lines(&procs, &None);
    assert_eq!(lines, vec!["Idle (PID: 0)", "└── init (PID: 1)", "    ├── a (PID: 2)"]);
}

#[test]
fn tree_children_of_process_zero_are_roots() {
    // without process 0, as on Linux, a process whose parent is 0 starts a tree
    let procs = vec![snap(2, "bash", 0.0, 0, "running", 1), snap(1, "init", 0.0, 0, "running", 0)];
    assert_eq!(tree_lines(&procs, &None), vec!["init (PID: 1)", "└── bash (PID: 2)"]);
}

#[test]
fn tree_is_empty_without_processes() {
    assert!(tree_lines(&Vec::new(), &None).is_empty());
}

#[test]
fn kill_reports() {
    let r = kill_report(42, Some("vim".to_string()), true, false);
    assert!(!r.is_error);
    assert_eq!(r.message, "Process vim (PID: 42) has been terminated.");
    let r = kill_report(42, Some("vim".to_string()), true, true);
    assert!(!r.is_error);
    assert_eq!(r.message, "Process vim (PID: 42) has been force killed.");
    let r = kill_report(42, Some("vim".to_string()), false, true);
    assert!(r.is_error);
    assert_eq!(r.message, "Failed to terminate process vim (PID: 42).");
    let r = kill_report(42, None, false, false);
    assert!(r.is_error);
    assert_eq!(r.message, "Process with PID 42 not found.");
}

#[test]
fn cpu_order_follows_the_values() {
    let mut procs = vec![
        snap(1, "a", 0.0, 0, "s", 0),
        snap(2, "b", -0.0, 0, "s", 0),
        snap(3, "c", 1.5, 0, "s", 0),
        snap(4, "d", -2.0, 0, "s", 0),
        snap(5, "e", 100.0, 0, "s", 0),
        snap(6, "f", 0.25, 0, "s", 0),
    ];
    sort_processes(&mut procs, "cpu");
    // zero and negative zero tie and keep their order
    assert_eq!(pids(&procs), vec![5, 3, 6, 1, 2, 4]);
}

#[test]
fn cpu_order_agrees_with_float_comparison() {
    let mut x: u32 = 0x1234_5678;
    let mut procs = Vec::new();
    let mut expected = Vec::new();
    for pid in 0..300u32 {
        x ^= x << 13;
        x ^= x >> 17;
        x ^= x << 5;
        let cpu = ((x % 4000) as f32) / 8.0 - 100.0;
        procs.push(snap(pid, "p", cpu, 0, "s", 0));
        expected.push((pid, cpu));
    }
    expected.sort_by(|a, b| b.1.partial_cmp(&a.1).unwrap_or(std::cmp::Ordering::Equal));
    sort_processes(&mut procs, "cpu");
    assert_eq!(pids(&procs), expected.iter().map(|e| e.0).collect::<Vec<_>>());
}

#[test]
fn name_order_agrees_with_string_comparison() {
    let names = ["ä", "a", "Z", "zz", "z", "", "b€", "b", "éa", "e", "A", "a"];
    let mut procs: Vec<ProcessSnapshot> =
        names.iter().enumerate().map(|(i, n)| snap(i as u32, n, 0.0, 0, "s", 0)).collect();
    let mut expected: Vec<(u32, String)> =
        names.iter().enumerate().map(|(i, n)| (i as u32, n.to_string())).collect();
    expected.sort_by(|a, b| a.1.cmp(&b.1));
    sort_processes(&mut procs, "name");
    assert_eq!(pids(&procs), expected.iter().map(|e| e.0).collect::<Vec<_>>());
}

#[test]
fn force_selects_the_signal() {
    assert_eq!(kill_signal(true), KillSignal::Kill);
    assert_eq!(kill_signal(false), KillSignal::Terminate);
}

#[test]
fn tree_does_not_depend_on_listing_order() {
    let procs = tree_sample();
    let expected = tree_lines(&procs, &None);
    let mut reversed = tree_sample();
    reversed.reverse();
    assert_eq!(tree_lines(&reversed, &None), expected);
    let mut rotated = tree_sample();
    rotated.rotate_left(3);
    assert_eq!(tree_lines(&rotated, &None), expected);
    assert_eq!(
        tree_lines(&rotated, &Some("chrome".to_string())),
        tree_lines(&procs, &Some("chrome".to_string()))
    );
}

#[test]
fn tree_filter_keeps_unfiltered_lines() {
    let all = tree_lines(&tree_sample(), &None);
    for keyword in ["notepad", "CHROME", "code", "idle", "zzz"] {
        let kept = tree_lines(&tree_sample(), &Some(keyword.to_string()));
        // every kept line appears, in order, among the unfiltered lines
        let mut rest = all.iter();
        for line in &kept {
            assert!(rest.any(|l| l == line), "{line} for {keyword}");
        }
    }
}

#[test]
fn tree_draws_every_process_of_a_linux_table() {
    // no process 0; init's parent is 0; an orphan whose parent is gone
    let procs = vec![
        snap(300, "orphan", 0.0, 0, "running", 299),
        snap(1, "systemd", 0.0, 0, "running", 0),
        snap(2, "kthreadd", 0.0, 0, "running", 0),
        snap(50, "sshd", 0.0, 0, "running", 1),
        snap(60, "bash", 0.0, 0, "running", 50),
        snap(3, "rcu_gp", 0.0, 0, "running", 2),
    ];
    let lines = tree_lines(&procs, &None);
    assert_eq!(
        lines,
        vec![
            "systemd (PID: 1)",
            "└── sshd (PID: 50)",
            "    └── bash (PID: 60)",
            "kthreadd (PID: 2)",
            "└── rcu_gp (PID: 3)",
            "orphan (PID: 300)",
        ]
    );
}
