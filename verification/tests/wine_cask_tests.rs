use std::collections::HashSet;

use steam_meta::steam_util::SteamUtil;
use steam_meta::wine_cask::broadcast_plan;
use steam_meta::wine_cask::copy_plan;
use steam_meta::wine_cask::delete_plan;
use steam_meta::wine_cask::generate_compatibility_tool_vdf;
use steam_meta::wine_cask::FsEntry;
use steam_meta::wine_cask::FsOp;
use steam_meta::wine_cask::Orchestrator;
use steam_meta::wine_cask::Task;
use steam_meta::wine_cask::TaskQueue;
use steam_meta::wine_cask::TaskType;
use steam_meta::wine_cask::WorkerState;

fn tool_tree() -> FsEntry {
    FsEntry::Dir(
        "tool_x".to_string(),
        vec![
            FsEntry::File("a.bin".to_string()),
            FsEntry::File("b.bin".to_string()),
            FsEntry::File("compatibilitytool.vdf".to_string()),
            FsEntry::Dir(
                "files".to_string(),
                vec![
                    FsEntry::File("c.so".to_string()),
                    FsEntry::File("d.so".to_string()),
                ],
            ),
        ],
    )
}

/// Applies a deletion plan to a set of existing paths, failing on any
/// deletion of something absent or of a non-empty directory.
fn apply_delete(ops: &[FsOp], files: &mut HashSet<String>, dirs: &mut HashSet<String>) {
    for op in ops {
        match op {
            FsOp::RemoveFile(p) => {
                assert!(files.remove(p), "removed absent file {}", p);
            }
            FsOp::RemoveDir(p) => {
                let prefix = format!("{}/", p);
                assert!(
                    !files.iter().any(|f| f.starts_with(&prefix)),
                    "directory {} still has files",
                    p
                );
                assert!(
                    !dirs.iter().any(|d| d != p && d.starts_with(&prefix)),
                    "directory {} still has subdirectories",
                    p
                );
                assert!(dirs.remove(p), "removed absent directory {}", p);
            }
            _ => panic!("a deletion plan only removes"),
        }
    }
}

#[test]
fn uninstall_deletes_everything_and_notifies_each_peer_once() {
    // The tool directory: three files and one subdirectory with two files.
    let tree = tool_tree();
    let base = "/root/compatibilitytools.d";
    let ops = delete_plan(base, &tree);

    let mut files: HashSet<String> = [
        "/root/compatibilitytools.d/tool_x/a.bin",
        "/root/compatibilitytools.d/tool_x/b.bin",
        "/root/compatibilitytools.d/tool_x/compatibilitytool.vdf",
        "/root/compatibilitytools.d/tool_x/files/c.so",
        "/root/compatibilitytools.d/tool_x/files/d.so",
    ]
    .iter()
    .map(|s| s.to_string())
    .collect();
    let mut dirs: HashSet<String> = [
        "/root/compatibilitytools.d/tool_x",
        "/root/compatibilitytools.d/tool_x/files",
    ]
    .iter()
    .map(|s| s.to_string())
    .collect();

    let mut orch = Orchestrator::new();
    orch.submit(Task {
        kind: TaskType::UninstallCompatibilityTool,
        tool_name: "tool_x".to_string(),
    });
    let task = orch.begin_next().unwrap();
    assert_eq!(task.kind, TaskType::UninstallCompatibilityTool);

    apply_delete(&ops, &mut files, &mut dirs);
    assert!(files.is_empty(), "all five files are gone");
    assert!(dirs.is_empty(), "the tool directory and its subdirectory are gone");

    let update = orch.finish(&task, true);
    assert!(update.success);
    let peers = vec![11u64, 22u64];
    let sent = broadcast_plan(&peers, &update);
    assert_eq!(sent.len(), 2);
    assert_eq!(sent[0].0, 11);
    assert_eq!(sent[1].0, 22);
    assert!(sent.iter().all(|(_, u)| u.tool_name == "tool_x" && u.success));
}

#[test]
fn install_then_uninstall_run_strictly_in_order() {
    let mut orch = Orchestrator::new();
    orch.submit(Task {
        kind: TaskType::InstallCompatibilityTool,
        tool_name: "tool_x".to_string(),
    });
    orch.submit(Task {
        kind: TaskType::UninstallCompatibilityTool,
        tool_name: "tool_x".to_string(),
    });

    // The worker picks up the install first, runs it to completion, and only
    // then sees the uninstall: no interleaving is observable.
    let first = orch.begin_next().unwrap();
    assert_eq!(first.kind, TaskType::InstallCompatibilityTool);
    assert_eq!(orch.state, WorkerState::Processing);
    let update1 = orch.finish(&first, true);
    assert_eq!(update1.kind, TaskType::InstallCompatibilityTool);

    let second = orch.begin_next().unwrap();
    assert_eq!(second.kind, TaskType::UninstallCompatibilityTool);
    let update2 = orch.finish(&second, true);
    assert_eq!(update2.kind, TaskType::UninstallCompatibilityTool);

    assert!(orch.begin_next().is_none());
    assert_eq!(orch.state, WorkerState::Idle);
}

#[test]
fn failed_handler_reports_and_the_worker_keeps_going() {
    let mut orch = Orchestrator::new();
    orch.submit(Task {
        kind: TaskType::InstallCompatibilityTool,
        tool_name: "broken".to_string(),
    });
    orch.submit(Task {
        kind: TaskType::InstallCompatibilityTool,
        tool_name: "fine".to_string(),
    });
    let t1 = orch.begin_next().unwrap();
    let u1 = orch.finish(&t1, false);
    assert!(!u1.success);
    // The loop resumes: the next task is still picked up.
    let t2 = orch.begin_next().unwrap();
    assert_eq!(t2.tool_name, "fine");
    let u2 = orch.finish(&t2, true);
    assert!(u2.success);
}

#[test]
fn queue_is_fifo() {
    let mut q = TaskQueue::new();
    assert_eq!(q.len(), 0);
    assert!(q.dequeue().is_none());
    q.enqueue(Task { kind: TaskType::InstallCompatibilityTool, tool_name: "a".to_string() });
    q.enqueue(Task { kind: TaskType::UninstallCompatibilityTool, tool_name: "b".to_string() });
    assert_eq!(q.len(), 2);
    assert_eq!(q.dequeue().unwrap().tool_name, "a");
    assert_eq!(q.dequeue().unwrap().tool_name, "b");
    assert!(q.dequeue().is_none());
}

#[test]
fn copy_plan_creates_directories_before_their_contents() {
    let entries = vec![
        FsEntry::File("a.bin".to_string()),
        FsEntry::Dir("files".to_string(), vec![FsEntry::File("c.so".to_string())]),
    ];
    let ops = copy_plan("/src/tool_x", "/dst/tool_x", &entries);
    assert_eq!(
        ops,
        vec![
            FsOp::MkDir("/dst/tool_x".to_string()),
            FsOp::CopyFile("/src/tool_x/a.bin".to_string(), "/dst/tool_x/a.bin".to_string()),
            FsOp::MkDir("/dst/tool_x/files".to_string()),
            FsOp::CopyFile(
                "/src/tool_x/files/c.so".to_string(),
                "/dst/tool_x/files/c.so".to_string()
            ),
        ]
    );
}

#[test]
fn generated_descriptor_reads_back_with_the_same_names() {
    let text = generate_compatibility_tool_vdf("Tool-X", "Tool X");
    let steam_util = SteamUtil::new("/tmp/steam/root".to_string());
    let tool = steam_util
        .read_compatibility_tool_from_vdf_path(&text, "/p/tool_x".to_string(), "tool_x".to_string())
        .unwrap();
    assert_eq!(tool.internal_name, "Tool-X");
    assert_eq!(tool.display_name, "Tool X");
    assert_eq!(tool.from_os_list, "windows");
    assert_eq!(tool.to_os_list, "linux");
}
