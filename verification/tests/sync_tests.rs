use mangashelf::database::FileMetadata;
use mangashelf::database::MangaPanel;
use mangashelf::database::OsFolder;
use mangashelf::database::Settings;
use mangashelf::database::User;
use mangashelf::error::ReadDirError;
use mangashelf::sync::find_missing_paths;
use mangashelf::sync::find_stale_entries;
use mangashelf::sync::find_stale_metadata;
use mangashelf::sync::format_cover_img_path;
use mangashelf::sync::read_dir_helper;
use mangashelf::sync::read_os_folder_dir;
use mangashelf::sync::upsert_read_os_dir;
use mangashelf::sync::FsDirTree;
use mangashelf::sync::PanelSighting;
use mangashelf::sync::RawDirEntry;
use mangashelf::sync::StaleEntries;

fn meta(size: u64) -> Option<FileMetadata> {
    Some(FileMetadata { created: None, modified: None, accessed: None, size: Some(size) })
}

fn sighting(path: &str, size: u64) -> PanelSighting {
    PanelSighting { path: String::from(path), metadata: meta(size) }
}

fn folder_record(path: &str, title: &str, parent: Option<&str>) -> OsFolder {
    OsFolder {
        user_id: String::from("1"),
        path: String::from(path),
        title: String::from(title),
        parent_path: parent.map(String::from),
        last_read_panel: None,
        cover_img_path: None,
        metadata: None,
        is_manga_folder: false,
        is_double_panels: false,
        is_read: false,
        zoom: 100,
        is_hidden: false,
        update_date: String::from("2024-01-01"),
        update_time: String::from("10:00am"),
    }
}

fn panel_record(path: &str, parent: &str, size: u64) -> MangaPanel {
    MangaPanel {
        user_id: String::from("1"),
        path: String::from(path),
        title: String::from("p"),
        parent_path: String::from(parent),
        metadata: meta(size),
        is_read: false,
        update_date: String::from("2024-01-01"),
        update_time: String::from("10:00am"),
    }
}

fn default_user() -> User {
    User {
        id: String::from("1"),
        username: String::from("u"),
        settings: Settings {
            user_id: String::from("1"),
            mpv_path: None,
            plugins_path: None,
            autoplay: false,
            update_date: String::from("2024-01-01"),
            update_time: String::from("10:00am"),
        },
        last_read_manga_folder: None,
    }
}

/// The `root/` scenario: `a.jpg`, `b.jpg`, and `ch2/` holding `c.jpg`.
fn scenario_tree() -> FsDirTree {
    FsDirTree {
        path: String::from("root"),
        size: Some(4096),
        panels: vec![sighting("root/a.jpg", 10), sighting("root/b.jpg", 20)],
        children: vec![FsDirTree {
            path: String::from("root/ch2"),
            size: Some(4096),
            panels: vec![sighting("root/ch2/c.jpg", 30)],
            children: vec![],
        }],
    }
}

#[test]
fn classifier_splits_panels_and_folders() {
    let entries = vec![
        RawDirEntry { path: String::from("r/a.jpg"), is_dir: false, dir_has_entries: false },
        RawDirEntry { path: String::from("r/notes.txt"), is_dir: false, dir_has_entries: false },
        RawDirEntry { path: String::from("r/ch2"), is_dir: true, dir_has_entries: true },
        RawDirEntry { path: String::from("r/empty"), is_dir: true, dir_has_entries: false },
        RawDirEntry { path: String::from("r/odd.jpg"), is_dir: true, dir_has_entries: true },
    ];
    let (folders, panels) = read_dir_helper(&entries);
    assert_eq!(folders, vec![String::from("r/ch2")]);
    assert_eq!(panels, vec![String::from("r/a.jpg"), String::from("r/odd.jpg")]);
}

#[test]
fn missing_paths_is_symmetric_difference() {
    let old = vec![folder_record("r/a", "a", None), folder_record("r/b", "b", None)];
    let same = vec![String::from("r/b"), String::from("r/a")];
    assert!(find_missing_paths(&old, &same).is_none());

    let new = vec![String::from("r/b"), String::from("r/c")];
    let mut diff = find_missing_paths(&old, &new).unwrap();
    diff.sort();
    assert_eq!(diff, vec![String::from("r/a"), String::from("r/c")]);

    let none_old: Vec<OsFolder> = vec![];
    let none_new: Vec<String> = vec![];
    assert!(find_missing_paths(&none_old, &none_new).is_none());
}

#[test]
fn stale_metadata_flags_changed_new_and_vanished() {
    let old = vec![panel_record("r/a.jpg", "r", 10), panel_record("r/b.jpg", "r", 20)];
    let same = vec![sighting("r/a.jpg", 10), sighting("r/b.jpg", 20)];
    assert!(find_stale_metadata(&old, &same).is_none());

    let grown = vec![sighting("r/a.jpg", 11), sighting("r/b.jpg", 20)];
    let r = find_stale_metadata(&old, &grown).unwrap();
    assert_eq!(r, vec![String::from("r/a.jpg")]);

    let with_new = vec![
        sighting("r/a.jpg", 10),
        sighting("r/b.jpg", 20),
        sighting("r/c.jpg", 30),
    ];
    let r = find_stale_metadata(&old, &with_new).unwrap();
    assert_eq!(r, vec![String::from("r/c.jpg")]);

    let vanished = vec![sighting("r/a.jpg", 10)];
    let r = find_stale_metadata(&old, &vanished).unwrap();
    assert_eq!(r, vec![String::from("r/b.jpg")]);

    let touched = vec![
        PanelSighting {
            path: String::from("r/a.jpg"),
            metadata: Some(FileMetadata {
                created: None,
                modified: Some(7),
                accessed: None,
                size: Some(10),
            }),
        },
        sighting("r/b.jpg", 20),
    ];
    let r = find_stale_metadata(&old, &touched).unwrap();
    assert_eq!(r, vec![String::from("r/a.jpg")]);
}

#[test]
fn stale_entries_has_three_states() {
    let dirs = vec![String::from("r/ch2")];
    let panels = vec![sighting("r/a.jpg", 10)];
    let fresh = find_stale_entries(&dirs, &panels, &None, &None, &vec![]);
    assert!(matches!(fresh, StaleEntries::NoPriorState));
    assert!(fresh.is_none());

    let old_dirs = Some(vec![folder_record("r/ch2", "ch2", Some("r"))]);
    let old_panels = Some(vec![panel_record("r/a.jpg", "r", 10)]);
    let existing = vec![String::from("r/ch2"), String::from("r/a.jpg")];
    let unchanged = find_stale_entries(&dirs, &panels, &old_dirs, &old_panels, &existing);
    assert!(matches!(unchanged, StaleEntries::NoChange));
    assert!(unchanged.is_none());

    let existing_without_panel = vec![String::from("r/ch2")];
    let found = find_stale_entries(&dirs, &panels, &old_dirs, &old_panels, &existing_without_panel);
    match found {
        StaleEntries::Found { dirs, panels, deleted } => {
            assert!(dirs.is_none());
            // with the vanished record dropped, its sighting counts as new
            assert_eq!(panels.unwrap(), vec![String::from("r/a.jpg")]);
            let (df, dp) = deleted.unwrap();
            assert!(df.is_empty());
            assert_eq!(dp.len(), 1);
            assert_eq!(dp[0].path, "r/a.jpg");
        },
        _ => panic!("expected stale entries"),
    }
}

#[test]
fn tree_synchronizer_builds_the_scenario_records() {
    let tree = scenario_tree();
    let (root, child_folders, panels) = read_os_folder_dir(
        &tree,
        "1",
        "2024-01-01",
        "10:00am",
        None,
        &StaleEntries::NoPriorState,
    )
    .unwrap();
    assert_eq!(root.path, "root");
    assert_eq!(root.title, "root");
    assert!(root.parent_path.is_none());
    assert!(root.is_manga_folder);
    assert_eq!(root.zoom, 100);
    let m = root.metadata.unwrap();
    assert_eq!(m.contains.files, 2);
    assert_eq!(m.contains.folders, 1);
    assert_eq!(root.cover_img_path, Some(String::from("root/a.jpg")));
    assert_eq!(root.last_read_panel.unwrap().path, "root/a.jpg");

    assert_eq!(child_folders.len(), 1);
    let ch2 = &child_folders[0];
    assert_eq!(ch2.path, "root/ch2");
    assert_eq!(ch2.parent_path, Some(String::from("root")));
    assert_eq!(ch2.cover_img_path, Some(String::from("root/ch2/c.jpg")));

    let paths: Vec<&str> = panels.iter().map(|p| p.path.as_str()).collect();
    assert_eq!(paths, vec!["root/a.jpg", "root/b.jpg", "root/ch2/c.jpg"]);
}

#[test]
fn tree_synchronizer_rejects_empty_and_unnamed_directories() {
    let empty = FsDirTree {
        path: String::from("root"),
        size: None,
        panels: vec![],
        children: vec![],
    };
    let r = read_os_folder_dir(&empty, "1", "d", "t", None, &StaleEntries::NoPriorState);
    assert!(matches!(r, Err(ReadDirError::IoError(_))));

    let unnamed = FsDirTree {
        path: String::from("root/"),
        size: None,
        panels: vec![sighting("root/a.jpg", 1)],
        children: vec![],
    };
    let r = read_os_folder_dir(&unnamed, "1", "d", "t", None, &StaleEntries::NoPriorState);
    assert!(matches!(r, Err(ReadDirError::Path(_))));
}

#[test]
fn folder_without_own_panels_inherits_child_cover() {
    let tree = FsDirTree {
        path: String::from("root"),
        size: Some(1),
        panels: vec![],
        children: vec![FsDirTree {
            path: String::from("root/ch1"),
            size: Some(1),
            panels: vec![sighting("root/ch1/c.jpg", 1)],
            children: vec![],
        }],
    };
    let (root, _, _) = read_os_folder_dir(
        &tree,
        "1",
        "2024-01-01",
        "10:00am",
        None,
        &StaleEntries::NoPriorState,
    )
    .unwrap();
    assert!(!root.is_manga_folder);
    assert_eq!(root.cover_img_path, Some(String::from("root/ch1/c.jpg")));
    assert!(root.last_read_panel.is_none());
}

#[test]
fn cover_artifact_paths_are_keyed_by_ancestry() {
    let r = format_cover_img_path("root/ch2/c.jpg", "app", (Some("root"), "root/ch2"), "/");
    assert_eq!(r.unwrap(), Some(String::from("app/covers/root/ch2/c.cmp.jpg")));
    let r = format_cover_img_path("root/a.jpg", "app", (None, "root"), "/");
    assert_eq!(r.unwrap(), Some(String::from("app/covers/root/a.cmp.jpg")));
    let r = format_cover_img_path("root/", "app", (None, "root"), "/");
    assert!(matches!(r, Err(ReadDirError::Path(_))));
}

#[test]
fn first_sync_scans_everything_and_rewrites_covers() {
    let tree = scenario_tree();
    let plan = upsert_read_os_dir(
        &tree,
        None,
        default_user(),
        None,
        None,
        &vec![],
        &vec![],
        &vec![],
        "app",
        "/",
        "2024-01-02",
        "11:00am",
    )
    .unwrap();
    assert!(plan.refetched);
    assert!(plan.delete_folders.is_empty());
    assert!(plan.delete_panels.is_empty());
    assert!(plan.user.is_none());
    assert_eq!(plan.panels.len(), 3);
    assert_eq!(plan.panels[0].update_date, "2024-01-02");
    assert_eq!(plan.folders.len(), 2);
    assert_eq!(plan.folders[0].path, "root/ch2");
    assert_eq!(
        plan.folders[0].cover_img_path,
        Some(String::from("app/covers/root/ch2/c.cmp.jpg"))
    );
    assert_eq!(plan.folders[1].path, "root");
    assert_eq!(
        plan.folders[1].cover_img_path,
        Some(String::from("app/covers/root/a.cmp.jpg"))
    );
    assert_eq!(plan.covers.len(), 2);
    assert_eq!(
        plan.covers[0],
        (String::from("root/ch2/c.jpg"), String::from("app/covers/root/ch2/c.cmp.jpg"))
    );
    assert_eq!(
        plan.covers[1],
        (String::from("root/a.jpg"), String::from("app/covers/root/a.cmp.jpg"))
    );
}

/// Prior records exactly as a sync of the scenario tree would store them
/// for the root directory.
fn scenario_prior() -> (Vec<OsFolder>, Vec<MangaPanel>, Vec<String>) {
    let old_dirs = vec![folder_record("root/ch2", "ch2", Some("root"))];
    let old_panels = vec![
        panel_record("root/a.jpg", "root", 10),
        panel_record("root/b.jpg", "root", 20),
    ];
    let existing = vec![
        String::from("root/ch2"),
        String::from("root/a.jpg"),
        String::from("root/b.jpg"),
    ];
    (old_dirs, old_panels, existing)
}

#[test]
fn unchanged_disk_with_prior_state_skips_all_work() {
    let tree = scenario_tree();
    let (old_dirs, old_panels, existing) = scenario_prior();
    let plan = upsert_read_os_dir(
        &tree,
        None,
        default_user(),
        Some(old_dirs),
        Some(old_panels),
        &existing,
        &vec![],
        &vec![],
        "app",
        "/",
        "2024-01-02",
        "11:00am",
    )
    .unwrap();
    assert!(!plan.refetched);
    assert!(plan.delete_folders.is_empty());
    assert!(plan.delete_panels.is_empty());
    assert!(plan.user.is_none());
    assert!(plan.panels.is_empty());
    assert!(plan.folders.is_empty());
    assert!(plan.covers.is_empty());
}

#[test]
fn second_sync_after_first_is_skipped() {
    let tree = scenario_tree();
    let first = upsert_read_os_dir(
        &tree,
        None,
        default_user(),
        None,
        None,
        &vec![],
        &vec![],
        &vec![],
        "app",
        "/",
        "2024-01-02",
        "11:00am",
    )
    .unwrap();
    assert!(first.refetched);
    // hand the second call the records the first one stored for `root`
    let old_dirs: Vec<OsFolder> = first
        .folders
        .iter()
        .filter(|f| f.parent_path.as_deref() == Some("root"))
        .cloned()
        .collect();
    let old_panels: Vec<MangaPanel> = first
        .panels
        .iter()
        .filter(|p| p.parent_path == "root")
        .cloned()
        .collect();
    let existing: Vec<String> = old_dirs
        .iter()
        .map(|f| f.path.clone())
        .chain(old_panels.iter().map(|p| p.path.clone()))
        .collect();
    let second = upsert_read_os_dir(
        &tree,
        None,
        default_user(),
        Some(old_dirs),
        Some(old_panels),
        &existing,
        &vec![],
        &vec![],
        "app",
        "/",
        "2024-01-03",
        "12:00pm",
    )
    .unwrap();
    assert!(!second.refetched);
    assert!(second.folders.is_empty());
    assert!(second.panels.is_empty());
}

#[test]
fn deleting_a_panel_triggers_one_removal_and_a_rescan() {
    // `b.jpg` vanished from disk
    let tree = FsDirTree {
        path: String::from("root"),
        size: Some(4096),
        panels: vec![sighting("root/a.jpg", 10)],
        children: vec![FsDirTree {
            path: String::from("root/ch2"),
            size: Some(4096),
            panels: vec![sighting("root/ch2/c.jpg", 30)],
            children: vec![],
        }],
    };
    let (old_dirs, old_panels, _) = scenario_prior();
    let existing = vec![String::from("root/ch2"), String::from("root/a.jpg")];
    let stored_folders = vec![folder_record("root/ch2", "ch2", Some("root"))];
    let stored_panels = vec![
        panel_record("root/a.jpg", "root", 10),
        panel_record("root/b.jpg", "root", 20),
        panel_record("root/ch2/c.jpg", "root/ch2", 30),
    ];
    let plan = upsert_read_os_dir(
        &tree,
        None,
        default_user(),
        Some(old_dirs),
        Some(old_panels),
        &existing,
        &stored_folders,
        &stored_panels,
        "app",
        "/",
        "2024-01-03",
        "12:00pm",
    )
    .unwrap();
    assert!(plan.refetched);
    assert!(plan.delete_folders.is_empty());
    assert_eq!(plan.delete_panels.len(), 1);
    assert_eq!(plan.delete_panels[0].path, "root/b.jpg");
    assert!(plan.user.is_some());
    let paths: Vec<&str> = plan.panels.iter().map(|p| p.path.as_str()).collect();
    assert_eq!(paths, vec!["root/a.jpg", "root/ch2/c.jpg"]);
    assert_eq!(plan.folders.len(), 2);
}

#[test]
fn metadata_staleness_triggers_refresh_on_next_sync() {
    // `a.jpg` grew from 10 to 99 bytes under the same path
    let tree = FsDirTree {
        path: String::from("root"),
        size: Some(4096),
        panels: vec![sighting("root/a.jpg", 99), sighting("root/b.jpg", 20)],
        children: vec![FsDirTree {
            path: String::from("root/ch2"),
            size: Some(4096),
            panels: vec![sighting("root/ch2/c.jpg", 30)],
            children: vec![],
        }],
    };
    let (old_dirs, old_panels, existing) = scenario_prior();
    let plan = upsert_read_os_dir(
        &tree,
        None,
        default_user(),
        Some(old_dirs),
        Some(old_panels),
        &existing,
        &vec![],
        &vec![],
        "app",
        "/",
        "2024-01-03",
        "12:00pm",
    )
    .unwrap();
    assert!(plan.refetched);
    // only the stale panel is re-read; the directory set was unchanged
    let paths: Vec<&str> = plan.panels.iter().map(|p| p.path.as_str()).collect();
    assert_eq!(paths, vec!["root/a.jpg"]);
    assert_eq!(plan.panels[0].metadata.unwrap().size, Some(99));
}
