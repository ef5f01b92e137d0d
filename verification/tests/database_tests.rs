use mangashelf::database::delete_os_folders;
use mangashelf::database::get_default_user;
use mangashelf::database::get_next_folder;
use mangashelf::database::get_os_folder_by_path;
use mangashelf::database::get_os_folders;
use mangashelf::database::get_os_folders_by_path;
use mangashelf::database::get_panels;
use mangashelf::database::get_user_by_id;
use mangashelf::database::get_prev_folder;
use mangashelf::database::update_os_folders;
use mangashelf::database::update_panels;
use mangashelf::database::CoverDirEntry;
use mangashelf::error::DatabaseError;
use mangashelf::database::FileMetadata;
use mangashelf::database::FolderMetadata;
use mangashelf::database::MangaPanel;
use mangashelf::database::OsFolder;
use mangashelf::database::Settings;
use mangashelf::database::SortType;
use mangashelf::error::SortTypeError;
use mangashelf::database::User;
use mangashelf::error::ReadDirError;

fn folder(path: &str, title: &str, parent: Option<&str>) -> OsFolder {
    OsFolder {
        user_id: String::from("1"),
        path: String::from(path),
        title: String::from(title),
        parent_path: parent.map(String::from),
        last_read_panel: None,
        cover_img_path: None,
        metadata: None,
        is_manga_folder: false,
        is_double_panels: false,
        is_read: false,
        zoom: 100,
        is_hidden: false,
        update_date: String::from("2024-01-01"),
        update_time: String::from("10:00am"),
    }
}

fn panel(path: &str, parent: &str, size: u64) -> MangaPanel {
    MangaPanel {
        user_id: String::from("1"),
        path: String::from(path),
        title: String::from("p"),
        parent_path: String::from(parent),
        metadata: Some(FileMetadata {
            created: None,
            modified: None,
            accessed: None,
            size: Some(size),
        }),
        is_read: false,
        update_date: String::from("2024-01-01"),
        update_time: String::from("10:00am"),
    }
}

fn default_user() -> User {
    User {
        id: String::from("1"),
        username: String::from("u"),
        settings: Settings {
            user_id: String::from("1"),
            mpv_path: None,
            plugins_path: None,
            autoplay: false,
            update_date: String::from("2024-01-01"),
            update_time: String::from("10:00am"),
        },
        last_read_manga_folder: None,
    }
}

#[test]
fn panel_new_derives_title_from_file_name() {
    let p = MangaPanel::new(
        String::from("1"),
        String::from("root"),
        String::from("root/ch 2.jpg"),
        None,
        String::from("2024-01-01"),
        String::from("10:00am"),
    )
    .unwrap();
    assert_eq!(p.title, "ch 2.jpg");
    assert_eq!(p.parent_path, "root");
    assert!(!p.is_read);
}

#[test]
fn panel_new_rejects_path_without_file_name() {
    let r = MangaPanel::new(
        String::from("1"),
        String::from("root"),
        String::from("root/"),
        None,
        String::from("2024-01-01"),
        String::from("10:00am"),
    );
    assert!(matches!(r, Err(ReadDirError::IoError(_))));
}

#[test]
fn stale_metadata_flags_size_and_mtime_changes() {
    let p = panel("root/a.jpg", "root", 10);
    let same = Some(FileMetadata { created: None, modified: None, accessed: None, size: Some(10) });
    let grown = Some(FileMetadata { created: None, modified: None, accessed: None, size: Some(11) });
    let touched =
        Some(FileMetadata { created: None, modified: Some(99), accessed: None, size: Some(10) });
    assert!(!p.is_stale_metadata(&same));
    assert!(p.is_stale_metadata(&grown));
    assert!(p.is_stale_metadata(&touched));
    assert!(p.is_stale_metadata(&None));
    let mut no_meta = panel("root/a.jpg", "root", 10);
    no_meta.metadata = None;
    assert!(no_meta.is_stale_metadata(&same));

    let mut edited = panel("root/a.jpg", "root", 10);
    edited.metadata =
        Some(FileMetadata { created: None, modified: Some(5), accessed: None, size: Some(10) });
    let later =
        Some(FileMetadata { created: None, modified: Some(6), accessed: None, size: Some(10) });
    assert!(edited.is_stale_metadata(&later));
}

#[test]
fn folder_metadata_from_parts() {
    let m = FolderMetadata::from_parts(Some(4096), 2, 1).unwrap();
    assert_eq!(m.size, Some(4096));
    assert_eq!(m.contains.files, 2);
    assert_eq!(m.contains.folders, 1);
    assert!(FolderMetadata::from_parts(None, 2, 1).is_none());
}

#[test]
fn sort_type_from_str() {
    assert!(matches!(SortType::from_str("none"), Ok(SortType::Unsorted)));
    assert!(matches!(
        SortType::from_str("episode_title_regex"),
        Ok(SortType::EpisodeTitleRegex)
    ));
    assert!(matches!(SortType::from_str("updated"), Ok(SortType::Updated)));
    match SortType::from_str("bogus") {
        Err(SortTypeError::FromStr(m)) => assert_eq!(m, "bogus"),
        _ => panic!("expected a parse error"),
    }
}

#[test]
fn get_os_folders_filters_roots_and_sorts() {
    let stored = vec![
        folder("lib/Chapter 10", "Chapter 10", None),
        folder("lib/Chapter 2", "Chapter 2", None),
        folder("lib/Chapter 2/sub", "sub", Some("lib/Chapter 2")),
        folder("other", "other", None),
    ];
    let mut other_user = folder("x", "x", None);
    other_user.user_id = String::from("2");
    let mut all = stored;
    all.push(other_user);
    let r = get_os_folders(&all, "1", "episode_title_regex").unwrap();
    let titles: Vec<&str> = r.iter().map(|f| f.title.as_str()).collect();
    assert_eq!(titles, vec!["other", "Chapter 2", "Chapter 10"]);
}

#[test]
fn get_os_folders_error_cases() {
    let empty: Vec<OsFolder> = vec![];
    assert!(matches!(
        get_os_folders(&empty, "1", "bogus"),
        Err(DatabaseError::SortType(SortTypeError::FromStr(_)))
    ));
    assert!(matches!(
        get_os_folders(&empty, "1", "none"),
        Err(DatabaseError::OsFoldersNotFound(_))
    ));
}

#[test]
fn get_os_folder_by_path_wraps_option() {
    let f = folder("lib/a", "a", None);
    let got = get_os_folder_by_path(Some(f), "lib/a").unwrap();
    assert_eq!(got.path, "lib/a");
    assert!(matches!(
        get_os_folder_by_path(None, "lib/a"),
        Err(DatabaseError::OsFoldersNotFound(_))
    ));
}

#[test]
fn get_os_folders_by_path_filters_children() {
    let stored = vec![
        folder("lib", "lib", None),
        folder("lib/ch2", "ch2", Some("lib")),
        folder("lib/ch1", "ch1", Some("lib")),
    ];
    let r = get_os_folders_by_path(&stored, "lib", "episode_title_regex").unwrap();
    let titles: Vec<&str> = r.iter().map(|f| f.title.as_str()).collect();
    assert_eq!(titles, vec!["ch1", "ch2"]);
    assert!(matches!(
        get_os_folders_by_path(&stored, "absent", "none"),
        Err(DatabaseError::OsFoldersNotFound(_))
    ));
}

#[test]
fn get_panels_sorts_by_chapter_order() {
    let mut p1 = panel("root/10.jpg", "root", 1);
    p1.title = String::from("10.jpg");
    let mut p2 = panel("root/2.jpg", "root", 1);
    p2.title = String::from("2.jpg");
    let stored = vec![p1, p2];
    let r = get_panels(&stored, "root").unwrap();
    let titles: Vec<&str> = r.iter().map(|p| p.title.as_str()).collect();
    assert_eq!(titles, vec!["2.jpg", "10.jpg"]);
    assert!(matches!(
        get_panels(&stored, "absent"),
        Err(DatabaseError::PanelsNotFound(_))
    ));
}

#[test]
fn update_functions_stamp_records() {
    let folders = vec![folder("lib/a", "a", None)];
    let (out, user) = update_os_folders(&folders, Some(default_user()), "2025-02-03", "9:30pm");
    assert_eq!(out[0].update_date, "2025-02-03");
    assert_eq!(out[0].update_time, "9:30pm");
    let u = user.unwrap();
    assert_eq!(u.last_read_manga_folder.unwrap().path, "lib/a");

    let panels = vec![panel("root/a.jpg", "root", 1)];
    let out = update_panels(&panels, Some(true), "2025-02-03", "9:30pm");
    assert!(out[0].is_read);
    assert_eq!(out[0].update_date, "2025-02-03");
}

#[test]
fn sibling_navigation_follows_chapter_order() {
    let siblings = vec![
        folder("lib/Chapter 3", "Chapter 3", Some("lib")),
        folder("lib/Chapter 1", "Chapter 1", Some("lib")),
        folder("lib/Chapter 2", "Chapter 2", Some("lib")),
    ];
    let current = folder("lib/Chapter 2", "Chapter 2", Some("lib"));
    let prev = get_prev_folder("lib", &current, &siblings).unwrap();
    assert_eq!(prev.title, "Chapter 1");
    let next = get_next_folder("lib", &current, &siblings).unwrap();
    assert_eq!(next.title, "Chapter 3");

    let first = folder("lib/Chapter 1", "Chapter 1", Some("lib"));
    assert!(matches!(
        get_prev_folder("lib", &first, &siblings),
        Err(DatabaseError::OsFoldersNotFound(_))
    ));
    let last = folder("lib/Chapter 3", "Chapter 3", Some("lib"));
    assert!(matches!(
        get_next_folder("lib", &last, &siblings),
        Err(DatabaseError::OsFoldersNotFound(_))
    ));
    let empty: Vec<OsFolder> = vec![];
    assert!(matches!(
        get_next_folder("lib", &current, &empty),
        Err(DatabaseError::OsFoldersNotFound(_))
    ));
}

#[test]
fn deletion_cascade_removes_descendants_and_clears_pointer() {
    let stored_folders = vec![
        folder("lib/f", "f", None),
        folder("lib/f/ch1", "ch1", Some("lib/f")),
        folder("lib/f/ch1/deep", "deep", Some("lib/f/ch1")),
        folder("lib/g", "g", None),
    ];
    let stored_panels = vec![
        panel("lib/f/a.jpg", "lib/f", 1),
        panel("lib/f/ch1/b.jpg", "lib/f/ch1", 1),
        panel("lib/g/c.jpg", "lib/g", 1),
    ];
    let targets = vec![folder("lib/f", "f", None)];
    let mut user = default_user();
    user.last_read_manga_folder = Some(folder("lib/f/ch1", "ch1", Some("lib/f")));
    let (del_f, del_p, user2) =
        delete_os_folders(&targets, &stored_folders, &stored_panels, Some(user));
    let fpaths: Vec<&str> = del_f.iter().map(|f| f.path.as_str()).collect();
    assert_eq!(fpaths, vec!["lib/f/ch1", "lib/f/ch1/deep", "lib/f"]);
    let ppaths: Vec<&str> = del_p.iter().map(|p| p.path.as_str()).collect();
    assert_eq!(ppaths, vec!["lib/f/a.jpg", "lib/f/ch1/b.jpg"]);
    assert!(user2.unwrap().last_read_manga_folder.is_none());
}

#[test]
fn deletion_cascade_keeps_unrelated_pointer() {
    let stored_folders = vec![folder("lib/f", "f", None), folder("lib/g", "g", None)];
    let stored_panels: Vec<MangaPanel> = vec![];
    let targets = vec![folder("lib/f", "f", None)];
    let mut user = default_user();
    user.last_read_manga_folder = Some(folder("lib/g", "g", None));
    let (_, _, user2) = delete_os_folders(&targets, &stored_folders, &stored_panels, Some(user));
    assert_eq!(user2.unwrap().last_read_manga_folder.unwrap().path, "lib/g");
}

#[test]
fn deletion_cascade_respects_component_boundaries() {
    let stored_folders = vec![
        folder("lib/a/ch1", "ch1", Some("lib/a")),
        folder("lib/ab/ch1", "ch1", Some("lib/ab")),
        folder("lib/a/x/deep", "deep", Some("lib/a/x")),
    ];
    let stored_panels = vec![
        panel("lib/a/p.jpg", "lib/a", 1),
        panel("lib/ab/p.jpg", "lib/ab", 1),
    ];
    let targets = vec![folder("lib/a", "a", None)];
    let (del_f, del_p, _) = delete_os_folders(&targets, &stored_folders, &stored_panels, None);
    let fpaths: Vec<&str> = del_f.iter().map(|f| f.path.as_str()).collect();
    assert_eq!(fpaths, vec!["lib/a/ch1", "lib/a/x/deep", "lib/a"]);
    let ppaths: Vec<&str> = del_p.iter().map(|p| p.path.as_str()).collect();
    assert_eq!(ppaths, vec!["lib/a/p.jpg"]);
}

#[test]
fn cover_folder_removals_match_title_and_cover_name() {
    let mut f = folder("lib/f", "f", None);
    f.cover_img_path = Some(String::from("f_cover.cmp.jpg"));
    let entries = vec![
        CoverDirEntry { name: String::from("f"), is_dir: true, is_file: false },
        CoverDirEntry { name: String::from("g"), is_dir: true, is_file: false },
        CoverDirEntry { name: String::from("f_cover.cmp.jpg"), is_dir: false, is_file: true },
        CoverDirEntry { name: String::from("other.jpg"), is_dir: false, is_file: true },
    ];
    let r = f.delete_app_data_cover_folder(&entries);
    let names: Vec<&str> = r.iter().map(|e| e.name.as_str()).collect();
    assert_eq!(names, vec!["f", "f_cover.cmp.jpg"]);
}

#[test]
fn user_lookups_wrap_options() {
    assert!(matches!(
        get_default_user(None),
        Err(DatabaseError::UserNotFound(_))
    ));
    assert_eq!(get_default_user(Some(default_user())).unwrap().id, "1");
    assert!(matches!(
        get_user_by_id(None, "7"),
        Err(DatabaseError::UserNotFound(_))
    ));
    assert_eq!(get_user_by_id(Some(default_user()), "1").unwrap().id, "1");
}

#[test]
fn updated_sort_orders_most_recent_first() {
    let mut a = folder("lib/a", "a", None);
    a.update_date = String::from("2024-01-01");
    a.update_time = String::from("10:00am");
    let mut b = folder("lib/b", "b", None);
    b.update_date = String::from("2024-06-01");
    b.update_time = String::from("10:00am");
    let r = SortType::Updated.sort(&vec![a, b]);
    let titles: Vec<&str> = r.iter().map(|f| f.title.as_str()).collect();
    assert_eq!(titles, vec!["b", "a"]);
}
