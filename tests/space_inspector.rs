use space_inspector::entry::{FolderEntry, FolderEntryType};
use space_inspector::folder::{sort_entries, EngineError, Folder, SortBy};
use space_inspector::navigator::{path_to_folder, App, DeleteStep, EnterOutcome};
use space_inspector::tree::{DiskTree, TreeError};

const TEST_FILE_SIZE: u64 = 446;

/// - a_folder (two files)
/// - b_folder
/// - c_folder
/// - a_root_file.txt, d_root_file.txt, z_root_file.txt
fn view_tree() -> DiskTree {
    let mut t = DiskTree::new("view".to_string());
    t.add_file(0, "z_root_file.txt".to_string(), 30).unwrap();
    let c = t.add_dir(0, "c_folder".to_string()).unwrap();
    t.add_file(0, "a_root_file.txt".to_string(), 10).unwrap();
    let a = t.add_dir(0, "a_folder".to_string()).unwrap();
    t.add_file(0, "d_root_file.txt".to_string(), 20).unwrap();
    let b = t.add_dir(0, "b_folder".to_string()).unwrap();
    t.add_file(a, "one.txt".to_string(), 1).unwrap();
    t.add_file(a, "two.txt".to_string(), 2).unwrap();
    let _ = (b, c);
    t
}

fn setup_app_view() -> App {
    let mut app = App::new(view_tree());
    app.init().unwrap();
    app
}

/// - folder_to_delete_1
///     - folder_to_delete_2
///         - folder_to_delete_3
///         - three files
///     - three files
/// - three files
fn edit_tree() -> DiskTree {
    let mut t = DiskTree::new("edit".to_string());
    let mut dir = 0;
    for folder_index in 1..4 {
        for file_index in 1..4 {
            let name = format!("file_to_delete_{}.txt", file_index);
            t.add_file(dir, name, TEST_FILE_SIZE).unwrap();
        }
        let name = format!("folder_to_delete_{}", folder_index);
        dir = t.add_dir(dir, name).unwrap();
    }
    t
}

fn setup_app_edit() -> App {
    let mut app = App::new(edit_tree());
    app.init().unwrap();
    app
}

fn current(app: &App) -> &Folder {
    app.current_view().unwrap()
}

fn kinds(app: &App) -> Vec<FolderEntryType> {
    current(app).entries.iter().map(|e| e.kind).collect()
}

fn titles(app: &App) -> Vec<String> {
    current(app).entries.iter().map(|e| e.title.clone()).collect()
}

fn count_kind(app: &App, kind: FolderEntryType) -> usize {
    current(app).entries.iter().filter(|e| e.kind == kind).count()
}

fn assert_cursor_index(app: &App, index: usize) {
    assert_eq!(current(app).cursor_index, index);
}

fn assert_parent_folder_state(app: &App) {
    assert_eq!(count_kind(app, FolderEntryType::File), 3);
    assert_eq!(count_kind(app, FolderEntryType::Folder), 3);
}

fn assert_parent_folder_a_state(app: &App) {
    assert_eq!(count_kind(app, FolderEntryType::File), 2);
    assert_eq!(count_kind(app, FolderEntryType::Folder), 0);
}

fn assert_delete_folder_state(app: &App) {
    assert_eq!(count_kind(app, FolderEntryType::File), 3);
    assert_eq!(count_kind(app, FolderEntryType::Folder), 1);
}

/// Both presses of a delete, with the removal from disk reported as done.
fn delete_pressed(app: &mut App) {
    if app.request_delete() == DeleteStep::Armed && app.request_delete() == DeleteStep::Confirmed {
        app.complete_delete(true);
    }
}

fn entry(title: &str, kind: FolderEntryType, size: Option<u64>) -> FolderEntry {
    FolderEntry {
        title: title.to_string(),
        size,
        kind,
    }
}

#[test]
fn tests_test_ordering_by_kind() {
    let app = setup_app_view();
    assert_eq!(
        kinds(&app),
        vec![
            FolderEntryType::Parent,
            FolderEntryType::Folder,
            FolderEntryType::Folder,
            FolderEntryType::Folder,
            FolderEntryType::File,
            FolderEntryType::File,
            FolderEntryType::File,
        ]
    );
}

#[test]
fn tests_test_ordering_by_title() {
    let app = setup_app_view();
    assert_eq!(
        titles(&app),
        vec![
            "..",
            "a_folder",
            "b_folder",
            "c_folder",
            "a_root_file.txt",
            "d_root_file.txt",
            "z_root_file.txt",
        ]
    );
}

#[test]
fn tests2_test_ordering_by_kind() {
    let app = setup_app_view();
    let k = kinds(&app);
    assert_eq!(k[0], FolderEntryType::Parent);
    assert_eq!(k[3], FolderEntryType::Folder);
    assert_eq!(k[4], FolderEntryType::File);
}

#[test]
fn tests2_test_ordering_by_title() {
    let app = setup_app_view();
    let t = titles(&app);
    assert_eq!(t[1], "a_folder");
    assert_eq!(t[6], "z_root_file.txt");
}

#[test]
fn has_correct_amount_file_tree_keys() {
    let app = setup_app_view();
    let cached = (0..app.tree().len())
        .filter(|d| app.cached_folder(*d).is_some())
        .count();
    assert_eq!(cached, 4);
}

#[test]
fn updates_cursor_position() {
    let mut app = setup_app_view();
    assert_cursor_index(&app, 0);
    app.cursor_down();
    assert_cursor_index(&app, 1);
    app.cursor_up();
    assert_cursor_index(&app, 0);
}

#[test]
fn stops_cursor_at_very_top() {
    let mut app = setup_app_view();
    assert_cursor_index(&app, 0);
    for _ in 0..10 {
        app.cursor_up();
    }
    assert_cursor_index(&app, 0);
}

#[test]
fn stops_cursor_at_very_bottom() {
    let mut app = setup_app_view();
    for _ in 0..20 {
        app.cursor_down();
    }
    assert_cursor_index(&app, 6);
}

#[test]
fn updates_current_tree_when_enters_subfolder() {
    let mut app = setup_app_view();
    app.cursor_down();
    assert_eq!(app.on_enter(), Ok(EnterOutcome::Descended));
    assert_cursor_index(&app, 0);
    assert_parent_folder_a_state(&app);
}

#[test]
fn navigates_back_to_parent_folder() {
    let mut app = setup_app_view();
    app.cursor_down();
    app.on_enter().unwrap();
    assert_parent_folder_a_state(&app);
    assert_eq!(app.on_enter(), Ok(EnterOutcome::Ascended));
    assert_parent_folder_state(&app);
    assert_cursor_index(&app, 1);
}

#[test]
fn does_nothing_when_tries_to_enter_file() {
    let mut app = setup_app_view();
    for _ in 0..5 {
        app.cursor_down();
    }
    assert_cursor_index(&app, 5);
    assert_eq!(app.on_enter(), Ok(EnterOutcome::File));
    assert_cursor_index(&app, 5);
    assert_parent_folder_state(&app);
}

#[test]
fn has_correct_initial_state() {
    let app = setup_app_edit();
    assert_delete_folder_state(&app);
}

#[test]
fn does_nothing_when_cursor_is_at_the_top() {
    let mut app = setup_app_edit();
    assert_cursor_index(&app, 0);
    assert_delete_folder_state(&app);
    assert_eq!(app.request_delete(), DeleteStep::Nothing);
    assert_eq!(app.request_delete(), DeleteStep::Nothing);
    assert!(!app.complete_delete(true));
    assert_delete_folder_state(&app);
}

#[test]
fn deletes_folder() {
    let mut app = setup_app_edit();
    assert_delete_folder_state(&app);
    app.cursor_down();
    delete_pressed(&mut app);
    assert_eq!(count_kind(&app, FolderEntryType::File), 3);
    assert_eq!(count_kind(&app, FolderEntryType::Folder), 0);
}

#[test]
fn deletes_file() {
    let mut app = setup_app_edit();
    assert_delete_folder_state(&app);
    app.cursor_down();
    app.cursor_down();
    delete_pressed(&mut app);
    assert_eq!(count_kind(&app, FolderEntryType::File), 2);
    assert_eq!(count_kind(&app, FolderEntryType::Folder), 1);
}

#[test]
fn updated_current_folder_size() {
    let mut app = setup_app_edit();
    assert_eq!(current(&app).get_size(), TEST_FILE_SIZE * 9);
    app.cursor_down();
    app.cursor_down();
    delete_pressed(&mut app);
    assert_eq!(current(&app).get_size(), TEST_FILE_SIZE * 8);
}

#[test]
fn deleting_file_updates_parent_folders_sizes() {
    let mut app = setup_app_edit();
    assert_eq!(current(&app).get_size(), TEST_FILE_SIZE * 9);

    app.cursor_down();
    app.on_enter().unwrap();
    assert_eq!(current(&app).get_size(), TEST_FILE_SIZE * 6);

    app.cursor_down();
    app.on_enter().unwrap();
    assert_eq!(current(&app).get_size(), TEST_FILE_SIZE * 3);

    app.cursor_down();
    app.cursor_down();
    delete_pressed(&mut app);
    assert_eq!(current(&app).get_size(), TEST_FILE_SIZE * 2);

    app.cursor_up();
    app.cursor_up();
    app.on_enter().unwrap();
    assert_eq!(current(&app).get_size(), TEST_FILE_SIZE * 5);
    assert_eq!(current(&app).get_selected_entry_size(), Ok(TEST_FILE_SIZE * 2));

    app.cursor_up();
    app.on_enter().unwrap();
    assert_eq!(current(&app).get_size(), TEST_FILE_SIZE * 8);
    assert_eq!(current(&app).get_selected_entry_size(), Ok(TEST_FILE_SIZE * 5));
}

#[test]
fn deleting_folder_updates_parent_folders_sizes() {
    let mut app = setup_app_edit();
    assert_eq!(current(&app).get_size(), TEST_FILE_SIZE * 9);

    app.cursor_down();
    app.on_enter().unwrap();
    assert_eq!(current(&app).get_size(), TEST_FILE_SIZE * 6);

    app.cursor_down();
    delete_pressed(&mut app);
    assert_eq!(current(&app).get_size(), TEST_FILE_SIZE * 3);

    app.cursor_up();
    app.on_enter().unwrap();
    assert_eq!(current(&app).get_size(), TEST_FILE_SIZE * 6);
    assert_eq!(current(&app).get_selected_entry_size(), Ok(TEST_FILE_SIZE * 3));
}

#[test]
fn aggregation_sums_every_file_beneath_the_root() {
    let app = setup_app_edit();
    assert_eq!(current(&app).get_size(), 4014);
}

#[test]
fn aggregating_twice_returns_the_stored_total() {
    let mut app = App::new(edit_tree());
    assert_eq!(app.init(), Ok(4014));
    assert_eq!(app.init(), Ok(4014));
    assert_eq!(app.aggregate(1), Ok(TEST_FILE_SIZE * 6));
}

#[test]
fn deleting_a_deep_file_lowers_each_ancestor_once() {
    let mut app = setup_app_edit();
    // root -> folder_to_delete_1 -> folder_to_delete_2
    app.cursor_down();
    app.on_enter().unwrap();
    app.cursor_down();
    app.on_enter().unwrap();
    app.cursor_down();
    app.cursor_down();
    delete_pressed(&mut app);
    let root = app.cached_folder(0).unwrap();
    assert_eq!(root.get_size(), TEST_FILE_SIZE * 8);
    let f1 = app.cached_folder(1).unwrap();
    assert_eq!(f1.get_size(), TEST_FILE_SIZE * 5);
    // sibling files of the ancestors keep their sizes
    for e in &root.entries {
        if e.kind == FolderEntryType::File {
            assert_eq!(e.size, Some(TEST_FILE_SIZE));
        }
    }
}

#[test]
fn deleting_a_folder_evicts_its_subtree() {
    let mut app = setup_app_edit();
    app.cursor_down();
    delete_pressed(&mut app);
    assert!(app.cached_folder(1).is_none());
    assert!(app.cached_folder(2).is_none());
    assert!(app.cached_folder(3).is_none());
    assert_eq!(current(&app).get_size(), TEST_FILE_SIZE * 3);
}

#[test]
fn single_delete_press_removes_nothing() {
    let mut app = setup_app_edit();
    app.cursor_down();
    app.cursor_down();
    assert_eq!(app.request_delete(), DeleteStep::Armed);
    assert!(app.is_confirming_deletion());
    assert_eq!(current(&app).entries.len(), 5);
    assert_eq!(current(&app).get_size(), TEST_FILE_SIZE * 9);
}

#[test]
fn cursor_move_disarms_delete() {
    let mut app = setup_app_edit();
    app.cursor_down();
    app.cursor_down();
    assert_eq!(app.request_delete(), DeleteStep::Armed);
    app.cursor_down();
    app.cursor_up();
    assert!(!app.is_confirming_deletion());
    assert_eq!(app.request_delete(), DeleteStep::Armed);
    assert_eq!(current(&app).entries.len(), 5);
}

#[test]
fn failed_removal_leaves_cache_and_clears_flag() {
    let mut app = setup_app_edit();
    app.cursor_down();
    app.cursor_down();
    assert_eq!(app.request_delete(), DeleteStep::Armed);
    assert_eq!(app.request_delete(), DeleteStep::Confirmed);
    assert!(!app.complete_delete(false));
    assert!(!app.is_confirming_deletion());
    assert_eq!(current(&app).entries.len(), 5);
    assert_eq!(current(&app).get_size(), TEST_FILE_SIZE * 9);
}

#[test]
fn deleting_last_line_clamps_cursor() {
    let mut app = setup_app_edit();
    for _ in 0..4 {
        app.cursor_down();
    }
    assert_cursor_index(&app, 4);
    delete_pressed(&mut app);
    assert_cursor_index(&app, 3);
}

#[test]
fn toggling_sort_twice_restores_title_order() {
    let mut app = setup_app_view();
    let before = titles(&app);
    app.toggle_sort();
    assert_eq!(app.get_sort_by(), SortBy::Size);
    let by_size = titles(&app);
    assert_eq!(by_size[0], "..");
    assert_eq!(by_size[1], "z_root_file.txt");
    assert_eq!(by_size[2], "d_root_file.txt");
    app.toggle_sort();
    assert_eq!(app.get_sort_by(), SortBy::Title);
    assert_eq!(titles(&app), before);
}

#[test]
fn title_sort_orders_parent_folders_files() {
    let v = vec![
        entry("..", FolderEntryType::Parent, None),
        entry("b_folder", FolderEntryType::Folder, None),
        entry("a_folder", FolderEntryType::Folder, None),
        entry("z_file.txt", FolderEntryType::File, Some(1)),
        entry("a_file.txt", FolderEntryType::File, Some(2)),
    ];
    let sorted: Vec<String> = sort_entries(&v, SortBy::Title)
        .into_iter()
        .map(|e| e.title)
        .collect();
    assert_eq!(
        sorted,
        vec!["..", "a_folder", "b_folder", "a_file.txt", "z_file.txt"]
    );
}

#[test]
fn size_sort_pins_parent_first() {
    let v = vec![
        entry("small", FolderEntryType::File, Some(1)),
        entry("big", FolderEntryType::Folder, Some(100)),
        entry("..", FolderEntryType::Parent, None),
        entry("mid", FolderEntryType::File, Some(50)),
    ];
    let sorted: Vec<String> = sort_entries(&v, SortBy::Size)
        .into_iter()
        .map(|e| e.title)
        .collect();
    assert_eq!(sorted, vec!["..", "big", "mid", "small"]);
}

#[test]
fn ascending_at_root_does_nothing() {
    let mut app = setup_app_view();
    assert_eq!(app.ascend(), Ok(false));
    assert_eq!(app.current_index(), 0);
    assert_eq!(app.on_enter(), Ok(EnterOutcome::AtTop));
    assert_eq!(app.current_index(), 0);
}

#[test]
fn climbing_above_the_top_starts_on_the_parent_tree() {
    let mut app = setup_app_view();
    app.toggle_sort();
    let mut above = DiskTree::new("above".to_string());
    above.add_file(0, "big.bin".to_string(), 1000).unwrap();
    let view = above.add_dir(0, "view".to_string()).unwrap();
    above.add_file(view, "z_root_file.txt".to_string(), 30).unwrap();
    assert_eq!(app.enter_parent_tree(above), Ok(1030));
    assert_eq!(app.current_index(), 0);
    assert_eq!(app.get_sort_by(), SortBy::Size);
    assert_eq!(titles(&app), vec!["..", "big.bin", "view"]);
    assert_eq!(current(&app).cursor_index, 0);
}

#[test]
fn aggregation_fills_every_subfolder_line() {
    let app = setup_app_edit();
    let root = app.cached_folder(0).unwrap();
    let line = root
        .entries
        .iter()
        .find(|e| e.title == "folder_to_delete_1")
        .unwrap();
    assert_eq!(line.size, Some(TEST_FILE_SIZE * 6));
    assert_eq!(app.cached_folder(2).unwrap().get_size(), TEST_FILE_SIZE * 3);
    assert_eq!(app.cached_folder(3).unwrap().get_size(), 0);
}

#[test]
fn descending_into_a_file_line_does_nothing() {
    let mut app = setup_app_view();
    for _ in 0..4 {
        app.cursor_down();
    }
    assert_eq!(app.descend(), Ok(false));
    assert_eq!(app.current_index(), 0);
}

#[test]
fn scanner_leaves_folder_sizes_unknown() {
    let t = view_tree();
    let f = path_to_folder(&t, 0);
    assert_eq!(f.title, "view");
    assert_eq!(f.cursor_index, 0);
    assert_eq!(f.entries[0].kind, FolderEntryType::Parent);
    assert_eq!(f.entries[1].title, "a_folder");
    assert_eq!(f.entries[1].size, None);
    assert_eq!(f.entries[4].title, "a_root_file.txt");
    assert_eq!(f.entries[4].size, Some(10));
}

#[test]
fn folder_helpers() {
    let mut f = Folder::new("x".to_string());
    assert_eq!(f.entries.len(), 1);
    assert_eq!(f.entries[0].title, "..");
    assert_eq!(f.get_size(), 0);
    assert_eq!(f.get_max_entry_size(), 0);
    f.entries.push(entry("a", FolderEntryType::File, Some(7)));
    f.entries.push(entry("b", FolderEntryType::Folder, Some(9)));
    assert_eq!(f.get_size(), 16);
    assert_eq!(f.get_max_entry_size(), 9);
    assert_eq!(f.to_list(), f.entries);
    f.cursor_index = 2;
    assert_eq!(f.get_selected_entry_size(), Ok(9));
    f.remove_selected();
    assert_eq!(f.cursor_index, 1);
    assert_eq!(f.entries.len(), 2);
    f.cursor_index = 5;
    assert_eq!(f.get_selected_entry_size(), Err(EngineError::CursorOutOfBounds));
    assert!(f.get_selected_entry().is_err());
}

#[test]
fn tree_builder_rejects_bad_input() {
    let mut t = DiskTree::new("r".to_string());
    assert_eq!(t.add_file(3, "f".to_string(), 1), Err(TreeError::NoSuchDir));
    assert_eq!(t.add_file(0, "f".to_string(), 1), Ok(()));
    assert_eq!(t.add_dir(0, "f".to_string()), Err(TreeError::DuplicateName));
    assert_eq!(t.add_dir(0, "d".to_string()), Ok(1));
    assert_eq!(t.child_named(0, &"d".to_string()), Some(1));
    assert_eq!(t.child_named(0, &"f".to_string()), None);
    assert!(t.is_within(1, 0));
    assert!(!t.is_within(0, 1));
}

#[test]
fn oversized_tree_reports_overflow() {
    let mut t = DiskTree::new("r".to_string());
    t.add_file(0, "a".to_string(), u64::MAX).unwrap();
    t.add_file(0, "b".to_string(), 1).unwrap();
    let mut app = App::new(t);
    assert_eq!(app.init(), Err(EngineError::SizeOverflow));
    assert!(app.current_view().is_none());
}
