use fitgirl_auto_downloader_mori::archives::{
    archive_kind, cancelled_status, collect_game_folders, done_count, extract_status_icon,
    extraction_finished, next_pending, rar_command, rar_extract_status, rar_group_of,
    select_archives, unsupported_status, zip_entry_action, ArchiveKind, CommandOutcome, ZipAction,
    ZipEntryRead,
};
use fitgirl_auto_downloader_mori::{ArchiveItem, ExtractStatus, GameFolder};

fn s(x: &str) -> String {
    x.to_string()
}

fn file(name: &str) -> (String, String) {
    (format!("downloads/Game/{name}"), s(name))
}

fn item(name: &str, status: ExtractStatus) -> ArchiveItem {
    ArchiveItem { path: format!("d/{name}"), name: s(name), status }
}

fn folder(name: &str, archives: usize) -> GameFolder {
    GameFolder {
        path: format!("downloads/{name}"),
        name: s(name),
        archives: (0..archives).map(|i| item(&format!("a{i}.zip"), ExtractStatus::Pending)).collect(),
    }
}

fn failed_text(st: &ExtractStatus) -> Option<String> {
    match st {
        ExtractStatus::Failed(m) => Some(m.clone()),
        _ => None,
    }
}

#[test]
fn rar_names_are_grouped_by_their_part_suffix() {
    let (g, n) = rar_group_of("Game.part07.rar");
    assert_eq!(g.iter().collect::<String>(), "Game");
    assert_eq!(n, 7);
    let (g, n) = rar_group_of("Single.rar");
    assert_eq!(g.iter().collect::<String>(), "Single.rar");
    assert_eq!(n, 0);
    let (g, n) = rar_group_of("Big.part99999999999.rar");
    assert_eq!(g.iter().collect::<String>(), "Big");
    assert_eq!(n, 0);
}

#[test]
fn only_the_first_part_of_each_rar_set_and_every_zip_are_chosen() {
    let files = vec![
        file("Game.part02.rar"),
        file("setup.exe"),
        file("Bonus.zip"),
        file("Game.part01.rar"),
        file("Single.rar"),
        file("Game.part03.rar"),
        file("notes.txt"),
        file("Extra.zip"),
    ];
    let chosen = select_archives(&files);
    let names: Vec<&str> = chosen.iter().map(|a| a.name.as_str()).collect();
    assert_eq!(names, vec!["Game.part01.rar", "Single.rar", "Bonus.zip", "Extra.zip"]);
    assert_eq!(chosen[0].path, "downloads/Game/Game.part01.rar");
    assert!(chosen.iter().all(|a| matches!(a.status, ExtractStatus::Pending)));
}

#[test]
fn a_folder_without_archives_gives_nothing() {
    let files = vec![file("readme.txt"), file("setup.exe")];
    assert!(select_archives(&files).is_empty());
    assert!(select_archives(&Vec::new()).is_empty());
}

#[test]
fn equal_part_numbers_keep_the_first_file() {
    let files = vec![file("A.part1.rar"), file("A.part01.rar")];
    let chosen = select_archives(&files);
    assert_eq!(chosen.len(), 1);
    assert_eq!(chosen[0].name, "A.part1.rar");
}

#[test]
fn game_folders_with_archives_are_sorted_by_name() {
    let found = collect_game_folders(vec![
        folder("Zeta", 1),
        folder("Empty", 0),
        folder("Alpha", 2),
        folder("Mid", 1),
    ]);
    let names: Vec<&str> = found.iter().map(|f| f.name.as_str()).collect();
    assert_eq!(names, vec!["Alpha", "Mid", "Zeta"]);
    assert_eq!(found[0].archives.len(), 2);
    assert!(collect_game_folders(vec![folder("None", 0)]).is_empty());
}

#[test]
fn archive_kinds_ignore_case() {
    assert!(matches!(archive_kind("RAR"), ArchiveKind::Rar));
    assert!(matches!(archive_kind("rar"), ArchiveKind::Rar));
    assert!(matches!(archive_kind("Zip"), ArchiveKind::Zip));
    assert!(matches!(archive_kind("ZIP"), ArchiveKind::Zip));
    assert!(matches!(archive_kind("rAr"), ArchiveKind::Rar));
    assert!(matches!(archive_kind("7z"), ArchiveKind::Unsupported));
    assert!(matches!(archive_kind(""), ArchiveKind::Unsupported));
    assert_eq!(failed_text(&unsupported_status()).as_deref(), Some("unsupported format"));
}

#[test]
fn rar_extraction_outcomes_become_statuses() {
    assert_eq!(rar_command(true), "unrar");
    assert_eq!(rar_command(false), "unrar-free");
    assert!(matches!(rar_extract_status("unrar", false, CommandOutcome::Succeeded), ExtractStatus::Done));
    let st = rar_extract_status("unrar", true, CommandOutcome::Succeeded);
    assert_eq!(failed_text(&st).as_deref(), Some("cancelled"));
    let st = rar_extract_status("unrar", false, CommandOutcome::Failed(s("CRC error")));
    assert_eq!(failed_text(&st).as_deref(), Some("unrar: CRC error"));
    let st = rar_extract_status("unrar-free", false, CommandOutcome::NotStarted(s("No such file")));
    assert_eq!(failed_text(&st).as_deref(), Some("unrar-free not found: No such file"));
}

#[test]
fn the_extraction_queue_moves_to_the_next_pending_archive() {
    let mut items = vec![
        item("a.rar", ExtractStatus::Done),
        item("b.zip", ExtractStatus::Failed(s("x"))),
        item("c.zip", ExtractStatus::Pending),
        item("d.zip", ExtractStatus::Pending),
    ];
    assert_eq!(next_pending(&items), Some(2));
    assert!(!extraction_finished(&items));
    assert_eq!(done_count(&items), 1);
    items[2].status = ExtractStatus::Extracting;
    assert_eq!(next_pending(&items), Some(3));
    assert!(!extraction_finished(&items));
    items[2].status = ExtractStatus::Done;
    items[3].status = ExtractStatus::Done;
    assert_eq!(next_pending(&items), None);
    assert!(extraction_finished(&items));
    assert_eq!(done_count(&items), 3);
    assert!(extraction_finished(&Vec::new()));
}

#[test]
fn zip_entries_are_written_or_stop_the_extraction() {
    assert!(matches!(zip_entry_action(0, ZipEntryRead::Dir), ZipAction::MakeDir));
    assert!(matches!(zip_entry_action(3, ZipEntryRead::File), ZipAction::WriteFile));
    match zip_entry_action(12, ZipEntryRead::Unreadable(s("bad header"))) {
        ZipAction::Stop(st) => assert_eq!(failed_text(&st).as_deref(), Some("entry 12: bad header")),
        _ => panic!("an unreadable entry must stop"),
    }
    assert_eq!(failed_text(&cancelled_status()).as_deref(), Some("cancelled"));
}

#[test]
fn archive_status_icons() {
    assert_eq!(extract_status_icon(&ExtractStatus::Pending), "⏳");
    assert_eq!(extract_status_icon(&ExtractStatus::Extracting), "⬇");
    assert_eq!(extract_status_icon(&ExtractStatus::Done), "✅");
    assert_eq!(extract_status_icon(&ExtractStatus::Failed(s("x"))), "❌");
}
