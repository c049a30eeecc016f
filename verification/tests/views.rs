use fitgirl_auto_downloader_mori::archives::{
    can_extract_all, extractor_tab_step, ExtractorAction, ExtractorEvent, ExtractorTab,
};
use fitgirl_auto_downloader_mori::board::selected_by_kind;
use fitgirl_auto_downloader_mori::categories::part_category;
use fitgirl_auto_downloader_mori::downloads::{
    downloads_after_save, downloads_tab_step, queue_step, DownloadState, DownloadsAction,
    DownloadsEvent, DownloadsTab, QueueAction, QueueEvent,
};
use fitgirl_auto_downloader_mori::links::remove_link_from;
use fitgirl_auto_downloader_mori::pages::{download_url_in_scripts, game_name_in};
use fitgirl_auto_downloader_mori::{
    build_categories, categorize_entries, ExtractStatus, GameFolder, LinkCategory, LinkEntry,
};

fn s(x: &str) -> String {
    x.to_string()
}

fn tab(downloading: bool, paused: bool) -> DownloadsTab {
    DownloadsTab { game_name: s("Game"), downloading, paused, done: false }
}

#[test]
fn pause_and_resume_only_while_downloading() {
    let (t, a) = downloads_tab_step(tab(true, false), DownloadsEvent::Pause);
    assert!(t.paused && matches!(a, DownloadsAction::SetPauseFlag(true)));
    let (t, a) = downloads_tab_step(t, DownloadsEvent::Resume);
    assert!(!t.paused && matches!(a, DownloadsAction::SetPauseFlag(false)));
    let (t, a) = downloads_tab_step(tab(false, false), DownloadsEvent::Pause);
    assert!(!t.paused && matches!(a, DownloadsAction::Nothing));
}

#[test]
fn start_spawns_the_queue_once() {
    let (t, a) = downloads_tab_step(tab(false, true), DownloadsEvent::Start(vec![s("https://f/a")]));
    assert!(t.downloading && !t.paused && !t.done);
    match a {
        DownloadsAction::Spawn { links, game_name } => {
            assert_eq!(links, vec![s("https://f/a")]);
            assert_eq!(game_name, "Game");
        }
        _ => panic!("expected the worker to start"),
    }
    let (_, a) = downloads_tab_step(t, DownloadsEvent::Start(vec![s("https://f/a")]));
    assert!(matches!(a, DownloadsAction::Nothing));
    let (t, a) = downloads_tab_step(tab(false, false), DownloadsEvent::Start(vec![]));
    assert!(!t.downloading && matches!(a, DownloadsAction::Nothing));
}

#[test]
fn frames_drop_finished_items_and_end_the_queue() {
    let states = vec![DownloadState::Done, DownloadState::Pending, DownloadState::Failed(s("x"))];
    let (t, a) = downloads_tab_step(tab(true, false), DownloadsEvent::Frame(states));
    assert!(t.downloading && !t.done);
    match a {
        DownloadsAction::Update { keep, scan } => {
            assert_eq!(keep, vec![1, 2]);
            assert!(scan.is_none());
        }
        _ => panic!("expected an update"),
    }
    let states = vec![DownloadState::Done, DownloadState::Failed(s("x"))];
    let (t, a) = downloads_tab_step(t, DownloadsEvent::Frame(states));
    assert!(!t.downloading && t.done);
    match a {
        DownloadsAction::Update { keep, scan } => {
            assert_eq!(keep, vec![1]);
            assert_eq!(scan.as_deref(), Some("downloads/Game"));
        }
        _ => panic!("expected an update"),
    }
}

fn game(name: &str) -> GameFolder {
    GameFolder { path: format!("downloads/{name}"), name: s(name), archives: vec![] }
}

fn xtab() -> ExtractorTab {
    ExtractorTab { games: vec![game("A"), game("B")], dir: s(""), extracting: false, done: false, cancel: true }
}

#[test]
fn the_extractor_view_selects_scans_and_extracts() {
    let (t, a) = extractor_tab_step(xtab(), ExtractorEvent::Search(vec![game("C")]));
    assert_eq!(t.games.len(), 1);
    assert!(matches!(a, ExtractorAction::ClearItems));
    let (t, a) = extractor_tab_step(xtab(), ExtractorEvent::Select(s("downloads/B")));
    assert_eq!(t.dir, "downloads/B");
    assert!(matches!(a, ExtractorAction::Nothing));
    let (t, a) = extractor_tab_step(t, ExtractorEvent::Frame(vec![]));
    assert!(matches!(a, ExtractorAction::ScanFolder(ref d) if d == "downloads/B"));
    let (t, a) = extractor_tab_step(t, ExtractorEvent::Rescan);
    assert!(matches!(a, ExtractorAction::ScanFolder(ref d) if d == "downloads/B"));
    let statuses = vec![ExtractStatus::Done, ExtractStatus::Pending];
    assert!(can_extract_all(&t, &statuses));
    let (t, a) = extractor_tab_step(t, ExtractorEvent::ExtractAll(statuses.clone()));
    assert!(t.extracting && !t.done && !t.cancel);
    assert!(matches!(a, ExtractorAction::StartExtraction));
    assert!(!can_extract_all(&t, &statuses));
    let (t, a) = extractor_tab_step(t, ExtractorEvent::Cancel);
    assert!(t.cancel && matches!(a, ExtractorAction::SetCancelFlag));
    let (t, _) = extractor_tab_step(t, ExtractorEvent::DownloadsViewFrame(vec![ExtractStatus::Done, ExtractStatus::Pending]));
    assert!(t.extracting);
    let finished = vec![ExtractStatus::Done, ExtractStatus::Failed(s("x"))];
    let (t, a) = extractor_tab_step(t, ExtractorEvent::Frame(finished.clone()));
    assert!(t.extracting && !t.done);
    assert!(matches!(a, ExtractorAction::Nothing));
    let (t, a) = extractor_tab_step(t, ExtractorEvent::DownloadsViewFrame(finished));
    assert!(!t.extracting && t.done);
    assert!(matches!(a, ExtractorAction::Nothing));
}

#[test]
fn finished_downloads_open_their_folder() {
    let ev = ExtractorEvent::DownloadsFinished { games: vec![game("G")], dir: s("downloads/G") };
    let (t, a) = extractor_tab_step(xtab(), ev);
    assert_eq!(t.dir, "downloads/G");
    assert!(matches!(a, ExtractorAction::ScanFolder(ref d) if d == "downloads/G"));
    assert!(!can_extract_all(&t, &vec![ExtractStatus::Done]));
    assert!(!can_extract_all(&t, &vec![]));
}

#[test]
fn extract_statuses_compare_by_value() {
    assert!(ExtractStatus::Failed(s("a")) == ExtractStatus::Failed(s("a")));
    assert!(ExtractStatus::Failed(s("a")) != ExtractStatus::Failed(s("b")));
    assert!(ExtractStatus::Pending != ExtractStatus::Done);
}

#[test]
fn selected_links_are_split_by_kind() {
    let e = |u: &str, sel: bool, c: LinkCategory| LinkEntry { url: s(u), selected: sel, category: c };
    let links = vec![
        e("a", true, LinkCategory::Part(1)),
        e("b", false, LinkCategory::Part(2)),
        e("c", true, LinkCategory::Optional),
        e("d", true, LinkCategory::Other),
        e("f", true, LinkCategory::Part(3)),
    ];
    assert_eq!(selected_by_kind(&links), (vec![0, 4], vec![2], vec![3]));
}

#[test]
fn sorting_twice_changes_nothing_and_kinds_are_contiguous() {
    let urls = vec![
        s("https://f/z#setup.exe"),
        s("https://f/b#G.part10.rar"),
        s("https://f/y#fg-optional-b.bin"),
        s("https://f/a#G.part2.rar"),
        s("https://f/x#fg-optional-a.bin"),
    ];
    let once = categorize_entries(urls);
    let again = categorize_entries(once.iter().map(|e| e.url.clone()).collect());
    let view = |v: &Vec<LinkEntry>| v.iter().map(|e| (e.url.clone(), e.selected)).collect::<Vec<_>>();
    assert_eq!(view(&again), view(&once));
    assert_eq!(build_categories(&once), (vec![0, 1], vec![2, 3], vec![4]));
}

#[test]
fn named_results_are_read_by_public_steps() {
    let scripts = vec![
        s("var x = 1;"),
        s("function download() { window.open('https://dl.example/f') }"),
    ];
    assert_eq!(download_url_in_scripts(&scripts).as_deref(), Some("https://dl.example/f"));
    assert_eq!(download_url_in_scripts(&vec![s("window.open('https://x/y')")]), None);
    assert_eq!(game_name_in("__My_Game__--_fitgirl").iter().collect::<String>(), "My_Game");
    assert!(matches!(part_category(Some(Some((s("G"), s("10"))))), LinkCategory::Part(10)));
    assert!(matches!(part_category(Some(Some((s("G"), s("99999999999"))))), LinkCategory::Part(0)));
    assert!(matches!(part_category(Some(None)), LinkCategory::Other));
}

#[test]
fn removing_the_empty_link_twice_leaves_the_list() {
    let once = remove_link_from("\n  \n", "").unwrap();
    assert_eq!(once, "\n");
    assert_eq!(remove_link_from(&once, ""), Some(s("\n")));
    let once = remove_link_from("a\n\nb", "").unwrap();
    assert_eq!(remove_link_from(&once, ""), None);
}

fn failed(st: &DownloadState) -> Option<String> {
    match st {
        DownloadState::Failed(m) => Some(m.clone()),
        _ => None,
    }
}

#[test]
fn each_queue_failure_names_its_step() {
    let cases = vec![
        (QueueEvent::PageRequestFailed(s("timeout")), "HTTP: timeout"),
        (QueueEvent::PageStatusFailed(s("404 Not Found")), "HTTP 404 Not Found"),
        (QueueEvent::DownloadRequestFailed(s("reset")), "download: reset"),
        (QueueEvent::FileFailed(s("denied")), "file: denied"),
    ];
    for (ev, msg) in cases {
        let (st, a) = queue_step(DownloadState::Pending, ev);
        assert_eq!(failed(&st).as_deref(), Some(msg));
        assert!(matches!(a, QueueAction::NextLink));
    }
    let (st, a) = queue_step(DownloadState::Downloading { total: 9, downloaded: 3 }, QueueEvent::ReadFailed(s("eof")));
    assert_eq!(failed(&st).as_deref(), Some("read: eof"));
    assert!(matches!(a, QueueAction::EndTransfer));
    let (st, a) = queue_step(DownloadState::Downloading { total: 9, downloaded: 3 }, QueueEvent::WriteFailed);
    assert_eq!(failed(&st).as_deref(), Some("write error"));
    assert!(matches!(a, QueueAction::EndTransfer));
}

#[test]
fn a_queued_link_goes_from_page_to_file() {
    let page = r#"<meta name="title" content="G.part1.rar"><script>function download(){window.open("https://dl/x")}</script>"#;
    let (st, a) = queue_step(DownloadState::Pending, QueueEvent::PageLoaded(s(page)));
    assert!(matches!(st, DownloadState::FetchingPage));
    match a {
        QueueAction::PageRead { file_name, download } => {
            assert_eq!(file_name, "G.part1.rar");
            assert_eq!(download.as_deref(), Some("https://dl/x"));
        }
        _ => panic!("expected the page to be read"),
    }
    let (st, a) = queue_step(DownloadState::Pending, QueueEvent::PageLoaded(s("<p>busy</p>")));
    assert_eq!(failed(&st).as_deref(), Some("no download URL found"));
    assert!(matches!(a, QueueAction::PageRead { download: None, .. }));
    let (st, a) = queue_step(st, QueueEvent::DownloadStarted(100));
    assert!(matches!(st, DownloadState::Downloading { total: 100, downloaded: 0 }));
    assert!(matches!(a, QueueAction::CreateFile));
    let (st, a) = queue_step(st, QueueEvent::Progress { total: 100, downloaded: 40 });
    assert!(matches!(st, DownloadState::Downloading { total: 100, downloaded: 40 }));
    assert!(matches!(a, QueueAction::ReadOn));
    let (st, a) = queue_step(st, QueueEvent::TransferEnded);
    assert!(matches!(st, DownloadState::Done));
    assert!(matches!(a, QueueAction::RemoveLink));
    let (st, a) = queue_step(DownloadState::Failed(s("read: x")), QueueEvent::TransferEnded);
    assert_eq!(failed(&st).as_deref(), Some("read: x"));
    assert!(matches!(a, QueueAction::NextLink));
}

#[test]
fn saving_queues_every_saved_link() {
    let idle = DownloadsTab { game_name: s("old"), downloading: true, paused: true, done: true };
    let saved = vec![s("https://f/a#My_Game--x.part1.rar"), s("https://f/b")];
    let (t, items) = downloads_after_save(idle, &saved);
    assert_eq!(t.game_name, "My_Game");
    assert!(!t.downloading && !t.done && t.paused);
    assert_eq!(items.len(), 2);
    assert_eq!(items[1].link, "https://f/b");
    assert!(items.iter().all(|q| q.file_name.is_empty() && matches!(q.state, DownloadState::Pending)));
}
