use fitgirl_auto_downloader_mori::downloads::{
    download_counts, downloads_finished, finish_download, format_eta, queue_positions,
    selection_summary, status_icon, DownloadProgress, DownloadState,
};
use fitgirl_auto_downloader_mori::pages::{download_folder_for, first_game_link, page_file_name};
use fitgirl_auto_downloader_mori::{extract_game_name, get_download_url};

fn s(x: &str) -> String {
    x.to_string()
}

const PAGE: &str = r#"<html><head><meta name="title" content="Game.part01.rar"></head><body>
<script>var x = 1; window.open("https://elsewhere.example/no");</script>
<script>function download() { window.open("https://dl.fuckingfast.co/abc/Game.part01.rar") }</script>
<script>function download() { window.open("https://dl.fuckingfast.co/second") }</script>
</body></html>"#;

#[test]
fn the_download_address_comes_from_the_download_script() {
    assert_eq!(get_download_url(PAGE).as_deref(), Some("https://dl.fuckingfast.co/abc/Game.part01.rar"));
}

#[test]
fn single_quoted_addresses_are_found_too() {
    let page = "<script>function download(){window.open('http://x.example/f.bin')}</script>";
    assert_eq!(get_download_url(page).as_deref(), Some("http://x.example/f.bin"));
}

#[test]
fn a_page_without_a_download_script_gives_no_address() {
    assert_eq!(get_download_url("<html><body>rate limited</body></html>"), None);
    let page = r#"<script>function download(){ window.open("ftp://x/y") }</script>"#;
    assert_eq!(get_download_url(page), None);
    assert_eq!(get_download_url(""), None);
}

#[test]
fn the_file_name_comes_from_the_title_meta() {
    assert_eq!(page_file_name(PAGE), "Game.part01.rar");
    assert_eq!(page_file_name("<html><body></body></html>"), "default_file_name");
    assert_eq!(page_file_name(r#"<meta name="title">"#), "default_file_name");
}

#[test]
fn the_game_name_is_read_from_the_first_named_fragment() {
    let links = vec![
        s("not a url"),
        s("https://fuckingfast.co/a"),
        s("https://fuckingfast.co/b#__--x"),
        s("https://fuckingfast.co/c#_Some_Game_--_fitgirl-repacks.site_--_.part01.rar"),
        s("https://fuckingfast.co/d#Other--x"),
    ];
    assert_eq!(extract_game_name(&links), "Some_Game");
    assert_eq!(extract_game_name(&vec![s("https://f.co/x#_ Spaced _--y")]), "%20Spaced%20");
    assert_eq!(extract_game_name(&Vec::new()), "");
    assert_eq!(extract_game_name(&vec![s("https://f.co/x")]), "");
}

#[test]
fn the_first_game_link_names_the_repack_site() {
    let links = vec![
        s("https://fuckingfast.co/a#readme.txt"),
        s("https://fuckingfast.co/b#Game_--_fitgirl-repacks.site_--_.part01.rar"),
        s("https://fuckingfast.co/c#Game_--_fitgirl-repacks.site_--_.part02.rar"),
    ];
    assert_eq!(first_game_link(&links), Some(1));
    assert_eq!(first_game_link(&vec![s("https://fuckingfast.co/a#x")]), None);
    assert_eq!(
        download_folder_for("https://fuckingfast.co/b#Game_--_fitgirl-repacks.site_--_.part01.rar"),
        "downloads/Game"
    );
    assert_eq!(download_folder_for("https://fuckingfast.co/b"), "downloads/");
}

#[test]
fn remaining_time_is_written_in_the_largest_units() {
    assert_eq!(format_eta(0), "0s");
    assert_eq!(format_eta(59), "59s");
    assert_eq!(format_eta(60), "1m  0s");
    assert_eq!(format_eta(61), "1m  1s");
    assert_eq!(format_eta(754), "12m 34s");
    assert_eq!(format_eta(3600), "1h  0m");
    assert_eq!(format_eta(3661), "1h  1m");
    assert_eq!(format_eta(36000 + 45 * 60 + 10), "10h 45m");
}

#[test]
fn progress_is_shown_every_fourth_chunk() {
    let mut p = DownloadProgress::new();
    assert_eq!((p.downloaded, p.chunks), (0, 0));
    let shown: Vec<bool> = (0..8).map(|_| p.record_chunk(1000)).collect();
    assert_eq!(shown, vec![false, false, false, true, false, false, false, true]);
    assert_eq!(p.downloaded, 8000);
    assert_eq!(p.chunks, 8);
}

#[test]
fn a_finished_transfer_is_done_unless_it_failed() {
    let (st, remove) = finish_download(DownloadState::Downloading { total: 10, downloaded: 10 });
    assert!(matches!(st, DownloadState::Done));
    assert!(remove);
    let (st, remove) = finish_download(DownloadState::Failed(s("HTTP 404")));
    assert!(matches!(st, DownloadState::Failed(ref m) if m == "HTTP 404"));
    assert!(!remove);
    let (st, remove) = finish_download(DownloadState::FetchingPage);
    assert!(matches!(st, DownloadState::Done));
    assert!(remove);
}

#[test]
fn the_queue_counts_finished_and_failed_downloads() {
    let states = vec![
        DownloadState::Done,
        DownloadState::Failed(s("x")),
        DownloadState::Pending,
        DownloadState::Done,
        DownloadState::Downloading { total: 5, downloaded: 1 },
    ];
    assert_eq!(download_counts(&states), (2, 1));
    assert!(!downloads_finished(&states));
    let done = vec![DownloadState::Done, DownloadState::Failed(s("y"))];
    assert!(downloads_finished(&done));
    assert_eq!(download_counts(&Vec::new()), (0, 0));
}

#[test]
fn the_queue_separates_parts_and_optional_files() {
    let links = vec![
        s("https://f/a#G.part01.rar"),
        s("https://f/b#fg-optional-bonus.bin"),
        s("https://f/c#setup.exe"),
        s("https://f/d#G.part02.rar"),
    ];
    let (parts, optional) = queue_positions(&links);
    assert_eq!(parts, vec![0, 3]);
    assert_eq!(optional, vec![1]);
}

#[test]
fn the_selection_summary_counts_links() {
    assert_eq!(selection_summary(1), "1 link selected.");
    assert_eq!(selection_summary(0), "0 links selected.");
    assert_eq!(selection_summary(12), "12 links selected.");
}

#[test]
fn download_status_icons() {
    assert_eq!(status_icon(&DownloadState::Pending), "⏳");
    assert_eq!(status_icon(&DownloadState::FetchingPage), "🌐");
    assert_eq!(status_icon(&DownloadState::Downloading { total: 1, downloaded: 0 }), "⬇");
    assert_eq!(status_icon(&DownloadState::Done), "✅");
    assert_eq!(status_icon(&DownloadState::Failed(s("x"))), "❌");
}
