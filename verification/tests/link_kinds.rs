use fitgirl_auto_downloader_mori::board::{count_message, LinkBoard};
use fitgirl_auto_downloader_mori::categories::{
    build_categories, categorize_entries, classify_link, LinkCategory, LinkEntry,
};

fn s(x: &str) -> String {
    x.to_string()
}

fn kind(c: LinkCategory) -> String {
    match c {
        LinkCategory::Part(n) => format!("part{n}"),
        LinkCategory::Optional => s("optional"),
        LinkCategory::Other => s("other"),
    }
}

#[test]
fn links_are_classified_by_fragment() {
    let k = |u: &str| kind(classify_link(u));
    assert_eq!(k("https://fuckingfast.co/a#Game--fitgirl-repacks.site--.part03.rar"), "part3");
    assert_eq!(k("https://fuckingfast.co/a#Game_--_fg-optional-bonus.bin"), "optional");
    assert_eq!(k("https://fuckingfast.co/a#fg-optional-x.part02.rar"), "optional");
    assert_eq!(k("https://fuckingfast.co/a#setup.bin"), "other");
    assert_eq!(k("https://fuckingfast.co/a.part05.rar"), "other");
    assert_eq!(k("https://fuckingfast.co/a#x.part99999999999.rar"), "part0");
    assert_eq!(k("https://fuckingfast.co/a#x.part1.part2"), "part1");
    assert_eq!(k("https://fuckingfast.co/a#x.part"), "other");
}

#[test]
fn entries_sort_parts_then_optionals_then_others() {
    let urls = vec![
        s("https://f/z#setup.exe"),
        s("https://f/b#G.part10.rar"),
        s("https://f/y#fg-optional-b.bin"),
        s("https://f/a#G.part2.rar"),
        s("https://f/x#fg-optional-a.bin"),
        s("https://f/c#H.part2.rar"),
        s("https://f/m#readme"),
    ];
    let got: Vec<(String, String, bool)> = categorize_entries(urls)
        .into_iter()
        .map(|e| (e.url, kind(e.category), e.selected))
        .collect();
    let want = vec![
        (s("https://f/a#G.part2.rar"), s("part2"), true),
        (s("https://f/c#H.part2.rar"), s("part2"), true),
        (s("https://f/b#G.part10.rar"), s("part10"), true),
        (s("https://f/x#fg-optional-a.bin"), s("optional"), true),
        (s("https://f/y#fg-optional-b.bin"), s("optional"), true),
        (s("https://f/m#readme"), s("other"), true),
        (s("https://f/z#setup.exe"), s("other"), true),
    ];
    assert_eq!(got, want);
}

#[test]
fn category_positions() {
    let e = |c: LinkCategory| LinkEntry { url: s("u"), selected: false, category: c };
    let links = vec![
        e(LinkCategory::Other),
        e(LinkCategory::Part(1)),
        e(LinkCategory::Optional),
        e(LinkCategory::Part(0)),
    ];
    let (p, o, x) = build_categories(&links);
    assert_eq!(p, vec![1, 3]);
    assert_eq!(o, vec![2]);
    assert_eq!(x, vec![0]);
    let (p, o, x) = build_categories(&[]);
    assert!(p.is_empty() && o.is_empty() && x.is_empty());
}

#[test]
fn board_starts_from_saved_links() {
    let b = LinkBoard::new(vec![s("https://f/1#G.part2.rar"), s("https://f/2#readme")]);
    assert_eq!(b.status_text, "Links loaded from input.txt");
    assert_eq!(b.part_idx, vec![0]);
    assert_eq!(b.other_idx, vec![1]);
    assert_eq!(b.links_version, 1);
    let empty = LinkBoard::new(vec![]);
    assert_eq!(empty.status_text, "Load links from a URL or paste them manually.");
}

#[test]
fn manual_links_are_appended_once() {
    let mut b = LinkBoard::new(vec![s("https://f/1#G.part1.rar")]);
    let added = b.add_manual_links("  https://f/1#G.part1.rar \n\nhttps://f/9#fg-optional-x\nhttps://f/9#fg-optional-x\n");
    assert!(added);
    let urls: Vec<String> = b.links.iter().map(|e| e.url.clone()).collect();
    assert_eq!(
        urls,
        vec![s("https://f/1#G.part1.rar"), s("https://f/9#fg-optional-x"), s("https://f/9#fg-optional-x")]
    );
    assert_eq!(b.status_text, "3 links loaded.");
    assert_eq!(b.opt_idx, vec![1, 2]);
    assert_eq!(b.links_version, 2);
    assert!(!b.saved_to_file);
    assert!(!b.add_manual_links(" \n "));
    assert_eq!(b.links_version, 2);
}

#[test]
fn selection_and_saving() {
    let mut b = LinkBoard::new(vec![s("https://f/a#G.part1.rar"), s("https://f/b#G.part2.rar"), s("https://f/c#x")]);
    b.set_all_selected(false);
    assert!(b.selected_urls().is_empty());
    let parts = b.part_idx.clone();
    assert!(!b.all_selected(&parts));
    b.set_selected_at(&parts, true);
    assert!(b.all_selected(&parts));
    assert_eq!(b.selected_urls(), vec![s("https://f/a#G.part1.rar"), s("https://f/b#G.part2.rar")]);
    let saved = b.save_selected();
    assert_eq!(saved.len(), 2);
    assert!(b.saved_to_file);
    assert_eq!(b.status_text, "Saved 2 links to input.txt");
}

#[test]
fn scrape_results_replace_the_list() {
    let mut b = LinkBoard::new(vec![s("https://f/old")]);
    b.apply_scrape_result(vec![]);
    assert_eq!(b.status_text, "No fuckingfast.co links found at that URL.");
    assert_eq!(b.links.len(), 1);
    b.apply_scrape_result(vec![s("https://f/x#y"), s("https://f/p#G.part1.rar")]);
    assert_eq!(b.status_text, "Found 2 links.");
    assert_eq!(b.links[0].url, "https://f/p#G.part1.rar");
    assert_eq!(b.links_version, 2);
}

#[test]
fn count_messages() {
    assert_eq!(count_message("Found ", 0, " links."), "Found 0 links.");
    assert_eq!(count_message("", 1234567, "!"), "1234567!");
}
