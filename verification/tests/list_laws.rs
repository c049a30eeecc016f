use fitgirl_auto_downloader_mori::board::LinkBoard;
use fitgirl_auto_downloader_mori::lines::{clean_lines, join_lines};
use fitgirl_auto_downloader_mori::links::{remove_link_from, short_link};

fn s(x: &str) -> String {
    x.to_string()
}

#[test]
fn a_removed_link_stays_removed() {
    let content = " https://a/1 \r\nhttps://a/2\n\nhttps://a/3\nhttps://a/2";
    let once = remove_link_from(content, "https://a/2").unwrap();
    assert_eq!(clean_lines(&once), vec![s("https://a/1"), s("https://a/3")]);
    assert_eq!(remove_link_from(&once, "https://a/2"), None);
    let last = remove_link_from("https://a/1\n", "https://a/1").unwrap();
    assert!(clean_lines(&last).is_empty());
    assert_eq!(remove_link_from(&last, "https://a/1"), None);
}

#[test]
fn saved_links_load_back_unchanged() {
    let links = vec![s("https://f/1#G.part1.rar"), s("https://f/2"), s("x y")];
    assert_eq!(clean_lines(&join_lines(&links)), links);
    assert!(clean_lines(&join_lines(&Vec::new())).is_empty());
}

#[test]
fn the_same_links_are_added_only_once() {
    let mut b = LinkBoard::new(vec![s("https://f/1")]);
    let text = "https://f/1\nhttps://f/2\nhttps://f/3\n";
    assert!(b.add_manual_links(text));
    assert_eq!(b.links.len(), 3);
    assert!(b.add_manual_links(text));
    assert_eq!(b.links.len(), 3);
    let urls: Vec<&str> = b.links.iter().map(|e| e.url.as_str()).collect();
    assert_eq!(urls, vec!["https://f/1", "https://f/2", "https://f/3"]);
}

#[test]
fn long_links_are_cut_for_the_menu() {
    let short = "https://fuckingfast.co/abc";
    assert_eq!(short_link(short), short);
    let exact = "x".repeat(80);
    assert_eq!(short_link(&exact), exact);
    let long = format!("https://fuckingfast.co/{}", "a".repeat(100));
    assert_eq!(short_link(&long), format!("{}...", &long[..77]));
    let wide = format!("{}é{}", "b".repeat(75), "c".repeat(10));
    assert_eq!(short_link(&wide), format!("{}é...", "b".repeat(75)));
}
