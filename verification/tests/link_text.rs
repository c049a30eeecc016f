use fitgirl_auto_downloader_mori::json::JsonValue;
use fitgirl_auto_downloader_mori::lines::{clean_lines, join_lines};
use fitgirl_auto_downloader_mori::links::{
    display_name, drop_link_lines, extract_links, input_mode_for, is_paste_url, paste_api_url,
    paste_referer, pick_links, privatebin_key, privatebin_paste_id, remove_link_from, InputMode,
};
use fitgirl_auto_downloader_mori::text::{parse_u32_chars, trim_str};

fn s(x: &str) -> String {
    x.to_string()
}

#[test]
fn display_name_prefers_fragment() {
    assert_eq!(
        display_name("https://fuckingfast.co/abc#Game--fitgirl-repacks.site--.part01.rar"),
        "Game--fitgirl-repacks.site--.part01.rar"
    );
    assert_eq!(display_name("a#b#c"), "b");
    assert_eq!(display_name("https://fuckingfast.co/dir/file.bin"), "file.bin");
    assert_eq!(display_name("no-slash"), "no-slash");
    assert_eq!(display_name("https://x/y#"), "");
}

#[test]
fn paste_id_and_key_from_url() {
    let url = "https://paste.fitgirl-repacks.site/?abc123#KeyPart";
    assert_eq!(privatebin_paste_id(url), Some(s("abc123")));
    assert_eq!(privatebin_key(url), Some(s("KeyPart")));
    assert_eq!(privatebin_paste_id("https://paste.example/nothing"), None);
    assert_eq!(privatebin_paste_id("x?a?b#c"), Some(s("a")));
    assert_eq!(privatebin_key("https://paste.fitgirl-repacks.site/?abc#"), None);
    assert_eq!(privatebin_key("https://paste.fitgirl-repacks.site/?abc"), None);
    assert_eq!(privatebin_key("u#a#b"), Some(s("a")));
}

#[test]
fn paste_addresses() {
    assert!(is_paste_url("https://paste.fitgirl-repacks.site/?x#y"));
    assert!(!is_paste_url("https://fitgirl-repacks.site/game/"));
    assert_eq!(paste_api_url("abc"), "https://paste.fitgirl-repacks.site/?pasteid=abc");
    assert_eq!(paste_referer("abc"), "https://paste.fitgirl-repacks.site/?abc");
}

#[test]
fn links_are_found_trimmed_sorted_and_unique() {
    let text = "see https://fuckingfast.co/zz9#b.part2.rar, and (https://fuckingfast.co/aa1#a.part1.rar). \
                <a href=\"https://fuckingfast.co/zz9#b.part2.rar\">x</a> https://fuckingfast.co/ \
                'https://fuckingfast.co/mm5]>' http://fuckingfast.co/no https://fuckingfast.co/qq.\n";
    let got = extract_links(text, None);
    assert_eq!(
        got,
        vec![
            s("https://fuckingfast.co/aa1#a.part1.rar"),
            s("https://fuckingfast.co/mm5"),
            s("https://fuckingfast.co/qq"),
            s("https://fuckingfast.co/zz9#b.part2.rar"),
        ]
    );
}

#[test]
fn links_end_where_space_quote_or_angle_starts() {
    let text = "https://fuckingfast.co/a\u{2003}b https://fuckingfast.co/c>d https://fuckingfast.co/e'f";
    assert_eq!(
        extract_links(text, None),
        vec![
            s("https://fuckingfast.co/a"),
            s("https://fuckingfast.co/c"),
            s("https://fuckingfast.co/e"),
        ]
    );
}

#[test]
fn links_are_read_from_the_paste_field() {
    let doc = JsonValue::Object(vec![
        (s("id"), JsonValue::Number(s("3"))),
        (s("paste"), JsonValue::Str(s("https://fuckingfast.co/p1 https://fuckingfast.co/p0"))),
    ]);
    let raw = "{\"paste\": \"...\"} https://fuckingfast.co/raw";
    assert_eq!(
        extract_links(raw, Some(&doc)),
        vec![s("https://fuckingfast.co/p0"), s("https://fuckingfast.co/p1")]
    );
    let other = JsonValue::Array(vec![JsonValue::Str(s("https://fuckingfast.co/in"))]);
    assert_eq!(
        extract_links("https://fuckingfast.co/out", Some(&other)),
        vec![s("https://fuckingfast.co/out")]
    );
    let wrong_type = JsonValue::Object(vec![(s("paste"), JsonValue::Number(s("1")))]);
    assert_eq!(
        extract_links("https://fuckingfast.co/text", Some(&wrong_type)),
        vec![s("https://fuckingfast.co/text")]
    );
}

#[test]
fn no_links_in_plain_text() {
    assert!(extract_links("nothing here", None).is_empty());
    assert!(extract_links("", None).is_empty());
}

#[test]
fn removing_a_finished_link_rewrites_the_list() {
    let content = "https://a/1\n  https://a/2  \n\nhttps://a/3\r\n";
    assert_eq!(remove_link_from(content, "https://a/2"), Some(s("https://a/1\nhttps://a/3\n")));
    assert_eq!(remove_link_from(content, "https://a/9"), None);
    assert_eq!(remove_link_from("only\n", "only"), Some(s("\n")));
    assert_eq!(remove_link_from("", "x"), None);
}

#[test]
fn removing_the_empty_link_matches_blank_lines() {
    assert_eq!(remove_link_from("a\n\nb", ""), Some(s("a\nb\n")));
    assert_eq!(remove_link_from("a\n", ""), None);
}

#[test]
fn command_line_removal_keeps_other_lines_as_they_are() {
    assert_eq!(drop_link_lines("a\r\n link \n  b \nc", "link"), "a\n  b \nc");
    assert_eq!(drop_link_lines("x\n", "y"), "x");
    assert_eq!(drop_link_lines("", "y"), "");
}

#[test]
fn list_lines_are_trimmed_and_blank_ones_dropped() {
    assert_eq!(
        clean_lines("  one \n\n\t two\r\n   \nthree"),
        vec![s("one"), s("two"), s("three")]
    );
    assert!(clean_lines("\n \n").is_empty());
}

#[test]
fn joining_lines() {
    assert_eq!(join_lines(&vec![s("a"), s("b"), s("c")]), "a\nb\nc");
    assert_eq!(join_lines(&vec![s("solo")]), "solo");
    assert_eq!(join_lines(&vec![]), "");
}

#[test]
fn input_mode_choice() {
    assert!(matches!(input_mode_for(" 2 "), InputMode::AutoScrape));
    assert!(matches!(input_mode_for("1"), InputMode::Manual));
    assert!(matches!(input_mode_for("22"), InputMode::Manual));
    assert!(matches!(input_mode_for(""), InputMode::Manual));
}

#[test]
fn picking_links_by_position() {
    let all = vec![s("a"), s("b"), s("c")];
    assert_eq!(pick_links(&all, &vec![2, 0]), vec![s("c"), s("a")]);
    assert!(pick_links(&all, &vec![]).is_empty());
}

#[test]
fn trimming_uses_unicode_white_space() {
    assert_eq!(trim_str("\u{3000} x y \u{85}\n"), "x y");
    assert_eq!(trim_str("   "), "");
}

#[test]
fn decimal_parsing_follows_u32_from_str() {
    let p = |t: &str| parse_u32_chars(&t.chars().collect::<Vec<char>>());
    assert_eq!(p("42"), Some(42));
    assert_eq!(p("+7"), Some(7));
    assert_eq!(p("4294967295"), Some(u32::MAX));
    assert_eq!(p("4294967296"), None);
    assert_eq!(p(""), None);
    assert_eq!(p("+"), None);
    assert_eq!(p("-1"), None);
    assert_eq!(p("1a"), None);
    for t in ["0", "+0", "17", "99999", "123x", "٣"] {
        assert_eq!(p(t), t.parse::<u32>().ok());
    }
}
