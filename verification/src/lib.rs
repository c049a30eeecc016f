//! Link handling, archive selection and paste decryption for a downloader
//! of game repacks, with their behaviour stated and proved.
//!
//! - `links`: names of links, paste URLs, the links in a page, the link list file.
//! - `categories` and `board`: the kinds of links and the list the user edits.
//! - `pages`: the download page of a link and the game a list belongs to.
//! - `paste`: reading and decrypting an encrypted paste.
//! - `archives`: which archives of a download folder to extract.
//! - `downloads`: the decisions of the download queue.
pub mod text;
pub mod json;
pub mod patterns;
pub mod sorted;
pub mod lines;
pub mod links;
pub mod categories;
pub mod board;
pub mod archives;
pub mod paste;
pub mod pages;
pub mod downloads;

pub use archives::{ArchiveItem, ExtractStatus, GameFolder};
pub use categories::{build_categories, categorize_entries, classify_link, LinkCategory, LinkEntry};
pub use links::{display_name, extract_links, privatebin_key, privatebin_paste_id};
pub use pages::{extract_game_name, get_download_url};
