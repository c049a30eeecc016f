//! The decisions of the download queue: progress reports, the status a
//! download ends in, the counts shown, and the remaining-time text.
use vstd::prelude::*;
use crate::text::{chars_of, string_of, decimal_chars, decimal_text, digit_char};
use crate::categories::{classify_link, category_of, LinkCategory, category_rank};
use crate::board::count_message;

verus! {

/// Where one download stands (the transfer speed is kept beside it by the caller).
pub enum DownloadState {
    Pending,
    FetchingPage,
    Downloading { total: u64, downloaded: u64 },
    Done,
    Failed(String),
}

/// Bytes written so far and chunks read so far for one file.
pub struct DownloadProgress {
    pub downloaded: u64,
    pub chunks: u32,
}

impl DownloadProgress {
    /// Nothing written yet.
    pub fn new() -> (r: DownloadProgress)
        ensures
            r.downloaded == 0 && r.chunks == 0,
    {
        DownloadProgress { downloaded: 0, chunks: 0 }
    }

    /// Counts a chunk of `n` bytes; says whether the progress is to be shown
    /// now (every fourth chunk).
    pub fn record_chunk(&mut self, n: u64) -> (r: bool)
        requires
            old(self).downloaded + n <= u64::MAX,
            old(self).chunks < u32::MAX,
        ensures
            final(self).downloaded == old(self).downloaded + n,
            final(self).chunks == old(self).chunks + 1,
            r == (final(self).chunks % 4 == 0),
    {
        self.downloaded = self.downloaded + n;
        self.chunks = self.chunks + 1;
        self.chunks % 4 == 0
    }
}

/// The status a download ends in once its transfer loop stops: a failure
/// stays, anything else is done; the link is taken off the list only when done.
pub fn finish_download(state: DownloadState) -> (r: (DownloadState, bool))
    ensures
        match state {
            DownloadState::Failed(m) => r.0 matches DownloadState::Failed(k) && k@ == m@ && !r.1,
            _ => r.0 is Done && r.1,
        },
{
    match state {
        DownloadState::Failed(m) => (DownloadState::Failed(m), false),
        _ => (DownloadState::Done, true),
    }
}

/// The icon shown beside a download for its state.
pub fn status_icon(state: &DownloadState) -> (r: &'static str)
    ensures
        r@ == match state {
            DownloadState::Pending => "⏳"@,
            DownloadState::FetchingPage => "🌐"@,
            DownloadState::Downloading { .. } => "⬇"@,
            DownloadState::Done => "✅"@,
            DownloadState::Failed(_) => "❌"@,
        },
{
    match state {
        DownloadState::Pending => "⏳",
        DownloadState::FetchingPage => "🌐",
        DownloadState::Downloading { .. } => "⬇",
        DownloadState::Done => "✅",
        DownloadState::Failed(_) => "❌",
    }
}

/// The number of finished and of failed downloads.
pub open spec fn state_counts(s: Seq<DownloadState>) -> (nat, nat)
    decreases s.len(),
{
    if s.len() == 0 {
        (0, 0)
    } else {
        let (d, f) = state_counts(s.drop_last());
        match s.last() {
            DownloadState::Done => (d + 1, f),
            DownloadState::Failed(_) => (d, f + 1),
            _ => (d, f),
        }
    }
}

/// The number of finished and of failed downloads.
pub fn download_counts(states: &Vec<DownloadState>) -> (r: (usize, usize))
    ensures
        (r.0 as nat, r.1 as nat) == state_counts(states@),
{
    let mut done: usize = 0;
    let mut failed: usize = 0;
    let mut i: usize = 0;
    while i < states.len()
        invariant
            i <= states.len(),
            (done as nat, failed as nat) == state_counts(states@.take(i as int)),
            done + failed <= i,
        decreases states.len() - i,
    {
        assert(states@.take(i + 1).drop_last() =~= states@.take(i as int));
        match states[i] {
            DownloadState::Done => {
                done = done + 1;
            },
            DownloadState::Failed(_) => {
                failed = failed + 1;
            },
            _ => {},
        }
        i = i + 1;
    }
    assert(states@.take(states@.len() as int) =~= states@);
    (done, failed)
}

/// Whether every download is done or failed.
pub fn downloads_finished(states: &Vec<DownloadState>) -> (r: bool)
    ensures
        r == forall|j: int|
            0 <= j < states.len() ==> (#[trigger] states@[j]) is Done || states@[j] is Failed,
{
    let mut i: usize = 0;
    while i < states.len()
        invariant
            i <= states.len(),
            forall|j: int| 0 <= j < i ==> (#[trigger] states@[j]) is Done || states@[j] is Failed,
        decreases states.len() - i,
    {
        match states[i] {
            DownloadState::Done => {},
            DownloadState::Failed(_) => {},
            _ => {
                return false;
            },
        }
        i = i + 1;
    }
    true
}

/// The positions of the links that are part files and of those that are
/// optional files, in order (other links are not shown in the queue).
pub open spec fn queue_groups(links: Seq<Seq<char>>) -> (Seq<usize>, Seq<usize>)
    decreases links.len(),
{
    if links.len() == 0 {
        (seq![], seq![])
    } else {
        let (p, o) = queue_groups(links.drop_last());
        let at = (links.len() - 1) as usize;
        match category_of(links.last()) {
            LinkCategory::Part(_) => (p.push(at), o),
            LinkCategory::Optional => (p, o.push(at)),
            LinkCategory::Other => (p, o),
        }
    }
}

/// The positions of the part files and of the optional files in the queue.
pub fn queue_positions(links: &Vec<String>) -> (r: (Vec<usize>, Vec<usize>))
    ensures
        (r.0@, r.1@) == queue_groups(links@.map_values(|s: String| s@)),
{
    let ghost ls = links@.map_values(|s: String| s@);
    let mut p: Vec<usize> = Vec::new();
    let mut o: Vec<usize> = Vec::new();
    let mut i: usize = 0;
    while i < links.len()
        invariant
            i <= links.len(),
            ls == links@.map_values(|s: String| s@),
            (p@, o@) == queue_groups(ls.take(i as int)),
        decreases links.len() - i,
    {
        assert(ls.take(i + 1).drop_last() =~= ls.take(i as int));
        assert(ls.take(i + 1).last() == links@[i as int]@);
        match classify_link(links[i].as_str()) {
            LinkCategory::Part(_) => p.push(i),
            LinkCategory::Optional => o.push(i),
            LinkCategory::Other => {},
        }
        i = i + 1;
    }
    assert(ls.take(links@.len() as int) =~= ls);
    (p, o)
}

/// A number written in at least two columns, a space in front of one digit
/// (the `{:2}` format).
pub open spec fn width2_text(n: nat) -> Seq<char> {
    if n < 10 {
        seq![' '] + decimal_text(n)
    } else {
        decimal_text(n)
    }
}

/// The remaining-time text for a whole number of seconds: hours and
/// minutes from an hour on, minutes and seconds from a minute on, else seconds.
pub open spec fn eta_text(secs: nat) -> Seq<char> {
    if secs >= 3600 {
        decimal_text(secs / 3600) + seq!['h', ' '] + width2_text((secs % 3600) / 60) + seq!['m']
    } else if secs >= 60 {
        decimal_text(secs / 60) + seq!['m', ' '] + width2_text(secs % 60) + seq!['s']
    } else {
        decimal_text(secs) + seq!['s']
    }
}

/// A number in at least two columns.
fn width2_chars(n: u64) -> (r: Vec<char>)
    ensures
        r@ == width2_text(n as nat),
{
    let mut d = decimal_chars(n);
    if n < 10 {
        let mut r: Vec<char> = Vec::new();
        r.push(' ');
        r.append(&mut d);
        r
    } else {
        d
    }
}

/// The remaining-time text shown beside a download.
pub fn format_eta(secs: u64) -> (r: String)
    ensures
        r@ == eta_text(secs as nat),
{
    let mut out: Vec<char>;
    if secs >= 3600 {
        out = decimal_chars(secs / 3600);
        out.push('h');
        out.push(' ');
        let mut m = width2_chars((secs % 3600) / 60);
        out.append(&mut m);
        out.push('m');
    } else if secs >= 60 {
        out = decimal_chars(secs / 60);
        out.push('m');
        out.push(' ');
        let mut s = width2_chars(secs % 60);
        out.append(&mut s);
        out.push('s');
    } else {
        out = decimal_chars(secs);
        out.push('s');
    }
    string_of(&out)
}

/// The line that says how many links are selected: `1 link selected.` or
/// `<n> links selected.`
pub fn selection_summary(n: usize) -> (r: String)
    ensures
        r@ == decimal_text(n as nat) + (if n == 1 {
            " link selected."@
        } else {
            " links selected."@
        }),
{
    let r = if n == 1 {
        count_message("", n, " link selected.")
    } else {
        count_message("", n, " links selected.")
    };
    proof {
        reveal_strlit("");
        assert(""@ + decimal_text(n as nat) =~= decimal_text(n as nat));
    }
    r
}

/// The state of the downloads view beside the shared list of items (which
/// the download worker updates): the game the files are saved for, and
/// whether the queue is running, paused, or has finished.
pub struct DownloadsTab {
    pub game_name: String,
    pub downloading: bool,
    pub paused: bool,
    pub done: bool,
}

/// What happens in the downloads view.
pub enum DownloadsEvent {
    /// The pause button was pressed.
    Pause,
    /// The resume button was pressed.
    Resume,
    /// A start button was pressed; the links of the shared list.
    Start(Vec<String>),
    /// The view is drawn again; the states of the shared list.
    Frame(Vec<DownloadState>),
}

/// What the caller is to do after a step of the downloads view.
pub enum DownloadsAction {
    Nothing,
    /// Set the pause flag the worker watches to this value.
    SetPauseFlag(bool),
    /// Clear the pause flag and run the worker on these links, saving into
    /// the folder of this game.
    Spawn { links: Vec<String>, game_name: String },
    /// Keep only the items at these positions of the shared list, in order;
    /// then, when a folder is given, look for its archives to extract.
    Update { keep: Vec<usize>, scan: Option<String> },
}

/// The positions of the items that are not done, in order.
pub open spec fn unfinished_positions(s: Seq<DownloadState>) -> Seq<usize>
    decreases s.len(),
{
    if s.len() == 0 {
        seq![]
    } else {
        let rest = unfinished_positions(s.drop_last());
        if s.last() is Done {
            rest
        } else {
            rest.push((s.len() - 1) as usize)
        }
    }
}

/// Whether every item is done or failed.
pub open spec fn all_settled(s: Seq<DownloadState>) -> bool {
    forall|j: int| 0 <= j < s.len() ==> (#[trigger] s[j]) is Done || s[j] is Failed
}

/// Whether the queue can be started with these links.
pub open spec fn can_start(tab: DownloadsTab, n_links: nat) -> bool {
    n_links > 0 && !tab.downloading
}

/// The positions of the items that are not done.
fn unfinished_of(states: &Vec<DownloadState>) -> (r: Vec<usize>)
    ensures
        r@ == unfinished_positions(states@),
{
    let mut r: Vec<usize> = Vec::new();
    let mut i: usize = 0;
    while i < states.len()
        invariant
            i <= states.len(),
            r@ == unfinished_positions(states@.take(i as int)),
        decreases states.len() - i,
    {
        assert(states@.take(i + 1).drop_last() =~= states@.take(i as int));
        match states[i] {
            DownloadState::Done => {},
            _ => r.push(i),
        }
        i = i + 1;
    }
    assert(states@.take(states@.len() as int) =~= states@);
    r
}

/// One step of the downloads view: Pause and Resume work while the queue
/// runs and set the worker's pause flag; Start runs the worker on the links
/// when there are any and it is not running; each redraw while running drops
/// the finished items, and once every item is done or failed the queue stops,
/// is marked done, and the game's folder is searched for archives.
pub fn downloads_tab_step(tab: DownloadsTab, ev: DownloadsEvent) -> (r: (DownloadsTab, DownloadsAction))
    ensures
        r.0.game_name@ == tab.game_name@,
        match ev {
            DownloadsEvent::Pause => if tab.downloading && !tab.paused {
                r.0.paused && r.0.downloading == tab.downloading && r.0.done == tab.done
                    && r.1 == DownloadsAction::SetPauseFlag(true)
            } else {
                r.0.paused == tab.paused && r.0.downloading == tab.downloading && r.0.done == tab.done
                    && r.1 is Nothing
            },
            DownloadsEvent::Resume => if tab.downloading && tab.paused {
                !r.0.paused && r.0.downloading == tab.downloading && r.0.done == tab.done
                    && r.1 == DownloadsAction::SetPauseFlag(false)
            } else {
                r.0.paused == tab.paused && r.0.downloading == tab.downloading && r.0.done == tab.done
                    && r.1 is Nothing
            },
            DownloadsEvent::Start(links) => if can_start(tab, links.len() as nat) {
                &&& r.0.downloading && !r.0.done && !r.0.paused
                &&& r.1 matches DownloadsAction::Spawn { links: l, game_name: g }
                &&& l@.map_values(|s: String| s@) == links@.map_values(|s: String| s@)
                &&& g@ == tab.game_name@
            } else {
                r.0.paused == tab.paused && r.0.downloading == tab.downloading && r.0.done == tab.done
                    && r.1 is Nothing
            },
            DownloadsEvent::Frame(states) => if tab.downloading {
                &&& r.1 matches DownloadsAction::Update { keep, scan }
                &&& keep@ == unfinished_positions(states@)
                &&& r.0.paused == tab.paused
                &&& if all_settled(states@) {
                    &&& !r.0.downloading
                    &&& r.0.done
                    &&& (scan matches Some(d) && d@ == "downloads/"@ + tab.game_name@)
                } else {
                    &&& r.0.downloading
                    &&& r.0.done == tab.done
                    &&& scan is None
                }
                &&& (exists|j: int|
                    0 <= j < states.len() && !((#[trigger] states@[j]) is Done || states@[j] is Failed))
                    ==> r.0.downloading && r.0.done == tab.done && scan is None
                &&& forall|i: int| 0 <= i < keep.len() ==> keep@[i] < states.len() && !(#[trigger] states@[keep@[i] as int] is Done)
            } else {
                r.0.paused == tab.paused && r.0.downloading == tab.downloading && r.0.done == tab.done
                    && r.1 is Nothing
            },
        },
{
    let DownloadsTab { game_name, downloading, paused, done } = tab;
    match ev {
        DownloadsEvent::Pause => {
            if downloading && !paused {
                (DownloadsTab { game_name, downloading, paused: true, done }, DownloadsAction::SetPauseFlag(true))
            } else {
                (DownloadsTab { game_name, downloading, paused, done }, DownloadsAction::Nothing)
            }
        },
        DownloadsEvent::Resume => {
            if downloading && paused {
                (DownloadsTab { game_name, downloading, paused: false, done }, DownloadsAction::SetPauseFlag(false))
            } else {
                (DownloadsTab { game_name, downloading, paused, done }, DownloadsAction::Nothing)
            }
        },
        DownloadsEvent::Start(links) => {
            if links.len() > 0 && !downloading {
                let g = crate::links::concat_str(game_name.as_str(), "");
                proof {
                    reveal_strlit("");
                    assert(game_name@ + ""@ =~= game_name@);
                }
                (
                    DownloadsTab { game_name, downloading: true, paused: false, done: false },
                    DownloadsAction::Spawn { links, game_name: g },
                )
            } else {
                (DownloadsTab { game_name, downloading, paused, done }, DownloadsAction::Nothing)
            }
        },
        DownloadsEvent::Frame(states) => {
            if !downloading {
                return (DownloadsTab { game_name, downloading, paused, done }, DownloadsAction::Nothing);
            }
            let keep = unfinished_of(&states);
            proof {
                assert(states@.len() == states.len());
                lemma_unfinished(states@);
            }
            if downloads_finished(&states) {
                let dir = crate::links::concat_str("downloads/", game_name.as_str());
                (
                    DownloadsTab { game_name, downloading: false, paused, done: true },
                    DownloadsAction::Update { keep, scan: Some(dir) },
                )
            } else {
                (DownloadsTab { game_name, downloading, paused, done }, DownloadsAction::Update { keep, scan: None })
            }
        },
    }
}

/// What happens while one link of the queue is fetched.
pub enum QueueEvent {
    /// The page request failed, with the reason.
    PageRequestFailed(String),
    /// The page answered with a status that is not a success, as text.
    PageStatusFailed(String),
    /// The page was read.
    PageLoaded(String),
    /// The file request failed, with the reason.
    DownloadRequestFailed(String),
    /// The file answered, with its announced length (0 when unknown).
    DownloadStarted(u64),
    /// The output file could not be created, with the reason.
    FileFailed(String),
    /// Bytes written so far, to be shown, out of the announced length.
    Progress { total: u64, downloaded: u64 },
    /// Reading the file failed, with the reason.
    ReadFailed(String),
    /// Writing the file failed.
    WriteFailed,
    /// The transfer loop stopped.
    TransferEnded,
}

/// What the queue worker does next for the current link.
pub enum QueueAction {
    /// Go on with the next link.
    NextLink,
    /// Name the item with this file name; download from this address, or,
    /// when there is none, go on with the next link.
    PageRead { file_name: String, download: Option<String> },
    /// Create the output file and start reading.
    CreateFile,
    /// Keep reading.
    ReadOn,
    /// Stop reading; the transfer is over.
    EndTransfer,
    /// Take the link off the list file, then go on with the next link.
    RemoveLink,
}

/// A failure with a message made of a prefix and a reason.
fn failed_with(prefix: &str, e: String) -> (r: DownloadState)
    ensures
        r matches DownloadState::Failed(m) && m@ == prefix@ + e@,
{
    DownloadState::Failed(crate::links::concat_str(prefix, e.as_str()))
}

/// One step of the queue worker for the current link: each failure gives
/// the link its failure text and moves on (or ends the transfer); a page
/// gives the file name and the download address; an answered download
/// starts at 0 bytes; progress reports set the bytes; when the transfer
/// ends, a failed link stays failed and any other is done and taken off
/// the list.
pub fn queue_step(state: DownloadState, ev: QueueEvent) -> (r: (DownloadState, QueueAction))
    ensures
        match ev {
            QueueEvent::PageRequestFailed(e) => (r.0 matches DownloadState::Failed(m) && m@ == "HTTP: "@
                + e@) && r.1 is NextLink,
            QueueEvent::PageStatusFailed(s) => (r.0 matches DownloadState::Failed(m) && m@ == "HTTP "@
                + s@) && r.1 is NextLink,
            QueueEvent::PageLoaded(html) => {
                &&& r.1 matches QueueAction::PageRead { file_name, download }
                &&& file_name@ == crate::pages::page_file_name_of(html@)
                &&& match download {
                    Some(u) => crate::pages::download_url_of(html@) == Some(u@) && r.0 is FetchingPage,
                    None => crate::pages::download_url_of(html@) is None && (r.0 matches DownloadState::Failed(
                        m,
                    ) && m@ == "no download URL found"@),
                }
            },
            QueueEvent::DownloadRequestFailed(e) => (r.0 matches DownloadState::Failed(m) && m@
                == "download: "@ + e@) && r.1 is NextLink,
            QueueEvent::DownloadStarted(total) => r.0 == DownloadState::Downloading {
                total,
                downloaded: 0,
            } && r.1 is CreateFile,
            QueueEvent::FileFailed(e) => (r.0 matches DownloadState::Failed(m) && m@ == "file: "@
                + e@) && r.1 is NextLink,
            QueueEvent::Progress { total, downloaded } => r.0 == DownloadState::Downloading {
                total,
                downloaded,
            } && r.1 is ReadOn,
            QueueEvent::ReadFailed(e) => (r.0 matches DownloadState::Failed(m) && m@ == "read: "@
                + e@) && r.1 is EndTransfer,
            QueueEvent::WriteFailed => (r.0 matches DownloadState::Failed(m) && m@
                == "write error"@) && r.1 is EndTransfer,
            QueueEvent::TransferEnded => match state {
                DownloadState::Failed(m) => (r.0 matches DownloadState::Failed(k) && k@ == m@)
                    && r.1 is NextLink,
                _ => r.0 is Done && r.1 is RemoveLink,
            },
        },
{
    match ev {
        QueueEvent::PageRequestFailed(e) => (failed_with("HTTP: ", e), QueueAction::NextLink),
        QueueEvent::PageStatusFailed(s) => (failed_with("HTTP ", s), QueueAction::NextLink),
        QueueEvent::PageLoaded(html) => {
            let file_name = crate::pages::page_file_name(html.as_str());
            match crate::pages::get_download_url(html.as_str()) {
                Some(u) => (
                    DownloadState::FetchingPage,
                    QueueAction::PageRead { file_name, download: Some(u) },
                ),
                None => (
                    DownloadState::Failed(string_of(&chars_of("no download URL found"))),
                    QueueAction::PageRead { file_name, download: None },
                ),
            }
        },
        QueueEvent::DownloadRequestFailed(e) => (failed_with("download: ", e), QueueAction::NextLink),
        QueueEvent::DownloadStarted(total) => (
            DownloadState::Downloading { total, downloaded: 0 },
            QueueAction::CreateFile,
        ),
        QueueEvent::FileFailed(e) => (failed_with("file: ", e), QueueAction::NextLink),
        QueueEvent::Progress { total, downloaded } => (
            DownloadState::Downloading { total, downloaded },
            QueueAction::ReadOn,
        ),
        QueueEvent::ReadFailed(e) => (failed_with("read: ", e), QueueAction::EndTransfer),
        QueueEvent::WriteFailed => (
            DownloadState::Failed(string_of(&chars_of("write error"))),
            QueueAction::EndTransfer,
        ),
        QueueEvent::TransferEnded => {
            let (s, remove) = finish_download(state);
            if remove {
                (s, QueueAction::RemoveLink)
            } else {
                (s, QueueAction::NextLink)
            }
        },
    }
}

/// One file of the download queue: its link, the file name its page gives
/// (empty until read) and where its download stands.
pub struct QueueItem {
    pub link: String,
    pub file_name: String,
    pub state: DownloadState,
}

/// The downloads view once the selection is saved: one waiting item per
/// saved link, in order, for the game the links name, neither running nor
/// done (the pause mark is kept).
pub fn downloads_after_save(tab: DownloadsTab, saved: &Vec<String>) -> (r: (DownloadsTab, Vec<QueueItem>))
    ensures
        r.0.game_name@ == crate::pages::game_name_of(saved@.map_values(|s: String| s@)),
        !r.0.downloading,
        !r.0.done,
        r.0.paused == tab.paused,
        r.1.len() == saved.len(),
        forall|i: int|
            0 <= i < saved.len() ==> (#[trigger] r.1@[i]).link@ == saved@[i]@ && r.1@[i].file_name@
                == Seq::<char>::empty() && r.1@[i].state is Pending,
{
    let game_name = crate::pages::extract_game_name(saved);
    let mut items: Vec<QueueItem> = Vec::new();
    let mut i: usize = 0;
    while i < saved.len()
        invariant
            i <= saved.len(),
            items.len() == i,
            forall|j: int|
                0 <= j < i ==> (#[trigger] items@[j]).link@ == saved@[j]@ && items@[j].file_name@
                    == Seq::<char>::empty() && items@[j].state is Pending,
        decreases saved.len() - i,
    {
        let link = crate::links::concat_str(saved[i].as_str(), "");
        proof {
            reveal_strlit("");
            assert(saved@[i as int]@ + ""@ =~= saved@[i as int]@);
        }
        items.push(QueueItem { link, file_name: string_of(&Vec::new()), state: DownloadState::Pending });
        i = i + 1;
    }
    (DownloadsTab { game_name, downloading: false, paused: tab.paused, done: false }, items)
}

/// The kept positions are those of the items not done, in order.
proof fn lemma_unfinished(s: Seq<DownloadState>)
    requires
        s.len() <= usize::MAX,
    ensures
        forall|i: int|
            0 <= i < unfinished_positions(s).len() ==> (#[trigger] unfinished_positions(s)[i]) < s.len()
                && !(s[unfinished_positions(s)[i] as int] is Done),
        forall|j: int|
            0 <= j < s.len() && !(#[trigger] s[j] is Done) ==> unfinished_positions(s).contains(
                j as usize,
            ),
    decreases s.len(),
{
    if s.len() > 0 {
        let p = s.drop_last();
        lemma_unfinished(p);
        let u = unfinished_positions(s);
        let r = unfinished_positions(p);
        assert forall|i: int| 0 <= i < u.len() implies (#[trigger] u[i]) < s.len() && !(s[u[i] as int] is Done) by {
            if i < r.len() {
                assert(u[i] == r[i]);
                assert(s[r[i] as int] == p[r[i] as int]);
            }
        }
        assert forall|j: int| 0 <= j < s.len() && !(#[trigger] s[j] is Done) implies u.contains(j as usize) by {
            if j < p.len() {
                assert(p[j] == s[j]);
                let k = choose|k: int| 0 <= k < r.len() && r[k] == j as usize;
                assert(u[k] == r[k]);
            } else {
                assert(u[u.len() - 1] == j as usize);
            }
        }
    }
}

/// The queue is over exactly when nothing waits, is being fetched or is
/// downloading; and then every item it still shows (every one not done)
/// has failed.
pub proof fn lemma_queue_over(s: Seq<DownloadState>)
    requires
        s.len() <= usize::MAX,
    ensures
        all_settled(s) <==> !exists|j: int|
            0 <= j < s.len() && ((#[trigger] s[j]) is Pending || s[j] is FetchingPage
                || s[j] is Downloading),
        all_settled(s) <==> forall|i: int|
            0 <= i < unfinished_positions(s).len() ==> s[#[trigger] unfinished_positions(s)[i] as int] is Failed,
{
    lemma_unfinished(s);
    let u = unfinished_positions(s);
    if forall|i: int| 0 <= i < u.len() ==> s[#[trigger] u[i] as int] is Failed {
        assert forall|j: int| 0 <= j < s.len() implies (#[trigger] s[j]) is Done || s[j] is Failed by {
            if !(s[j] is Done) {
                let k = choose|k: int| 0 <= k < u.len() && u[k] == j as usize;
                assert(s[u[k] as int] is Failed);
            }
        }
    }
    if !all_settled(s) {
        let j = choose|j: int| 0 <= j < s.len() && !((#[trigger] s[j]) is Done || s[j] is Failed);
        assert(s[j] is Pending || s[j] is FetchingPage || s[j] is Downloading);
        let k = choose|k: int| 0 <= k < u.len() && u[k] == j as usize;
        assert(!(s[u[k] as int] is Failed));
    }
}

} // verus!
