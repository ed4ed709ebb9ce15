//! The catalog: what a crawl found, and where playback left off.

use vstd::prelude::*;

use crate::core_error::Error;
use crate::metadata;
use crate::metadata::EpisodeGuide;
use crate::metadata::EpisodeMetadata;
use crate::metadata::MetadataRecord;
use crate::metadata::ProviderId;
use crate::metadata_rows;
use crate::metadata_rows::EpisodeRow;
use crate::metadata_rows::MetadataRow;
use crate::naming::ParsedName;
use crate::order;
use crate::order::Ranked;
use crate::sizes;
use crate::table;
use crate::table::AllBut;
use crate::table::FileKey;
use crate::table::Keeps;
use crate::table::OutsideShare;
use crate::table::RowKey;
use crate::table::Table;
use crate::table::TitleKey;
use crate::text;
use crate::uid::NodeUid;

verus! {

/// What a crawl found a node to be.
#[derive(Debug, PartialEq, Eq)]
pub enum CrawledKind {
    Folder,
    File {
        media_type: String,
        claimed_size: Option<i64>,
        active_revision_id: Option<String>,
    },
}

/// A node as a crawl found it.
#[derive(Debug, PartialEq, Eq)]
pub struct CrawledNode {
    pub uid: NodeUid,
    pub parent_uid: Option<NodeUid>,
    pub name: String,
    pub kind: CrawledKind,
}

impl CrawledNode {
    pub fn is_folder(&self) -> (r: bool)
        ensures
            r == (self.kind is Folder),
    {
        match &self.kind {
            CrawledKind::Folder => true,
            CrawledKind::File { .. } => false,
        }
    }
}

/// One catalog row: a file or folder inside a share.
#[derive(Debug, PartialEq, Eq)]
pub struct CatalogNode {
    pub share_id: String,
    pub link_id: String,
    pub volume_id: String,
    pub parent_link_id: Option<String>,
    pub name: String,
    pub is_folder: bool,
    pub media_type: Option<String>,
    /// Plaintext size as claimed by the uploader, when the share reports one.
    pub size: Option<i64>,
    /// The revision the row describes. This is the cache-validity key: it
    /// advances if and only if a new revision was sealed.
    pub active_revision_id: Option<String>,
    /// What the parser made of the file name and its folders.
    pub parsed: ParsedName,
}

impl Clone for CatalogNode {
    fn clone(&self) -> (r: Self)
        ensures
            r == *self,
    {
        CatalogNode {
            share_id: self.share_id.clone(),
            link_id: self.link_id.clone(),
            volume_id: self.volume_id.clone(),
            parent_link_id: text::copy_option(&self.parent_link_id),
            name: self.name.clone(),
            is_folder: self.is_folder,
            media_type: text::copy_option(&self.media_type),
            size: self.size,
            active_revision_id: text::copy_option(&self.active_revision_id),
            parsed: self.parsed.clone(),
        }
    }
}

/// Where playback left off. Times are in milliseconds.
#[derive(Debug, Clone, Copy, PartialEq, Eq, Structural)]
pub struct WatchState {
    pub position_ms: u64,
    pub duration_ms: Option<u64>,
    pub watched: bool,
    pub updated_at: i64,
}

/// The watch state of one file.
#[derive(Debug, PartialEq, Eq)]
pub struct WatchEntry {
    pub share_id: String,
    pub link_id: String,
    pub state: WatchState,
}

/// The watch state of a file: the last one recorded for it.
pub open spec fn watch_of(
    watch: Seq<WatchEntry>,
    share_id: Seq<char>,
    link_id: Seq<char>,
) -> Option<WatchState>
    decreases watch.len(),
{
    if watch.len() == 0 {
        None
    } else if watch.last().share_id@ == share_id && watch.last().link_id@ == link_id {
        Some(watch.last().state)
    } else {
        watch_of(watch.drop_last(), share_id, link_id)
    }
}

/// The watch state of a file.
pub fn find_watch(watch: &[WatchEntry], share_id: &String, link_id: &String) -> (r: Option<
    WatchState,
>)
    ensures
        r == watch_of(watch@, share_id@, link_id@),
{
    let mut i: usize = watch.len();
    assert(watch@.take(i as int) =~= watch@);
    while i > 0
        invariant
            i <= watch@.len(),
            watch_of(watch@, share_id@, link_id@) == watch_of(
                watch@.take(i as int),
                share_id@,
                link_id@,
            ),
        decreases i,
    {
        let entry = &watch[i - 1];
        assert(watch@.take(i as int).drop_last() =~= watch@.take(i - 1));
        assert(watch@.take(i as int).last() == *entry);
        if entry.share_id == *share_id && entry.link_id == *link_id {
            return Some(entry.state);
        }
        i -= 1;
    }
    None
}

// ---------------------------------------------------------------------------
// Files kept, and languages chosen
// ---------------------------------------------------------------------------

/// A complete local file: the revision it is, and the sizes of its blocks.
#[derive(Debug, PartialEq, Eq)]
pub struct OfflineFile {
    pub revision_id: String,
    pub block_sizes: Vec<u64>,
}

/// An [`OfflineFile`] with its string and its list taken as sequences.
#[verifier::ext_equal]
pub struct OfflineView {
    pub revision_id: Seq<char>,
    pub block_sizes: Seq<u64>,
}

impl View for OfflineFile {
    type V = OfflineView;

    open spec fn view(&self) -> OfflineView {
        OfflineView { revision_id: self.revision_id@, block_sizes: self.block_sizes@ }
    }
}

impl Clone for OfflineFile {
    fn clone(&self) -> (r: Self)
        ensures
            r@ == self@,
    {
        let mut block_sizes: Vec<u64> = Vec::new();
        let mut i: usize = 0;
        while i < self.block_sizes.len()
            invariant
                i <= self.block_sizes@.len(),
                block_sizes@ == self.block_sizes@.take(i as int),
            decreases self.block_sizes.len() - i,
        {
            block_sizes.push(self.block_sizes[i]);
            i += 1;
            assert(self.block_sizes@.take(i as int) =~= self.block_sizes@.take(i - 1).push(
                self.block_sizes@[i - 1],
            ));
        }
        assert(self.block_sizes@.take(self.block_sizes@.len() as int) =~= self.block_sizes@);
        OfflineFile { revision_id: self.revision_id.clone(), block_sizes }
    }
}

/// One row of the table of files kept.
#[derive(Debug, PartialEq, Eq)]
pub struct OfflineRow {
    pub revision_id: String,
    /// The block sizes, in JSON.
    pub block_sizes: String,
}

/// The file that a row describes, or what is wrong with its sizes where they do
/// not decode.
pub open spec fn offline_in(row: OfflineRow) -> Result<OfflineView, Seq<char>> {
    match sizes::sizes_in(row.block_sizes@) {
        Ok(sizes) => Ok(OfflineView { revision_id: row.revision_id@, block_sizes: sizes }),
        Err(why) => Err(why),
    }
}

/// The message for a row whose sizes do not decode, by the column that they
/// stand in.
pub open spec fn conversion_fault(column: int, why: Seq<char>) -> Seq<char> {
    "Conversion error from type Text at index: "@ + text::integer(column) + ", "@ + why
}

/// Whether an error is the one that a row whose sizes do not decode gives.
pub open spec fn is_conversion_error(error: Error, column: int, row: OfflineRow) -> bool {
    &&& offline_in(row) is Err
    &&& error is Db
    &&& error->Db_0@ == conversion_fault(column, offline_in(row)->Err_0)
}

/// The file of a revision, given what its sizes decoded to, by the column that
/// they stand in.
pub fn offline_from(revision_id: &str, decoded: Result<Vec<u64>, String>, column: i64) -> (r:
    Result<OfflineFile, Error>)
    ensures
        match decoded {
            Ok(sizes) => r is Ok && r->Ok_0.revision_id@ == revision_id@ && r->Ok_0.block_sizes
                == sizes,
            Err(why) => r is Err && r->Err_0 is Db && r->Err_0->Db_0@ == conversion_fault(
                column as int,
                why@,
            ),
        },
{
    match decoded {
        Ok(block_sizes) => Ok(OfflineFile { revision_id: text::owned(revision_id), block_sizes }),
        Err(why) => {
            let mut message = text::owned("Conversion error from type Text at index: ");
            message.push_str(text::from_chars(&text::integer_of(column)).as_str());
            message.push_str(", ");
            message.push_str(why.as_str());
            Err(Error::Db(message))
        },
    }
}

/// The file that a row describes.
fn row_to_offline(row: &OfflineRow, column: i64) -> (r: Result<OfflineFile, Error>)
    ensures
        match offline_in(*row) {
            Ok(file) => r is Ok && r->Ok_0@ == file,
            Err(_) => r is Err && is_conversion_error(r->Err_0, column as int, *row),
        },
        forall|sizes: Seq<u64>|
            row.block_sizes@ == #[trigger] sizes::json_of(sizes) ==> r is Ok
                && r->Ok_0.block_sizes@ == sizes,
{
    offline_from(
        row.revision_id.as_str(),
        sizes::decode_sizes(row.block_sizes.as_str()),
        column,
    )
}

/// Which languages to play one title in.
#[derive(Debug, PartialEq, Eq)]
pub struct TitleTrackPrefs {
    pub audio_language: Option<String>,
    pub subtitle_language: Option<String>,
    pub subtitles: bool,
}

impl Clone for TitleTrackPrefs {
    fn clone(&self) -> (r: Self)
        ensures
            r == *self,
    {
        TitleTrackPrefs {
            audio_language: text::copy_option(&self.audio_language),
            subtitle_language: text::copy_option(&self.subtitle_language),
            subtitles: self.subtitles,
        }
    }
}

impl Default for TitleTrackPrefs {
    fn default() -> (r: Self)
        ensures
            r == (TitleTrackPrefs {
                audio_language: None,
                subtitle_language: None,
                subtitles: true,
            }),
    {
        TitleTrackPrefs { audio_language: None, subtitle_language: None, subtitles: true }
    }
}

// ---------------------------------------------------------------------------
// Files in order
// ---------------------------------------------------------------------------

/// Numbers in order, the missing one first.
pub open spec fn number_lt(a: Option<u32>, b: Option<u32>) -> bool {
    match (a, b) {
        (None, Some(_)) => true,
        (Some(a), Some(b)) => a < b,
        _ => false,
    }
}

impl Ranked for CatalogNode {
    /// By title, then season, then episode, then name.
    open spec fn before(self, other: Self) -> bool {
        ||| order::text_lt(self.parsed.title@, other.parsed.title@)
        ||| self.parsed.title@ == other.parsed.title@ && {
            ||| number_lt(self.parsed.season, other.parsed.season)
            ||| self.parsed.season == other.parsed.season && {
                ||| number_lt(self.parsed.episode, other.parsed.episode)
                ||| self.parsed.episode == other.parsed.episode && order::text_lt(
                    self.name@,
                    other.name@,
                )
            }
        }
    }

    fn goes_before(&self, other: &Self) -> (r: bool) {
        let a = text::to_chars(self.parsed.title.as_str());
        let b = text::to_chars(other.parsed.title.as_str());
        if order::chars_lt(&a, &b) {
            return true;
        }
        if self.parsed.title != other.parsed.title {
            return false;
        }
        if less(self.parsed.season, other.parsed.season) {
            return true;
        }
        if self.parsed.season != other.parsed.season {
            return false;
        }
        if less(self.parsed.episode, other.parsed.episode) {
            return true;
        }
        if self.parsed.episode != other.parsed.episode {
            return false;
        }
        order::chars_lt(
            &text::to_chars(self.name.as_str()),
            &text::to_chars(other.name.as_str()),
        )
    }
}

fn less(a: Option<u32>, b: Option<u32>) -> (r: bool)
    ensures
        r == number_lt(a, b),
{
    match (a, b) {
        (None, Some(_)) => true,
        (Some(a), Some(b)) => a < b,
        _ => false,
    }
}

/// What a node is found by.
pub open spec fn node_key(node: CatalogNode) -> Seq<Seq<char>> {
    seq![node.share_id@, node.link_id@]
}

/// No two nodes have the same share and link.
pub open spec fn nodes_apart(nodes: Seq<CatalogNode>) -> bool {
    forall|i: int, j: int|
        #![trigger nodes[i], nodes[j]]
        0 <= i < j < nodes.len() ==> node_key(nodes[i]) != node_key(nodes[j])
}

/// Whether no two nodes have the same share and link.
fn are_apart(nodes: &[CatalogNode]) -> (r: bool)
    ensures
        r == nodes_apart(nodes@),
{
    let mut i: usize = 0;
    while i < nodes.len()
        invariant
            i <= nodes@.len(),
            forall|a: int, b: int|
                #![trigger nodes@[a], nodes@[b]]
                0 <= a < b < nodes@.len() && a < i ==> node_key(nodes@[a]) != node_key(nodes@[b]),
        decreases nodes.len() - i,
    {
        let mut j: usize = i + 1;
        while j < nodes.len()
            invariant
                i < j <= nodes@.len(),
                forall|b: int|
                    i < b < j ==> node_key(nodes@[i as int]) != node_key(#[trigger] nodes@[b]),
            decreases nodes.len() - j,
        {
            let a = &nodes[i];
            let b = &nodes[j];
            proof {
                let x = node_key(*a);
                let y = node_key(*b);
                assert(x[0] == a.share_id@ && x[1] == a.link_id@);
                assert(y[0] == b.share_id@ && y[1] == b.link_id@);
                if a.share_id@ == b.share_id@ && a.link_id@ == b.link_id@ {
                    assert(x =~= y);
                }
            }
            if a.share_id == b.share_id && a.link_id == b.link_id {
                return false;
            }
            j += 1;
        }
        i += 1;
    }
    true
}

/// Whether a node is outside a share.
pub open spec fn lies_outside(share_id: Seq<char>) -> spec_fn(CatalogNode) -> bool {
    |node: CatalogNode| node.share_id@ != share_id
}

/// The nodes outside a share.
pub open spec fn outside(nodes: Seq<CatalogNode>, share_id: Seq<char>) -> Seq<CatalogNode> {
    nodes.filter(lies_outside(share_id))
}

/// Copies of the nodes outside a share.
fn nodes_outside(nodes: &[CatalogNode], share_id: &str) -> (r: Vec<CatalogNode>)
    ensures
        r@ == outside(nodes@, share_id@),
{
    let ghost keep = lies_outside(share_id@);
    let mut out: Vec<CatalogNode> = Vec::new();
    let mut i: usize = 0;
    let len: usize = nodes.len();
    proof {
        reveal(Seq::filter);
        assert(nodes@.take(0).filter(keep) =~= Seq::empty());
    }
    while i < len
        invariant
            i <= len,
            len == nodes@.len(),
            keep == lies_outside(share_id@),
            out@ == nodes@.take(i as int).filter(keep),
        decreases len - i,
    {
        reveal(Seq::filter);
        assert(nodes@.take(i + 1).drop_last() =~= nodes@.take(i as int));
        assert(nodes@.take(i + 1).last() == nodes@[i as int]);
        if !text::same_text(nodes[i].share_id.as_str(), share_id) {
            out.push(nodes[i].clone());
        }
        i += 1;
    }
    assert(nodes@.take(len as int) =~= nodes@);
    out
}

/// Whether some node is this file at this revision.
pub open spec fn has_revision(
    nodes: Seq<CatalogNode>,
    name: Seq<Seq<char>>,
    revision: Seq<char>,
) -> bool {
    exists|i: int|
        0 <= i < nodes.len() && (#[trigger] nodes[i]).share_id@ == name[0] && nodes[i].link_id@
            == name[1] && text::opt_chars(nodes[i].active_revision_id) == Some(revision)
}

/// Keeps what is kept of other shares, and what is still the current revision of
/// a file of this one.
#[derive(Debug)]
struct Current<'a> {
    share_id: &'a str,
    nodes: &'a Vec<CatalogNode>,
}

impl<'a> Keeps<FileKey, OfflineRow> for Current<'a> {
    closed spec fn stays(&self, name: Seq<Seq<char>>, value: OfflineRow) -> bool {
        name[0] != self.share_id@ || has_revision(self.nodes@, name, value.revision_id@)
    }

    fn keeps(&self, key: &FileKey, value: &OfflineRow) -> (r: bool) {
        assert(key.name()[0] == key.share_id@ && key.name()[1] == key.link_id@);
        if !text::same_text(key.share_id.as_str(), self.share_id) {
            return true;
        }
        let nodes = self.nodes;
        let mut i: usize = 0;
        while i < nodes.len()
            invariant
                i <= nodes@.len(),
                nodes == self.nodes,
                key.name()[0] == key.share_id@,
                key.name()[1] == key.link_id@,
                forall|k: int|
                    0 <= k < i ==> !((#[trigger] nodes@[k]).share_id@ == key.share_id@
                        && nodes@[k].link_id@ == key.link_id@ && text::opt_chars(
                        nodes@[k].active_revision_id,
                    ) == Some(value.revision_id@)),
            decreases nodes.len() - i,
        {
            let node = &nodes[i];
            if node.share_id == key.share_id && node.link_id == key.link_id {
                match &node.active_revision_id {
                    Some(revision) => {
                        if *revision == value.revision_id {
                            assert(has_revision(nodes@, key.name(), value.revision_id@));
                            return true;
                        }
                    },
                    None => {},
                }
            }
            i += 1;
        }
        false
    }
}

// ---------------------------------------------------------------------------
// The catalog
// ---------------------------------------------------------------------------

/// Rows by key, as a table holds them.
pub type Held<V> = Map<Seq<Seq<char>>, V>;

/// The catalog's tables.
///
/// Nothing here is irreplaceable but where playback left off: the rest is
/// rebuilt by crawling again. That is why watch positions are a table of their
/// own, untouched when the rows of a share are replaced.
#[derive(Debug)]
pub struct Catalog {
    nodes: Vec<CatalogNode>,
    watch: Table<FileKey, WatchState>,
    offline: Table<FileKey, OfflineRow>,
    prefs: Table<TitleKey, TitleTrackPrefs>,
    answers: Table<TitleKey, MetadataRow>,
    episodes: Vec<EpisodeRow>,
}

/// What the catalog holds.
#[verifier::ext_equal]
pub struct CatalogView {
    pub nodes: Seq<CatalogNode>,
    pub watch: Held<WatchState>,
    pub offline: Held<OfflineRow>,
    pub prefs: Held<TitleTrackPrefs>,
    pub answers: Held<MetadataRow>,
    pub episodes: Seq<EpisodeRow>,
}

impl View for Catalog {
    type V = CatalogView;

    closed spec fn view(&self) -> CatalogView {
        CatalogView {
            nodes: self.nodes@,
            watch: self.watch@,
            offline: self.offline@,
            prefs: self.prefs@,
            answers: self.answers@,
            episodes: self.episodes@,
        }
    }
}

/// The key of a file.
pub open spec fn file_key(share_id: Seq<char>, link_id: Seq<char>) -> Seq<Seq<char>> {
    seq![share_id, link_id]
}

fn key_for(share_id: &str, link_id: &str) -> (r: FileKey)
    ensures
        r.name() == file_key(share_id@, link_id@),
        r.share_id@ == share_id@,
        r.link_id@ == link_id@,
{
    FileKey { share_id: text::owned(share_id), link_id: text::owned(link_id) }
}

/// The key of a title.
pub open spec fn title_name(title_key: Seq<char>) -> Seq<Seq<char>> {
    seq![title_key]
}

fn title_for(title_key: &str) -> (r: TitleKey)
    ensures
        r.name() == title_name(title_key@),
        r.key@ == title_key@,
{
    TitleKey { key: text::owned(title_key) }
}

/// The error that a second node with the same share and link gives.
pub open spec fn nodes_clash() -> Seq<char> {
    "UNIQUE constraint failed: nodes.share_id, nodes.link_id"@
}

/// What is left of the rows about files once a share is gone.
pub open spec fn beyond<V>(rows: Held<V>, share_id: Seq<char>) -> Held<V> {
    Map::new(|k: Seq<Seq<char>>| rows.dom().contains(k) && k[0] != share_id, |k| rows[k])
}

/// What is left of the files kept once a share holds these nodes: those of other
/// shares, and those that are still the current revision.
pub open spec fn still_current(
    rows: Held<OfflineRow>,
    share_id: Seq<char>,
    nodes: Seq<CatalogNode>,
) -> Held<OfflineRow> {
    Map::new(
        |k: Seq<Seq<char>>|
            rows.dom().contains(k) && (k[0] != share_id || has_revision(
                nodes,
                k,
                rows[k].revision_id@,
            )),
        |k| rows[k],
    )
}

impl Catalog {
    /// One row for each key, in every table.
    pub closed spec fn wf(&self) -> bool {
        &&& nodes_apart(self.nodes@)
        &&& self.watch.wf()
        &&& self.offline.wf()
        &&& self.prefs.wf()
        &&& self.answers.wf()
    }

    /// An empty catalog.
    pub fn in_memory() -> (r: Self)
        ensures
            r.wf(),
            r@ == (CatalogView {
                nodes: Seq::empty(),
                watch: Map::empty(),
                offline: Map::empty(),
                prefs: Map::empty(),
                answers: Map::empty(),
                episodes: Seq::empty(),
            }),
    {
        let r = Catalog {
            nodes: Vec::new(),
            watch: Table::new(),
            offline: Table::new(),
            prefs: Table::new(),
            answers: Table::new(),
            episodes: Vec::new(),
        };
        assert(r@.nodes =~= Seq::empty());
        assert(r@.episodes =~= Seq::empty());
        r
    }

    /// Replace everything known about one share with `nodes`.
    ///
    /// Watch state is kept apart and untouched: a recrawl must not lose where
    /// you were. Where the nodes clash, the previous catalog stays whole.
    pub fn replace_share(&mut self, share_id: &str, nodes: &[CatalogNode]) -> (r: Result<
        (),
        Error,
    >)
        requires
            old(self).wf(),
        ensures
            final(self).wf(),
            if nodes_apart(outside(old(self)@.nodes, share_id@) + nodes@) {
                &&& r is Ok
                &&& final(self)@ == (CatalogView {
                    nodes: outside(old(self)@.nodes, share_id@) + nodes@,
                    offline: still_current(
                        old(self)@.offline,
                        share_id@,
                        outside(old(self)@.nodes, share_id@) + nodes@,
                    ),
                    ..old(self)@
                })
            } else {
                &&& r is Err && r->Err_0 is Db && r->Err_0->Db_0@ == nodes_clash()
                &&& final(self)@ == old(self)@
            },
    {
        let ghost was = self@;
        match self.replace_share_retaining_offline(share_id, nodes) {
            Ok(()) => {
                let keeper = Current { share_id, nodes: &self.nodes };
                let ghost held = self.offline@;
                self.offline.retain(&keeper);
                proof {
                    let want = still_current(held, share_id@, self.nodes@);
                    assert(self.offline@ =~= want);
                }
                Ok(())
            },
            Err(error) => Err(error),
        }
    }

    /// Replace the nodes of a share, and leave what is kept of it for a front
    /// end that has files to delete first.
    pub fn replace_share_retaining_offline(
        &mut self,
        share_id: &str,
        nodes: &[CatalogNode],
    ) -> (r: Result<(), Error>)
        requires
            old(self).wf(),
        ensures
            final(self).wf(),
            if nodes_apart(outside(old(self)@.nodes, share_id@) + nodes@) {
                &&& r is Ok
                &&& final(self)@ == (CatalogView {
                    nodes: outside(old(self)@.nodes, share_id@) + nodes@,
                    ..old(self)@
                })
            } else {
                &&& r is Err && r->Err_0 is Db && r->Err_0->Db_0@ == nodes_clash()
                &&& final(self)@ == old(self)@
            },
    {
        let mut all = nodes_outside(&self.nodes, share_id);
        let ghost kept = all@;
        let mut i: usize = 0;
        let len: usize = nodes.len();
        assert(kept + nodes@.take(0) =~= kept);
        while i < len
            invariant
                i <= len,
                len == nodes@.len(),
                all@ == kept + nodes@.take(i as int),
            decreases len - i,
        {
            all.push(nodes[i].clone());
            i += 1;
            assert(all@ =~= kept + nodes@.take(i as int));
        }
        assert(nodes@.take(len as int) =~= nodes@);
        if !are_apart(&all) {
            return Err(
                Error::Db(text::owned("UNIQUE constraint failed: nodes.share_id, nodes.link_id")),
            );
        }
        self.nodes = all;
        Ok(())
    }

    /// Drop everything a share contributed, watch positions included.
    ///
    /// Unlike a recrawl, this is the viewer saying they are done with the share.
    pub fn remove_share(&mut self, share_id: &str)
        requires
            old(self).wf(),
        ensures
            final(self).wf(),
            final(self)@ == (CatalogView {
                nodes: outside(old(self)@.nodes, share_id@),
                watch: beyond(old(self)@.watch, share_id@),
                offline: beyond(old(self)@.offline, share_id@),
                ..old(self)@
            }),
    {
        proof {
            lemma_outside_apart(self.nodes@, share_id@);
        }
        let keeper = OutsideShare { share_id: text::owned(share_id) };
        let ghost was = self@;
        self.nodes = nodes_outside(&self.nodes, share_id);
        self.watch.retain(&keeper);
        self.offline.retain(&keeper);
        assert(self.watch@ =~= beyond(was.watch, share_id@));
        assert(self.offline@ =~= beyond(was.offline, share_id@));
    }
}

proof fn lemma_outside_apart(nodes: Seq<CatalogNode>, share_id: Seq<char>)
    requires
        nodes_apart(nodes),
    ensures
        nodes_apart(outside(nodes, share_id)),
        forall|i: int|
            0 <= i < outside(nodes, share_id).len() ==> nodes.contains(
                #[trigger] outside(nodes, share_id)[i],
            ) && outside(nodes, share_id)[i].share_id@ != share_id,
    decreases nodes.len(),
{
    reveal(Seq::filter);
    if nodes.len() > 0 {
        let front = nodes.drop_last();
        assert(nodes_apart(front)) by {
            assert forall|i: int, j: int|
                #![trigger front[i], front[j]]
                0 <= i < j < front.len() implies node_key(front[i]) != node_key(front[j]) by {
                assert(front[i] == nodes[i] && front[j] == nodes[j]);
            }
        }
        lemma_outside_apart(front, share_id);
        let some = outside(front, share_id);
        let all = outside(nodes, share_id);
        assert forall|i: int| 0 <= i < all.len() implies nodes.contains(#[trigger] all[i])
            && all[i].share_id@ != share_id by {
            if i < some.len() {
                assert(all[i] == some[i]);
                let k = choose|k: int| 0 <= k < front.len() && front[k] == some[i];
                assert(nodes[k] == some[i]);
            } else {
                assert(nodes[nodes.len() - 1] == all[i]);
            }
        }
        assert forall|i: int, j: int|
            #![trigger all[i], all[j]]
            0 <= i < j < all.len() implies node_key(all[i]) != node_key(all[j]) by {
            assert(i < some.len());
            assert(all[i] == some[i]);
            if j < some.len() {
                assert(all[j] == some[j]);
            } else {
                assert(front.contains(some[i]));
                let k = choose|k: int| 0 <= k < front.len() && front[k] == some[i];
                assert(node_key(nodes[k]) != node_key(nodes[nodes.len() - 1]));
            }
        }
    }
}

/// Whether an entry of a list is what its row describes.
pub open spec fn reads_offline() -> spec_fn(Seq<Seq<char>>, OfflineRow, OfflineFile) -> bool {
    |k: Seq<Seq<char>>, row: OfflineRow, file: OfflineFile| offline_in(row) == Ok::<
        OfflineView,
        Seq<char>,
    >(file@)
}

/// The files of one share.
pub open spec fn of_share<V>(share_id: Seq<char>) -> spec_fn(Seq<Seq<char>>, V) -> bool {
    |k: Seq<Seq<char>>, row: V| k[0] == share_id
}

/// Everything.
pub open spec fn everything<V>() -> spec_fn(Seq<Seq<char>>, V) -> bool {
    |k: Seq<Seq<char>>, row: V| true
}

/// Whether an entry of a list is its row.
pub open spec fn reads_same<V>() -> spec_fn(Seq<Seq<char>>, V, V) -> bool {
    |k: Seq<Seq<char>>, row: V, value: V| row == value
}

/// The files of a share, or of all, folders excluded.
pub open spec fn shown_files(nodes: Seq<CatalogNode>, share_id: Option<Seq<char>>) -> Seq<
    CatalogNode,
> {
    nodes.filter(
        |node: CatalogNode|
            !node.is_folder && (share_id is None || share_id == Some(node.share_id@)),
    )
}

impl Catalog {
    fn ordered(&self, share_id: Option<&str>) -> (r: Vec<CatalogNode>)
        ensures
            r@ == order::sorted_by(
                shown_files(
                    self@.nodes,
                    match share_id {
                        Some(id) => Some(id@),
                        None => None,
                    },
                ),
                order::rank::<CatalogNode>(),
            ),
    {
        let ghost wanted = match share_id {
            Some(id) => Some(id@),
            None => None,
        };
        let ghost keep = |node: CatalogNode|
            !node.is_folder && (wanted is None || wanted == Some(node.share_id@));
        let nodes = &self.nodes;
        let mut out: Vec<CatalogNode> = Vec::new();
        let mut i: usize = 0;
        let len: usize = nodes.len();
        proof {
            reveal(Seq::filter);
            assert(nodes@.take(0).filter(keep) =~= Seq::empty());
        }
        while i < len
            invariant
                i <= len,
                len == nodes@.len(),
                wanted == match share_id {
                    Some(id) => Some(id@),
                    None => None,
                },
                keep == (|node: CatalogNode|
                    !node.is_folder && (wanted is None || wanted == Some(node.share_id@))),
                out@ == nodes@.take(i as int).filter(keep),
            decreases len - i,
        {
            reveal(Seq::filter);
            assert(nodes@.take(i + 1).drop_last() =~= nodes@.take(i as int));
            assert(nodes@.take(i + 1).last() == nodes@[i as int]);
            let node = &nodes[i];
            let here = match share_id {
                Some(id) => text::same_text(node.share_id.as_str(), id),
                None => true,
            };
            if !node.is_folder && here {
                out.push(node.clone());
            }
            i += 1;
        }
        assert(nodes@.take(len as int) =~= nodes@);
        order::sort_ranked(out)
    }

    /// Every file in a share, folders excluded, ordered for display.
    pub fn files(&self, share_id: &str) -> (r: Vec<CatalogNode>)
        ensures
            r@ == order::sorted_by(
                shown_files(self@.nodes, Some(share_id@)),
                order::rank::<CatalogNode>(),
            ),
    {
        self.ordered(Some(share_id))
    }

    /// Every file across every share, ordered for display.
    pub fn all_files(&self) -> (r: Vec<CatalogNode>)
        ensures
            r@ == order::sorted_by(
                shown_files(self@.nodes, None),
                order::rank::<CatalogNode>(),
            ),
    {
        self.ordered(None)
    }

    // ------------------------------------------------------------ files kept

    /// The local revision of a file.
    pub fn offline_file(&self, share_id: &str, link_id: &str) -> (r: Result<
        Option<OfflineFile>,
        Error,
    >)
        requires
            self.wf(),
        ensures
            ({
                let key = file_key(share_id@, link_id@);
                if !self@.offline.dom().contains(key) {
                    r == Ok::<Option<OfflineFile>, Error>(None)
                } else {
                    match offline_in(self@.offline[key]) {
                        Ok(file) => r is Ok && r->Ok_0 is Some && r->Ok_0->0@ == file,
                        Err(_) => r is Err && is_conversion_error(
                            r->Err_0,
                            1,
                            self@.offline[key],
                        ),
                    }
                }
            }),
            ({
                let key = file_key(share_id@, link_id@);
                forall|sizes: Seq<u64>|
                    self@.offline.dom().contains(key) && self@.offline[key].block_sizes@
                        == #[trigger] sizes::json_of(sizes) ==> r is Ok && r->Ok_0 is Some
                        && r->Ok_0->0.block_sizes@ == sizes
            }),
    {
        match self.offline.get(&key_for(share_id, link_id)) {
            None => Ok(None),
            Some(row) => match row_to_offline(row, 1) {
                Ok(file) => Ok(Some(file)),
                Err(error) => Err(error),
            },
        }
    }

    /// Record a completed download.
    pub fn set_offline_file(&mut self, share_id: &str, link_id: &str, file: &OfflineFile) -> (r:
        Result<(), Error>)
        requires
            old(self).wf(),
        ensures
            final(self).wf(),
            r is Ok,
            exists|row: OfflineRow|
                row.revision_id@ == file.revision_id@ && row.block_sizes@ == sizes::json_of(
                    file.block_sizes@,
                ) && #[trigger] with_offline(
                    old(self)@,
                    file_key(share_id@, link_id@),
                    row,
                ) == final(self)@,
    {
        let block_sizes = match sizes::encode_sizes(&file.block_sizes) {
            Ok(json) => json,
            Err(why) => {
                return Err(Error::Config(why));
            },
        };
        let ghost was = self@;
        let row = OfflineRow { revision_id: file.revision_id.clone(), block_sizes };
        self.offline.set(key_for(share_id, link_id), row);
        assert(self@ =~= with_offline(was, file_key(share_id@, link_id@), row));
        Ok(())
    }

    /// Every local revision.
    pub fn all_offline_files(&self) -> (r: Result<Vec<(FileKey, OfflineFile)>, Error>)
        requires
            self.wf(),
        ensures
            match r {
                Ok(list) => table::lists(self@.offline, list@, everything(), reads_offline()),
                Err(error) => exists|k: Seq<Seq<char>>| #[trigger]
                    self@.offline.dom().contains(k) && is_conversion_error(
                        error,
                        3,
                        self@.offline[k],
                    ),
            },
            (forall|k: Seq<Seq<char>>| #[trigger]
                self@.offline.dom().contains(k) ==> offline_in(self@.offline[k]) is Ok)
                ==> r is Ok,
    {
        let rows = self.offline.rows();
        let mut out: Vec<(FileKey, OfflineFile)> = Vec::new();
        let mut i: usize = 0;
        assert(rows@.take(0) =~= Seq::empty());
        while i < rows.len()
            invariant
                i <= rows@.len(),
                table::keyed_apart(rows@),
                table::held(rows@) == self@.offline,
                table::lists(table::held(rows@.take(i as int)), out@, everything(), reads_offline()),
            decreases rows.len() - i,
        {
            let (key, row) = &rows[i];
            let file = match row_to_offline(row, 3) {
                Ok(file) => file,
                Err(error) => {
                    proof {
                        table::lemma_held(rows@);
                        assert(rows@[i as int].0.name() == key.name());
                        assert(self@.offline.dom().contains(key.name()));
                    }
                    return Err(error);
                },
            };
            let ghost before = out@;
            out.push((key_for(key.share_id.as_str(), key.link_id.as_str()), file));
            proof {
                assert(out@.drop_last() =~= before);
                table::lemma_lists_step(
                    rows@,
                    i as int,
                    before,
                    out@,
                    everything(),
                    reads_offline(),
                );
            }
            i += 1;
        }
        assert(rows@.take(rows@.len() as int) =~= rows@);
        Ok(out)
    }

    /// The local revisions that belong to one share: callers that replace or
    /// remove it need the places before the rows are gone.
    pub fn offline_files_for_share(&self, share_id: &str) -> (r: Result<
        Vec<(FileKey, OfflineFile)>,
        Error,
    >)
        requires
            self.wf(),
        ensures
            match r {
                Ok(list) => table::lists(self@.offline, list@, of_share(share_id@), reads_offline()),
                Err(error) => exists|k: Seq<Seq<char>>| #[trigger]
                    self@.offline.dom().contains(k) && k[0] == share_id@ && is_conversion_error(
                        error,
                        2,
                        self@.offline[k],
                    ),
            },
            (forall|k: Seq<Seq<char>>| #[trigger]
                self@.offline.dom().contains(k) && k[0] == share_id@ ==> offline_in(
                    self@.offline[k],
                ) is Ok) ==> r is Ok,
    {
        let rows = self.offline.rows();
        let mut out: Vec<(FileKey, OfflineFile)> = Vec::new();
        let mut i: usize = 0;
        assert(rows@.take(0) =~= Seq::empty());
        while i < rows.len()
            invariant
                i <= rows@.len(),
                table::keyed_apart(rows@),
                table::held(rows@) == self@.offline,
                table::lists(table::held(rows@.take(i as int)), out@, of_share(share_id@), reads_offline()),
            decreases rows.len() - i,
        {
            let (key, row) = &rows[i];
            let ghost before = out@;
            assert(key.name()[0] == key.share_id@);
            if text::same_text(key.share_id.as_str(), share_id) {
                let file = match row_to_offline(row, 2) {
                    Ok(file) => file,
                    Err(error) => {
                        proof {
                            table::lemma_held(rows@);
                            assert(rows@[i as int].0.name() == key.name());
                            assert(self@.offline.dom().contains(key.name()));
                        }
                        return Err(error);
                    },
                };
                out.push((key_for(key.share_id.as_str(), key.link_id.as_str()), file));
                assert(out@.drop_last() =~= before);
            }
            proof {
                table::lemma_lists_step(
                    rows@,
                    i as int,
                    before,
                    out@,
                    of_share(share_id@),
                    reads_offline(),
                );
            }
            i += 1;
        }
        assert(rows@.take(rows@.len() as int) =~= rows@);
        Ok(out)
    }

    /// The local revisions of a share as their rows hold them, readable or not.
    pub fn offline_rows(&self, share_id: &str) -> (r: Vec<(FileKey, OfflineRow)>)
        requires
            self.wf(),
        ensures
            table::lists(self@.offline, r@, of_share(share_id@), reads_same()),
    {
        let rows = self.offline.rows();
        let mut out: Vec<(FileKey, OfflineRow)> = Vec::new();
        let mut i: usize = 0;
        assert(rows@.take(0) =~= Seq::empty());
        while i < rows.len()
            invariant
                i <= rows@.len(),
                table::keyed_apart(rows@),
                table::held(rows@) == self@.offline,
                table::lists(table::held(rows@.take(i as int)), out@, of_share(share_id@), reads_same()),
            decreases rows.len() - i,
        {
            let (key, row) = &rows[i];
            let ghost before = out@;
            assert(key.name()[0] == key.share_id@);
            if text::same_text(key.share_id.as_str(), share_id) {
                let same = OfflineRow {
                    revision_id: row.revision_id.clone(),
                    block_sizes: row.block_sizes.clone(),
                };
                out.push((key_for(key.share_id.as_str(), key.link_id.as_str()), same));
                assert(out@.drop_last() =~= before);
            }
            proof {
                table::lemma_lists_step(
                    rows@,
                    i as int,
                    before,
                    out@,
                    of_share(share_id@),
                    reads_same(),
                );
            }
            i += 1;
        }
        assert(rows@.take(rows@.len() as int) =~= rows@);
        out
    }

    /// Forget a local revision.
    pub fn remove_offline_file(&mut self, share_id: &str, link_id: &str)
        requires
            old(self).wf(),
        ensures
            final(self).wf(),
            final(self)@ == (CatalogView {
                offline: old(self)@.offline.remove(file_key(share_id@, link_id@)),
                ..old(self)@
            }),
    {
        let ghost was = self.offline@;
        self.offline.retain(&AllBut { key: key_for(share_id, link_id) });
        assert(self.offline@ =~= was.remove(file_key(share_id@, link_id@)));
    }

    // -------------------------------------------------------------- languages

    /// The languages chosen for a title.
    pub fn title_track_prefs(&self, title_key: &str) -> (r: Option<TitleTrackPrefs>)
        requires
            self.wf(),
        ensures
            r == (if self@.prefs.dom().contains(title_name(title_key@)) {
                Some(self@.prefs[title_name(title_key@)])
            } else {
                None
            }),
    {
        match self.prefs.get(&title_for(title_key)) {
            Some(prefs) => Some(prefs.clone()),
            None => None,
        }
    }

    pub fn set_title_track_prefs(&mut self, title_key: &str, prefs: &TitleTrackPrefs)
        requires
            old(self).wf(),
        ensures
            final(self).wf(),
            final(self)@ == (CatalogView {
                prefs: old(self)@.prefs.insert(title_name(title_key@), *prefs),
                ..old(self)@
            }),
    {
        self.prefs.set(title_for(title_key), prefs.clone());
    }

    pub fn all_title_track_prefs(&self) -> (r: Vec<(TitleKey, TitleTrackPrefs)>)
        requires
            self.wf(),
        ensures
            table::lists(self@.prefs, r@, everything(), reads_same()),
    {
        let rows = self.prefs.rows();
        let mut out: Vec<(TitleKey, TitleTrackPrefs)> = Vec::new();
        let mut i: usize = 0;
        assert(rows@.take(0) =~= Seq::empty());
        while i < rows.len()
            invariant
                i <= rows@.len(),
                table::keyed_apart(rows@),
                table::held(rows@) == self@.prefs,
                table::lists(table::held(rows@.take(i as int)), out@, everything(), reads_same()),
            decreases rows.len() - i,
        {
            let (key, prefs) = &rows[i];
            let ghost before = out@;
            out.push((title_for(key.key.as_str()), prefs.clone()));
            proof {
                assert(out@.drop_last() =~= before);
                table::lemma_lists_step(rows@, i as int, before, out@, everything(), reads_same());
            }
            i += 1;
        }
        assert(rows@.take(rows@.len() as int) =~= rows@);
        out
    }

    // ---------------------------------------------------------- watch positions

    /// Every watch position there is.
    pub fn all_watch_states(&self) -> (r: Vec<WatchEntry>)
        requires
            self.wf(),
        ensures
            forall|share_id: Seq<char>, link_id: Seq<char>|
                #[trigger] watch_of(r@, share_id, link_id) == (if self@.watch.dom().contains(
                    file_key(share_id, link_id),
                ) {
                    Some(self@.watch[file_key(share_id, link_id)])
                } else {
                    None
                }),
    {
        let rows = self.watch.rows();
        let mut out: Vec<WatchEntry> = Vec::new();
        let mut i: usize = 0;
        assert(rows@.take(0) =~= Seq::empty());
        while i < rows.len()
            invariant
                i <= rows@.len(),
                table::held(rows@) == self@.watch,
                forall|share_id: Seq<char>, link_id: Seq<char>|
                    #[trigger] watch_of(out@, share_id, link_id) == watched_in(
                        table::held(rows@.take(i as int)),
                        share_id,
                        link_id,
                    ),
            decreases rows.len() - i,
        {
            let (key, state) = &rows[i];
            let ghost before = out@;
            out.push(
                WatchEntry {
                    share_id: key.share_id.clone(),
                    link_id: key.link_id.clone(),
                    state: *state,
                },
            );
            proof {
                assert(out@.drop_last() =~= before);
                assert(rows@.take(i + 1).drop_last() =~= rows@.take(i as int));
                assert(rows@.take(i + 1).last() == rows@[i as int]);
                assert forall|share_id: Seq<char>, link_id: Seq<char>|
                    #[trigger] watch_of(out@, share_id, link_id) == watched_in(
                        table::held(rows@.take(i + 1)),
                        share_id,
                        link_id,
                    ) by {
                    let a = key.name();
                    let b = file_key(share_id, link_id);
                    assert(a[0] == key.share_id@ && a[1] == key.link_id@);
                    assert(b[0] == share_id && b[1] == link_id);
                    if key.share_id@ == share_id && key.link_id@ == link_id {
                        assert(a =~= b);
                    } else {
                        assert(a != b);
                        assert(watch_of(out@, share_id, link_id) == watch_of(
                            before,
                            share_id,
                            link_id,
                        ));
                        let m = table::held(rows@.take(i as int));
                        assert(table::held(rows@.take(i + 1)) == m.insert(a, *state));
                        assert(watched_in(m.insert(a, *state), share_id, link_id) == watched_in(
                            m,
                            share_id,
                            link_id,
                        ));
                    }
                }
            }
            i += 1;
        }
        assert(rows@.take(rows@.len() as int) =~= rows@);
        out
    }

    /// Record where playback is.
    pub fn set_watch_state(&mut self, share_id: &str, link_id: &str, state: &WatchState)
        requires
            old(self).wf(),
        ensures
            final(self).wf(),
            final(self)@ == (CatalogView {
                watch: old(self)@.watch.insert(file_key(share_id@, link_id@), *state),
                ..old(self)@
            }),
    {
        self.watch.set(key_for(share_id, link_id), *state);
    }

    /// Where playback left off, if it ever started.
    pub fn watch_state(&self, share_id: &str, link_id: &str) -> (r: Option<WatchState>)
        requires
            self.wf(),
        ensures
            r == watched_in(self@.watch, share_id@, link_id@),
    {
        match self.watch.get(&key_for(share_id, link_id)) {
            Some(state) => Some(*state),
            None => None,
        }
    }
}

/// Where playback of a file left off.
pub open spec fn watched_in(
    watch: Held<WatchState>,
    share_id: Seq<char>,
    link_id: Seq<char>,
) -> Option<WatchState> {
    if watch.dom().contains(file_key(share_id, link_id)) {
        Some(watch[file_key(share_id, link_id)])
    } else {
        None
    }
}

/// A catalog with one more file kept.
pub open spec fn with_offline(
    catalog: CatalogView,
    key: Seq<Seq<char>>,
    row: OfflineRow,
) -> CatalogView {
    CatalogView { offline: catalog.offline.insert(key, row), ..catalog }
}

// ---------------------------------------------------------------------------
// What providers said
// ---------------------------------------------------------------------------

/// The answer that a table holds for a title.
pub open spec fn answer_in(answers: Held<MetadataRow>, title_key: Seq<char>) -> Option<
    metadata::MetadataRecordView,
> {
    if answers.dom().contains(title_name(title_key)) {
        metadata_rows::row_answer(title_key, answers[title_name(title_key)])
    } else {
        None
    }
}

/// The rows whose provider this build knows.
pub open spec fn known_answers() -> spec_fn(Seq<Seq<char>>, MetadataRow) -> bool {
    |k: Seq<Seq<char>>, row: MetadataRow| metadata_rows::row_answer(k[0], row) is Some
}

/// Whether an entry of a list is the answer that its row holds.
pub open spec fn reads_answer() -> spec_fn(Seq<Seq<char>>, MetadataRow, MetadataRecord) -> bool {
    |k: Seq<Seq<char>>, row: MetadataRow, record: MetadataRecord|
        metadata_rows::row_answer(k[0], row) == Some(record@)
}

/// A catalog with one more answer.
pub open spec fn with_answer(
    catalog: CatalogView,
    title_key: Seq<char>,
    row: MetadataRow,
) -> CatalogView {
    CatalogView { answers: catalog.answers.insert(title_name(title_key), row), ..catalog }
}

/// The rows of other titles.
pub open spec fn of_others(rows: Seq<EpisodeRow>, title_key: Seq<char>) -> Seq<EpisodeRow> {
    rows.filter(|row: EpisodeRow| row.title_key@ != title_key)
}

/// No two episodes have the same season and number.
pub open spec fn episodes_apart(episodes: Seq<EpisodeMetadata>) -> bool {
    forall|i: int, j: int|
        #![trigger episodes[i], episodes[j]]
        0 <= i < j < episodes.len() ==> metadata::episode_key(episodes[i])
            != metadata::episode_key(episodes[j])
}

/// The error that a second episode with the same season and number gives.
pub open spec fn episodes_clash() -> Seq<char> {
    "UNIQUE constraint failed: episode_metadata.title_key, episode_metadata.season, episode_metadata.number"@
}

/// Whether some rows are what a list of episodes is stored as.
pub open spec fn stored_as(
    rows: Seq<EpisodeRow>,
    title_key: Seq<char>,
    provider: ProviderId,
    fetched_at: i64,
    episodes: Seq<EpisodeMetadata>,
) -> bool {
    &&& rows.len() == episodes.len()
    &&& forall|i: int|
        0 <= i < rows.len() ==> metadata_rows::stores_episode(
            #[trigger] rows[i],
            title_key,
            provider,
            fetched_at,
            episodes[i],
        )
}

/// What the rows say of a title's episodes, in their order.
pub open spec fn episodes_of(rows: Seq<EpisodeRow>, title_key: Seq<char>) -> Seq<EpisodeMetadata>
    decreases rows.len(),
{
    if rows.len() == 0 {
        Seq::empty()
    } else if rows.last().title_key@ == title_key {
        episodes_of(rows.drop_last(), title_key).push(metadata_rows::row_episode(rows.last()))
    } else {
        episodes_of(rows.drop_last(), title_key)
    }
}

/// Whether any row is about a title.
pub open spec fn mentions(rows: Seq<EpisodeRow>, title_key: Seq<char>) -> bool {
    exists|i: int| 0 <= i < rows.len() && (#[trigger] rows[i]).title_key@ == title_key
}

/// The row of a title that was fetched longest ago, the first of them where
/// several were.
pub open spec fn oldest(rows: Seq<EpisodeRow>, title_key: Seq<char>) -> Option<EpisodeRow>
    decreases rows.len(),
{
    if rows.len() == 0 {
        None
    } else {
        let front = oldest(rows.drop_last(), title_key);
        let last = rows.last();
        if last.title_key@ != title_key {
            front
        } else {
            match front {
                Some(row) => if last.fetched_at < row.fetched_at {
                    Some(last)
                } else {
                    front
                },
                None => Some(last),
            }
        }
    }
}

/// The age of a title's episode list: who gave it, and when at the earliest.
pub open spec fn age_of(rows: Seq<EpisodeRow>, title_key: Seq<char>) -> Option<(ProviderId, i64)> {
    match oldest(rows, title_key) {
        Some(row) => match metadata::provider_named(row.provider@) {
            Some(provider) => Some((provider, row.fetched_at)),
            None => None,
        },
        None => None,
    }
}

/// Whether a list has one entry for each title that the rows are about.
pub open spec fn one_for_each<V>(list: Seq<(TitleKey, V)>, rows: Seq<EpisodeRow>) -> bool {
    &&& forall|i: int, j: int|
        #![trigger list[i], list[j]]
        0 <= i < j < list.len() ==> list[i].0.key@ != list[j].0.key@
    &&& forall|i: int| 0 <= i < list.len() ==> mentions(rows, (#[trigger] list[i]).0.key@)
    &&& forall|k: int|
        0 <= k < rows.len() ==> titled(list, (#[trigger] rows[k]).title_key@)
}

/// Whether a list has an entry of this title.
pub open spec fn titled<V>(list: Seq<(TitleKey, V)>, title_key: Seq<char>) -> bool {
    exists|i: int| 0 <= i < list.len() && (#[trigger] list[i]).0.key@ == title_key
}

/// Whether no two episodes have the same season and number.
fn are_episodes_apart(episodes: &[EpisodeMetadata]) -> (r: bool)
    ensures
        r == episodes_apart(episodes@),
{
    let mut i: usize = 0;
    while i < episodes.len()
        invariant
            i <= episodes@.len(),
            forall|a: int, b: int|
                #![trigger episodes@[a], episodes@[b]]
                0 <= a < b < episodes@.len() && a < i ==> metadata::episode_key(episodes@[a])
                    != metadata::episode_key(episodes@[b]),
        decreases episodes.len() - i,
    {
        let mut j: usize = i + 1;
        while j < episodes.len()
            invariant
                i < j <= episodes@.len(),
                forall|b: int|
                    i < b < j ==> metadata::episode_key(episodes@[i as int])
                        != metadata::episode_key(#[trigger] episodes@[b]),
            decreases episodes.len() - j,
        {
            if episodes[i].season == episodes[j].season && episodes[i].number
                == episodes[j].number {
                assert(metadata::episode_key(episodes@[i as int]) == metadata::episode_key(
                    episodes@[j as int],
                ));
                return false;
            }
            j += 1;
        }
        i += 1;
    }
    true
}

/// Where a title stands in a list.
fn find_title<V>(list: &Vec<(TitleKey, V)>, title_key: &str) -> (r: Option<usize>)
    ensures
        match r {
            Some(i) => i < list@.len() && list@[i as int].0.key@ == title_key@,
            None => !titled(list@, title_key@),
        },
{
    let mut i: usize = 0;
    while i < list.len()
        invariant
            i <= list@.len(),
            forall|k: int| 0 <= k < i ==> (#[trigger] list@[k]).0.key@ != title_key@,
        decreases list.len() - i,
    {
        if text::same_text(list[i].0.key.as_str(), title_key) {
            return Some(i);
        }
        i += 1;
    }
    None
}

impl Catalog {
    /// Every stored answer whose provider this build knows. A title whose is not
    /// simply looks unmatched, and is asked about again.
    pub fn all_metadata(&self) -> (r: Vec<(TitleKey, MetadataRecord)>)
        requires
            self.wf(),
        ensures
            table::lists(self@.answers, r@, known_answers(), reads_answer()),
    {
        let rows = self.answers.rows();
        let mut out: Vec<(TitleKey, MetadataRecord)> = Vec::new();
        let mut i: usize = 0;
        assert(rows@.take(0) =~= Seq::empty());
        while i < rows.len()
            invariant
                i <= rows@.len(),
                table::keyed_apart(rows@),
                table::held(rows@) == self@.answers,
                table::lists(
                    table::held(rows@.take(i as int)),
                    out@,
                    known_answers(),
                    reads_answer(),
                ),
            decreases rows.len() - i,
        {
            let (key, row) = &rows[i];
            let ghost before = out@;
            assert(key.name()[0] == key.key@);
            match metadata_rows::row_to_metadata(key.key.as_str(), row) {
                Some(record) => {
                    out.push((title_for(key.key.as_str()), record));
                    assert(out@.drop_last() =~= before);
                },
                None => {},
            }
            proof {
                table::lemma_lists_step(
                    rows@,
                    i as int,
                    before,
                    out@,
                    known_answers(),
                    reads_answer(),
                );
            }
            i += 1;
        }
        assert(rows@.take(rows@.len() as int) =~= rows@);
        out
    }

    /// One title's stored answer.
    pub fn metadata(&self, title_key: &str) -> (r: Option<MetadataRecord>)
        requires
            self.wf(),
        ensures
            metadata_rows::answer_view(r) == answer_in(self@.answers, title_key@),
    {
        match self.answers.get(&title_for(title_key)) {
            Some(row) => metadata_rows::row_to_metadata(title_key, row),
            None => None,
        }
    }

    /// Store what a provider said, replacing whatever was there. A miss is
    /// stored too.
    pub fn set_metadata(&mut self, record: &MetadataRecord)
        requires
            old(self).wf(),
        ensures
            final(self).wf(),
            exists|row: MetadataRow|
                metadata_rows::stores(row, record@) && #[trigger] with_answer(
                    old(self)@,
                    record.title_key@,
                    row,
                ) == final(self)@,
    {
        let ghost was = self@;
        let row = metadata_rows::metadata_to_row(record);
        self.answers.set(title_for(record.title_key.as_str()), row);
        assert(self@ =~= with_answer(was, record.title_key@, row));
    }

    /// Forget one title's answer entirely, episodes included.
    ///
    /// Different from storing a miss: a miss is trusted for a while, where this
    /// leaves no row at all and the next match run treats the title as one it
    /// has never seen.
    pub fn forget_metadata(&mut self, title_key: &str)
        requires
            old(self).wf(),
        ensures
            final(self).wf(),
            final(self)@ == (CatalogView {
                answers: old(self)@.answers.remove(title_name(title_key@)),
                episodes: of_others(old(self)@.episodes, title_key@),
                ..old(self)@
            }),
    {
        let ghost was = self@;
        self.answers.retain(&AllBut { key: title_for(title_key) });
        assert(self.answers@ =~= was.answers.remove(title_name(title_key@)));
        self.drop_episodes(title_key);
    }

    /// Forget every stored answer.
    pub fn clear_metadata(&mut self)
        requires
            old(self).wf(),
        ensures
            final(self).wf(),
            final(self)@ == (CatalogView {
                answers: Map::empty(),
                episodes: Seq::empty(),
                ..old(self)@
            }),
    {
        self.answers = Table::new();
        self.episodes = Vec::new();
        assert(self@.episodes =~= Seq::empty());
    }

    fn drop_episodes(&mut self, title_key: &str)
        requires
            old(self).wf(),
        ensures
            final(self).wf(),
            final(self)@ == (CatalogView {
                episodes: of_others(old(self)@.episodes, title_key@),
                ..old(self)@
            }),
    {
        let ghost before = self.episodes@;
        let ghost keep = |row: EpisodeRow| row.title_key@ != title_key@;
        let mut rows: Vec<EpisodeRow> = Vec::new();
        std::mem::swap(&mut rows, &mut self.episodes);
        let mut kept: Vec<EpisodeRow> = Vec::new();
        proof {
            reveal(Seq::filter);
            assert(before.take(0).filter(keep) =~= Seq::empty());
        }
        for row in iter: rows
            invariant
                iter.seq() == before,
                keep == (|row: EpisodeRow| row.title_key@ != title_key@),
                kept@ == before.take(iter.index() as int).filter(keep),
        {
            let ghost n = iter.index() as int;
            proof {
                reveal(Seq::filter);
                assert(before.take(n + 1).drop_last() =~= before.take(n));
                assert(before.take(n + 1).last() == row);
            }
            if !text::same_text(row.title_key.as_str(), title_key) {
                kept.push(row);
            }
        }
        assert(before.take(before.len() as int) =~= before);
        self.episodes = kept;
    }

    /// Replace everything stored about one title's episodes.
    ///
    /// A replace rather than a merge: an episode that the provider has dropped
    /// leaves nothing behind. Where two episodes clash, nothing changes.
    pub fn set_episode_metadata(
        &mut self,
        title_key: &str,
        provider: ProviderId,
        fetched_at: i64,
        episodes: &[EpisodeMetadata],
    ) -> (r: Result<(), Error>)
        requires
            old(self).wf(),
        ensures
            final(self).wf(),
            if episodes_apart(episodes@) {
                r is Ok && exists|rows: Seq<EpisodeRow>|
                    #[trigger] stored_as(rows, title_key@, provider, fetched_at, episodes@)
                        && final(self)@ == (CatalogView {
                        episodes: of_others(old(self)@.episodes, title_key@) + rows,
                        ..old(self)@
                    })
            } else {
                &&& r is Err && r->Err_0 is Db && r->Err_0->Db_0@ == episodes_clash()
                &&& final(self)@ == old(self)@
            },
    {
        if !are_episodes_apart(episodes) {
            return Err(
                Error::Db(
                    text::owned(
                        "UNIQUE constraint failed: episode_metadata.title_key, episode_metadata.season, episode_metadata.number",
                    ),
                ),
            );
        }
        self.drop_episodes(title_key);
        let ghost was = self@;
        let ghost mut added: Seq<EpisodeRow> = Seq::empty();
        let mut i: usize = 0;
        assert(was.episodes + added =~= was.episodes);
        while i < episodes.len()
            invariant
                i <= episodes@.len(),
                self.wf(),
                self@ == (CatalogView { episodes: was.episodes + added, ..was }),
                stored_as(added, title_key@, provider, fetched_at, episodes@.take(i as int)),
            decreases episodes.len() - i,
        {
            let row = metadata_rows::episode_to_row(title_key, provider, fetched_at, &episodes[i]);
            let ghost before = added;
            proof {
                added = added.push(row);
                assert(was.episodes + added =~= (was.episodes + before).push(row));
            }
            self.episodes.push(row);
            i += 1;
            proof {
                let now = episodes@.take(i as int);
                assert forall|k: int| 0 <= k < added.len() implies metadata_rows::stores_episode(
                    #[trigger] added[k],
                    title_key@,
                    provider,
                    fetched_at,
                    now[k],
                ) by {
                    if k < before.len() {
                        assert(added[k] == before[k]);
                        assert(now[k] == episodes@.take(i - 1)[k]);
                    }
                }
                assert(self@ =~= (CatalogView { episodes: was.episodes + added, ..was }));
            }
        }
        assert(episodes@.take(episodes@.len() as int) =~= episodes@);
        assert(stored_as(added, title_key@, provider, fetched_at, episodes@));
        Ok(())
    }

    /// The titles that have an episode list stored, each once.
    fn titles(&self) -> (r: Vec<(TitleKey, ())>)
        ensures
            one_for_each(r@, self@.episodes),
    {
        let rows = &self.episodes;
        let mut out: Vec<(TitleKey, ())> = Vec::new();
        let mut i: usize = 0;
        while i < rows.len()
            invariant
                i <= rows@.len(),
                one_for_each(out@, rows@.take(i as int)),
            decreases rows.len() - i,
        {
            let key = &rows[i].title_key;
            let ghost before = out@;
            if find_title(&out, key.as_str()).is_none() {
                out.push((title_for(key.as_str()), ()));
                assert(out@.drop_last() =~= before);
            }
            proof {
                lemma_one_more_row(before, out@, rows@, i as int);
            }
            i += 1;
        }
        assert(rows@.take(rows@.len() as int) =~= rows@);
        out
    }

    /// What is stored about a title's episodes.
    fn episodes_for(&self, title_key: &str) -> (r: Vec<EpisodeMetadata>)
        ensures
            r@ == episodes_of(self@.episodes, title_key@),
    {
        let rows = &self.episodes;
        let mut out: Vec<EpisodeMetadata> = Vec::new();
        let mut i: usize = 0;
        while i < rows.len()
            invariant
                i <= rows@.len(),
                out@ == episodes_of(rows@.take(i as int), title_key@),
            decreases rows.len() - i,
        {
            assert(rows@.take(i + 1).drop_last() =~= rows@.take(i as int));
            assert(rows@.take(i + 1).last() == rows@[i as int]);
            if text::same_text(rows[i].title_key.as_str(), title_key) {
                out.push(metadata_rows::row_to_episode(&rows[i]));
            }
            i += 1;
        }
        assert(rows@.take(rows@.len() as int) =~= rows@);
        out
    }

    /// Every episode answer there is, by title.
    pub fn all_episode_metadata(&self) -> (r: Vec<(TitleKey, EpisodeGuide)>)
        ensures
            one_for_each(r@, self@.episodes),
            forall|i: int|
                0 <= i < r@.len() ==> (#[trigger] r@[i]).1@ == metadata::guide_of(
                    episodes_of(self@.episodes, r@[i].0.key@),
                ),
    {
        let titles = self.titles();
        let mut out: Vec<(TitleKey, EpisodeGuide)> = Vec::new();
        let ghost all = titles@;
        for title in iter: titles
            invariant
                iter.seq() == all,
                out@.len() == iter.index(),
                forall|k: int|
                    0 <= k < iter.index() ==> (#[trigger] out@[k]).0 == all[k].0 && out@[k].1@
                        == metadata::guide_of(episodes_of(self@.episodes, all[k].0.key@)),
        {
            let episodes = self.episodes_for(title.0.key.as_str());
            out.push((title.0, EpisodeGuide::new(episodes)));
        }
        proof {
            lemma_same_titles(all, out@, self@.episodes);
        }
        out
    }

    /// Which titles have an episode list stored, and how fresh: enough to decide
    /// whether to ask again. A list from a provider that this build does not know
    /// is left out.
    pub fn episode_metadata_ages(&self) -> (r: Vec<(TitleKey, (ProviderId, i64))>)
        ensures
            forall|i: int, j: int|
                #![trigger r@[i], r@[j]]
                0 <= i < j < r@.len() ==> r@[i].0.key@ != r@[j].0.key@,
            forall|i: int|
                0 <= i < r@.len() ==> age_of(self@.episodes, (#[trigger] r@[i]).0.key@) == Some(
                    r@[i].1,
                ),
            forall|k: int|
                0 <= k < self@.episodes.len() && age_of(
                    self@.episodes,
                    (#[trigger] self@.episodes[k]).title_key@,
                ) is Some ==> titled(r@, self@.episodes[k].title_key@),
    {
        let titles = self.titles();
        let mut out: Vec<(TitleKey, (ProviderId, i64))> = Vec::new();
        let ghost all = titles@;
        let ghost mut from: Seq<int> = Seq::empty();
        for title in iter: titles
            invariant
                iter.seq() == all,
                one_for_each(all, self@.episodes),
                out@.len() == from.len(),
                forall|k: int|
                    0 <= k < from.len() ==> 0 <= #[trigger] from[k] < iter.index() && out@[k].0
                        == all[from[k]].0 && age_of(self@.episodes, out@[k].0.key@) == Some(
                        out@[k].1,
                    ),
                forall|i: int, j: int|
                    0 <= i < j < from.len() ==> #[trigger] from[i] < #[trigger] from[j],
                forall|k: int|
                    0 <= k < iter.index() && age_of(self@.episodes, (#[trigger] all[k]).0.key@)
                        is Some ==> titled(out@, all[k].0.key@),
        {
            let ghost before = out@;
            match self.age(title.0.key.as_str()) {
                Some(age) => {
                    proof {
                        from = from.push(iter.index() as int);
                    }
                    out.push((title.0, age));
                    proof {
                        assert(out@[out@.len() - 1].0 == title.0);
                        assert forall|k: int|
                            0 <= k < iter.index() && age_of(
                                self@.episodes,
                                (#[trigger] all[k]).0.key@,
                            ) is Some implies titled(out@, all[k].0.key@) by {
                            assert(titled(before, all[k].0.key@));
                            let i = choose|i: int|
                                0 <= i < before.len() && (#[trigger] before[i]).0.key@
                                    == all[k].0.key@;
                            assert(out@[i].0.key@ == all[k].0.key@);
                        }
                    }
                },
                None => {},
            }
        }
        proof {
            assert forall|i: int, j: int|
                #![trigger out@[i], out@[j]]
                0 <= i < j < out@.len() implies out@[i].0.key@ != out@[j].0.key@ by {
                assert(from[i] < from[j]);
                assert(all[from[i]].0.key@ != all[from[j]].0.key@);
            }
            assert forall|i: int| 0 <= i < out@.len() implies age_of(
                self@.episodes,
                (#[trigger] out@[i]).0.key@,
            ) == Some(out@[i].1) by {
                assert(0 <= from[i]);
            }
            assert forall|k: int|
                0 <= k < self@.episodes.len() && age_of(
                    self@.episodes,
                    (#[trigger] self@.episodes[k]).title_key@,
                ) is Some implies titled(out@, self@.episodes[k].title_key@) by {
                assert(titled(all, self@.episodes[k].title_key@));
                let i = choose|i: int|
                    0 <= i < all.len() && (#[trigger] all[i]).0.key@
                        == self@.episodes[k].title_key@;
                assert(titled(out@, all[i].0.key@));
            }
        }
        out
    }

    fn age(&self, title_key: &str) -> (r: Option<(ProviderId, i64)>)
        ensures
            r == age_of(self@.episodes, title_key@),
    {
        let rows = &self.episodes;
        let mut found: Option<usize> = None;
        let mut i: usize = 0;
        while i < rows.len()
            invariant
                i <= rows@.len(),
                match found {
                    Some(at) => at < i && oldest(rows@.take(i as int), title_key@) == Some(
                        rows@[at as int],
                    ),
                    None => oldest(rows@.take(i as int), title_key@) is None,
                },
            decreases rows.len() - i,
        {
            assert(rows@.take(i + 1).drop_last() =~= rows@.take(i as int));
            assert(rows@.take(i + 1).last() == rows@[i as int]);
            if text::same_text(rows[i].title_key.as_str(), title_key) {
                match found {
                    Some(at) => {
                        if rows[i].fetched_at < rows[at].fetched_at {
                            found = Some(i);
                        }
                    },
                    None => {
                        found = Some(i);
                    },
                }
            }
            i += 1;
        }
        assert(rows@.take(rows@.len() as int) =~= rows@);
        match found {
            Some(at) => match ProviderId::parse(rows[at].provider.as_str()) {
                Some(provider) => Some((provider, rows[at].fetched_at)),
                None => None,
            },
            None => None,
        }
    }

    /// The catalog that these rows make up. Where two rows of a table have the
    /// same key the later one counts, and nodes that clash are refused.
    pub fn restore(
        nodes: Vec<CatalogNode>,
        watch: Vec<(FileKey, WatchState)>,
        offline: Vec<(FileKey, OfflineRow)>,
        prefs: Vec<(TitleKey, TitleTrackPrefs)>,
        answers: Vec<(TitleKey, MetadataRow)>,
        episodes: Vec<EpisodeRow>,
    ) -> (r: Result<Self, Error>)
        ensures
            if nodes_apart(nodes@) {
                &&& r is Ok
                &&& r->Ok_0.wf()
                &&& r->Ok_0@ == (CatalogView {
                    nodes: nodes@,
                    watch: table::held(watch@),
                    offline: table::held(offline@),
                    prefs: table::held(prefs@),
                    answers: table::held(answers@),
                    episodes: episodes@,
                })
            } else {
                r is Err && r->Err_0 is Db && r->Err_0->Db_0@ == nodes_clash()
            },
    {
        if !are_apart(&nodes) {
            return Err(
                Error::Db(text::owned("UNIQUE constraint failed: nodes.share_id, nodes.link_id")),
            );
        }
        Ok(
            Catalog {
                nodes,
                watch: Table::from_rows(watch),
                offline: Table::from_rows(offline),
                prefs: Table::from_rows(prefs),
                answers: Table::from_rows(answers),
                episodes,
            },
        )
    }
}

proof fn lemma_one_more_row<V>(
    before: Seq<(TitleKey, V)>,
    after: Seq<(TitleKey, V)>,
    rows: Seq<EpisodeRow>,
    n: int,
)
    requires
        0 <= n < rows.len(),
        one_for_each(before, rows.take(n)),
        if titled(before, rows[n].title_key@) {
            after == before
        } else {
            after.len() == before.len() + 1 && after.drop_last() == before && after.last().0.key@
                == rows[n].title_key@
        },
    ensures
        one_for_each(after, rows.take(n + 1)),
{
    let some = rows.take(n);
    let all = rows.take(n + 1);
    let name = rows[n].title_key@;
    assert forall|i: int| 0 <= i < before.len() implies after[i] == #[trigger] before[i] by {
        if !titled(before, name) {
            assert(after.drop_last()[i] == after[i]);
        }
    }
    assert forall|i: int, j: int|
        #![trigger after[i], after[j]]
        0 <= i < j < after.len() implies after[i].0.key@ != after[j].0.key@ by {
        assert(after[i] == before[i]);
        if j < before.len() {
            assert(after[j] == before[j]);
        }
    }
    assert forall|i: int| 0 <= i < after.len() implies mentions(
        all,
        (#[trigger] after[i]).0.key@,
    ) by {
        if i < before.len() {
            assert(mentions(some, before[i].0.key@));
            let k = choose|k: int|
                0 <= k < some.len() && (#[trigger] some[k]).title_key@ == before[i].0.key@;
            assert(all[k].title_key@ == before[i].0.key@);
        } else {
            assert(all[n].title_key@ == name);
        }
    }
    assert forall|k: int| 0 <= k < all.len() implies titled(
        after,
        (#[trigger] all[k]).title_key@,
    ) by {
        if k < n {
            assert(titled(before, some[k].title_key@));
            let i = choose|i: int|
                0 <= i < before.len() && (#[trigger] before[i]).0.key@ == some[k].title_key@;
            assert(after[i].0.key@ == all[k].title_key@);
        } else if titled(before, name) {
            let i = choose|i: int| 0 <= i < before.len() && (#[trigger] before[i]).0.key@ == name;
            assert(after[i].0.key@ == name);
        } else {
            assert(after[after.len() - 1].0.key@ == name);
        }
    }
}

proof fn lemma_same_titles<V, W>(
    a: Seq<(TitleKey, V)>,
    b: Seq<(TitleKey, W)>,
    rows: Seq<EpisodeRow>,
)
    requires
        one_for_each(a, rows),
        a.len() == b.len(),
        forall|k: int| 0 <= k < a.len() ==> (#[trigger] b[k]).0 == a[k].0,
    ensures
        one_for_each(b, rows),
{
    assert forall|i: int, j: int|
        #![trigger b[i], b[j]]
        0 <= i < j < b.len() implies b[i].0.key@ != b[j].0.key@ by {
        assert(a[i].0.key@ != a[j].0.key@);
    }
    assert forall|i: int| 0 <= i < b.len() implies mentions(rows, (#[trigger] b[i]).0.key@) by {
        assert(mentions(rows, a[i].0.key@));
    }
    assert forall|k: int| 0 <= k < rows.len() implies titled(
        b,
        (#[trigger] rows[k]).title_key@,
    ) by {
        assert(titled(a, rows[k].title_key@));
        let i = choose|i: int|
            0 <= i < a.len() && (#[trigger] a[i]).0.key@ == rows[k].title_key@;
        assert(b[i].0.key@ == rows[k].title_key@);
    }
}

// ---------------------------------------------------------------------------
// Laws
// ---------------------------------------------------------------------------

/// A catalog holds one node for each share and link.
pub proof fn law_a_catalog_has_one_node_for_each_key(catalog: &Catalog)
    requires
        catalog.wf(),
    ensures
        nodes_apart(catalog@.nodes),
{
}

/// A crawl of one share that names no link twice is always taken, whatever the
/// catalog held before. So is one that found nothing.
pub proof fn law_a_crawl_without_repeated_links_is_taken(
    catalog: &Catalog,
    share_id: Seq<char>,
    nodes: Seq<CatalogNode>,
)
    requires
        catalog.wf(),
        forall|i: int| 0 <= i < nodes.len() ==> (#[trigger] nodes[i]).share_id@ == share_id,
        forall|i: int, j: int|
            #![trigger nodes[i], nodes[j]]
            0 <= i < j < nodes.len() ==> nodes[i].link_id@ != nodes[j].link_id@,
    ensures
        nodes_apart(outside(catalog@.nodes, share_id) + nodes),
{
    let kept = outside(catalog@.nodes, share_id);
    let all = kept + nodes;
    lemma_outside_apart(catalog@.nodes, share_id);
    assert forall|i: int, j: int|
        #![trigger all[i], all[j]]
        0 <= i < j < all.len() implies node_key(all[i]) != node_key(all[j]) by {
        let a = node_key(all[i]);
        let b = node_key(all[j]);
        if j < kept.len() {
            assert(all[i] == kept[i] && all[j] == kept[j]);
        } else if i < kept.len() {
            assert(all[i] == kept[i] && all[j] == nodes[j - kept.len()]);
            assert(a[0] != b[0]);
        } else {
            assert(all[i] == nodes[i - kept.len()] && all[j] == nodes[j - kept.len()]);
            assert(a[1] != b[1]);
        }
    }
}

/// A recrawl loses nothing that is not rebuildable, and touches no other share:
/// where playback left off, the answers about titles and the languages chosen
/// stay, and so does every node outside the share.
pub proof fn law_a_recrawl_keeps_what_it_did_not_find(
    before: CatalogView,
    after: CatalogView,
    share_id: Seq<char>,
    nodes: Seq<CatalogNode>,
    node: CatalogNode,
)
    requires
        after == (CatalogView {
            nodes: outside(before.nodes, share_id) + nodes,
            offline: still_current(
                before.offline,
                share_id,
                outside(before.nodes, share_id) + nodes,
            ),
            ..before
        }),
    ensures
        after.watch == before.watch,
        after.answers == before.answers,
        after.episodes == before.episodes,
        after.prefs == before.prefs,
        node.share_id@ != share_id && before.nodes.contains(node) ==> after.nodes.contains(node),
        after.nodes.contains(node) ==> nodes.contains(node) || before.nodes.contains(node)
            && node.share_id@ != share_id,
        forall|k: Seq<Seq<char>>| #[trigger]
            before.offline.dom().contains(k) && k[0] != share_id
                ==> after.offline.dom().contains(k) && after.offline[k] == before.offline[k],
{
    let kept = outside(before.nodes, share_id);
    let keep = lies_outside(share_id);
    lemma_filter_contains(before.nodes, keep, node);
    if kept.contains(node) {
        let i = choose|i: int| 0 <= i < kept.len() && kept[i] == node;
        assert(after.nodes[i] == node);
    }
    if after.nodes.contains(node) {
        let i = choose|i: int| 0 <= i < after.nodes.len() && after.nodes[i] == node;
        if i < kept.len() {
            assert(kept[i] == node);
            assert(kept.contains(node));
        } else {
            assert(nodes[i - kept.len()] == node);
        }
    }
}

proof fn lemma_filter_contains(
    nodes: Seq<CatalogNode>,
    keep: spec_fn(CatalogNode) -> bool,
    node: CatalogNode,
)
    ensures
        nodes.filter(keep).contains(node) == (nodes.contains(node) && keep(node)),
    decreases nodes.len(),
{
    reveal(Seq::filter);
    if nodes.len() > 0 {
        let front = nodes.drop_last();
        let last = nodes.last();
        lemma_filter_contains(front, keep, node);
        let some = front.filter(keep);
        let all = nodes.filter(keep);
        if nodes.contains(node) {
            let i = choose|i: int| 0 <= i < nodes.len() && nodes[i] == node;
            if i < front.len() {
                assert(front[i] == node);
            }
        }
        if front.contains(node) {
            let i = choose|i: int| 0 <= i < front.len() && front[i] == node;
            assert(nodes[i] == node);
        }
        assert(nodes[nodes.len() - 1] == last);
        if some.contains(node) {
            let i = choose|i: int| 0 <= i < some.len() && some[i] == node;
            assert(all[i] == node);
        }
        if all.contains(node) {
            let i = choose|i: int| 0 <= i < all.len() && all[i] == node;
            if i < some.len() {
                assert(some[i] == node);
            }
        }
        if keep(last) {
            assert(all[all.len() - 1] == last);
        }
    }
}

/// After a recrawl nothing that is kept of the share is stale: each local file
/// is the current revision of a node that was found.
pub proof fn law_a_recrawl_prunes_stale_files(
    rows: Held<OfflineRow>,
    share_id: Seq<char>,
    nodes: Seq<CatalogNode>,
    key: Seq<Seq<char>>,
)
    requires
        still_current(rows, share_id, nodes).dom().contains(key),
        key[0] == share_id,
    ensures
        has_revision(nodes, key, still_current(rows, share_id, nodes)[key].revision_id@),
{
}

/// A share that was removed has left nothing behind but the answers about its
/// titles: no node, no watch position, no local file.
pub proof fn law_a_removed_share_leaves_nothing(
    before: CatalogView,
    share_id: Seq<char>,
    key: Seq<Seq<char>>,
    i: int,
)
    ensures
        0 <= i < outside(before.nodes, share_id).len() ==> outside(
            before.nodes,
            share_id,
        )[i].share_id@ != share_id,
        key[0] == share_id ==> !beyond(before.watch, share_id).dom().contains(key)
            && !beyond(before.offline, share_id).dom().contains(key),
{
    let keep = lies_outside(share_id);
    let kept = outside(before.nodes, share_id);
    if 0 <= i < kept.len() {
        assert(kept.contains(kept[i]));
        lemma_filter_contains(before.nodes, keep, kept[i]);
    }
}

/// What was recorded of a file kept is what reads back.
pub proof fn law_a_kept_file_reads_back(
    before: CatalogView,
    key: Seq<Seq<char>>,
    row: OfflineRow,
    other: Seq<Seq<char>>,
)
    ensures
        with_offline(before, key, row).offline[key] == row,
        other != key ==> with_offline(before, key, row).offline.remove(key).dom().contains(other)
            == before.offline.dom().contains(other),
        !with_offline(before, key, row).offline.remove(key).dom().contains(key),
{
}

/// A stored answer reads back as it was, a stored miss as a miss and not as
/// absence, and a title that was never stored as absent.
pub proof fn law_a_stored_answer_reads_back(
    before: CatalogView,
    record: metadata::MetadataRecordView,
    row: MetadataRow,
    other: Seq<char>,
)
    requires
        metadata_rows::stores(row, record),
        match record.metadata {
            Some(data) => data.provider == record.provider && metadata_rows::storable(data.genres),
            None => true,
        },
    ensures
        answer_in(with_answer(before, record.title_key, row).answers, record.title_key) == Some(
            record,
        ),
        other != record.title_key ==> answer_in(
            with_answer(before, record.title_key, row).answers,
            other,
        ) == answer_in(before.answers, other),
{
    metadata_rows::law_an_answer_reads_back(record, row);
    if other != record.title_key {
        assert(title_name(other)[0] != title_name(record.title_key)[0]);
    }
}

/// A title that was forgotten has neither an answer nor an episode left.
pub proof fn law_a_forgotten_title_was_never_asked_about(
    before: CatalogView,
    title_key: Seq<char>,
)
    ensures
        answer_in(before.answers.remove(title_name(title_key)), title_key) is None,
        !mentions(of_others(before.episodes, title_key), title_key),
        episodes_of(of_others(before.episodes, title_key), title_key).len() == 0,
{
    lemma_others(before.episodes, title_key, title_key);
    assert(!mentions(of_others(before.episodes, title_key), title_key)) by {
        lemma_none_of(before.episodes, title_key);
    }
}

proof fn lemma_none_of(rows: Seq<EpisodeRow>, title_key: Seq<char>)
    ensures
        !mentions(of_others(rows, title_key), title_key),
    decreases rows.len(),
{
    reveal(Seq::filter);
    if rows.len() > 0 {
        lemma_none_of(rows.drop_last(), title_key);
        let some = of_others(rows.drop_last(), title_key);
        let all = of_others(rows, title_key);
        if mentions(all, title_key) {
            let i = choose|i: int|
                0 <= i < all.len() && (#[trigger] all[i]).title_key@ == title_key;
            if i < some.len() {
                assert(some[i].title_key@ == title_key);
            }
        }
    }
}

proof fn lemma_others(rows: Seq<EpisodeRow>, title_key: Seq<char>, other: Seq<char>)
    ensures
        other == title_key ==> episodes_of(of_others(rows, title_key), other).len() == 0,
        other != title_key ==> episodes_of(of_others(rows, title_key), other) == episodes_of(
            rows,
            other,
        ),
    decreases rows.len(),
{
    reveal(Seq::filter);
    if rows.len() > 0 {
        lemma_others(rows.drop_last(), title_key, other);
        let some = of_others(rows.drop_last(), title_key);
        let all = of_others(rows, title_key);
        if rows.last().title_key@ != title_key {
            assert(all.drop_last() =~= some);
            assert(all.last() == rows.last());
        }
    }
}

proof fn lemma_episodes_concat(a: Seq<EpisodeRow>, b: Seq<EpisodeRow>, title_key: Seq<char>)
    ensures
        episodes_of(a + b, title_key) == episodes_of(a, title_key) + episodes_of(b, title_key),
    decreases b.len(),
{
    if b.len() == 0 {
        assert(a + b =~= a);
        assert(episodes_of(a, title_key) + episodes_of(b, title_key) =~= episodes_of(a, title_key));
    } else {
        lemma_episodes_concat(a, b.drop_last(), title_key);
        assert((a + b).drop_last() =~= a + b.drop_last());
        assert((a + b).last() == b.last());
        assert(episodes_of(a + b, title_key) =~= episodes_of(a, title_key) + episodes_of(
            b,
            title_key,
        ));
    }
}

proof fn lemma_stored_episodes(
    rows: Seq<EpisodeRow>,
    title_key: Seq<char>,
    provider: ProviderId,
    fetched_at: i64,
    episodes: Seq<EpisodeMetadata>,
    other: Seq<char>,
)
    requires
        stored_as(rows, title_key, provider, fetched_at, episodes),
    ensures
        other == title_key ==> episodes_of(rows, other) == episodes,
        other != title_key ==> episodes_of(rows, other).len() == 0,
    decreases rows.len(),
{
    if rows.len() > 0 {
        let front = rows.drop_last();
        let some = episodes.drop_last();
        assert(stored_as(front, title_key, provider, fetched_at, some)) by {
            assert forall|i: int| 0 <= i < front.len() implies metadata_rows::stores_episode(
                #[trigger] front[i],
                title_key,
                provider,
                fetched_at,
                some[i],
            ) by {
                assert(front[i] == rows[i]);
            }
        }
        lemma_stored_episodes(front, title_key, provider, fetched_at, some, other);
        let last = rows[rows.len() - 1];
        metadata_rows::law_an_episode_reads_back(
            last,
            title_key,
            provider,
            fetched_at,
            episodes[episodes.len() - 1],
        );
        if other == title_key {
            assert(some.push(episodes.last()) =~= episodes);
        }
    } else {
        assert(episodes =~= Seq::empty());
    }
}

/// A title's episode list replaces the one before it: what reads back is that
/// list and no more, and every other title's list is untouched.
pub proof fn law_an_episode_list_replaces(
    before: Seq<EpisodeRow>,
    rows: Seq<EpisodeRow>,
    title_key: Seq<char>,
    provider: ProviderId,
    fetched_at: i64,
    episodes: Seq<EpisodeMetadata>,
    other: Seq<char>,
)
    requires
        stored_as(rows, title_key, provider, fetched_at, episodes),
    ensures
        episodes_of(of_others(before, title_key) + rows, title_key) == episodes,
        other != title_key ==> episodes_of(of_others(before, title_key) + rows, other)
            == episodes_of(before, other),
{
    let kept = of_others(before, title_key);
    lemma_others(before, title_key, title_key);
    lemma_episodes_concat(kept, rows, title_key);
    lemma_stored_episodes(rows, title_key, provider, fetched_at, episodes, title_key);
    assert(episodes_of(kept, title_key) + episodes =~= episodes);
    if other != title_key {
        lemma_others(before, title_key, other);
        lemma_episodes_concat(kept, rows, other);
        lemma_stored_episodes(rows, title_key, provider, fetched_at, episodes, other);
        assert(episodes_of(kept, other) + episodes_of(rows, other) =~= episodes_of(before, other));
    }
}

/// The files that are shown are the files of the share, or of all shares, and
/// nothing else, in the order of their titles, seasons, episodes and names. An
/// absent number comes before every number.
#[verifier::rlimit(40)]
pub proof fn law_files_are_shown_in_order(
    nodes: Seq<CatalogNode>,
    share_id: Option<Seq<char>>,
    node: CatalogNode,
    i: int,
    j: int,
)
    ensures
        ({
            let shown = order::sorted_by(
                shown_files(nodes, share_id),
                order::rank::<CatalogNode>(),
            );
            &&& shown.contains(node) <==> nodes.contains(node) && !node.is_folder && (
            share_id matches Some(share) ==> node.share_id@ == share)
            &&& 0 <= i < j < shown.len() ==> {
                let a = shown[i];
                let b = shown[j];
                &&& !order::text_lt(b.parsed.title@, a.parsed.title@)
                &&& a.parsed.title@ == b.parsed.title@ ==> {
                    &&& a.parsed.season matches Some(x) ==> (b.parsed.season matches Some(y) && x
                        <= y)
                    &&& a.parsed.season == b.parsed.season ==> {
                        &&& a.parsed.episode matches Some(x) ==> (
                        b.parsed.episode matches Some(y) && x <= y)
                        &&& a.parsed.episode == b.parsed.episode ==> !order::text_lt(
                            b.name@,
                            a.name@,
                        )
                    }
                }
            }
        }),
{
    let lt = order::rank::<CatalogNode>();
    let all = shown_files(nodes, share_id);
    let shown = order::sorted_by(all, lt);
    order::lemma_sorted_contains(all, lt, node);
    let keep = |node: CatalogNode|
        !node.is_folder && (share_id is None || share_id == Some(node.share_id@));
    lemma_filter_contains(nodes, keep, node);
    lemma_nodes_rank();
    order::lemma_sorted(all, lt);
    if 0 <= i < j < shown.len() {
        assert(!lt(shown[j], shown[i]));
    }
}

#[verifier::rlimit(40)]
proof fn lemma_nodes_rank()
    ensures
        order::ranks(order::rank::<CatalogNode>()),
{
    let lt = order::rank::<CatalogNode>();
    assert forall|a: CatalogNode, b: CatalogNode| #[trigger] lt(a, b) implies !lt(b, a) by {
        order::lemma_text_order(a.parsed.title@, b.parsed.title@, a.parsed.title@);
        order::lemma_text_order(b.parsed.title@, a.parsed.title@, b.parsed.title@);
        order::lemma_text_order(a.name@, b.name@, a.name@);
    }
    assert forall|a: CatalogNode, b: CatalogNode, c: CatalogNode|
        !#[trigger] lt(a, b) && !#[trigger] lt(b, c) implies !lt(a, c) by {
        order::lemma_text_order(a.parsed.title@, b.parsed.title@, c.parsed.title@);
        order::lemma_text_order(b.parsed.title@, c.parsed.title@, a.parsed.title@);
        order::lemma_text_order(c.parsed.title@, a.parsed.title@, b.parsed.title@);
        order::lemma_text_order(a.parsed.title@, c.parsed.title@, b.parsed.title@);
        order::lemma_text_order(a.name@, b.name@, c.name@);
    }
}

/// Files are told apart by share and link together: two that share only one of
/// them are two files.
pub proof fn law_files_are_told_by_share_and_link(
    share_id: Seq<char>,
    link_id: Seq<char>,
    other_share: Seq<char>,
    other_link: Seq<char>,
)
    ensures
        file_key(share_id, link_id) == file_key(other_share, other_link) <==> share_id
            == other_share && link_id == other_link,
{
    let a = file_key(share_id, link_id);
    let b = file_key(other_share, other_link);
    assert(a[0] == share_id && a[1] == link_id && b[0] == other_share && b[1] == other_link);
}

/// Where playback left off reads back as it was recorded, and recording it of one
/// file changes nothing for another.
pub proof fn law_a_position_reads_back(
    watch: Held<WatchState>,
    share_id: Seq<char>,
    link_id: Seq<char>,
    state: WatchState,
    other_share: Seq<char>,
    other_link: Seq<char>,
)
    ensures
        ({
            let after = watch.insert(file_key(share_id, link_id), state);
            &&& watched_in(after, share_id, link_id) == Some(state)
            &&& share_id != other_share || link_id != other_link ==> watched_in(
                after,
                other_share,
                other_link,
            ) == watched_in(watch, other_share, other_link)
        }),
{
    law_files_are_told_by_share_and_link(share_id, link_id, other_share, other_link);
}

/// A recrawl keeps what is kept of every file whose revision it found again, and of
/// every file of another share, as it was.
pub proof fn law_a_recrawl_keeps_current_files(
    rows: Held<OfflineRow>,
    share_id: Seq<char>,
    nodes: Seq<CatalogNode>,
    k: Seq<Seq<char>>,
    i: int,
)
    requires
        rows.dom().contains(k),
        k[0] != share_id || 0 <= i < nodes.len() && nodes[i].share_id@ == k[0] && nodes[i].link_id@
            == k[1] && text::opt_chars(nodes[i].active_revision_id) == Some(rows[k].revision_id@),
    ensures
        still_current(rows, share_id, nodes).dom().contains(k),
        still_current(rows, share_id, nodes)[k] == rows[k],
{
    if k[0] == share_id {
        assert(has_revision(nodes, k, rows[k].revision_id@));
    }
}

} // verus!
