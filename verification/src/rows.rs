//! Turning a crawl into catalog rows.
//!
//! A file is titled by its **folder path** rather than by its name alone. A real
//! library is laid out as
//!
//! ```text
//! Sousou no Frieren/Season 01/S01E01.mkv
//! Neon Genesis Evangelion/Movies/[Anime Time] … - Death & Rebirth-004.mkv
//! ```
//!
//! where `S01E01.mkv` states no title at all, and the one below it states one
//! that is really the episode's name. So the folder names the series, the
//! filename names the numbering, grouping folders are stepped over, and whatever
//! the filename claimed as a title, where it differs, is the episode's own name.

use vstd::prelude::*;
use vstd::slice::slice_subrange;

use crate::catalog::CatalogNode;
use crate::catalog::CrawledKind;
use crate::catalog::CrawledNode;
use crate::naming;
use crate::naming::FolderRole;
use crate::naming_laws;
use crate::text;

verus! {

/// The link of a node's parent.
pub open spec fn parent_of(node: CrawledNode) -> Option<Seq<char>> {
    match node.parent_uid {
        Some(uid) => Some(uid.link_id@),
        None => None,
    }
}

/// The nodes of a link.
pub open spec fn has_link(nodes: Seq<CrawledNode>, link: Seq<char>) -> spec_fn(int) -> bool {
    |i: int| nodes[i].uid.link_id@ == link
}

/// The node of a link: the last that has it.
pub open spec fn node_at(nodes: Seq<CrawledNode>, link: Seq<char>) -> Option<int> {
    text::last_before(0, nodes.len() as int, has_link(nodes, link))
}

/// What a row takes from the node itself.
pub open spec fn row_is(
    row: CatalogNode,
    share_id: Seq<char>,
    node: CrawledNode,
    parsed: naming::ParsedView,
) -> bool {
    &&& row.share_id@ == share_id
    &&& row.link_id@ == node.uid.link_id@
    &&& row.volume_id@ == node.uid.volume_id@
    &&& text::opt_chars(row.parent_link_id) == parent_of(node)
    &&& row.name@ == node.name@
    &&& row.is_folder == (node.kind is Folder)
    &&& match node.kind {
        CrawledKind::Folder => row.media_type is None && row.size is None && row.active_revision_id
            is None,
        CrawledKind::File { media_type, claimed_size, active_revision_id } => {
            &&& row.media_type == Some(media_type)
            &&& row.size == claimed_size
            &&& row.active_revision_id == active_revision_id
        },
    }
    &&& row.parsed@ == parsed
}

/// Build a catalog row from a crawled node, from the filename alone.
///
/// [`build_rows`] is what callers want: a filename in isolation usually does not
/// say what series it belongs to.
pub fn from_node(share_id: &str, node: &CrawledNode) -> (r: CatalogNode)
    ensures
        row_is(r, share_id@, *node, naming::parsed(node.name@)),
{
    let (is_folder, media_type, size, active_revision_id) = match &node.kind {
        CrawledKind::Folder => (true, None, None, None),
        CrawledKind::File { media_type, claimed_size, active_revision_id } => (
            false,
            Some(media_type.clone()),
            *claimed_size,
            text::copy_option(active_revision_id),
        ),
    };
    CatalogNode {
        share_id: text::owned(share_id),
        link_id: node.uid.link_id.clone(),
        volume_id: node.uid.volume_id.clone(),
        parent_link_id: match &node.parent_uid {
            Some(uid) => Some(uid.link_id.clone()),
            None => None,
        },
        name: node.name.clone(),
        is_folder,
        media_type,
        size,
        active_revision_id,
        parsed: naming::parse(node.name.as_str()),
    }
}

// ---------------------------------------------------------------------------
// What the folders say
// ---------------------------------------------------------------------------

/// What a file's ancestors say about it.
#[derive(Debug, PartialEq, Eq)]
pub struct Ancestry {
    pub title: Option<String>,
    pub season: Option<u32>,
    pub year: Option<u32>,
}

/// An [`Ancestry`] with its title taken as a sequence of characters.
pub struct AncestryView {
    pub title: Option<Seq<char>>,
    pub season: Option<u32>,
    pub year: Option<u32>,
}

impl View for Ancestry {
    type V = AncestryView;

    open spec fn view(&self) -> AncestryView {
        AncestryView {
            title: text::opt_chars(self.title),
            season: self.season,
            year: self.year,
        }
    }
}

/// The first of two numbers that is there.
pub open spec fn or(a: Option<u32>, b: Option<u32>) -> Option<u32> {
    if a is Some {
        a
    } else {
        b
    }
}

fn first_number(a: Option<u32>, b: Option<u32>) -> (r: Option<u32>)
    ensures
        r == or(a, b),
{
    match a {
        Some(n) => Some(n),
        None => b,
    }
}

/// What is known of a file once one more folder above it has spoken. The nearest
/// season and the nearest naming folder win; a folder that names both a series
/// and a season states the season of the files under it.
pub open spec fn heard(found: AncestryView, folder: naming::FolderView) -> AncestryView {
    match folder {
        naming::FolderView::Season(season) => AncestryView {
            season: or(found.season, Some(season)),
            ..found
        },
        naming::FolderView::Container => found,
        naming::FolderView::Title(parsed) => if found.title is None && parsed.title.len() > 0 {
            AncestryView {
                title: Some(parsed.title),
                season: or(found.season, parsed.season),
                year: or(found.year, parsed.year),
            }
        } else {
            found
        },
    }
}

/// Whether a folder is the share's root: its parent is outside what was crawled.
/// The root names the share, not a series.
pub open spec fn is_root(nodes: Seq<CrawledNode>, node: CrawledNode) -> bool {
    match parent_of(node) {
        None => true,
        Some(link) => node_at(nodes, link) is None,
    }
}

/// The folder that a walk at `cursor` hears next, unless it is over.
pub open spec fn next_up(nodes: Seq<CrawledNode>, cursor: Option<Seq<char>>) -> Option<int> {
    match cursor {
        None => None,
        Some(link) => match node_at(nodes, link) {
            None => None,
            Some(i) => if is_root(nodes, nodes[i]) {
                None
            } else {
                Some(i)
            },
        },
    }
}

/// What the folders from `cursor` upwards say, as far as `steps` of them.
pub open spec fn climbed(
    nodes: Seq<CrawledNode>,
    cursor: Option<Seq<char>>,
    found: AncestryView,
    steps: nat,
) -> AncestryView
    decreases steps,
{
    match next_up(nodes, cursor) {
        None => found,
        Some(i) => if steps == 0 {
            found
        } else {
            climbed(
                nodes,
                parent_of(nodes[i]),
                heard(found, naming::folder_role(nodes[i].name@)),
                (steps - 1) as nat,
            )
        },
    }
}

/// What is known of a file before any folder has spoken.
pub open spec fn nothing_heard() -> AncestryView {
    AncestryView { title: None, season: None, year: None }
}

/// What the folders above a node say of it. No walk to the root is longer than
/// the crawl: see [`law_a_walk_reaches_the_root`].
pub open spec fn ancestry_of(nodes: Seq<CrawledNode>, node: CrawledNode) -> AncestryView {
    climbed(nodes, parent_of(node), nothing_heard(), nodes.len())
}

/// The node of a link: the last that has it.
fn find_node(nodes: &[CrawledNode], link: &str) -> (r: Option<usize>)
    ensures
        match r {
            Some(i) => node_at(nodes@, link@) == Some(i as int) && i < nodes@.len(),
            None => node_at(nodes@, link@) is None,
        },
{
    let mut i: usize = nodes.len();
    let ghost p = has_link(nodes@, link@);
    while i > 0
        invariant
            i <= nodes@.len(),
            p == has_link(nodes@, link@),
            text::last_before(0, nodes@.len() as int, p) == text::last_before(0, i as int, p),
        decreases i,
    {
        if text::same_text(nodes[i - 1].uid.link_id.as_str(), link) {
            assert(p(i - 1));
            return Some(i - 1);
        }
        assert(!p(i - 1));
        i -= 1;
    }
    None
}

/// The folder that a walk at `cursor` hears next, unless it is over.
fn next_folder(nodes: &[CrawledNode], cursor: &Option<String>) -> (r: Option<usize>)
    ensures
        match r {
            Some(i) => next_up(nodes@, text::opt_chars(*cursor)) == Some(i as int) && i
                < nodes@.len(),
            None => next_up(nodes@, text::opt_chars(*cursor)) is None,
        },
{
    match cursor {
        None => None,
        Some(link) => match find_node(nodes, link.as_str()) {
            None => None,
            Some(i) => match &nodes[i].parent_uid {
                None => None,
                Some(uid) => if find_node(nodes, uid.link_id.as_str()).is_some() {
                    Some(i)
                } else {
                    None
                },
            },
        },
    }
}

/// Walk up from a node, taking the nearest season and the nearest naming folder.
pub fn ancestry(nodes: &[CrawledNode], node: &CrawledNode) -> (r: Ancestry)
    ensures
        r@ == ancestry_of(nodes@, *node),
{
    let mut found = Ancestry { title: None, season: None, year: None };
    let mut cursor: Option<String> = match &node.parent_uid {
        Some(uid) => Some(uid.link_id.clone()),
        None => None,
    };
    let mut steps: usize = nodes.len();
    while steps > 0
        invariant
            ancestry_of(nodes@, *node) == climbed(
                nodes@,
                text::opt_chars(cursor),
                found@,
                steps as nat,
            ),
        decreases steps,
    {
        let at: usize = match next_folder(nodes, &cursor) {
            Some(at) => at,
            None => {
                return found;
            },
        };
        let folder = &nodes[at];
        let role = naming::classify_folder(folder.name.as_str());
        let ghost before = found@;
        match role {
            FolderRole::Season(season) => {
                found.season = first_number(found.season, Some(season));
            },
            FolderRole::Container => {},
            FolderRole::Title(parsed) => {
                if found.title.is_none() && !parsed.title.as_str().is_empty() {
                    found =
                    Ancestry {
                        title: Some(parsed.title.clone()),
                        season: first_number(found.season, parsed.season),
                        year: first_number(found.year, parsed.year),
                    };
                }
            },
        }
        assert(found@ == heard(before, naming::folder_role(folder.name@)));
        cursor =
        match &folder.parent_uid {
            Some(uid) => Some(uid.link_id.clone()),
            None => None,
        };
        steps -= 1;
    }
    found
}

// ---------------------------------------------------------------------------
// What the filename says
// ---------------------------------------------------------------------------

/// An episode's name without the series it begins with, where anything is left.
pub open spec fn without_series(episode: Seq<char>, series: Seq<char>) -> Seq<char> {
    let stripped = text::trim(
        if text::stands_at(episode, series, 0) {
            text::trim_start_set(
                episode.skip(series.len() as int),
                seq![' ', '-', '_', '.', ':'],
            )
        } else {
            episode
        },
    );
    if stripped.len() == 0 {
        episode
    } else {
        stripped
    }
}

/// Drop a redundant series prefix from an episode name.
///
/// `Neon Genesis Evangelion - Death & Rebirth` under a folder called
/// `Neon Genesis Evangelion` reads as `Death & Rebirth`.
pub fn strip_prefix_title(episode: &str, series: &str) -> (r: String)
    ensures
        r@ == without_series(episode@, series@),
{
    let v = text::to_chars(episode);
    let prefix = text::to_chars(series);
    let marks: Vec<char> = vec![' ', '-', '_', '.', ':'];
    assert(marks@ =~= seq![' ', '-', '_', '.', ':']);
    let stripped = if text::chars_stand_at(&v, &prefix, 0) {
        let rest = slice_subrange(&v, prefix.len(), v.len());
        assert(rest@ =~= episode@.skip(series@.len() as int));
        text::trimmed(text::trimmed_start_set(rest, &marks))
    } else {
        text::trimmed(&v)
    };
    if stripped.len() == 0 {
        text::owned(episode)
    } else {
        text::from_chars(stripped)
    }
}

/// What a file is, from its own name and from what its folders say.
///
/// The filename's own title, where it has one and it differs, is the episode's
/// name rather than the series', unless what is left of it is a season marker:
/// calling every episode of season three `3rd Season` is worse than calling none
/// of them anything.
pub open spec fn placed(own: naming::ParsedView, context: AncestryView) -> naming::ParsedView {
    let titled = match context.title {
        None => own,
        Some(title) => {
            let named = if own.episode_title is None && own.title.len() > 0 && own.title != title {
                let rest = without_series(own.title, title);
                if naming::states_only_a_season(rest) {
                    naming::ParsedView {
                        season: or(own.season, naming::parsed(rest).season),
                        ..own
                    }
                } else {
                    naming::ParsedView { episode_title: Some(rest), ..own }
                }
            } else {
                own
            };
            naming::ParsedView { title, ..named }
        },
    };
    naming::ParsedView {
        season: or(titled.season, context.season),
        year: or(titled.year, context.year),
        ..titled
    }
}

/// Whether a node is a file that belongs in the catalog.
pub open spec fn is_video(node: CrawledNode) -> bool {
    !(node.kind is Folder) && naming::names_a_video(node.name@)
}

/// Where the videos stand among the first `n` nodes, in order.
pub open spec fn videos(nodes: Seq<CrawledNode>, n: int) -> Seq<int>
    decreases n,
{
    if n <= 0 {
        Seq::empty()
    } else if is_video(nodes[n - 1]) {
        videos(nodes, n - 1).push(n - 1)
    } else {
        videos(nodes, n - 1)
    }
}

/// Give a row what its folders say of it.
fn place_row(row: CatalogNode, context: Ancestry) -> (r: CatalogNode)
    ensures
        r.parsed@ == placed(row.parsed@, context@),
        r == (CatalogNode { parsed: r.parsed, ..row }),
{
    let mut row = row;
    match context.title {
        Some(title) => {
            if row.parsed.episode_title.is_none() && !row.parsed.title.as_str().is_empty()
                && !text::same_text(row.parsed.title.as_str(), title.as_str()) {
                let rest = strip_prefix_title(row.parsed.title.as_str(), title.as_str());
                if naming::is_season_marker(rest.as_str()) {
                    row.parsed.season =
                    first_number(row.parsed.season, naming::parse(rest.as_str()).season);
                } else {
                    row.parsed.episode_title = Some(rest);
                }
            }
            row.parsed.title = title;
        },
        None => {},
    }
    row.parsed.season = first_number(row.parsed.season, context.season);
    row.parsed.year = first_number(row.parsed.year, context.year);
    row
}

/// Turn a whole crawl into catalog rows, in its order.
///
/// Folders and files that are no video are dropped: a share holds `.nfo` and
/// `.jpg` alongside the video, and offering those as episodes is worse than
/// omitting an exotic container.
pub fn build_rows(share_id: &str, nodes: &[CrawledNode]) -> (r: Vec<CatalogNode>)
    ensures
        r@.len() == videos(nodes@, nodes@.len() as int).len(),
        forall|k: int|
            #![trigger r@[k]]
            0 <= k < r@.len() ==> {
                let node = nodes@[videos(nodes@, nodes@.len() as int)[k]];
                row_is(
                    r@[k],
                    share_id@,
                    node,
                    placed(naming::parsed(node.name@), ancestry_of(nodes@, node)),
                )
            },
{
    let mut out: Vec<CatalogNode> = Vec::new();
    let mut i: usize = 0;
    let len: usize = nodes.len();
    while i < len
        invariant
            i <= len,
            len == nodes@.len(),
            out@.len() == videos(nodes@, i as int).len(),
            forall|k: int|
                #![trigger out@[k]]
                0 <= k < out@.len() ==> {
                    let node = nodes@[videos(nodes@, i as int)[k]];
                    row_is(
                        out@[k],
                        share_id@,
                        node,
                        placed(naming::parsed(node.name@), ancestry_of(nodes@, node)),
                    )
                },
        decreases len - i,
    {
        let node = &nodes[i];
        if !node.is_folder() && naming::is_video_file(node.name.as_str()) {
            let row = from_node(share_id, node);
            let context = ancestry(nodes, node);
            out.push(place_row(row, context));
        }
        i += 1;
    }
    out
}

// ---------------------------------------------------------------------------
// Laws
// ---------------------------------------------------------------------------

/// Every video in a crawl has one row and nothing else has any: the rows come
/// from the videos, each once, in the crawl's order.
pub proof fn law_every_video_is_listed_once(nodes: Seq<CrawledNode>, n: int)
    requires
        0 <= n <= nodes.len(),
    ensures
        forall|i: int|
            #[trigger] videos(nodes, n).contains(i) <==> 0 <= i < n && is_video(nodes[i]),
        forall|j: int, k: int|
            0 <= j < k < videos(nodes, n).len() ==> (#[trigger] videos(nodes, n)[j])
                < #[trigger] videos(nodes, n)[k],
    decreases n,
{
    if n > 0 {
        law_every_video_is_listed_once(nodes, n - 1);
        let front = videos(nodes, n - 1);
        let all = videos(nodes, n);
        assert forall|i: int| #[trigger] all.contains(i) <==> 0 <= i < n && is_video(nodes[i]) by {
            if all.contains(i) {
                let k = choose|k: int| 0 <= k < all.len() && all[k] == i;
                if k < front.len() {
                    assert(front[k] == i);
                    assert(front.contains(i));
                }
            }
            if 0 <= i < n && is_video(nodes[i]) {
                if i == n - 1 {
                    assert(all[all.len() - 1] == i);
                } else {
                    assert(front.contains(i));
                    let k = choose|k: int| 0 <= k < front.len() && front[k] == i;
                    assert(all[k] == i);
                }
            }
        }
        assert forall|j: int, k: int| 0 <= j < k < all.len() implies (#[trigger] all[j])
            < #[trigger] all[k] by {
            assert(j < front.len());
            assert(all[j] == front[j]);
            assert(front.contains(front[j]));
            if k < front.len() {
                assert(all[k] == front[k]);
            }
        }
    }
}

/// Where a walk stands after `k` steps; one that is over stays where it is.
pub open spec fn stands(nodes: Seq<CrawledNode>, cursor: Option<Seq<char>>, k: nat) -> Option<
    Seq<char>,
>
    decreases k,
{
    if k == 0 {
        cursor
    } else {
        let before = stands(nodes, cursor, (k - 1) as nat);
        match next_up(nodes, before) {
            Some(i) => parent_of(nodes[i]),
            None => before,
        }
    }
}

/// Whether a walk is over after `k` steps.
pub open spec fn is_over(nodes: Seq<CrawledNode>, cursor: Option<Seq<char>>, k: nat) -> bool {
    next_up(nodes, stands(nodes, cursor, k)) is None
}

proof fn lemma_stands_from(nodes: Seq<CrawledNode>, cursor: Option<Seq<char>>, a: nat, b: nat)
    ensures
        stands(nodes, cursor, a + b) == stands(nodes, stands(nodes, cursor, a), b),
    decreases b,
{
    if b > 0 {
        lemma_stands_from(nodes, cursor, a, (b - 1) as nat);
    }
}

proof fn lemma_stays_over(nodes: Seq<CrawledNode>, cursor: Option<Seq<char>>, m: nat, k: nat)
    requires
        is_over(nodes, cursor, m),
        m <= k,
    ensures
        is_over(nodes, cursor, k),
        stands(nodes, cursor, k) == stands(nodes, cursor, m),
    decreases k,
{
    if m < k {
        lemma_stays_over(nodes, cursor, m, (k - 1) as nat);
    }
}

/// More whole numbers below `n` than there are of them repeat one.
proof fn lemma_pigeonhole(s: Seq<int>, n: nat)
    requires
        s.len() > n,
        forall|k: int| 0 <= k < s.len() ==> 0 <= #[trigger] s[k] < n,
    ensures
        exists|a: int, b: int| 0 <= a < b < s.len() && #[trigger] s[a] == #[trigger] s[b],
{
    if s.no_duplicates() {
        s.unique_seq_to_set();
        let below = vstd::set_lib::set_int_range(0, n as int);
        vstd::set_lib::lemma_int_range(0, n as int);
        assert(s.to_set().subset_of(below)) by {
            assert forall|x: int| s.to_set().contains(x) implies below.contains(x) by {
                let k = choose|k: int| 0 <= k < s.len() && s[k] == x;
                assert(0 <= s[k] < n);
            }
        }
        vstd::set_lib::lemma_len_subset(s.to_set(), below);
    } else {
        let (a, b) = choose|a: int, b: int|
            0 <= a < s.len() && 0 <= b < s.len() && a != b && s[a] == s[b];
        if a < b {
            assert(s[a] == s[b]);
        } else {
            assert(s[b] == s[a]);
        }
    }
}

/// A walk that is over at all is over within as many steps as there are nodes.
proof fn lemma_over_in_time(nodes: Seq<CrawledNode>, cursor: Option<Seq<char>>, m: nat)
    requires
        is_over(nodes, cursor, m),
    ensures
        is_over(nodes, cursor, nodes.len()),
    decreases m,
{
    if m <= nodes.len() {
        lemma_stays_over(nodes, cursor, m, nodes.len());
    } else if is_over(nodes, cursor, (m - 1) as nat) {
        lemma_over_in_time(nodes, cursor, (m - 1) as nat);
    } else {
        let heard_at = Seq::new(m, |k: int| next_up(nodes, stands(nodes, cursor, k as nat))->0);
        assert forall|k: int| 0 <= k < m implies 0 <= #[trigger] heard_at[k] < nodes.len()
            && next_up(nodes, stands(nodes, cursor, k as nat)) == Some(heard_at[k]) by {
            if is_over(nodes, cursor, k as nat) {
                lemma_stays_over(nodes, cursor, k as nat, (m - 1) as nat);
            }
            let link = stands(nodes, cursor, k as nat)->0;
            text::lemma_last_before(0, nodes.len() as int, has_link(nodes, link));
        }
        lemma_pigeonhole(heard_at, nodes.len());
        let (a, b) = choose|a: int, b: int|
            0 <= a < b < heard_at.len() && #[trigger] heard_at[a] == #[trigger] heard_at[b];
        let rest = (m - b - 1) as nat;
        assert(stands(nodes, cursor, (a + 1) as nat) == stands(nodes, cursor, (b + 1) as nat));
        lemma_stands_from(nodes, cursor, (a + 1) as nat, rest);
        lemma_stands_from(nodes, cursor, (b + 1) as nat, rest);
        assert((b + 1) as nat + rest == m);
        lemma_over_in_time(nodes, cursor, ((a + 1) as nat + rest) as nat);
    }
}

proof fn lemma_climbed_stays(
    nodes: Seq<CrawledNode>,
    cursor: Option<Seq<char>>,
    found: AncestryView,
    m: nat,
    steps: nat,
)
    requires
        is_over(nodes, cursor, m),
        m <= steps,
    ensures
        climbed(nodes, cursor, found, steps) == climbed(nodes, cursor, found, m),
    decreases m,
{
    match next_up(nodes, cursor) {
        None => {},
        Some(i) => {
            assert(stands(nodes, cursor, 0) == cursor);
            assert(m > 0);
            lemma_stands_from(nodes, cursor, 1, (m - 1) as nat);
            assert(stands(nodes, cursor, 1) == parent_of(nodes[i])) by {
                reveal_with_fuel(stands, 2);
            }
            lemma_climbed_stays(
                nodes,
                parent_of(nodes[i]),
                heard(found, naming::folder_role(nodes[i].name@)),
                (m - 1) as nat,
                (steps - 1) as nat,
            );
        },
    }
}

/// A walk that has an end at all, after however many folders, has it within as
/// many steps as there are nodes: no folder on the way to the root goes unheard.
pub proof fn law_a_walk_reaches_the_root(
    nodes: Seq<CrawledNode>,
    cursor: Option<Seq<char>>,
    found: AncestryView,
    m: nat,
    steps: nat,
)
    requires
        is_over(nodes, cursor, m),
        nodes.len() <= steps,
    ensures
        is_over(nodes, cursor, nodes.len()),
        climbed(nodes, cursor, found, steps) == climbed(nodes, cursor, found, nodes.len()),
{
    lemma_over_in_time(nodes, cursor, m);
    lemma_climbed_stays(nodes, cursor, found, nodes.len(), steps);
}

/// The share's root names nothing: a file directly in it is what its own name
/// says.
pub proof fn law_the_root_names_nothing(nodes: Seq<CrawledNode>, node: CrawledNode)
    requires
        match parent_of(node) {
            None => true,
            Some(link) => match node_at(nodes, link) {
                None => true,
                Some(i) => is_root(nodes, nodes[i]),
            },
        },
    ensures
        ancestry_of(nodes, node) == nothing_heard(),
        placed(naming::parsed(node.name@), ancestry_of(nodes, node)) == naming::parsed(node.name@),
{
    let own = naming::parsed(node.name@);
    assert(placed(own, nothing_heard()) =~= own);
}

/// The folder names the series; the filename names the numbering, and what it
/// states is never overruled.
pub proof fn law_the_folder_names_the_series(own: naming::ParsedView, context: AncestryView)
    ensures
        context.title is Some ==> placed(own, context).title == context.title->0,
        context.title is None ==> placed(own, context).title == own.title,
        placed(own, context).episode == own.episode,
        own.season is Some ==> placed(own, context).season == own.season,
        own.year is Some ==> placed(own, context).year == own.year,
        own.episode_title is Some ==> placed(own, context).episode_title == own.episode_title,
{
}

/// What a filename does not state is filled in from the folders: the season,
/// unless what is left of the filename's title is a season marker and states one,
/// and the year in any case.
#[verifier::rlimit(40)]
pub proof fn law_the_folders_fill_what_is_missing(own: naming::ParsedView, context: AncestryView)
    ensures
        own.year is None ==> placed(own, context).year == context.year,
        own.season is None && context.title is None ==> placed(own, context).season
            == context.season,
        own.season is None ==> (context.title matches Some(series) ==> {
            let remains = without_series(own.title, series);
            let marker = own.episode_title is None && own.title.len() > 0 && own.title != series
                && naming::states_only_a_season(remains);
            &&& !marker ==> placed(own, context).season == context.season
            &&& marker && naming::parsed(remains).season is None ==> placed(own, context).season
                == context.season
            &&& marker && naming::parsed(remains).season is Some ==> placed(own, context).season
                == naming::parsed(remains).season
        }),
{
}

/// The separators that stand between a series and the name of its episode.
pub open spec fn parts_a_series_from_its_episode(c: char) -> bool {
    c == ' ' || c == '-' || c == '_' || c == '.' || c == ':'
}

proof fn lemma_trim_start_set_steps(gap: Seq<char>, rest: Seq<char>, set: Seq<char>)
    requires
        forall|i: int| 0 <= i < gap.len() ==> set.contains(#[trigger] gap[i]),
        rest.len() > 0 ==> !set.contains(rest[0]),
    ensures
        text::trim_start_set(gap + rest, set) == rest,
    decreases gap.len(),
{
    let all = gap + rest;
    if gap.len() == 0 {
        assert(all =~= rest);
    } else {
        assert(set.contains(gap[0]));
        assert(all.subrange(1, all.len() as int) =~= gap.skip(1) + rest);
        assert forall|i: int| 0 <= i < gap.skip(1).len() implies set.contains(
            #[trigger] gap.skip(1)[i],
        ) by {
            assert(set.contains(gap[i + 1]));
        }
        lemma_trim_start_set_steps(gap.skip(1), rest, set);
    }
}

#[verifier::rlimit(40)]
proof fn lemma_without_repeated(series: Seq<char>, gap: Seq<char>, rest: Seq<char>)
    requires
        forall|i: int|
            0 <= i < gap.len() ==> parts_a_series_from_its_episode(#[trigger] gap[i]),
        rest.len() > 0,
        !parts_a_series_from_its_episode(rest[0]),
        !text::is_white(rest[0]),
        !text::is_white(rest.last()),
    ensures
        without_series(series + gap + rest, series) == rest,
{
    let marks = seq![' ', '-', '_', '.', ':'];
    let title = series + gap + rest;
    assert(title.subrange(0, series.len() as int) =~= series);
    assert(title.skip(series.len() as int) =~= gap + rest);
    assert(marks[0] == ' ' && marks[1] == '-' && marks[2] == '_' && marks[3] == '.' && marks[4]
        == ':');
    assert forall|i: int| 0 <= i < gap.len() implies marks.contains(#[trigger] gap[i]) by {
        assert(parts_a_series_from_its_episode(gap[i]));
    }
    assert(!marks.contains(rest[0])) by {
        if marks.contains(rest[0]) {
            let k = choose|k: int| 0 <= k < marks.len() && marks[k] == rest[0];
            assert(k == 0 || k == 1 || k == 2 || k == 3 || k == 4);
        }
    }
    lemma_trim_start_set_steps(gap, rest, marks);
    assert(text::trim(rest) == rest);
}

/// A filename that repeats the series gives the rest as the name of the episode:
/// `Series - Rest` under a folder called `Series` is `Rest`. Its title becomes
/// the folder's.
#[verifier::rlimit(40)]
pub proof fn law_a_repeated_series_is_dropped(
    own: naming::ParsedView,
    context: AncestryView,
    series: Seq<char>,
    gap: Seq<char>,
    rest: Seq<char>,
)
    requires
        context.title == Some(series),
        own.episode_title is None,
        own.title == series + gap + rest,
        forall|i: int|
            0 <= i < gap.len() ==> parts_a_series_from_its_episode(#[trigger] gap[i]),
        rest.len() > 0,
        !parts_a_series_from_its_episode(rest[0]),
        !text::is_white(rest[0]),
        !text::is_white(rest.last()),
        !naming::states_only_a_season(rest),
    ensures
        placed(own, context).title == series,
        placed(own, context).episode_title == Some(rest),
        placed(own, context).episode == own.episode,
{
    lemma_without_repeated(series, gap, rest);
    assert(own.title.len() > series.len());
}

/// A filename whose title has nothing of the series in it gives that title as the
/// name of the episode.
pub proof fn law_another_title_is_the_episodes_name(
    own: naming::ParsedView,
    context: AncestryView,
    series: Seq<char>,
)
    requires
        context.title == Some(series),
        own.episode_title is None,
        own.title.len() > 0,
        !series.is_prefix_of(own.title),
        !text::is_white(own.title[0]),
        !text::is_white(own.title.last()),
        !naming::states_only_a_season(own.title),
    ensures
        placed(own, context).title == series,
        placed(own, context).episode_title == Some(own.title),
{
    text::lemma_prefix_stands(own.title, series);
    assert(text::trim(own.title) == own.title);
}

// ---------------------------------------------------------------------------
// The way up
// ---------------------------------------------------------------------------

/// Whether the nodes of a crawl at `way` are the folders above a node, the
/// nearest first and the share's root last. No two nodes of the crawl have the
/// same link.
pub open spec fn is_way_up(nodes: Seq<CrawledNode>, node: CrawledNode, way: Seq<int>) -> bool {
    &&& way.len() > 0
    &&& forall|j: int| 0 <= j < way.len() ==> 0 <= #[trigger] way[j] < nodes.len()
    &&& forall|a: int, b: int|
        #![trigger nodes[a], nodes[b]]
        0 <= a < b < nodes.len() ==> nodes[a].uid.link_id@ != nodes[b].uid.link_id@
    &&& node.parent_uid is Some
    &&& (node.parent_uid->0).link_id@ == nodes[way[0]].uid.link_id@
    &&& forall|j: int|
        0 <= j < way.len() - 1 ==> (#[trigger] nodes[way[j]]).parent_uid is Some && (
        nodes[way[j]].parent_uid->0).link_id@ == nodes[way[j + 1]].uid.link_id@
    &&& nodes[way.last()].parent_uid matches Some(outside) ==> forall|i: int|
        0 <= i < nodes.len() ==> (#[trigger] nodes[i]).uid.link_id@ != outside.link_id@
}

/// What the folder at `j` on the way up says.
pub open spec fn says(nodes: Seq<CrawledNode>, way: Seq<int>, j: int) -> naming::FolderView {
    naming::folder_role(nodes[way[j]].name@)
}

/// Whether a folder names a series.
pub open spec fn names_a_series(role: naming::FolderView) -> bool {
    role is Title && role->Title_0.title.len() > 0
}

/// Whether a folder states a season.
pub open spec fn states_a_season(role: naming::FolderView) -> bool {
    role is Season || names_a_series(role) && role->Title_0.season is Some
}

proof fn lemma_node_found(nodes: Seq<CrawledNode>, i: int)
    requires
        0 <= i < nodes.len(),
        forall|a: int, b: int|
            #![trigger nodes[a], nodes[b]]
            0 <= a < b < nodes.len() ==> nodes[a].uid.link_id@ != nodes[b].uid.link_id@,
    ensures
        node_at(nodes, nodes[i].uid.link_id@) == Some(i),
{
    let link = nodes[i].uid.link_id@;
    text::lemma_last_before(0, nodes.len() as int, has_link(nodes, link));
    assert(has_link(nodes, link)(i));
    let k = node_at(nodes, link)->0;
    if k < i {
        assert(nodes[k].uid.link_id@ != nodes[i].uid.link_id@);
    } else if i < k {
        assert(nodes[i].uid.link_id@ != nodes[k].uid.link_id@);
    }
}

/// What a walk along the way hears, folder by folder.
proof fn lemma_way_is_walked(nodes: Seq<CrawledNode>, node: CrawledNode, way: Seq<int>, j: int)
    requires
        is_way_up(nodes, node, way),
        0 <= j < way.len(),
    ensures
        node_at(nodes, nodes[way[j]].uid.link_id@) == Some(way[j]),
        j < way.len() - 1 ==> next_up(nodes, Some(nodes[way[j]].uid.link_id@)) == Some(way[j]),
        j < way.len() - 1 ==> parent_of(nodes[way[j]]) == Some(nodes[way[j + 1]].uid.link_id@),
        j == way.len() - 1 ==> next_up(nodes, Some(nodes[way[j]].uid.link_id@)) is None,
{
    lemma_node_found(nodes, way[j]);
    if j < way.len() - 1 {
        lemma_node_found(nodes, way[j + 1]);
        assert(nodes[way[j]].parent_uid is Some);
    } else {
        match nodes[way[j]].parent_uid {
            Some(outside) => {
                text::lemma_last_before(
                    0,
                    nodes.len() as int,
                    has_link(nodes, outside.link_id@),
                );
                if let Some(k) = node_at(nodes, outside.link_id@) {
                    assert(has_link(nodes, outside.link_id@)(k));
                    assert(nodes[k].uid.link_id@ != outside.link_id@);
                }
            },
            None => {},
        }
    }
}

proof fn lemma_stands_on_way(nodes: Seq<CrawledNode>, node: CrawledNode, way: Seq<int>, j: int)
    requires
        is_way_up(nodes, node, way),
        0 <= j < way.len(),
    ensures
        stands(nodes, parent_of(node), j as nat) == Some(nodes[way[j]].uid.link_id@),
    decreases j,
{
    if j > 0 {
        lemma_stands_on_way(nodes, node, way, j - 1);
        lemma_way_is_walked(nodes, node, way, j - 1);
    }
}

/// What is known after the folders of the way from `j` on.
spec fn heard_from(
    nodes: Seq<CrawledNode>,
    way: Seq<int>,
    found: AncestryView,
    j: int,
) -> AncestryView
    decreases way.len() - j,
{
    if j >= way.len() - 1 {
        found
    } else {
        heard_from(nodes, way, heard(found, says(nodes, way, j)), j + 1)
    }
}

#[verifier::rlimit(40)]
proof fn lemma_climbed_is_heard(
    nodes: Seq<CrawledNode>,
    node: CrawledNode,
    way: Seq<int>,
    found: AncestryView,
    j: int,
    steps: nat,
)
    requires
        is_way_up(nodes, node, way),
        0 <= j < way.len(),
        way.len() - 1 - j <= steps,
    ensures
        climbed(nodes, Some(nodes[way[j]].uid.link_id@), found, steps) == heard_from(
            nodes,
            way,
            found,
            j,
        ),
    decreases steps,
{
    lemma_way_is_walked(nodes, node, way, j);
    if j < way.len() - 1 {
        lemma_climbed_is_heard(
            nodes,
            node,
            way,
            heard(found, says(nodes, way, j)),
            j + 1,
            (steps - 1) as nat,
        );
    }
}

proof fn lemma_ancestry_is_heard(nodes: Seq<CrawledNode>, node: CrawledNode, way: Seq<int>)
    requires
        is_way_up(nodes, node, way),
    ensures
        ancestry_of(nodes, node) == heard_from(nodes, way, nothing_heard(), 0),
{
    let steps = nodes.len() + way.len();
    let last = (way.len() - 1) as nat;
    lemma_stands_on_way(nodes, node, way, last as int);
    lemma_way_is_walked(nodes, node, way, last as int);
    law_a_walk_reaches_the_root(nodes, parent_of(node), nothing_heard(), last, steps);
    lemma_climbed_is_heard(nodes, node, way, nothing_heard(), 0, steps);
}

/// What was heard once stays.
proof fn lemma_heard_stays(nodes: Seq<CrawledNode>, way: Seq<int>, found: AncestryView, j: int)
    ensures
        found.season is Some ==> heard_from(nodes, way, found, j).season == found.season,
        found.title is Some ==> heard_from(nodes, way, found, j).title == found.title,
        found.title is Some ==> heard_from(nodes, way, found, j).year == found.year,
    decreases way.len() - j,
{
    if j < way.len() - 1 {
        lemma_heard_stays(nodes, way, heard(found, says(nodes, way, j)), j + 1);
    }
}

#[verifier::rlimit(40)]
proof fn lemma_nearest_series(
    nodes: Seq<CrawledNode>,
    way: Seq<int>,
    found: AncestryView,
    j: int,
    k: int,
)
    requires
        0 <= j <= k <= way.len() - 1,
        found.title is None,
        found.year is None,
        forall|i: int| j <= i < k ==> !names_a_series(#[trigger] says(nodes, way, i)),
    ensures
        k < way.len() - 1 && names_a_series(says(nodes, way, k)) ==> {
            &&& heard_from(nodes, way, found, j).title == Some(says(nodes, way, k)->Title_0.title)
            &&& heard_from(nodes, way, found, j).year == says(nodes, way, k)->Title_0.year
        },
        k == way.len() - 1 ==> {
            &&& heard_from(nodes, way, found, j).title is None
            &&& heard_from(nodes, way, found, j).year is None
        },
    decreases k - j,
{
    if j < k {
        assert(!names_a_series(says(nodes, way, j)));
        lemma_nearest_series(nodes, way, heard(found, says(nodes, way, j)), j + 1, k);
    } else if k < way.len() - 1 {
        lemma_heard_stays(nodes, way, heard(found, says(nodes, way, k)), k + 1);
    }
}

#[verifier::rlimit(40)]
proof fn lemma_nearest_season(
    nodes: Seq<CrawledNode>,
    way: Seq<int>,
    found: AncestryView,
    j: int,
    k: int,
)
    requires
        0 <= j <= k <= way.len() - 1,
        found.season is None,
        forall|i: int| j <= i < k ==> !states_a_season(#[trigger] says(nodes, way, i)),
    ensures
        k < way.len() - 1 ==> (says(nodes, way, k) matches naming::FolderView::Season(season)
            ==> heard_from(nodes, way, found, j).season == Some(season)),
        k < way.len() - 1 && found.title is None && states_a_season(says(nodes, way, k)) && (
        forall|i: int| j <= i < k ==> !names_a_series(#[trigger] says(nodes, way, i)))
            && says(nodes, way, k) is Title ==> heard_from(nodes, way, found, j).season == says(
            nodes,
            way,
            k,
        )->Title_0.season,
        k == way.len() - 1 ==> heard_from(nodes, way, found, j).season is None,
    decreases k - j,
{
    if j < k {
        assert(!states_a_season(says(nodes, way, j)));
        let next = heard(found, says(nodes, way, j));
        lemma_nearest_season(nodes, way, next, j + 1, k);
        if forall|i: int| j <= i < k ==> !names_a_series(#[trigger] says(nodes, way, i)) {
            assert(!names_a_series(says(nodes, way, j)));
        }
    } else if k < way.len() - 1 {
        lemma_heard_stays(nodes, way, heard(found, says(nodes, way, k)), k + 1);
    }
}

/// The nearest folder that names a series names it, with its year, whatever lies
/// between it and the file; the root's own name is never asked. Where no folder
/// names one, neither a title nor a year comes from the folders.
pub proof fn law_the_nearest_series_folder_names_the_file(
    nodes: Seq<CrawledNode>,
    node: CrawledNode,
    way: Seq<int>,
    k: int,
)
    requires
        is_way_up(nodes, node, way),
        0 <= k <= way.len() - 1,
        forall|i: int| 0 <= i < k ==> !names_a_series(#[trigger] says(nodes, way, i)),
    ensures
        k < way.len() - 1 && names_a_series(says(nodes, way, k)) ==> {
            &&& ancestry_of(nodes, node).title == Some(says(nodes, way, k)->Title_0.title)
            &&& ancestry_of(nodes, node).year == says(nodes, way, k)->Title_0.year
        },
        k == way.len() - 1 ==> {
            &&& ancestry_of(nodes, node).title is None
            &&& ancestry_of(nodes, node).year is None
        },
{
    lemma_ancestry_is_heard(nodes, node, way);
    lemma_nearest_series(nodes, way, nothing_heard(), 0, k);
}

/// The nearest folder that states a season states that of the file. A folder that
/// names a series only has a say in it where no nearer one names a series. Where
/// no folder states one, none comes from the folders.
pub proof fn law_the_nearest_season_folder_counts(
    nodes: Seq<CrawledNode>,
    node: CrawledNode,
    way: Seq<int>,
    k: int,
)
    requires
        is_way_up(nodes, node, way),
        0 <= k <= way.len() - 1,
        forall|i: int| 0 <= i < k ==> !states_a_season(#[trigger] says(nodes, way, i)),
    ensures
        k < way.len() - 1 ==> (says(nodes, way, k) matches naming::FolderView::Season(season)
            ==> ancestry_of(nodes, node).season == Some(season)),
        k < way.len() - 1 && (forall|i: int|
            0 <= i < k ==> !names_a_series(#[trigger] says(nodes, way, i))) && says(nodes, way, k)
            is Title && states_a_season(says(nodes, way, k)) ==> ancestry_of(nodes, node).season
            == says(nodes, way, k)->Title_0.season,
        k == way.len() - 1 ==> ancestry_of(nodes, node).season is None,
{
    lemma_ancestry_is_heard(nodes, node, way);
    lemma_nearest_season(nodes, way, nothing_heard(), 0, k);
}

/// A file under a season folder, however the file is titled, is of that season
/// unless its own name says otherwise.
pub proof fn law_a_season_folder_numbers_its_files(
    nodes: Seq<CrawledNode>,
    node: CrawledNode,
    way: Seq<int>,
    season: u32,
)
    requires
        is_way_up(nodes, node, way),
        way.len() > 1,
        naming::folder_role(nodes[way[0]].name@) == naming::FolderView::Season(season),
        naming::parsed(node.name@).season is None,
        naming::parsed(node.name@).episode_title is Some || ancestry_of(nodes, node).title is None
            || !naming::states_only_a_season(
            without_series(naming::parsed(node.name@).title, ancestry_of(nodes, node).title->0),
        ),
    ensures
        placed(naming::parsed(node.name@), ancestry_of(nodes, node)).season == Some(season),
{
    assert(says(nodes, way, 0) == naming::FolderView::Season(season));
    law_the_nearest_season_folder_counts(nodes, node, way, 0);
    law_the_folders_fill_what_is_missing(
        naming::parsed(node.name@),
        ancestry_of(nodes, node),
    );
}

/// A row says of its node what was crawled: where it lies, what it is called, what
/// it weighs, and which revision it is.
pub proof fn law_a_row_says_what_was_crawled(
    row: CatalogNode,
    share_id: Seq<char>,
    node: CrawledNode,
    parsed: naming::ParsedView,
)
    requires
        row_is(row, share_id, node, parsed),
    ensures
        row.share_id@ == share_id,
        row.link_id@ == node.uid.link_id@,
        row.volume_id@ == node.uid.volume_id@,
        row.name@ == node.name@,
        row.parent_link_id matches Some(link) ==> (node.parent_uid matches Some(uid) && uid.link_id@
            == link@),
        row.parent_link_id is None ==> node.parent_uid is None,
        row.is_folder <==> node.kind is Folder,
        node.kind matches CrawledKind::File { media_type, claimed_size, active_revision_id }
            ==> row.media_type == Some(media_type) && row.size == claimed_size
            && row.active_revision_id == active_revision_id,
        row.parsed@ == parsed,
{
}

/// A file is listed exactly where its extension is one of a video, and a folder
/// never is.
pub proof fn law_videos_and_nothing_else_are_listed(
    node: CrawledNode,
    body: Seq<char>,
    ext: Seq<char>,
)
    requires
        node.name@ == body.push('.') + ext,
        !ext.contains('.'),
    ensures
        is_video(node) <==> node.kind is File && naming_laws::is_playable(text::lower(ext)),
{
    naming_laws::law_videos_are_told_by_their_extension(body, ext);
}

/// A file in a folder called `Season 02` is of season two, whatever its own name
/// has for a title, unless that name states a season.
pub proof fn law_a_folder_called_season_numbers_its_files(
    nodes: Seq<CrawledNode>,
    node: CrawledNode,
    way: Seq<int>,
    keyword: Seq<char>,
    gap: Seq<char>,
    season: nat,
    width: nat,
)
    requires
        is_way_up(nodes, node, way),
        way.len() > 1,
        nodes[way[0]].name@ == keyword + gap + text::padded(season, width),
        text::lower(keyword) == "season"@ || text::lower(keyword) == seq!['s'],
        forall|i: int|
            0 <= i < gap.len() ==> naming_laws::separates(#[trigger] gap[i]) || gap[i] == '-',
        season <= u32::MAX,
        naming::parsed(node.name@).season is None,
        naming::parsed(node.name@).episode_title is Some || ancestry_of(nodes, node).title is None
            || !naming::states_only_a_season(
            without_series(naming::parsed(node.name@).title, ancestry_of(nodes, node).title->0),
        ),
    ensures
        placed(naming::parsed(node.name@), ancestry_of(nodes, node)).season == Some(season as u32),
{
    naming_laws::law_a_season_folder_states_its_season(keyword, gap, season, width);
    law_a_season_folder_numbers_its_files(nodes, node, way, season as u32);
}

} // verus!
