//! What holds of every shelf.

use vstd::multiset::Multiset;
use vstd::prelude::*;

use crate::catalog;
use crate::catalog::CatalogNode;
use crate::catalog::WatchEntry;
use crate::keys;
use crate::library;
use crate::library::Episode;
use crate::library::SeasonView;
use crate::library::Title;
use crate::library::TitleView;
use crate::naming;
use crate::naming_laws;
use crate::order;
use crate::text;
use crate::unicode;

verus! {

/// One row, as a bag.
pub open spec fn one_row() -> spec_fn(CatalogNode) -> Multiset<CatalogNode> {
    |n: CatalogNode| Multiset::singleton(n)
}

/// The row of an episode, as a bag.
pub open spec fn episode_row() -> spec_fn(Episode) -> Multiset<CatalogNode> {
    |e: Episode| Multiset::singleton(e.node)
}

/// The rows of a season, as a bag.
pub open spec fn season_rows() -> spec_fn(SeasonView) -> Multiset<CatalogNode> {
    |s: SeasonView| order::poured(s.episodes, episode_row())
}

/// The rows of a title, as a bag.
pub open spec fn title_rows() -> spec_fn(TitleView) -> Multiset<CatalogNode> {
    |t: TitleView| order::poured(library::flat(t.seasons), episode_row())
}

proof fn lemma_flat_rows(seasons: Seq<SeasonView>)
    ensures
        order::poured(library::flat(seasons), episode_row()) == order::poured(seasons, season_rows()),
    decreases seasons.len(),
{
    if seasons.len() > 0 {
        lemma_flat_rows(seasons.drop_last());
        order::lemma_poured_concat(
            library::flat(seasons.drop_last()),
            seasons.last().episodes,
            episode_row(),
        );
    }
}

/// The rows with season `s`, as a bag.
spec fn season_part(nodes: Seq<CatalogNode>, watch: Seq<WatchEntry>) -> spec_fn(
    Option<u32>,
) -> Multiset<CatalogNode> {
    |s: Option<u32>| order::poured(library::episodes_in(nodes, s, watch), episode_row())
}

/// One more row adds itself to the season it states, and to no other.
proof fn lemma_season_parts_grow(
    nodes: Seq<CatalogNode>,
    watch: Seq<WatchEntry>,
    seasons: Seq<Option<u32>>,
)
    requires
        nodes.len() > 0,
        seasons.no_duplicates(),
    ensures
        order::poured(seasons, season_part(nodes, watch)) == if seasons.contains(
            nodes.last().parsed.season,
        ) {
            order::poured(seasons, season_part(nodes.drop_last(), watch)).add(
                Multiset::singleton(nodes.last()),
            )
        } else {
            order::poured(seasons, season_part(nodes.drop_last(), watch))
        },
    decreases seasons.len(),
{
    let x = nodes.last();
    let fewer = nodes.drop_last();
    if seasons.len() > 0 {
        let front = seasons.drop_last();
        let s = seasons.last();
        lemma_season_parts_grow(nodes, watch, front);
        if s == x.parsed.season {
            assert(!front.contains(s)) by {
                if front.contains(s) {
                    let k = choose|k: int| 0 <= k < front.len() && front[k] == s;
                    assert(seasons[k] == seasons[seasons.len() - 1]);
                }
            }
            assert(seasons[seasons.len() - 1] == s);
            let grown = library::episodes_in(nodes, s, watch);
            assert(grown.drop_last() =~= library::episodes_in(fewer, s, watch));
            assert(grown.last().node == x);
            assert(order::poured(seasons, season_part(nodes, watch)) =~= order::poured(
                seasons,
                season_part(fewer, watch),
            ).add(Multiset::singleton(x)));
        } else {
            assert(front.contains(x.parsed.season) == seasons.contains(x.parsed.season)) by {
                if seasons.contains(x.parsed.season) {
                    let k = choose|k: int|
                        0 <= k < seasons.len() && seasons[k] == x.parsed.season;
                    assert(front[k] == x.parsed.season);
                }
                if front.contains(x.parsed.season) {
                    let k = choose|k: int| 0 <= k < front.len() && front[k] == x.parsed.season;
                    assert(seasons[k] == x.parsed.season);
                }
            }
            if front.contains(x.parsed.season) {
                assert(order::poured(seasons, season_part(nodes, watch)) =~= order::poured(
                    seasons,
                    season_part(fewer, watch),
                ).add(Multiset::singleton(x)));
            }
        }
    }
}

/// Seasons that cover the rows hold each of them once.
proof fn lemma_season_parts(
    nodes: Seq<CatalogNode>,
    watch: Seq<WatchEntry>,
    seasons: Seq<Option<u32>>,
)
    requires
        seasons.no_duplicates(),
        forall|i: int|
            0 <= i < nodes.len() ==> seasons.contains((#[trigger] nodes[i]).parsed.season),
    ensures
        order::poured(seasons, season_part(nodes, watch)) == order::poured(nodes, one_row()),
    decreases nodes.len(),
{
    if nodes.len() == 0 {
        lemma_nothing_in_seasons(nodes, watch, seasons);
    } else {
        let fewer = nodes.drop_last();
        assert forall|i: int| 0 <= i < fewer.len() implies seasons.contains(
            (#[trigger] fewer[i]).parsed.season,
        ) by {
            assert(nodes[i] == fewer[i]);
        }
        assert(nodes[nodes.len() - 1] == nodes.last());
        lemma_season_parts(fewer, watch, seasons);
        lemma_season_parts_grow(nodes, watch, seasons);
    }
}

proof fn lemma_nothing_in_seasons(
    nodes: Seq<CatalogNode>,
    watch: Seq<WatchEntry>,
    seasons: Seq<Option<u32>>,
)
    requires
        nodes.len() == 0,
    ensures
        order::poured(seasons, season_part(nodes, watch)) == Multiset::<CatalogNode>::empty(),
    decreases seasons.len(),
{
    if seasons.len() > 0 {
        lemma_nothing_in_seasons(nodes, watch, seasons.drop_last());
        assert(order::poured(seasons, season_part(nodes, watch)) =~= Multiset::empty());
    }
}

proof fn lemma_seasons_cover(nodes: Seq<CatalogNode>)
    ensures
        library::seasons_in(nodes).no_duplicates(),
        forall|i: int|
            0 <= i < nodes.len() ==> library::seasons_in(nodes).contains(
                (#[trigger] nodes[i]).parsed.season,
            ),
    decreases nodes.len(),
{
    if nodes.len() > 0 {
        let fewer = nodes.drop_last();
        lemma_seasons_cover(fewer);
        let before = library::seasons_in(fewer);
        let after = library::seasons_in(nodes);
        let last = nodes.last().parsed.season;
        assert(after.contains(last)) by {
            if !before.contains(last) {
                assert(after[after.len() - 1] == last);
            }
        }
        assert forall|i: int| 0 <= i < nodes.len() implies after.contains(
            (#[trigger] nodes[i]).parsed.season,
        ) by {
            if i < fewer.len() {
                assert(fewer[i] == nodes[i]);
                let k = choose|k: int|
                    0 <= k < before.len() && before[k] == nodes[i].parsed.season;
                assert(after[k] == nodes[i].parsed.season);
            }
        }
    }
}

/// The seasons of one title hold each row filed under it once.
proof fn lemma_title_rows(key: Seq<char>, nodes: Seq<CatalogNode>, watch: Seq<WatchEntry>)
    ensures
        title_rows()(library::title_of(key, nodes, watch)) == order::poured(nodes, one_row()),
{
    let piles = library::piles_of(nodes, watch);
    let title = library::title_of(key, nodes, watch);
    lemma_flat_rows(title.seasons);
    order::lemma_sorted_poured(piles, library::season_order(), season_rows());
    lemma_seasons_cover(nodes);
    lemma_season_parts(nodes, watch, library::seasons_in(nodes));
    lemma_piles_poured(nodes, watch, library::seasons_in(nodes).len() as int);
    assert(piles.take(piles.len() as int) =~= piles);
    assert(library::seasons_in(nodes).take(piles.len() as int) =~= library::seasons_in(nodes));
}

proof fn lemma_piles_poured(nodes: Seq<CatalogNode>, watch: Seq<WatchEntry>, n: int)
    requires
        0 <= n <= library::seasons_in(nodes).len(),
    ensures
        order::poured(library::piles_of(nodes, watch).take(n), season_rows()) == order::poured(
            library::seasons_in(nodes).take(n),
            season_part(nodes, watch),
        ),
    decreases n,
{
    let piles = library::piles_of(nodes, watch);
    let seasons = library::seasons_in(nodes);
    if n > 0 {
        lemma_piles_poured(nodes, watch, n - 1);
        assert(piles.take(n).drop_last() =~= piles.take(n - 1));
        assert(seasons.take(n).drop_last() =~= seasons.take(n - 1));
        order::lemma_sorted_poured(
            library::episodes_in(nodes, seasons[n - 1], watch),
            order::rank::<Episode>(),
            episode_row(),
        );
    }
}

/// The rows filed under `k`, as a bag.
spec fn key_part(nodes: Seq<CatalogNode>) -> spec_fn(Seq<char>) -> Multiset<CatalogNode> {
    |k: Seq<char>| order::poured(library::filed_under(nodes, k), one_row())
}

/// One more row adds itself to the title it states, and to no other.
proof fn lemma_key_parts_grow(nodes: Seq<CatalogNode>, names: Seq<Seq<char>>)
    requires
        nodes.len() > 0,
        names.no_duplicates(),
    ensures
        order::poured(names, key_part(nodes)) == if names.contains(library::key_of(nodes.last())) {
            order::poured(names, key_part(nodes.drop_last())).add(Multiset::singleton(nodes.last()))
        } else {
            order::poured(names, key_part(nodes.drop_last()))
        },
    decreases names.len(),
{
    let x = nodes.last();
    let fewer = nodes.drop_last();
    let key = library::key_of(x);
    if names.len() > 0 {
        let front = names.drop_last();
        let k = names.last();
        lemma_key_parts_grow(nodes, front);
        if k == key {
            assert(!front.contains(k)) by {
                if front.contains(k) {
                    let i = choose|i: int| 0 <= i < front.len() && front[i] == k;
                    assert(names[i] == names[names.len() - 1]);
                }
            }
            assert(names[names.len() - 1] == k);
            let grown = library::filed_under(nodes, k);
            assert(grown.drop_last() =~= library::filed_under(fewer, k));
            assert(order::poured(names, key_part(nodes)) =~= order::poured(names, key_part(fewer)).add(
                Multiset::singleton(x),
            ));
        } else {
            assert(front.contains(key) == names.contains(key)) by {
                if names.contains(key) {
                    let i = choose|i: int| 0 <= i < names.len() && names[i] == key;
                    assert(front[i] == key);
                }
                if front.contains(key) {
                    let i = choose|i: int| 0 <= i < front.len() && front[i] == key;
                    assert(names[i] == key);
                }
            }
            if front.contains(key) {
                assert(order::poured(names, key_part(nodes)) =~= order::poured(names, key_part(fewer)).add(
                    Multiset::singleton(x),
                ));
            }
        }
    }
}

proof fn lemma_nothing_filed(nodes: Seq<CatalogNode>, names: Seq<Seq<char>>)
    requires
        nodes.len() == 0,
    ensures
        order::poured(names, key_part(nodes)) == Multiset::<CatalogNode>::empty(),
    decreases names.len(),
{
    if names.len() > 0 {
        lemma_nothing_filed(nodes, names.drop_last());
        assert(order::poured(names, key_part(nodes)) =~= Multiset::empty());
    }
}

/// Keys that cover the rows hold each of them once.
proof fn lemma_key_parts(nodes: Seq<CatalogNode>, names: Seq<Seq<char>>)
    requires
        names.no_duplicates(),
        forall|i: int| 0 <= i < nodes.len() ==> names.contains(library::key_of(#[trigger] nodes[i])),
    ensures
        order::poured(names, key_part(nodes)) == order::poured(nodes, one_row()),
    decreases nodes.len(),
{
    if nodes.len() == 0 {
        lemma_nothing_filed(nodes, names);
    } else {
        let fewer = nodes.drop_last();
        assert forall|i: int| 0 <= i < fewer.len() implies names.contains(
            library::key_of(#[trigger] fewer[i]),
        ) by {
            assert(nodes[i] == fewer[i]);
        }
        assert(nodes[nodes.len() - 1] == nodes.last());
        lemma_key_parts(fewer, names);
        lemma_key_parts_grow(nodes, names);
    }
}

proof fn lemma_keys_cover(nodes: Seq<CatalogNode>)
    ensures
        library::keys_in(nodes).no_duplicates(),
        forall|i: int|
            0 <= i < nodes.len() ==> library::keys_in(nodes).contains(library::key_of(#[trigger] nodes[i])),
    decreases nodes.len(),
{
    if nodes.len() > 0 {
        let fewer = nodes.drop_last();
        lemma_keys_cover(fewer);
        let before = library::keys_in(fewer);
        let after = library::keys_in(nodes);
        let last = library::key_of(nodes.last());
        assert(after.contains(last)) by {
            if !before.contains(last) {
                assert(after[after.len() - 1] == last);
            }
        }
        assert forall|i: int| 0 <= i < nodes.len() implies after.contains(
            library::key_of(#[trigger] nodes[i]),
        ) by {
            if i < fewer.len() {
                assert(fewer[i] == nodes[i]);
                let k = choose|k: int| 0 <= k < before.len() && before[k] == library::key_of(nodes[i]);
                assert(after[k] == library::key_of(nodes[i]));
            }
        }
    }
}

proof fn lemma_titles_poured(nodes: Seq<CatalogNode>, watch: Seq<WatchEntry>, n: int)
    requires
        0 <= n <= library::keys_in(library::playable(nodes)).len(),
    ensures
        order::poured(library::titles_of(nodes, watch).take(n), title_rows()) == order::poured(
            library::keys_in(library::playable(nodes)).take(n),
            key_part(library::playable(nodes)),
        ),
    decreases n,
{
    let files = library::playable(nodes);
    let titles = library::titles_of(nodes, watch);
    let names = library::keys_in(files);
    if n > 0 {
        lemma_titles_poured(nodes, watch, n - 1);
        assert(titles.take(n).drop_last() =~= titles.take(n - 1));
        assert(names.take(n).drop_last() =~= names.take(n - 1));
        lemma_title_rows(names[n - 1], library::filed_under(files, names[n - 1]), watch);
    }
}

/// Every playable file is on the shelf, and on it once: grouping and sorting
/// lose no row and repeat none.
pub proof fn law_no_file_is_lost(nodes: Seq<CatalogNode>, watch: Seq<WatchEntry>)
    ensures
        order::poured(library::shelf(nodes, watch), title_rows()) == order::poured(library::playable(nodes), one_row()),
{
    let files = library::playable(nodes);
    let titles = library::titles_of(nodes, watch);
    order::lemma_sorted_poured(titles, library::shelf_order(), title_rows());
    lemma_titles_poured(nodes, watch, titles.len() as int);
    assert(titles.take(titles.len() as int) =~= titles);
    assert(library::keys_in(files).take(titles.len() as int) =~= library::keys_in(files));
    lemma_keys_cover(files);
    lemma_key_parts(files, library::keys_in(files));
}

/// Two titles with different keys.
pub open spec fn keys_differ() -> spec_fn(TitleView, TitleView) -> bool {
    |a: TitleView, b: TitleView| a.key != b.key
}

/// One title is one poster: no two titles on the shelf have the same key,
/// whatever shares their files came from.
pub proof fn law_titles_are_distinct(nodes: Seq<CatalogNode>, watch: Seq<WatchEntry>)
    ensures
        order::pairwise(library::shelf(nodes, watch), keys_differ()),
{
    let titles = library::titles_of(nodes, watch);
    lemma_keys_cover(library::playable(nodes));
    assert forall|i: int, j: int|
        #![trigger titles[i], titles[j]]
        0 <= i < titles.len() && 0 <= j < titles.len() && i != j implies keys_differ()(
        titles[i],
        titles[j],
    ) by {
        let names = library::keys_in(library::playable(nodes));
        assert(names[i] != names[j]);
    }
    order::lemma_sorted_pairwise(titles, library::shelf_order(), keys_differ());
}

/// Episodes rank.
proof fn lemma_episodes_rank()
    ensures
        order::ranks(order::rank::<Episode>()),
{
    let lt = order::rank::<Episode>();
    assert forall|a: Episode, b: Episode| #[trigger] lt(a, b) implies !lt(b, a) by {
        order::lemma_text_order(a.node.name@, b.node.name@, a.node.name@);
    }
    assert forall|a: Episode, b: Episode, c: Episode|
        !#[trigger] lt(a, b) && !#[trigger] lt(b, c) implies !lt(a, c) by {
        order::lemma_text_order(a.node.name@, b.node.name@, c.node.name@);
    }
}

/// The shelf is in order: titles by the name they are shelved under, and in
/// each the numbered seasons by number with the unnumbered pile last.
pub proof fn law_shelf_is_in_order(nodes: Seq<CatalogNode>, watch: Seq<WatchEntry>)
    ensures
        order::in_order(library::shelf(nodes, watch), library::shelf_order()),
        forall|i: int|
            0 <= i < library::shelf(nodes, watch).len() ==> order::in_order(
                (#[trigger] library::shelf(nodes, watch)[i]).seasons,
                library::season_order(),
            ),
{
    let titles = library::titles_of(nodes, watch);
    let lt = library::shelf_order();
    assert(order::ranks(lt)) by {
        assert forall|a: TitleView, b: TitleView| #[trigger] lt(a, b) implies !lt(b, a) by {
            order::lemma_text_order(
                keys::sort_name_of(a.name),
                keys::sort_name_of(b.name),
                keys::sort_name_of(a.name),
            );
        }
        assert forall|a: TitleView, b: TitleView, c: TitleView|
            !#[trigger] lt(a, b) && !#[trigger] lt(b, c) implies !lt(a, c) by {
            order::lemma_text_order(
                keys::sort_name_of(a.name),
                keys::sort_name_of(b.name),
                keys::sort_name_of(c.name),
            );
        }
    }
    order::lemma_sorted(titles, lt);
    let on_shelf = library::shelf(nodes, watch);
    assert forall|i: int| 0 <= i < on_shelf.len() implies order::in_order(
        (#[trigger] on_shelf[i]).seasons,
        library::season_order(),
    ) by {
        order::lemma_sorted_contains(titles, lt, on_shelf[i]);
        assert(titles.contains(on_shelf[i]));
        let k = choose|k: int| 0 <= k < titles.len() && titles[k] == on_shelf[i];
        let files = library::playable(nodes);
        order::lemma_sorted(
            library::piles_of(library::filed_under(files, library::keys_in(files)[k]), watch),
            library::season_order(),
        );
        assert(order::ranks(library::season_order()));
    }
}

/// Inside a season the episodes go by number, and those of one number by
/// filename.
pub proof fn law_episodes_are_in_order(
    key: Seq<char>,
    nodes: Seq<CatalogNode>,
    watch: Seq<WatchEntry>,
)
    ensures
        forall|i: int|
            0 <= i < library::title_of(key, nodes, watch).seasons.len() ==> order::in_order(
                (#[trigger] library::title_of(key, nodes, watch).seasons[i]).episodes,
                order::rank::<Episode>(),
            ),
{
    let piles = library::piles_of(nodes, watch);
    let seasons = library::title_of(key, nodes, watch).seasons;
    lemma_episodes_rank();
    assert forall|i: int| 0 <= i < seasons.len() implies order::in_order(
        (#[trigger] seasons[i]).episodes,
        order::rank::<Episode>(),
    ) by {
        order::lemma_sorted_contains(piles, library::season_order(), seasons[i]);
        assert(piles.contains(seasons[i]));
        let k = choose|k: int| 0 <= k < piles.len() && piles[k] == seasons[i];
        order::lemma_sorted(library::episodes_in(nodes, library::seasons_in(nodes)[k], watch), order::rank::<Episode>());
    }
}

/// What is resumed is part-watched, and nothing part-watched was played later.
pub proof fn law_resume_is_the_latest(episodes: Seq<Episode>)
    ensures
        match library::resume_index(episodes) {
            Some(i) => {
                &&& 0 <= i < episodes.len()
                &&& episodes[i].resumes() is Some
                &&& forall|j: int|
                    0 <= j < episodes.len() && (#[trigger] episodes[j]).resumes() is Some
                        ==> episodes[j].touched() <= episodes[i].touched()
                &&& forall|j: int|
                    i < j < episodes.len() && (#[trigger] episodes[j]).resumes() is Some
                        ==> episodes[j].touched() < episodes[i].touched()
            },
            None => forall|j: int|
                0 <= j < episodes.len() ==> (#[trigger] episodes[j]).resumes() is None,
        },
    decreases episodes.len(),
{
    if episodes.len() > 0 {
        law_resume_is_the_latest(episodes.drop_last());
        let front = episodes.drop_last();
        assert forall|j: int| 0 <= j < front.len() implies #[trigger] episodes[j] == front[j] by {}
    }
}

/// A click on a poster plays something unwatched for as long as there is
/// something unwatched.
pub proof fn law_next_up_is_unwatched(episodes: Seq<Episode>, i: int)
    requires
        0 <= i < episodes.len(),
        !episodes[i].seen(),
    ensures
        library::next_up_index(episodes) matches Some(k) && 0 <= k < episodes.len()
            && !episodes[k].seen(),
{
    law_resume_is_the_latest(episodes);
    text::lemma_first_from(0, episodes.len() as int, library::unwatched(episodes));
    assert(library::unwatched(episodes)(i));
}

/// Any title with a file has something to play.
pub proof fn law_next_up_exists(episodes: Seq<Episode>)
    requires
        episodes.len() > 0,
    ensures
        library::next_up_index(episodes) matches Some(k) && 0 <= k < episodes.len(),
{
    law_resume_is_the_latest(episodes);
    text::lemma_first_from(0, episodes.len() as int, library::unwatched(episodes));
}

/// A file is found where it stands when no file before it has its identity.
pub proof fn law_file_index_is_exact(episodes: Seq<Episode>, i: int)
    requires
        0 <= i < episodes.len(),
        forall|j: int|
            0 <= j < i ==> !((#[trigger] episodes[j]).node.share_id@ == episodes[i].node.share_id@
                && episodes[j].node.link_id@ == episodes[i].node.link_id@),
    ensures
        library::file_index(episodes, episodes[i].node.share_id@, episodes[i].node.link_id@) == Some(i),
{
    let share = episodes[i].node.share_id@;
    let link = episodes[i].node.link_id@;
    text::lemma_first_from(0, episodes.len() as int, library::is_file(episodes, share, link));
    assert(library::is_file(episodes, share, link)(i));
    let found = library::file_index(episodes, share, link);
    assert(found is Some);
    if found->0 < i {
        assert(library::is_file(episodes, share, link)(found->0));
        assert(episodes[found->0].node.share_id@ == share);
    }
}

/// Playback goes on exactly where it stopped, and only in a file that was left
/// half a minute in or later, short of nine tenths of it, and not marked as
/// watched. Every such file goes on.
pub proof fn law_playback_goes_on_where_it_stopped(episode: Episode)
    ensures
        episode.resumes() matches Some(position) ==> episode.watch matches Some(watch) && position
            == watch.position_ms && !watch.watched && position >= 30_000 && (
        watch.duration_ms matches Some(length) ==> length == 0 || position * 10 < length * 9),
        episode.watch matches Some(watch) ==> !watch.watched && watch.position_ms >= 30_000 && (
        watch.duration_ms matches Some(length) ==> length == 0 || watch.position_ms * 10 < length
            * 9) ==> episode.resumes() == Some(watch.position_ms),
        episode.watch is None ==> episode.resumes() is None,
{
}

/// A file counts as seen once it is marked so or nine tenths of it were played,
/// and in no other case.
pub proof fn law_nine_tenths_are_the_whole(episode: Episode)
    ensures
        episode.watch is None ==> !episode.seen(),
        episode.watch matches Some(watch) ==> watch.watched ==> episode.seen(),
        episode.watch matches Some(watch) ==> !watch.watched && watch.duration_ms is None
            ==> !episode.seen(),
        episode.watch matches Some(watch) ==> watch.duration_ms matches Some(length)
            ==> !watch.watched ==> (episode.seen() <==> length > 0 && watch.position_ms * 10
            >= length * 9),
{
}

/// What was played of a file is a part of its length: the position out of the
/// length, and never more than all of it.
pub proof fn law_progress_is_a_part_of_the_length(episode: Episode)
    ensures
        episode.played() matches Some(p) ==> episode.watch matches Some(watch)
            && watch.duration_ms == Some(p.of) && p.of > 0 && p.played <= p.of && p.played
            <= watch.position_ms && (p.played < p.of ==> p.played == watch.position_ms),
        episode.watch matches Some(watch) ==> watch.duration_ms matches Some(length) ==> length > 0
            ==> episode.played() is Some,
{
}

/// A click on a poster plays what is part-watched where anything is, else the
/// first episode that is not seen, else the first of all.
pub proof fn law_next_up_takes_turns(episodes: Seq<Episode>, i: int)
    requires
        0 <= i < episodes.len(),
    ensures
        ({
            let next = library::next_up_index(episodes)->0;
            let nothing_to_resume = forall|j: int|
                0 <= j < episodes.len() ==> (#[trigger] episodes[j]).resumes() is None;
            let all_seen = forall|j: int| 0 <= j < episodes.len() ==> (#[trigger] episodes[j]).seen();
            &&& library::next_up_index(episodes) is Some
            &&& episodes[i].resumes() is Some ==> episodes[next].resumes() is Some
                && episodes[next].touched() >= episodes[i].touched()
            &&& nothing_to_resume && !episodes[i].seen() ==> 0 <= next <= i
                && !episodes[next].seen()
            &&& nothing_to_resume && all_seen ==> next == 0
        }),
{
    law_resume_is_the_latest(episodes);
    text::lemma_first_from(0, episodes.len() as int, library::unwatched(episodes));
    if !episodes[i].seen() {
        assert(library::unwatched(episodes)(i));
    }
    if let Some(k) = text::first_from(0, episodes.len() as int, library::unwatched(episodes)) {
        assert(library::unwatched(episodes)(k));
    }
}

/// When a file was last played is what was recorded of it, and a file never
/// opened comes below all that were.
pub proof fn law_last_played_is_what_was_recorded(episode: Episode)
    ensures
        episode.watch matches Some(watch) ==> episode.touched() == watch.updated_at,
        episode.watch is None ==> episode.touched() == 0,
{
}

/// A title was last played when the latest of its files was.
pub proof fn law_a_title_is_as_recent_as_its_latest_file(episodes: Seq<Episode>, i: int)
    requires
        0 <= i < episodes.len(),
    ensures
        episodes[i].touched() <= library::last_touched(episodes),
        exists|j: int|
            0 <= j < episodes.len() && (#[trigger] episodes[j]).touched() == library::last_touched(
                episodes,
            ),
    decreases episodes.len(),
{
    let front = episodes.drop_last();
    assert(episodes[episodes.len() - 1] == episodes.last());
    if front.len() > 0 {
        law_a_title_is_as_recent_as_its_latest_file(front, if i < front.len() {
            i
        } else {
            0
        });
        let j = choose|j: int|
            0 <= j < front.len() && (#[trigger] front[j]).touched() == library::last_touched(front);
        assert(episodes[j] == front[j]);
        if i < front.len() {
            assert(episodes[i] == front[i]);
        }
    }
}

/// What counts as watched is counted file by file: one more file adds one where
/// it is seen, and nothing otherwise.
pub proof fn law_watched_files_are_counted(episodes: Seq<Episode>, more: Episode)
    ensures
        library::seen_count(Seq::<Episode>::empty()) == 0,
        library::seen_count(episodes.push(more)) == library::seen_count(episodes) + if more.seen() {
            1int
        } else {
            0int
        },
        library::seen_count(episodes) <= episodes.len(),
    decreases episodes.len(),
{
    assert(episodes.push(more).drop_last() =~= episodes);
    if episodes.len() > 0 {
        law_watched_files_are_counted(episodes.drop_last(), episodes.last());
    }
}

// ---------------------------------------------------------------------------
// Where a file is shelved
// ---------------------------------------------------------------------------

/// Only folders are left out of the shelf, and the rest keep their order.
pub proof fn law_only_folders_are_left_out(nodes: Seq<CatalogNode>)
    ensures
        library::playable(nodes) == nodes.filter(|node: CatalogNode| !node.is_folder),
    decreases nodes.len(),
{
    reveal(Seq::filter);
    if nodes.len() > 0 {
        law_only_folders_are_left_out(nodes.drop_last());
    } else {
        assert(library::playable(nodes) =~= nodes.filter(|node: CatalogNode| !node.is_folder));
    }
}

proof fn lemma_playable_contains(nodes: Seq<CatalogNode>, node: CatalogNode)
    ensures
        library::playable(nodes).contains(node) <==> nodes.contains(node) && !node.is_folder,
    decreases nodes.len(),
{
    if nodes.len() > 0 {
        let front = nodes.drop_last();
        lemma_playable_contains(front, node);
        lemma_push_contains(front, nodes.last(), node);
        assert(front.push(nodes.last()) =~= nodes);
        if !nodes.last().is_folder {
            lemma_push_contains(library::playable(front), nodes.last(), node);
        }
    }
}

proof fn lemma_push_contains<T>(s: Seq<T>, x: T, y: T)
    ensures
        s.push(x).contains(y) <==> s.contains(y) || x == y,
{
    if s.push(x).contains(y) {
        let k = choose|k: int| 0 <= k < s.push(x).len() && s.push(x)[k] == y;
        if k < s.len() {
            assert(s[k] == y);
        }
    }
    if s.contains(y) {
        let k = choose|k: int| 0 <= k < s.len() && s[k] == y;
        assert(s.push(x)[k] == y);
    }
    if x == y {
        assert(s.push(x)[s.len() as int] == y);
    }
}

proof fn lemma_filed_contains(nodes: Seq<CatalogNode>, key: Seq<char>, node: CatalogNode)
    ensures
        library::filed_under(nodes, key).contains(node) <==> nodes.contains(node)
            && keys::title_key_of(node.parsed.title@) == key,
    decreases nodes.len(),
{
    if nodes.len() > 0 {
        let front = nodes.drop_last();
        lemma_filed_contains(front, key, node);
        lemma_push_contains(front, nodes.last(), node);
        assert(front.push(nodes.last()) =~= nodes);
        if library::key_of(nodes.last()) == key {
            lemma_push_contains(library::filed_under(front, key), nodes.last(), node);
        }
    }
}

proof fn lemma_episodes_in(
    nodes: Seq<CatalogNode>,
    season: Option<u32>,
    watch: Seq<WatchEntry>,
    i: int,
)
    requires
        0 <= i < library::episodes_in(nodes, season, watch).len(),
    ensures
        ({
            let episode = library::episodes_in(nodes, season, watch)[i];
            &&& nodes.contains(episode.node)
            &&& episode.node.parsed.season == season
            &&& episode.watch == catalog::watch_of(
                watch,
                episode.node.share_id@,
                episode.node.link_id@,
            )
        }),
    decreases nodes.len(),
{
    let front = nodes.drop_last();
    let before = library::episodes_in(front, season, watch);
    if i < before.len() {
        lemma_episodes_in(front, season, watch, i);
        let node = before[i].node;
        lemma_push_contains(front, nodes.last(), node);
        assert(front.push(nodes.last()) =~= nodes);
        assert(library::episodes_in(nodes, season, watch)[i] == before[i]);
    } else {
        assert(nodes[nodes.len() - 1] == nodes.last());
    }
}

/// The watch state of a file is the one recorded for its share and its link, and
/// of no other file; one that has none was never played.
pub proof fn law_watch_state_belongs_to_its_file(
    watch: Seq<WatchEntry>,
    share_id: Seq<char>,
    link_id: Seq<char>,
    k: int,
)
    requires
        0 <= k < watch.len(),
        watch[k].share_id@ == share_id,
        watch[k].link_id@ == link_id,
        forall|j: int|
            k < j < watch.len() ==> !((#[trigger] watch[j]).share_id@ == share_id
                && watch[j].link_id@ == link_id),
    ensures
        catalog::watch_of(watch, share_id, link_id) == Some(watch[k].state),
    decreases watch.len(),
{
    if k < watch.len() - 1 {
        assert(!(watch[watch.len() - 1].share_id@ == share_id && watch[watch.len() - 1].link_id@
            == link_id));
        assert forall|j: int| k < j < watch.drop_last().len() implies !((
        #[trigger] watch.drop_last()[j]).share_id@ == share_id && watch.drop_last()[j].link_id@
            == link_id) by {
            assert(watch.drop_last()[j] == watch[j]);
        }
        law_watch_state_belongs_to_its_file(watch.drop_last(), share_id, link_id, k);
    }
}

/// A file that nothing was recorded for has no watch state.
pub proof fn law_an_unplayed_file_has_no_watch_state(
    watch: Seq<WatchEntry>,
    share_id: Seq<char>,
    link_id: Seq<char>,
)
    requires
        forall|j: int|
            0 <= j < watch.len() ==> !((#[trigger] watch[j]).share_id@ == share_id
                && watch[j].link_id@ == link_id),
    ensures
        catalog::watch_of(watch, share_id, link_id) is None,
    decreases watch.len(),
{
    if watch.len() > 0 {
        assert(watch[watch.len() - 1] == watch.last());
        assert forall|j: int| 0 <= j < watch.drop_last().len() implies !((
        #[trigger] watch.drop_last()[j]).share_id@ == share_id && watch.drop_last()[j].link_id@
            == link_id) by {
            assert(watch.drop_last()[j] == watch[j]);
        }
        law_an_unplayed_file_has_no_watch_state(watch.drop_last(), share_id, link_id);
    }
}

/// Every file on the shelf is a file of the catalog, stands under the key of its
/// own title and in the season its name states, and has its own watch state.
#[verifier::rlimit(40)]
pub proof fn law_every_file_is_filed_where_it_belongs(
    nodes: Seq<CatalogNode>,
    watch: Seq<WatchEntry>,
    t: int,
    s: int,
    e: int,
)
    requires
        0 <= t < library::shelf(nodes, watch).len(),
        0 <= s < library::shelf(nodes, watch)[t].seasons.len(),
        0 <= e < library::shelf(nodes, watch)[t].seasons[s].episodes.len(),
    ensures
        ({
            let title = library::shelf(nodes, watch)[t];
            let season = title.seasons[s];
            let episode = season.episodes[e];
            &&& nodes.contains(episode.node) && !episode.node.is_folder
            &&& title.key == keys::title_key_of(episode.node.parsed.title@)
            &&& season.number == episode.node.parsed.season
            &&& episode.watch == catalog::watch_of(
                watch,
                episode.node.share_id@,
                episode.node.link_id@,
            )
        }),
{
    let title = library::shelf(nodes, watch)[t];
    let season = title.seasons[s];
    let episode = season.episodes[e];
    let files = library::playable(nodes);
    let k = lemma_title_on_shelf(nodes, watch, t);
    let key = library::keys_in(files)[k];
    let filed = library::filed_under(files, key);
    let piles = library::piles_of(filed, watch);
    order::lemma_sorted_contains(piles, library::season_order(), season);
    assert(piles.contains(season));
    let p = choose|p: int| 0 <= p < piles.len() && piles[p] == season;
    let number = library::seasons_in(filed)[p];
    let loose = library::episodes_in(filed, number, watch);
    order::lemma_sorted_contains(loose, order::rank::<Episode>(), episode);
    assert(season.episodes.contains(episode));
    assert(loose.contains(episode));
    let i = choose|i: int| 0 <= i < loose.len() && loose[i] == episode;
    lemma_episodes_in(filed, number, watch, i);
    lemma_filed_contains(files, key, episode.node);
    lemma_playable_contains(nodes, episode.node);
}

/// Which of the titles the one at `t` on the shelf is.
proof fn lemma_title_on_shelf(nodes: Seq<CatalogNode>, watch: Seq<WatchEntry>, t: int) -> (k: int)
    requires
        0 <= t < library::shelf(nodes, watch).len(),
    ensures
        ({
            let files = library::playable(nodes);
            let key = library::keys_in(files)[k];
            &&& 0 <= k < library::keys_in(files).len()
            &&& library::shelf(nodes, watch)[t] == library::title_of(
                key,
                library::filed_under(files, key),
                watch,
            )
        }),
{
    let titles = library::titles_of(nodes, watch);
    let title = library::shelf(nodes, watch)[t];
    order::lemma_sorted_contains(titles, library::shelf_order(), title);
    assert(library::shelf(nodes, watch).contains(title));
    assert(titles.contains(title));
    choose|k: int| 0 <= k < titles.len() && titles[k] == title
}

proof fn lemma_keys_are_filed(nodes: Seq<CatalogNode>, k: int)
    requires
        0 <= k < library::keys_in(nodes).len(),
    ensures
        library::filed_under(nodes, library::keys_in(nodes)[k]).len() > 0,
    decreases nodes.len(),
{
    let front = nodes.drop_last();
    if k < library::keys_in(front).len() {
        lemma_keys_are_filed(front, k);
    }
}

proof fn lemma_first_year(nodes: Seq<CatalogNode>, node: CatalogNode)
    ensures
        library::first_year(nodes) is None && nodes.contains(node) ==> node.parsed.year is None,
        library::first_year(nodes) matches Some(y) ==> exists|i: int|
            #![trigger nodes[i]]
            0 <= i < nodes.len() && nodes[i].parsed.year == Some(y) && forall|j: int|
                0 <= j < i ==> (#[trigger] nodes[j]).parsed.year is None,
    decreases nodes.len(),
{
    if nodes.len() > 0 {
        let front = nodes.drop_last();
        lemma_first_year(front, node);
        lemma_push_contains(front, nodes.last(), node);
        assert(front.push(nodes.last()) =~= nodes);
        if let Some(y) = library::first_year(front) {
            let i = choose|i: int|
                #![trigger front[i]]
                0 <= i < front.len() && front[i].parsed.year == Some(y) && forall|j: int|
                    0 <= j < i ==> (#[trigger] front[j]).parsed.year is None;
            assert(nodes[i] == front[i]);
            assert forall|j: int| 0 <= j < i implies (#[trigger] nodes[j]).parsed.year is None by {
                assert(front[j] == nodes[j]);
            }
        } else if nodes.last().parsed.year is Some {
            assert forall|j: int| 0 <= j < front.len() implies (#[trigger] nodes[j]).parsed.year
                is None by {
                assert(front.contains(front[j]));
                lemma_first_year(front, front[j]);
            }
            assert(nodes[nodes.len() - 1].parsed.year == library::first_year(nodes));
        }
    }
}

proof fn lemma_shares_in(nodes: Seq<CatalogNode>, share: Seq<char>)
    ensures
        library::shares_in(nodes).contains(share) <==> exists|i: int|
            0 <= i < nodes.len() && (#[trigger] nodes[i]).share_id@ == share,
        library::shares_in(nodes).no_duplicates(),
    decreases nodes.len(),
{
    if nodes.len() > 0 {
        let front = nodes.drop_last();
        lemma_shares_in(front, share);
        let before = library::shares_in(front);
        let last = nodes.last().share_id@;
        lemma_push_contains(before, last, share);
        assert(nodes[nodes.len() - 1] == nodes.last());
        if exists|i: int| 0 <= i < front.len() && (#[trigger] front[i]).share_id@ == share {
            let i = choose|i: int| 0 <= i < front.len() && (#[trigger] front[i]).share_id@ == share;
            assert(nodes[i].share_id@ == share);
        }
        if exists|i: int| 0 <= i < nodes.len() && (#[trigger] nodes[i]).share_id@ == share {
            let i = choose|i: int| 0 <= i < nodes.len() && (#[trigger] nodes[i]).share_id@ == share;
            if i < front.len() {
                assert(front[i].share_id@ == share);
            }
        }
        if !before.contains(last) {
            assert forall|a: int, b: int|
                0 <= a < before.push(last).len() && 0 <= b < before.push(last).len() && a
                    != b implies before.push(last)[a] != before.push(last)[b] by {
                if a == before.len() {
                    assert(before.contains(before[b]));
                } else if b == before.len() {
                    assert(before.contains(before[a]));
                }
            }
        }
    }
}

/// What a title on the shelf says of itself. It is named by the first of its
/// files. It is a film exactly where it is one file that numbers nothing. Its
/// year is the first that any of its files states. Its shares are those that its
/// files lie in, each once.
#[verifier::rlimit(40)]
pub proof fn law_a_title_says_what_its_files_say(
    nodes: Seq<CatalogNode>,
    watch: Seq<WatchEntry>,
    t: int,
    node: CatalogNode,
)
    requires
        0 <= t < library::shelf(nodes, watch).len(),
    ensures
        ({
            let title = library::shelf(nodes, watch)[t];
            let own = nodes.filter(
                |n: CatalogNode|
                    !n.is_folder && keys::title_key_of(n.parsed.title@) == title.key,
            );
            &&& own.len() > 0
            &&& title.name == own[0].parsed.title@
            &&& title.kind is Film <==> own.len() == 1 && own[0].parsed.season is None
                && own[0].parsed.episode is None
            &&& own.contains(node) && title.year is None ==> node.parsed.year is None
            &&& title.year matches Some(y) ==> exists|i: int|
                #![trigger own[i]]
                0 <= i < own.len() && own[i].parsed.year == Some(y) && forall|j: int|
                    0 <= j < i ==> (#[trigger] own[j]).parsed.year is None
            &&& own.contains(node) ==> title.share_ids.contains(node.share_id@)
            &&& title.share_ids.no_duplicates()
        }),
{
    let title = library::shelf(nodes, watch)[t];
    let files = library::playable(nodes);
    let k = lemma_title_on_shelf(nodes, watch, t);
    let key = library::keys_in(files)[k];
    let filed = library::filed_under(files, key);
    lemma_keys_are_filed(files, k);
    lemma_filed_is_filter(nodes, key);
    let own = nodes.filter(
        |n: CatalogNode| !n.is_folder && keys::title_key_of(n.parsed.title@) == title.key,
    );
    assert(own == filed);
    lemma_first_year(filed, node);
    lemma_shares_in(filed, node.share_id@);
    if own.contains(node) {
        let i = choose|i: int| 0 <= i < own.len() && own[i] == node;
        assert(filed[i].share_id@ == node.share_id@);
    }
    if own.len() == 1 {
        assert((exists|i: int|
            0 <= i < filed.len() && library::states_numbering(#[trigger] filed[i]))
            == library::states_numbering(filed[0]));
    }
}

proof fn lemma_filed_is_filter(nodes: Seq<CatalogNode>, key: Seq<char>)
    ensures
        library::filed_under(library::playable(nodes), key) == nodes.filter(
            |n: CatalogNode| !n.is_folder && keys::title_key_of(n.parsed.title@) == key,
        ),
    decreases nodes.len(),
{
    reveal(Seq::filter);
    let keep = |n: CatalogNode| !n.is_folder && keys::title_key_of(n.parsed.title@) == key;
    if nodes.len() > 0 {
        let front = nodes.drop_last();
        lemma_filed_is_filter(front, key);
        let before = library::playable(front);
        if !nodes.last().is_folder {
            assert(before.push(nodes.last()).drop_last() =~= before);
        }
    } else {
        assert(nodes.filter(keep) =~= nodes);
    }
}

/// The order of the shelf, told by numbers and names. No title comes before one
/// whose name, lowered and without its article, is smaller. Numbered seasons go by
/// their numbers, with the unnumbered pile behind them.
#[verifier::rlimit(40)]
pub proof fn law_the_shelf_goes_by_name_and_number(
    nodes: Seq<CatalogNode>,
    watch: Seq<WatchEntry>,
    t: int,
    u: int,
    s: int,
    r: int,
)
    requires
        0 <= t < u < library::shelf(nodes, watch).len(),
        0 <= s < r < library::shelf(nodes, watch)[t].seasons.len(),
    ensures
        !order::text_lt(
            keys::sort_name_of(library::shelf(nodes, watch)[u].name),
            keys::sort_name_of(library::shelf(nodes, watch)[t].name),
        ),
        library::shelf(nodes, watch)[t].seasons[s].number is Some,
        library::shelf(nodes, watch)[t].seasons[r].number matches Some(later)
            ==> library::shelf(nodes, watch)[t].seasons[s].number->0 < later,
{
    law_shelf_is_in_order(nodes, watch);
    let title = library::shelf(nodes, watch)[t];
    let lt = library::season_order();
    assert(order::in_order(title.seasons, lt));
    assert(!lt(title.seasons[r], title.seasons[s]));
    let files = library::playable(nodes);
    let k = lemma_title_on_shelf(nodes, watch, t);
    let filed = library::filed_under(files, library::keys_in(files)[k]);
    let piles = library::piles_of(filed, watch);
    lemma_seasons_cover(filed);
    let differ = |a: SeasonView, b: SeasonView| a.number != b.number;
    assert forall|i: int, j: int|
        #![trigger piles[i], piles[j]]
        0 <= i < piles.len() && 0 <= j < piles.len() && i != j implies differ(piles[i], piles[j]) by {
        assert(library::seasons_in(filed)[i] != library::seasons_in(filed)[j]);
    }
    order::lemma_sorted_pairwise(piles, lt, differ);
    assert(differ(title.seasons[s], title.seasons[r]));
    assert(!library::shelf_order()(library::shelf(nodes, watch)[u], title));
}

/// Inside a season no episode comes before one with a smaller number, an
/// unnumbered one comes before the numbered ones, and files of the same number go
/// by their names.
pub proof fn law_episodes_go_by_number_and_name(
    nodes: Seq<CatalogNode>,
    watch: Seq<WatchEntry>,
    t: int,
    s: int,
    d: int,
    e: int,
)
    requires
        0 <= t < library::shelf(nodes, watch).len(),
        0 <= s < library::shelf(nodes, watch)[t].seasons.len(),
        0 <= d < e < library::shelf(nodes, watch)[t].seasons[s].episodes.len(),
    ensures
        ({
            let first = library::shelf(nodes, watch)[t].seasons[s].episodes[d].node;
            let then = library::shelf(nodes, watch)[t].seasons[s].episodes[e].node;
            &&& first.parsed.episode matches Some(a) ==> (then.parsed.episode matches Some(b) && a
                <= b)
            &&& first.parsed.episode == then.parsed.episode ==> !order::text_lt(
                then.name@,
                first.name@,
            )
        }),
{
    let files = library::playable(nodes);
    let k = lemma_title_on_shelf(nodes, watch, t);
    let key = library::keys_in(files)[k];
    law_episodes_are_in_order(key, library::filed_under(files, key), watch);
    let title = library::shelf(nodes, watch)[t];
    let season = title.seasons[s];
    assert(order::in_order(season.episodes, order::rank::<Episode>()));
    let lt = order::rank::<Episode>();
    assert(!lt(season.episodes[e], season.episodes[d]));
}

/// Text goes by its first difference, and a text that another begins with comes
/// first.
pub proof fn law_text_goes_by_its_first_difference(
    same: Seq<char>,
    a: char,
    rest: Seq<char>,
    b: char,
    other: Seq<char>,
)
    requires
        a < b,
    ensures
        order::text_lt(same.push(a) + rest, same.push(b) + other),
        !order::text_lt(same.push(b) + other, same.push(a) + rest),
        order::text_lt(same, same.push(a) + rest),
        !order::text_lt(same, same),
    decreases same.len(),
{
    let x = same.push(a) + rest;
    let y = same.push(b) + other;
    if same.len() == 0 {
        assert(x[0] == a && y[0] == b);
    } else {
        assert(x[0] == same[0] && y[0] == same[0]);
        assert(x.skip(1) =~= same.skip(1).push(a) + rest);
        assert(y.skip(1) =~= same.skip(1).push(b) + other);
        law_text_goes_by_its_first_difference(same.skip(1), a, rest, b, other);
    }
}

/// What is offered to go on with is every title that has something part-watched,
/// and no other.
pub proof fn law_continue_watching_offers_what_was_begun(titles: Seq<Title>, title: Title)
    ensures
        order::sorted_by(library::resumable(titles), library::recent_order()).contains(title)
            <==> titles.contains(title) && exists|e: int|
            0 <= e < title.all().len() && (#[trigger] title.all()[e]).resumes() is Some,
{
    order::lemma_sorted_contains(library::resumable(titles), library::recent_order(), title);
    lemma_resumable_contains(titles, title);
}

/// What is offered to go on with comes most recently played first.
pub proof fn law_continue_watching_goes_by_recency(titles: Seq<Title>, i: int, j: int)
    requires
        0 <= i < j < order::sorted_by(
            library::resumable(titles),
            library::recent_order(),
        ).len(),
    ensures
        ({
            let offered = order::sorted_by(library::resumable(titles), library::recent_order());
            library::last_touched(offered[i].all()) >= library::last_touched(offered[j].all())
        }),
{
    let lt = library::recent_order();
    order::lemma_sorted(library::resumable(titles), lt);
    assert(order::ranks(lt));
    let offered = order::sorted_by(library::resumable(titles), lt);
    assert(!lt(offered[j], offered[i]));
}

proof fn lemma_resumable_contains(titles: Seq<Title>, title: Title)
    ensures
        library::resumable(titles).contains(title) <==> titles.contains(title) && exists|e: int|
            0 <= e < title.all().len() && (#[trigger] title.all()[e]).resumes() is Some,
    decreases titles.len(),
{
    law_resume_is_the_latest(title.all());
    if let Some(k) = library::resume_index(title.all()) {
        assert(title.all()[k].resumes() is Some);
    }
    if titles.len() > 0 {
        let front = titles.drop_last();
        lemma_resumable_contains(front, title);
        lemma_push_contains(front, titles.last(), title);
        assert(front.push(titles.last()) =~= titles);
        lemma_push_contains(library::resumable(front), titles.last(), title);
    }
}

/// A search finds every title that holds the text in its name or in the name of
/// one of its files, and no other.
pub proof fn law_search_finds_what_holds_the_text(
    titles: Seq<Title>,
    needle: Seq<char>,
    title: Title,
)
    ensures
        library::titles_holding(titles, needle).contains(title) <==> titles.contains(title) && (
        text::contains_text(unicode::lower_text(title.name@), needle) || exists|e: int|
            0 <= e < title.all().len() && text::contains_text(
                unicode::lower_text((#[trigger] title.all()[e]).node.name@),
                needle,
            )),
    decreases titles.len(),
{
    if titles.len() > 0 {
        let front = titles.drop_last();
        law_search_finds_what_holds_the_text(front, needle, title);
        lemma_push_contains(front, titles.last(), title);
        assert(front.push(titles.last()) =~= titles);
        lemma_push_contains(library::titles_holding(front, needle), titles.last(), title);
    }
}

/// A title of ASCII whose name begins with an article is shelved under the rest
/// of it, lowered; any other under all of it.
#[verifier::rlimit(40)]
pub proof fn law_a_leading_article_is_ignored(rest: Seq<char>)
    requires
        unicode::all_ascii(rest),
    ensures
        keys::sort_name_of("The "@ + rest) == text::lower(rest),
        keys::sort_name_of("A "@ + rest) == text::lower(rest),
        keys::sort_name_of("An "@ + rest) == text::lower(rest),
        !rest.contains(' ') ==> keys::sort_name_of(rest) == text::lower(rest),
{
    reveal_strlit("The ");
    reveal_strlit("A ");
    reveal_strlit("An ");
    reveal_strlit("the ");
    reveal_strlit("a ");
    reveal_strlit("an ");
    let l = text::lower(rest);
    assert(text::lower("The "@ + rest) =~= "the "@ + l);
    assert(text::lower("A "@ + rest) =~= "a "@ + l);
    assert(text::lower("An "@ + rest) =~= "an "@ + l);
    assert(unicode::all_ascii("The "@ + rest)) by {
        assert forall|i: int| 0 <= i < ("The "@ + rest).len() implies unicode::is_ascii(
            #[trigger] ("The "@ + rest)[i],
        ) by {
            if i >= 4 {
                assert(unicode::is_ascii(rest[i - 4]));
            }
        }
    }
    assert(unicode::all_ascii("A "@ + rest)) by {
        assert forall|i: int| 0 <= i < ("A "@ + rest).len() implies unicode::is_ascii(
            #[trigger] ("A "@ + rest)[i],
        ) by {
            if i >= 2 {
                assert(unicode::is_ascii(rest[i - 2]));
            }
        }
    }
    assert(unicode::all_ascii("An "@ + rest)) by {
        assert forall|i: int| 0 <= i < ("An "@ + rest).len() implies unicode::is_ascii(
            #[trigger] ("An "@ + rest)[i],
        ) by {
            if i >= 3 {
                assert(unicode::is_ascii(rest[i - 3]));
            }
        }
    }
    let the = "the "@ + l;
    assert("the "@.is_prefix_of(the)) by {
        assert(the.subrange(0, 4) =~= "the "@);
    }
    assert(the.subrange(4, the.len() as int) =~= l);
    let a = "a "@ + l;
    assert("a "@.is_prefix_of(a)) by {
        assert(a.subrange(0, 2) =~= "a "@);
    }
    assert(!"the "@.is_prefix_of(a)) by {
        assert(a[0] == 'a');
    }
    assert(a.subrange(2, a.len() as int) =~= l);
    let an = "an "@ + l;
    assert("an "@.is_prefix_of(an)) by {
        assert(an.subrange(0, 3) =~= "an "@);
    }
    assert(!"the "@.is_prefix_of(an) && !"a "@.is_prefix_of(an)) by {
        assert(an[0] == 'a' && an[1] == 'n');
    }
    assert(an.subrange(3, an.len() as int) =~= l);
    if !rest.contains(' ') {
        assert forall|i: int| 0 <= i < l.len() implies #[trigger] l[i] != ' ' by {
            assert(rest.contains(rest[i]));
        }
        if "the "@.is_prefix_of(l) {
            assert(l[3] == "the "@[3]);
        }
        if "a "@.is_prefix_of(l) {
            assert(l[1] == "a "@[1]);
        }
        if "an "@.is_prefix_of(l) {
            assert(l[2] == "an "@[2]);
        }
    }
}

/// The episodes of a title go season by season, each season in its own order.
pub proof fn law_a_title_goes_season_by_season(
    seasons: Seq<SeasonView>,
    last: SeasonView,
    i: int,
)
    ensures
        library::flat(Seq::<SeasonView>::empty()).len() == 0,
        library::flat(seasons.push(last)).len() == library::flat(seasons).len()
            + last.episodes.len(),
        library::flat(seasons.push(last)).take(library::flat(seasons).len() as int)
            == library::flat(seasons),
        0 <= i < last.episodes.len() ==> library::flat(seasons.push(last))[library::flat(
            seasons,
        ).len() + i] == last.episodes[i],
{
    assert(seasons.push(last).drop_last() =~= seasons);
    let all = library::flat(seasons.push(last));
    assert(all.take(library::flat(seasons).len() as int) =~= library::flat(seasons));
}

/// The numbering that is printed of an episode reads back as that season and that
/// episode.
#[verifier::rlimit(40)]
pub proof fn law_printed_numbering_reads_back(episode: Episode, season: u32, number: u32)
    requires
        episode.node.parsed.season == Some(season),
        episode.node.parsed.episode == Some(number),
        season <= 9999,
        number <= 9999,
    ensures
        episode.numbering_text() matches Some(shown) && naming::parsed(shown).season == Some(season)
            && naming::parsed(shown).episode == Some(number),
{
    let shown = episode.numbering_text()->0;
    let none = Seq::<char>::empty();
    let mark = naming_laws::season_and_episode('S', season as nat, 2, 'E', number as nat, 2);
    assert(shown =~= mark);
    assert(none + mark + none =~= shown);
    naming_laws::lemma_season_and_episode_is_plain('S', season as nat, 2, 'E', number as nat, 2);
    lemma_short_padded(season as nat);
    lemma_short_padded(number as nat);
    naming_laws::law_an_extension_is_short_and_lettered(none, shown);
    naming_laws::law_a_plain_name_is_read_whole(shown);
    naming_laws::law_season_and_episode_are_read(
        shown,
        none,
        'S',
        season as nat,
        2,
        'E',
        number as nat,
        2,
        none,
    );
}

proof fn lemma_short_padded(n: nat)
    requires
        n <= 9999,
    ensures
        text::padded(n, 2).len() <= 4,
{
    reveal_with_fuel(text::decimal, 5);
    assert(n / 10 / 10 / 10 < 10);
}

/// A number without a season is printed with at least three digits, which are its
/// own, and a file without a number prints none.
pub proof fn law_an_absolute_number_is_printed_in_full(episode: Episode)
    ensures
        episode.node.parsed.season is None ==> (episode.node.parsed.episode matches Some(number)
            ==> (episode.numbering_text() matches Some(shown) && shown[0] == '#'
            && text::digits_value(shown.skip(1)) == number && shown.len() >= 4)),
        episode.node.parsed.episode is None ==> episode.numbering_text() is None,
{
    if let Some(number) = episode.node.parsed.episode {
        if episode.node.parsed.season is None {
            let shown = episode.numbering_text()->0;
            naming_laws::lemma_padded(number as nat, 3);
            assert(shown.skip(1) =~= text::padded(number as nat, 3));
        }
    }
}

} // verus!
