use proton_stream::library::TitleKind;
use proton_stream::matching::{
    best, score, score_by_keys, similarity, Candidate, Query, Score, MATCH_FLOOR,
};
use proton_stream::metadata::{ProviderId, TitleMetadata};


fn candidate(name: &str, aliases: &[&str], year: Option<u32>, kind: TitleKind) -> Candidate {
    Candidate {
        metadata: TitleMetadata {
            provider: ProviderId::AniList,
            remote_id: "1".into(),
            name: name.into(),
            original_name: None,
            overview: None,
            year,
            kind,
            poster_url: None,
            backdrop_url: None,
            rating: None,
            genres: Vec::new(),
            episodes: None,
            url: None,
        },
        aliases: std::iter::once(name)
            .chain(aliases.iter().copied())
            .map(str::to_string)
            .collect(),
        kind_known: true,
    }
}

/// Whether a score is exactly one.
fn is_one(found: &Score) -> bool {
    let query = Query::new("One", None, TitleKind::Series);
    let one = score(&query, &candidate("One", &[], None, TitleKind::Series));
    found.reaches(100) && !found.reaches(101) && !found.below(&one) && !one.below(found)
}

#[test]
fn an_identical_title_scores_perfectly() {
    let query = Query::new("Cowboy Bebop", None, TitleKind::Series);
    let candidate = candidate("Cowboy Bebop", &[], None, TitleKind::Series);
    assert!(score(&query, &candidate).reaches(100));
}

/// The case the alias list exists for: the library has the romaji name and
/// the provider's canonical name is the English one, or the reverse.
#[test]
fn a_match_on_an_alias_is_as_good_as_one_on_the_name() {
    let query = Query::new("Shingeki no Kyojin", None, TitleKind::Series);
    let candidate = candidate(
        "Attack on Titan",
        &["Shingeki no Kyojin"],
        Some(2013),
        TitleKind::Series,
    );
    assert!(score(&query, &candidate).reaches(MATCH_FLOOR));
}

/// Punctuation and case are the parser's business, not the matcher's — and
/// `title_key` has already removed them.
#[test]
fn punctuation_and_case_do_not_affect_the_score() {
    let query = Query::new("FULLMETAL ALCHEMIST: BROTHERHOOD", None, TitleKind::Series);
    let candidate = candidate(
        "Fullmetal Alchemist: Brotherhood",
        &[],
        None,
        TitleKind::Series,
    );
    assert!(score(&query, &candidate).reaches(100));
}

/// The mistake worth preventing: two entries in one franchise, where the
/// wrong poster looks like a working feature rather than a bug.
#[test]
fn a_different_entry_in_the_same_franchise_does_not_match() {
    let query = Query::new("Gintama", None, TitleKind::Series);
    let candidate = candidate("Gintama°: Enchousen", &[], None, TitleKind::Series);
    assert!(
        !score(&query, &candidate).reaches(MATCH_FLOOR));
}

#[test]
fn a_wholly_unrelated_title_does_not_match() {
    let query = Query::new("Cowboy Bebop", None, TitleKind::Series);
    let candidate = candidate("Neon Genesis Evangelion", &[], None, TitleKind::Series);
    assert!(!score(&query, &candidate).reaches(MATCH_FLOOR));
}

/// A decade apart is a different work with a reused name — a remake, or a
/// coincidence. One year apart is the same work dated differently.
#[test]
fn a_distant_year_is_penalised_and_a_near_one_is_not() {
    let query = Query::new("Bebop", Some(1998), TitleKind::Series);
    let near = candidate("Bebop", &[], Some(1999), TitleKind::Series);
    let far = candidate("Bebop", &[], Some(2021), TitleKind::Series);
    assert!(score(&query, &far).below(&score(&query, &near)));
    assert!(score(&query, &near).reaches(MATCH_FLOOR));
}

#[test]
fn the_best_candidate_wins_and_a_weak_field_yields_nothing() {
    let query = Query::new("Cowboy Bebop", Some(1998), TitleKind::Series);
    let found = best(
        &query,
        vec![
            candidate(
                "Neon Genesis Evangelion",
                &[],
                Some(1995),
                TitleKind::Series,
            ),
            candidate("Cowboy Bebop", &[], Some(1998), TitleKind::Series),
        ],
    );
    assert_eq!(found.map(|found| found.name), Some("Cowboy Bebop".into()));

    assert!(
        best(
            &query,
            vec![candidate(
                "Serial Experiments Lain",
                &[],
                None,
                TitleKind::Series
            )]
        )
        .is_none()
    );
    assert!(best(&query, Vec::new()).is_none());
}

/// Repeated bigrams must not inflate a score: without multiset counting,
/// a short repetitive name matches a long repetitive one perfectly.
#[test]
fn repeated_bigrams_are_counted_once_each() {
    assert!(!similarity("aaaa", "aa").reaches(100));
}

/// Measured against the real thing: searching AniList for `Evangelion`
/// returns several entries that all carry the synonym `EVANGELION:30+;`,
/// so they score identically and nothing in the text can separate them.
/// The provider's own ordering is then the only evidence there is, and
/// taking the last of the tied set — which is what `max_by` does — picked
/// a 2026 anniversary screening over the series the folder was named for.
#[test]
fn tied_candidates_are_settled_by_the_providers_own_ordering() {
    let query = Query::new("Evangelion", None, TitleKind::Series);
    let tied = vec![
        candidate(
            "Evangelion (Shinsaku Series)",
            &["EVANGELION:30+;"],
            None,
            TitleKind::Series,
        ),
        candidate(
            "Evangelion 30th Anniversary Special Screening",
            &["EVANGELION:30+;"],
            Some(2026),
            TitleKind::Series,
        ),
    ];

    // Both clear the floor on the shared synonym; the first one listed wins.
    assert!(score(&query, &tied[0]).reaches(MATCH_FLOOR));
    assert_eq!(
        best(&query, tied).map(|found| found.name),
        Some("Evangelion (Shinsaku Series)".into())
    );
}

/// The other half of the Evangelion mismatch, and the more subtle half.
///
/// AniList leaves `format` null on anything unaired. [`TitleMetadata::kind`]
/// has to say *something*, so it falls back to `Film` — and scoring must not
/// then read that fallback as the provider having said "film" and dock the
/// candidate for it. Doing so cost the top-ranked entry 0.05 and handed the
/// match to a 2026 anniversary screening that happened to have a format.
#[test]
fn an_unstated_kind_is_not_penalised_the_way_a_wrong_one_is() {
    let query = Query::new("Evangelion", None, TitleKind::Series);

    let mut unstated = candidate("Evangelion", &[], None, TitleKind::Film);
    unstated.kind_known = false;
    let stated = candidate("Evangelion", &[], None, TitleKind::Film);

    assert!(score(&query, &stated).below(&score(&query, &unstated)));
    assert!(is_one(&score(&query, &unstated)));

    // And the same in reverse: a library that guessed its own kind has
    // nothing to disagree with the provider about.
    let guessed = query.clone().with_guessed_kind();
    assert!(is_one(&score(&guessed, &stated)));
}

/// **The apostrophe case, both shapes of it.** A folder cannot carry the
/// apostrophe of `Fate/stay night [Heaven's Feel]`, so it is called
/// `Heavens Feel` — and until [`title_key`] closed the apostrophe up rather
/// than splitting on it, the provider's own entry scored under the floor.
///
/// One film per folder matches outright. The trilogy in a single folder is
/// the harder half: the library calls three files a series where the
/// provider calls each of them a film, so it clears the floor by a hair
/// with that mismatch subtracted.
#[test]
fn a_title_that_lost_its_apostrophe_matches_the_entry_that_kept_one() {
    let film = candidate(
        "Fate/stay night [Heaven's Feel] I. presage flower",
        &[],
        Some(2017),
        TitleKind::Film,
    );

    let alone = Query::new(
        "Fate stay night Heavens Feel I Presage Flower",
        Some(2017),
        TitleKind::Film,
    );
    assert!(score(&alone, &film).reaches(100));

    // Three films in one folder: a `Series` only because there are three of
    // them, so the kind is a guess and costs the film entry nothing.
    let trilogy =
        Query::new("Fate stay night Heavens Feel", None, TitleKind::Series).with_guessed_kind();
    assert!(
        score(&trilogy, &film).reaches(MATCH_FLOOR));
}

/// The tie-break must not override the score: a later candidate that
/// genuinely matches better still wins.
#[test]
fn a_better_later_candidate_still_beats_an_earlier_weaker_one() {
    let query = Query::new("Cowboy Bebop", None, TitleKind::Series);
    let found = best(
        &query,
        vec![
            candidate("Cowboy Bebop: The Movie", &[], None, TitleKind::Film),
            candidate("Cowboy Bebop", &[], None, TitleKind::Series),
        ],
    );
    assert_eq!(found.map(|found| found.name), Some("Cowboy Bebop".into()));
}

#[test]
fn likeness_is_twice_the_shared_bigrams_out_of_all_of_them() {
    // `night` and `nacht` share one bigram of eight.
    let night = similarity("night", "nacht");
    assert!(night.reaches(25));
    assert!(!night.reaches(26));
    assert!(similarity("", "").reaches(100));
    assert!(!similarity("a", "ab").reaches(1));
    // Whichever is named first.
    assert!(!similarity("nacht", "night").below(&night));
    assert!(!night.below(&similarity("nacht", "night")));
    // `aaaa` has three of `aa`'s one.
    assert!(similarity("aaaa", "aa").reaches(50));
    assert!(!similarity("aaaa", "aa").reaches(51));
}

#[test]
fn a_score_is_counted_from_the_keys_it_is_given() {
    let query = Query::new("anything", Some(2000), TitleKind::Series);
    let mut film = candidate("x", &[], Some(2000), TitleKind::Film);
    // One and six hundredths less five, and never more than one.
    let found = score_by_keys(&query, "cowboy bebop", &film, &["cowboy bebop".to_string()]);
    assert!(found.reaches(100));
    film.metadata.year = Some(1980);
    let found = score_by_keys(&query, "cowboy bebop", &film, &["cowboy bebop".to_string()]);
    assert!(found.reaches(80));
    assert!(!found.reaches(81));
    // A title that reads as nothing matches nothing.
    let found = score_by_keys(&query, "", &film, &["".to_string()]);
    assert!(!found.reaches(1));
}

#[test]
fn fractions_with_unlike_denominators_compare_exactly() {
    // Two of four against four of six.
    let half = similarity("abc", "abd");
    let same = similarity("abcd", "abce");
    assert!(half.reaches(50) && !half.reaches(51));
    assert!(half.below(&same));
    assert!(!same.below(&half));
}
