use proton_stream::chapters::{
    chapter_at, chapter_end, credits_start, read_chapter, roles, Chapter, ChapterRole, Claim,
};


fn chapter(index: i64, title: &str, start: i64) -> Chapter {
    Chapter {
        index,
        title: Some(title.to_string()),
        start,
    }
}

#[test]
fn the_names_releases_actually_use_are_recognised() {
    for (name, claim) in [
        ("OP", Claim::Opening),
        ("Opening", Claim::Opening),
        ("OP1 - Again", Claim::Opening),
        ("02 - Opening", Claim::Opening),
        ("Opening Song", Claim::Opening),
        ("NCOP", Claim::Opening),
        ("オープニング", Claim::Opening),
        ("ED", Claim::Ending),
        ("Ending 2", Claim::Ending),
        ("End Credits", Claim::Ending),
        ("Cast Roll", Claim::Ending),
        ("Endcard", Claim::Ending),
        ("エンディング", Claim::Ending),
        ("Preview", Claim::Preview),
        ("Next Episode", Claim::Preview),
        ("Next Episode Preview", Claim::Preview),
        ("予告", Claim::Preview),
    ] {
        assert_eq!(Claim::of(name), claim, "{name}");
    }
}

#[test]
fn a_chapter_that_merely_starts_with_those_letters_is_not_one() {
    // The reason this matches words and not prefixes: skipping the viewer
    // out of "Operation Briefing" would be a bug they cannot undo without
    // finding the seek bar.
    for name in ["Operation Briefing", "Editor's cut", "Part A", "Part C", ""] {
        assert_eq!(Claim::of(name), Claim::Content, "{name}");
    }
}

/// The names that cannot be settled by reading them.
#[test]
fn an_ambiguous_name_is_not_decided_by_itself() {
    assert_eq!(Claim::of("Intro"), Claim::MaybeOpening);
    assert_eq!(Claim::of("Credits"), Claim::MaybeEnding);
    assert_eq!(Claim::of("Cast"), Claim::MaybeEnding);
    // And a chapter read in isolation never resolves to a skip.
    assert_eq!(chapter(0, "Intro", 0).role(), ChapterRole::Content);
}

/// **The first episode of Oshi no Ko.** No opening, no ending — an eighty
/// minute episode that begins with a long `Intro` that is the story, and
/// ends with a cast scroll. Offering "skip opening" over the first ninety
/// seconds of *that* skips the beginning of the series.
#[test]
fn a_long_intro_is_the_episode_and_not_an_opening() {
    let chapters = vec![
        chapter(0, "Intro", 0),
        chapter(1, "Part A", 700_000),
        chapter(2, "Part B", 2_400_000),
        chapter(3, "Cast", 4_680_000),
    ];
    let roles = roles(&chapters, Some(4_800_000));
    assert_eq!(
        roles[0],
        ChapterRole::Content,
        "eleven minutes is not a theme"
    );
    assert_eq!(
        roles[3],
        ChapterRole::Ending,
        "a cast roll at the end is one"
    );
    // Only the cast scroll is the tail; the episode is not skipped into.
    assert_eq!(credits_start(&chapters, &roles), Some(4_680_000));
}

/// The same name in the release that uses it for the theme song: ninety
/// seconds, near the front, and no other opening in the file.
#[test]
fn a_theme_length_intro_near_the_front_is_an_opening() {
    let chapters = vec![
        chapter(0, "Avant", 0),
        chapter(1, "Intro", 90_000),
        chapter(2, "Part A", 180_000),
    ];
    assert_eq!(roles(&chapters, Some(1_440_000))[1], ChapterRole::Opening);

    // …but not when the file already says which chapter the opening is.
    let chapters = vec![
        chapter(0, "Intro", 0),
        chapter(1, "OP", 90_000),
        chapter(2, "Part A", 180_000),
    ];
    let roles = roles(&chapters, Some(1_440_000));
    assert_eq!(roles[0], ChapterRole::Content);
    assert_eq!(roles[1], ChapterRole::Opening);
}

/// The ordinary shape: the credits and the trailer for next week are one
/// run at the end, and the countdown starts where the credits do.
#[test]
fn the_tail_is_the_whole_run_of_credits_and_preview() {
    let chapters = vec![
        chapter(0, "OP", 0),
        chapter(1, "Part A", 90_000),
        chapter(2, "Part B", 700_000),
        chapter(3, "ED", 1_320_000),
        chapter(4, "Preview", 1_410_000),
    ];
    let roles = roles(&chapters, Some(1_440_000));
    assert_eq!(credits_start(&chapters, &roles), Some(1_320_000));
}

/// **Episode 46 of Fullmetal Alchemist Brotherhood.** A Part C *after* the
/// ending, and the preview after that. Only the preview may be skipped —
/// treating everything from the ending on as tail would drop a scene.
#[test]
fn content_after_the_ending_keeps_the_ending_out_of_the_tail() {
    let chapters = vec![
        chapter(0, "Part A", 0),
        chapter(1, "Part B", 700_000),
        chapter(2, "ED", 1_260_000),
        chapter(3, "Part C", 1_350_000),
        chapter(4, "Preview", 1_400_000),
    ];
    let roles = roles(&chapters, Some(1_440_000));
    assert_eq!(roles[2], ChapterRole::Ending, "it is still an ending");
    assert_eq!(credits_start(&chapters, &roles), Some(1_400_000));
}

/// A file that ends on the story has no tail at all, and one with no
/// chapters has nothing to read.
#[test]
fn a_file_that_ends_on_content_has_no_tail() {
    let chapters = vec![chapter(0, "OP", 0), chapter(1, "Part A", 90_000)];
    let roles = roles(&chapters, Some(1_440_000));
    assert_eq!(credits_start(&chapters, &roles), None);
    assert_eq!(credits_start(&[], &[]), None);

    // Everything skippable is a mis-tagged file, not an episode that is
    // entirely credits: auto-advancing out of it at second zero would be
    // worse than doing nothing.
    let chapters = vec![chapter(0, "OP", 0), chapter(1, "ED", 90_000)];
    let roles = vec![ChapterRole::Ending, ChapterRole::Ending];
    assert_eq!(credits_start(&chapters, &roles), None);
}

#[test]
fn a_position_lands_in_the_chapter_that_contains_it() {
    let chapters = vec![
        chapter(0, "Intro", 0),
        chapter(1, "OP", 24_000),
        chapter(2, "Part A", 114_000),
    ];
    assert_eq!(chapter_at(&chapters, 0), Some(0));
    assert_eq!(chapter_at(&chapters, 23_900), Some(0));
    // Exactly on a boundary belongs to the chapter that starts there,
    // which is what makes "skip" land *out* of the opening rather than at
    // its last frame.
    assert_eq!(chapter_at(&chapters, 24_000), Some(1));
    assert_eq!(chapter_at(&chapters, 3_000_000), Some(2));
}

#[test]
fn a_chapter_before_the_first_one_starts_is_in_no_chapter() {
    let chapters = vec![chapter(0, "OP", 24_000)];
    assert_eq!(chapter_at(&chapters, 0), None);
}

#[test]
fn the_last_chapter_ends_where_the_file_does() {
    let chapters = vec![chapter(0, "OP", 0), chapter(1, "Part A", 90_000)];
    assert_eq!(chapter_end(&chapters, 0, Some(1_440_000)), Some(90_000));
    assert_eq!(chapter_end(&chapters, 1, Some(1_440_000)), Some(1_440_000));
    // No duration yet and nothing after it: there is nowhere to skip to,
    // and a button that seeks to zero would be worse than no button.
    assert_eq!(chapter_end(&chapters, 1, None), None);
}

#[test]
fn what_can_be_skipped_says_so() {
    assert_eq!(ChapterRole::Opening.skip_label(), Some("Skip opening"));
    assert_eq!(ChapterRole::Ending.skip_label(), Some("Skip ending"));
    assert_eq!(ChapterRole::Preview.skip_label(), Some("Skip preview"));
    assert_eq!(ChapterRole::Content.skip_label(), None);
    assert!(ChapterRole::Ending.ends_the_episode());
    assert!(ChapterRole::Preview.ends_the_episode());
    assert!(!ChapterRole::Opening.ends_the_episode());
    assert!(!ChapterRole::Content.ends_the_episode());
}

#[test]
fn a_chapter_without_a_title_is_called_by_its_number() {
    let chapter = read_chapter(2, None, Some(5_000));
    assert_eq!(chapter.label(), "Chapter 3");
    assert_eq!(chapter.start, 5_000);
    assert_eq!(read_chapter(0, Some("  ".into()), None).label(), "Chapter 1");
}

#[test]
fn an_ending_is_one_whatever_follows_but_a_note() {
    for (title, claim) in [
        ("Ending Note", Claim::Content),
        ("03 - Ending Note", Claim::Content),
        ("Ending", Claim::Ending),
        ("Ending 2", Claim::Ending),
        ("Ending Credits", Claim::Ending),
        ("Ending Theme", Claim::Ending),
        ("ending song", Claim::Ending),
        ("Ending Animation", Claim::Ending),
        ("Ending (TV Size)", Claim::Ending),
        ("Ending Notes", Claim::Ending),
        ("Operation Briefing", Claim::Content),
    ] {
        assert_eq!(Claim::of(title), claim, "{title}");
    }
}
