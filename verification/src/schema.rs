//! The catalog's schema, and how an older one becomes this one.
//!
//! The schema is **forward-only**: a migration that was released is never edited,
//! a new one is added. A database newer than this build understands is refused
//! rather than reinterpreted, because that is how watch state gets corrupted.

use vstd::prelude::*;

use crate::core_error::Error;
use crate::text;

verus! {

/// Raised when a migration is added.
pub const SCHEMA_VERSION: i64 = 7;

/// The first schema: what a crawl found, and where playback left off.
pub const MIGRATION_V1: &'static str = r#"
CREATE TABLE nodes (
    share_id            TEXT NOT NULL,
    link_id             TEXT NOT NULL,
    volume_id           TEXT NOT NULL,
    parent_link_id      TEXT,
    name                TEXT NOT NULL,
    is_folder           INTEGER NOT NULL,
    media_type          TEXT,
    size                INTEGER,
    active_revision_id  TEXT,
    title               TEXT,
    season              INTEGER,
    episode             INTEGER,
    year                INTEGER,
    PRIMARY KEY (share_id, link_id)
);
CREATE INDEX nodes_by_parent ON nodes (share_id, parent_link_id);
CREATE INDEX nodes_by_title  ON nodes (title, season, episode);

CREATE TABLE watch_state (
    share_id       TEXT NOT NULL,
    link_id        TEXT NOT NULL,
    position_secs  REAL NOT NULL,
    duration_secs  REAL,
    watched        INTEGER NOT NULL DEFAULT 0,
    updated_at     INTEGER NOT NULL,
    PRIMARY KEY (share_id, link_id)
);
"#;

/// Episode names: a library that numbers its files often has the episode's own
/// name in the filename.
pub const MIGRATION_V2: &'static str = r#"
ALTER TABLE nodes ADD COLUMN episode_title TEXT;
"#;

/// What a metadata provider said about a title, including that it said nothing.
///
/// Keyed by the title rather than by anything from a share: a title merges across
/// shares, and the answer is about the title. `matched = 0` is a real, stored
/// answer. `genres` is a newline-separated list.
pub const MIGRATION_V3: &'static str = r#"
CREATE TABLE title_metadata (
    title_key      TEXT PRIMARY KEY,
    provider       TEXT NOT NULL,
    matched        INTEGER NOT NULL,
    fetched_at     INTEGER NOT NULL,
    remote_id      TEXT,
    name           TEXT,
    original_name  TEXT,
    overview       TEXT,
    year           INTEGER,
    kind           TEXT,
    poster_url     TEXT,
    backdrop_url   TEXT,
    rating         REAL,
    genres         TEXT,
    episodes       INTEGER,
    url            TEXT
);
"#;

/// What a provider said about the episodes of a title. A season of minus one
/// stands for a provider that numbers episodes straight through.
pub const MIGRATION_V4: &'static str = r#"
CREATE TABLE episode_metadata (
    title_key   TEXT NOT NULL,
    season      INTEGER NOT NULL,
    number      INTEGER NOT NULL,
    provider    TEXT NOT NULL,
    fetched_at  INTEGER NOT NULL,
    name        TEXT,
    overview    TEXT,
    still_url   TEXT,
    air_date    TEXT,
    PRIMARY KEY (title_key, season, number)
);
"#;

/// Which rows the viewer chose themselves.
pub const MIGRATION_V5: &'static str = r#"
ALTER TABLE title_metadata ADD COLUMN manual INTEGER NOT NULL DEFAULT 0;
"#;

/// Content kept explicitly by the viewer: complete local files.
pub const MIGRATION_V6: &'static str = r#"
CREATE TABLE offline_files (
    share_id TEXT NOT NULL, link_id TEXT NOT NULL, revision_id TEXT NOT NULL,
    block_sizes TEXT NOT NULL,
    PRIMARY KEY (share_id, link_id)
);
"#;

/// Language choices are a property of a show, not of an episode's muxing.
pub const MIGRATION_V7: &'static str = r#"
CREATE TABLE title_track_prefs (
    title_key TEXT PRIMARY KEY, audio_language TEXT, subtitle_language TEXT,
    subtitles INTEGER NOT NULL DEFAULT 1
);
"#;

/// One step of bringing a database up to date: what to execute, and the version
/// to record with it, in one transaction.
#[derive(Debug, Clone, Copy, PartialEq, Eq)]
pub struct Migration {
    pub version: i64,
    pub sql: &'static str,
}

/// What the migration to a version executes.
pub open spec fn sql_of(version: int) -> Seq<char> {
    if version <= 1 {
        MIGRATION_V1@
    } else if version == 2 {
        MIGRATION_V2@
    } else if version == 3 {
        MIGRATION_V3@
    } else if version == 4 {
        MIGRATION_V4@
    } else if version == 5 {
        MIGRATION_V5@
    } else if version == 6 {
        MIGRATION_V6@
    } else {
        MIGRATION_V7@
    }
}

fn migration_to(version: i64) -> (r: Migration)
    ensures
        r.version == version,
        r.sql@ == sql_of(version as int),
{
    Migration {
        version,
        sql: if version <= 1 {
            MIGRATION_V1
        } else if version == 2 {
            MIGRATION_V2
        } else if version == 3 {
            MIGRATION_V3
        } else if version == 4 {
            MIGRATION_V4
        } else if version == 5 {
            MIGRATION_V5
        } else if version == 6 {
            MIGRATION_V6
        } else {
            MIGRATION_V7
        },
    }
}

/// The version that migrations start from: a database without one has none.
pub open spec fn starting(version: i64) -> int {
    if version < 0 {
        0
    } else {
        version as int
    }
}

/// The migrations that a database of this version needs, in order: the version
/// each leads to, and what it executes.
pub open spec fn needed(version: i64) -> Seq<(int, Seq<char>)> {
    Seq::new(
        (SCHEMA_VERSION - starting(version)) as nat,
        |i: int| (starting(version) + 1 + i, sql_of(starting(version) + 1 + i)),
    )
}

/// Some migrations, each with its text taken as a sequence.
pub open spec fn steps_of(steps: Seq<Migration>) -> Seq<(int, Seq<char>)> {
    Seq::new(steps.len(), |i: int| (steps[i].version as int, steps[i].sql@))
}

/// The migrations that a database of this version needs, in order. A database
/// that a newer build wrote is refused.
pub fn migrate(version: i64) -> (r: Result<Vec<Migration>, Error>)
    ensures
        version > SCHEMA_VERSION ==> {
            &&& r is Err
            &&& r->Err_0 is Config
            &&& r->Err_0->Config_0@ == "catalog schema is version "@ + text::integer(
                version as int,
            ) + ", newer than this build supports ("@ + text::integer(SCHEMA_VERSION as int)
                + "); upgrade proton-stream or delete the catalog"@
        },
        version <= SCHEMA_VERSION ==> {
            &&& r is Ok
            &&& steps_of(r->Ok_0@) == needed(version)
        },
{
    if version > SCHEMA_VERSION {
        let mut message = text::owned("catalog schema is version ");
        message.push_str(text::from_chars(&text::integer_of(version)).as_str());
        message.push_str(", newer than this build supports (");
        message.push_str(text::from_chars(&text::integer_of(SCHEMA_VERSION)).as_str());
        message.push_str("); upgrade proton-stream or delete the catalog");
        return Err(Error::Config(message));
    }
    let start: i64 = if version < 0 {
        0
    } else {
        version
    };
    let mut steps: Vec<Migration> = Vec::new();
    let mut at: i64 = start;
    while at < SCHEMA_VERSION
        invariant
            start == starting(version),
            start <= at <= SCHEMA_VERSION,
            steps@.len() == at - start,
            forall|i: int|
                0 <= i < steps@.len() ==> (#[trigger] steps@[i]).version == start + 1 + i
                    && steps@[i].sql@ == sql_of(start + 1 + i),
        decreases SCHEMA_VERSION - at,
    {
        at += 1;
        steps.push(migration_to(at));
    }
    assert(steps_of(steps@) =~= needed(version));
    Ok(steps)
}

/// Migrations only ever lead forward, and every database ends up the same: an
/// older one takes what is left of the steps that a fresh one takes, each once
/// and in order, and the last of them leads to the current version.
pub proof fn law_every_database_ends_up_the_same(version: i64)
    requires
        version <= SCHEMA_VERSION,
    ensures
        needed(version) == needed(0).skip(starting(version)),
        needed(version).len() > 0 ==> needed(version).last().0 == SCHEMA_VERSION,
        needed(SCHEMA_VERSION).len() == 0,
        forall|i: int|
            0 <= i < needed(version).len() ==> (#[trigger] needed(version)[i]).0 > version,
{
    assert(needed(version) =~= needed(0).skip(starting(version)));
}

} // verus!
