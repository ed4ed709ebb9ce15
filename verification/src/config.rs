//! Where the app keeps its state, and how it writes there safely.
//!
//! 1. **Write atomically.** A file of another name, synced, renamed into place,
//!    and the directory synced. A crash part way leaves either the old file or
//!    the new one: see [`law_a_crash_leaves_one_whole_file`].
//! 2. **Never overwrite a config that would not parse.** An unreadable file is
//!    more likely a half-finished edit than something to replace, and replacing
//!    it destroys the only record of the viewer's shares: see [`replaceable`].

use vstd::prelude::*;

use crate::core_error::Error;
use crate::hash;
use crate::text;

verus! {

/// A place on disk: names below a directory.
#[derive(Debug, PartialEq, Eq)]
pub struct Place {
    pub base: String,
    pub parts: Vec<String>,
}

/// A [`Place`] with its strings taken as sequences of characters.
#[verifier::ext_equal]
pub struct PlaceView {
    pub base: Seq<char>,
    pub parts: Seq<Seq<char>>,
}

impl View for Place {
    type V = PlaceView;

    open spec fn view(&self) -> PlaceView {
        PlaceView { base: self.base@, parts: text::texts(self.parts@) }
    }
}

/// One name below a directory.
fn below(base: &String, name: &str) -> (r: Place)
    ensures
        r@ == (PlaceView { base: base@, parts: seq![name@] }),
{
    let mut parts: Vec<String> = Vec::new();
    parts.push(text::owned(name));
    assert(text::texts(parts@) =~= seq![name@]);
    Place { base: base.clone(), parts }
}

/// The app's directories.
#[derive(Debug, PartialEq, Eq)]
pub struct AppDirs {
    /// Config: the share list. Small, hand-editable, worth backing up.
    pub config: String,
    /// State: the catalog database and metadata cache. Rebuildable.
    pub data: String,
    /// Cache: downloaded content blocks and poster images. Disposable.
    pub cache: String,
}

impl Clone for AppDirs {
    fn clone(&self) -> (r: Self)
        ensures
            r == *self,
    {
        AppDirs { config: self.config.clone(), data: self.data.clone(), cache: self.cache.clone() }
    }
}

/// The name of a complete offline file, given the digest of what it is.
pub open spec fn offline_name(digest: Seq<u8>) -> Seq<char> {
    hash::hex_of(digest) + ".media"@
}

/// The name of a complete offline file, from its digest.
pub fn offline_file_name(digest: &[u8]) -> (r: String)
    ensures
        r@ == offline_name(digest@),
{
    let name = text::from_chars(&hash::hex(digest));
    text::joined(name.as_str(), ".media")
}

/// No media name and no share secret reaches the filesystem: the name of an
/// offline file is made of hexadecimal digits and one fixed extension.
pub proof fn law_offline_names_are_opaque(digest: Seq<u8>)
    ensures
        offline_name(digest).len() == 2 * digest.len() + 6,
        forall|i: int|
            0 <= i < 2 * digest.len() ==> hash::is_hex(#[trigger] offline_name(digest)[i]),
        offline_name(digest).skip(2 * digest.len() as int) == ".media"@,
{
    reveal_strlit(".media");
    hash::lemma_hex_digits(digest);
    assert(offline_name(digest).skip(2 * digest.len() as int) =~= ".media"@);
}

/// What is digested for a file that is kept: its share, its link and its
/// revision.
pub open spec fn digested(share_id: Seq<char>, link_id: Seq<char>, revision: Seq<char>) -> Seq<u8> {
    hash::sealed(seq![share_id, link_id, revision])
}

/// Files that are kept do not share a place: what is digested differs wherever
/// the share, the link or the revision does, and digests that differ give names
/// that differ.
///
/// Ids that hold a zero character are left out: the zero between them is what
/// tells one from the other.
pub proof fn law_kept_revisions_lie_apart(
    share_id: Seq<char>,
    link_id: Seq<char>,
    revision: Seq<char>,
    other_share: Seq<char>,
    other_link: Seq<char>,
    other_revision: Seq<char>,
)
    requires
        !share_id.contains('\0'),
        !link_id.contains('\0'),
        !revision.contains('\0'),
        !other_share.contains('\0'),
        !other_link.contains('\0'),
        !other_revision.contains('\0'),
    ensures
        digested(share_id, link_id, revision) == digested(other_share, other_link, other_revision)
            <==> (share_id == other_share && link_id == other_link && revision == other_revision),
        ({
            let here = hash::sha256_of(digested(share_id, link_id, revision));
            let there = hash::sha256_of(digested(other_share, other_link, other_revision));
            offline_name(here) == offline_name(there) <==> here == there
        }),
{
    let a = seq![share_id, link_id, revision];
    let b = seq![other_share, other_link, other_revision];
    hash::law_sealed_texts_are_told_apart(a, b);
    assert(a[0] == share_id && a[1] == link_id && a[2] == revision);
    assert(b[0] == other_share && b[1] == other_link && b[2] == other_revision);
    let here = hash::sha256_of(digested(share_id, link_id, revision));
    let there = hash::sha256_of(digested(other_share, other_link, other_revision));
    let x = offline_name(here);
    let y = offline_name(there);
    if x == y {
        reveal_strlit(".media");
        assert(hash::hex_of(here) =~= x.take(x.len() - 6));
        assert(hash::hex_of(there) =~= y.take(y.len() - 6));
        hash::lemma_hex_apart(here, there);
    }
}

impl AppDirs {
    /// Use directories supplied by a platform host.
    pub fn from_paths(config: String, data: String, cache: String) -> (r: Self)
        ensures
            r == (AppDirs { config, data, cache }),
    {
        AppDirs { config, data, cache }
    }

    /// The directories to create, in order.
    pub fn to_create(&self) -> (r: Vec<String>)
        ensures
            text::texts(r@) == seq![self.config@, self.data@, self.cache@],
    {
        let mut r: Vec<String> = Vec::new();
        r.push(self.config.clone());
        r.push(self.data.clone());
        r.push(self.cache.clone());
        assert(text::texts(r@) =~= seq![self.config@, self.data@, self.cache@]);
        r
    }

    /// The share list.
    pub fn shares_file(&self) -> (r: Place)
        ensures
            r@ == (PlaceView { base: self.config@, parts: seq!["shares.json"@] }),
    {
        below(&self.config, "shares.json")
    }

    /// The appearance settings.
    pub fn appearance_file(&self) -> (r: Place)
        ensures
            r@ == (PlaceView { base: self.config@, parts: seq!["appearance.json"@] }),
    {
        below(&self.config, "appearance.json")
    }

    /// The playback preferences.
    pub fn prefs_file(&self) -> (r: Place)
        ensures
            r@ == (PlaceView { base: self.config@, parts: seq!["playback.json"@] }),
    {
        below(&self.config, "playback.json")
    }

    /// The metadata settings.
    pub fn settings_file(&self) -> (r: Place)
        ensures
            r@ == (PlaceView { base: self.config@, parts: seq!["metadata.json"@] }),
    {
        below(&self.config, "metadata.json")
    }

    /// The catalog database.
    pub fn catalog_db(&self) -> (r: Place)
        ensures
            r@ == (PlaceView { base: self.data@, parts: seq!["catalog.db"@] }),
    {
        below(&self.data, "catalog.db")
    }

    /// The content-block cache root.
    pub fn block_cache(&self) -> (r: Place)
        ensures
            r@ == (PlaceView { base: self.cache@, parts: seq!["blocks"@] }),
    {
        below(&self.cache, "blocks")
    }

    /// Complete files explicitly kept for disconnected playback.
    pub fn offline_content(&self) -> (r: Place)
        ensures
            r@ == (PlaceView { base: self.data@, parts: seq!["offline"@] }),
    {
        below(&self.data, "offline")
    }

    /// Opaque place for one complete offline revision. No media name or share
    /// secret reaches the filesystem.
    pub fn offline_file(&self, share_id: &str, link_id: &str, revision: &str) -> (r: Place)
        ensures
            r@ == (PlaceView {
                base: self.data@,
                parts: seq![
                    "offline"@,
                    offline_name(hash::sha256_of(digested(share_id@, link_id@, revision@))),
                ],
            }),
    {
        let mut bytes: Vec<u8> = Vec::new();
        hash::push_bytes(&mut bytes, share_id);
        bytes.push(0);
        hash::push_bytes(&mut bytes, link_id);
        bytes.push(0);
        hash::push_bytes(&mut bytes, revision);
        proof {
            let all = seq![share_id@, link_id@, revision@];
            reveal_with_fuel(hash::sealed, 3);
            assert(all.drop_last() =~= seq![share_id@, link_id@]);
            assert(all.drop_last().drop_last() =~= seq![share_id@]);
            assert(bytes@ =~= hash::sealed(all));
        }
        let digest = hash::sha256(&bytes);
        let mut place = self.offline_content();
        let ghost before = place.parts@;
        place.parts.push(offline_file_name(&digest));
        assert(text::texts(place.parts@) =~= text::texts(before).push(offline_name(digest@)));
        assert(place@.parts =~= seq!["offline"@, offline_name(digest@)]);
        place
    }

    /// Where decrypted poster thumbnails are kept: cheap, tiny and wanted on
    /// every render, where a block is expensive, large and wanted once.
    pub fn thumbnail_cache(&self) -> (r: Place)
        ensures
            r@ == (PlaceView { base: self.cache@, parts: seq!["thumbs"@] }),
    {
        below(&self.cache, "thumbs")
    }

    /// Where artwork downloaded from a metadata provider is kept.
    pub fn poster_cache(&self) -> (r: Place)
        ensures
            r@ == (PlaceView { base: self.cache@, parts: seq!["posters"@] }),
    {
        below(&self.cache, "posters")
    }
}

// ---------------------------------------------------------------------------
// Reading
// ---------------------------------------------------------------------------

/// What was found where a config should be.
#[derive(Debug, PartialEq, Eq)]
pub enum Stored<T> {
    /// No file.
    Missing,
    /// A file that could not be read, and why.
    Unreadable(String),
    /// A file that is not valid, and why.
    Invalid(String),
    /// What the file holds.
    Found(T),
}

/// What a config reads as: `None` when it does not exist yet.
///
/// A file that exists but will not parse is an error, never a `None`: a caller
/// that reads, changes and writes cannot mistake it for an empty one and
/// overwrite it with nothing. `path` is the file's name as it is printed.
pub fn read_json<T>(path: &str, stored: Stored<T>) -> (r: Result<Option<T>, Error>)
    ensures
        match stored {
            Stored::Missing => r == Ok::<Option<T>, Error>(None),
            Stored::Unreadable(why) => r == Err::<Option<T>, Error>(Error::Io(why)),
            Stored::Invalid(why) => r is Err && r->Err_0 is Config && r->Err_0->Config_0@ == path@
                + " is not valid config: "@ + why@,
            Stored::Found(value) => r == Ok::<Option<T>, Error>(Some(value)),
        },
{
    match stored {
        Stored::Missing => Ok(None),
        Stored::Unreadable(why) => Err(Error::Io(why)),
        Stored::Invalid(why) => {
            let mut message = text::joined(path, " is not valid config: ");
            message.push_str(why.as_str());
            Err(Error::Config(message))
        },
        Stored::Found(value) => Ok(Some(value)),
    }
}

/// Whether a config may be written over what is there: nothing, or one that
/// reads. A file that would not parse, or could not be read, stays as it is, and
/// the write is refused with the error that reading it gives.
pub fn replaceable<T>(path: &str, stored: &Stored<T>) -> (r: Result<(), Error>)
    ensures
        match *stored {
            Stored::Missing => r == Ok::<(), Error>(()),
            Stored::Found(_) => r == Ok::<(), Error>(()),
            Stored::Unreadable(why) => r == Err::<(), Error>(Error::Io(why)),
            Stored::Invalid(why) => r is Err && r->Err_0 is Config && r->Err_0->Config_0@ == path@
                + " is not valid config: "@ + why@,
        },
{
    let found: Stored<()> = match stored {
        Stored::Missing => Stored::Missing,
        Stored::Unreadable(why) => Stored::Unreadable(why.clone()),
        Stored::Invalid(why) => Stored::Invalid(why.clone()),
        Stored::Found(_) => Stored::Found(()),
    };
    match read_json(path, found) {
        Ok(_) => Ok(()),
        Err(error) => Err(error),
    }
}

// ---------------------------------------------------------------------------
// Writing
// ---------------------------------------------------------------------------

/// A value to write, and where.
#[derive(Debug)]
pub struct Save<T> {
    pub place: Place,
    pub value: T,
}

/// The name of the file that is written aside.
///
/// It is made from the target's, so that writers of different configs cannot
/// collide on one.
pub open spec fn aside_name(name: Option<Seq<char>>) -> Seq<char> {
    "."@ + (match name {
        Some(name) => name,
        None => "config"@,
    }) + ".tmp"@
}

/// The name of the file that is written aside.
pub fn temp_name(name: Option<&str>) -> (r: String)
    ensures
        r@ == aside_name(
            match name {
                Some(name) => Some(name@),
                None => None,
            },
        ),
{
    let mut r = text::joined(
        ".",
        match name {
            Some(name) => name,
            None => "config",
        },
    );
    r.push_str(".tmp");
    r
}

/// One step of writing a config.
#[derive(Debug, Clone, Copy, PartialEq, Eq, Structural)]
pub enum WriteStep {
    /// Create the directory that the file goes into.
    CreateDirectory,
    /// Create the file that is written aside, empty.
    CreateAside,
    /// Write the text to it.
    WriteAside,
    /// Sync it, so that the rename cannot publish an empty file.
    SyncAside,
    /// Rename it over the target.
    Rename,
    /// Sync the directory: the rename itself needs durability.
    SyncDirectory,
}

/// The steps of writing a config, in order.
pub open spec fn write_steps() -> Seq<WriteStep> {
    seq![
        WriteStep::CreateDirectory,
        WriteStep::CreateAside,
        WriteStep::WriteAside,
        WriteStep::SyncAside,
        WriteStep::Rename,
        WriteStep::SyncDirectory,
    ]
}

/// The steps of writing a config, in order.
pub fn write_order() -> (r: Vec<WriteStep>)
    ensures
        r@ == write_steps(),
{
    let r = vec![
        WriteStep::CreateDirectory,
        WriteStep::CreateAside,
        WriteStep::WriteAside,
        WriteStep::SyncAside,
        WriteStep::Rename,
        WriteStep::SyncDirectory,
    ];
    assert(r@ =~= write_steps());
    r
}

/// The two files of a write: what a reader finds at the target, and what lies
/// aside and is safely there.
pub struct ConfigFiles {
    pub target: Option<Seq<char>>,
    pub written: Option<Seq<char>>,
    pub synced: bool,
}

/// The files after one step of writing `value`.
pub open spec fn after_step(files: ConfigFiles, step: WriteStep, value: Seq<char>) -> ConfigFiles {
    match step {
        WriteStep::CreateDirectory => files,
        WriteStep::CreateAside => ConfigFiles {
            written: Some(Seq::empty()),
            synced: false,
            ..files
        },
        WriteStep::WriteAside => ConfigFiles { written: Some(value), synced: false, ..files },
        WriteStep::SyncAside => ConfigFiles { synced: true, ..files },
        WriteStep::Rename => ConfigFiles { target: files.written, written: None, ..files },
        WriteStep::SyncDirectory => files,
    }
}

/// The files after the first `n` steps of writing `value`.
pub open spec fn after_steps(files: ConfigFiles, n: int, value: Seq<char>) -> ConfigFiles
    decreases n,
{
    if n <= 0 {
        files
    } else {
        after_step(after_steps(files, n - 1, value), write_steps()[n - 1], value)
    }
}

/// Stopped after any of its steps, a write leaves the whole of the old file or
/// the whole of the new one in place. What is renamed into place was synced
/// first, and a write that finishes leaves the new file and nothing beside it.
pub proof fn law_a_crash_leaves_one_whole_file(files: ConfigFiles, n: int, value: Seq<char>)
    requires
        0 <= n <= write_steps().len(),
    ensures
        after_steps(files, n, value).target == files.target || after_steps(files, n, value).target
            == Some(value),
        n > 0 && write_steps()[n - 1] is Rename ==> after_steps(files, n - 1, value).synced,
        n == write_steps().len() ==> after_steps(files, n, value).target == Some(value)
            && after_steps(files, n, value).written is None,
{
    reveal_with_fuel(after_steps, 7);
}

/// What is written aside is hidden, is named for its target, and is never the
/// target: two targets are written aside under two names.
pub proof fn law_files_are_written_aside_under_their_own_names(
    name: Seq<char>,
    other: Seq<char>,
)
    ensures
        aside_name(Some(name)) == seq!['.'] + name + seq!['.', 't', 'm', 'p'],
        aside_name(Some(name)) == aside_name(Some(other)) <==> name == other,
        aside_name(Some(name)) != name,
{
    reveal_strlit(".");
    reveal_strlit(".tmp");
    let a = aside_name(Some(name));
    let b = aside_name(Some(other));
    assert(a =~= seq!['.'] + name + seq!['.', 't', 'm', 'p']);
    assert(a.subrange(1, a.len() - 4) =~= name);
    assert(b.subrange(1, b.len() - 4) =~= other);
    assert(a.len() == name.len() + 5);
}

} // verus!
