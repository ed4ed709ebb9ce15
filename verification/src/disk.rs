//! The on-disk block cache: re-watching an episode should not re-download it.
//!
//! ## Why a sidecar, and why it is written last
//!
//! An entry is two files: `b{index}` holding the decrypted block, and
//! `b{index}.meta` holding its length. The block is written and synced **first**,
//! the sidecar **last**. That ordering is the whole validation scheme: a crash or
//! a full disk mid-write leaves a block with no sidecar, or a sidecar whose
//! length disagrees with the file, and both read as a miss. See
//! [`law_an_interrupted_write_serves_no_partial_block`].
//!
//! ## Why the path is hashed
//!
//! By uid and revision, not by name or time. Names never touch the filesystem:
//! they are the one part of a share that is genuinely private.

use vstd::prelude::*;
use vstd::slice::slice_subrange;

use std::sync::Arc;

use lru::LruCache;

use crate::block;
use crate::hash;
use crate::order;
use crate::order::Ranked;
use crate::recency;
use crate::recency::lru_get;
use crate::recency::lru_len;
use crate::recency::lru_pop_last;
use crate::recency::lru_push;
use crate::recency::lru_unbounded;
use crate::recency::Kept;
use crate::recency::KeptView;
use crate::recency::Key;
use crate::recency::KeyView;
use crate::ring;
use crate::ring::BlockKey;
use crate::stream_error::Error;
use crate::text;
use crate::text::from_chars;
use crate::text::owned;
use crate::text::to_chars;
use crate::text::trimmed;
use crate::uid;
use crate::uid::UidView;

verus! {

/// How much disk the cache may use, and where.
#[derive(Debug, Clone, PartialEq, Eq)]
pub struct DiskCacheConfig {
    pub root: String,
    pub budget_bytes: u64,
}

impl DiskCacheConfig {
    /// 4 GiB: roughly two 1080p episodes' worth of blocks, small enough to be
    /// unremarkable on any machine that plays video.
    pub const DEFAULT_BUDGET_BYTES: u64 = 4_294_967_296;

    pub fn new(root: String) -> (r: Self)
        ensures
            r.root@ == root@,
            r.budget_bytes == 4_294_967_296,
    {
        DiskCacheConfig { root, budget_bytes: Self::DEFAULT_BUDGET_BYTES }
    }

    pub fn with_budget(self, bytes: u64) -> (r: Self)
        ensures
            r.root == self.root,
            r.budget_bytes == bytes,
    {
        DiskCacheConfig { root: self.root, budget_bytes: bytes }
    }
}

#[derive(Debug, Clone, Copy, PartialEq, Eq, Structural)]
pub struct DiskStats {
    pub hits: u64,
    pub misses: u64,
    /// Entries dropped to stay inside the budget.
    pub evictions: u64,
    /// Entries found unreadable or inconsistent, and therefore ignored.
    pub rejected: u64,
    pub stored_bytes: u64,
    pub entries: usize,
}

impl Default for DiskStats {
    fn default() -> (r: Self)
        ensures
            r == (DiskStats {
                hits: 0,
                misses: 0,
                evictions: 0,
                rejected: 0,
                stored_bytes: 0,
                entries: 0,
            }),
    {
        DiskStats { hits: 0, misses: 0, evictions: 0, rejected: 0, stored_bytes: 0, entries: 0 }
    }
}

// ---------------------------------------------------------------------------
// Where an entry lies
// ---------------------------------------------------------------------------

/// The place of a block below the root, given the digest of its node and
/// revision: two levels of fan-out, so a large library does not put tens of
/// thousands of entries in one directory.
pub open spec fn place_of(digest: Seq<u8>, index: nat) -> Seq<Seq<char>> {
    let name = hash::hex_of(digest);
    seq![name.take(2), name, seq!['b'] + text::decimal(index)]
}

/// What is digested for the blocks of a revision of a node.
pub open spec fn digested(node: UidView, revision: Seq<char>) -> Seq<u8> {
    hash::sealed(seq![uid::written(node), revision])
}

/// The place of a block below the root.
pub open spec fn block_place(node: UidView, revision: Seq<char>, index: nat) -> Seq<Seq<char>> {
    place_of(hash::sha256_of(digested(node, revision)), index)
}

/// The place of a block below the root, from its digest.
pub fn place(digest: &[u8], index: usize) -> (r: Vec<String>)
    requires
        digest@.len() == 32,
    ensures
        text::texts(r@) == place_of(digest@, index as nat),
{
    let name = hash::hex(digest);
    let mut file: Vec<char> = Vec::new();
    file.push('b');
    file.append(&mut text::decimal_of(index as u64));
    assert(file@ =~= seq!['b'] + text::decimal(index as nat));
    let mut r: Vec<String> = Vec::new();
    let shard = slice_subrange(&name, 0, 2);
    assert(shard@ =~= name@.take(2));
    r.push(from_chars(shard));
    r.push(from_chars(&name));
    r.push(from_chars(&file));
    assert(text::texts(r@) =~= place_of(digest@, index as nat));
    r
}

/// `{aa}/{hash}/b{index}`, one component each.
pub fn block_path(key: &BlockKey) -> (r: Vec<String>)
    ensures
        text::texts(r@) == block_place(key.uid@, key.revision@, key.index as nat),
{
    let mut bytes: Vec<u8> = Vec::new();
    let node = key.uid.text();
    hash::push_bytes(&mut bytes, node.as_str());
    bytes.push(0);
    hash::push_bytes(&mut bytes, key.revision.as_str());
    proof {
        reveal_with_fuel(hash::sealed, 2);
        let parts = seq![node@, key.revision@];
        assert(parts.drop_last() =~= seq![node@]);
        assert(bytes@ =~= hash::sealed(parts));
    }
    place(&hash::sha256(&bytes), key.index)
}

/// Names never touch the filesystem: the place of a block below the root is made
/// of hexadecimal digits, and of the number of the block.
pub proof fn law_block_places_are_opaque(digest: Seq<u8>, index: nat, part: int, i: int)
    requires
        digest.len() == 32,
        0 <= part < 2,
        0 <= i < place_of(digest, index)[part].len(),
    ensures
        place_of(digest, index).len() == 3,
        hash::is_hex(place_of(digest, index)[part][i]),
        place_of(digest, index)[2] == seq!['b'] + text::decimal(index),
{
    hash::lemma_hex_digits(digest);
    let name = hash::hex_of(digest);
    if part == 0 {
        assert(name.take(2)[i] == name[i]);
    }
}

/// A file that gains a new revision lands in an entirely different directory, so
/// stale bytes are unreachable: what is digested differs wherever the node or the
/// revision does, two digests that differ name two directories, and blocks share
/// a place only where both their digest and their number are the same.
///
/// Names that hold a zero character are left out: the zero between them is what
/// tells one from the other.
pub proof fn law_revisions_land_apart(
    node: UidView,
    revision: Seq<char>,
    index: nat,
    other_node: UidView,
    other_revision: Seq<char>,
    other_index: nat,
)
    requires
        !uid::written(node).contains('\0'),
        !revision.contains('\0'),
        !uid::written(other_node).contains('\0'),
        !other_revision.contains('\0'),
    ensures
        digested(node, revision) == digested(other_node, other_revision) <==> (uid::written(node)
            == uid::written(other_node) && revision == other_revision),
        ({
            let here = hash::sha256_of(digested(node, revision));
            let there = hash::sha256_of(digested(other_node, other_revision));
            let place = block_place(node, revision, index);
            let other = block_place(other_node, other_revision, other_index);
            &&& place[1] == other[1] <==> here == there
            &&& place == other <==> here == there && index == other_index
        }),
{
    let a = seq![uid::written(node), revision];
    let b = seq![uid::written(other_node), other_revision];
    hash::law_sealed_texts_are_told_apart(a, b);
    assert(a[0] == uid::written(node) && a[1] == revision);
    assert(b[0] == uid::written(other_node) && b[1] == other_revision);
    let here = hash::sha256_of(digested(node, revision));
    let there = hash::sha256_of(digested(other_node, other_revision));
    let place = block_place(node, revision, index);
    let other = block_place(other_node, other_revision, other_index);
    assert(place[1] == hash::hex_of(here) && other[1] == hash::hex_of(there));
    if place[1] == other[1] {
        hash::lemma_hex_apart(here, there);
    }
    if place == other {
        assert(place[2] == other[2]);
        assert(place[2].skip(1) =~= text::decimal(index));
        assert(other[2].skip(1) =~= text::decimal(other_index));
        text::lemma_decimal_reads_back(index);
        text::lemma_decimal_reads_back(other_index);
    }
}

/// The name of a block's sidecar.
pub fn meta_name(block: &str) -> (r: String)
    ensures
        r@ == block@ + ".meta"@,
{
    let mut r = owned(block);
    r.push_str(".meta");
    r
}

// ---------------------------------------------------------------------------
// Whether an entry is whole
// ---------------------------------------------------------------------------

/// The length that a sidecar claims.
pub open spec fn claimed(sidecar: Seq<char>) -> Option<nat> {
    text::unsigned_value(text::trim(sidecar), u64::MAX as nat)
}

/// The block that an entry serves, if it is cached and whole.
pub open spec fn served(sidecar: Option<Seq<char>>, block: Option<Seq<u8>>) -> Option<Seq<u8>> {
    match (sidecar, block) {
        (Some(s), Some(b)) => if claimed(s) == Some(b.len()) {
            Some(b)
        } else {
            None
        },
        _ => None,
    }
}

/// Why an entry that is cached is not served.
pub open spec fn complaint(
    sidecar: Seq<char>,
    block: Option<Seq<u8>>,
    sidecar_path: Seq<char>,
) -> Seq<char> {
    match claimed(sidecar) {
        None => sidecar_path + " holds no usable length"@,
        Some(n) => match block {
            None => "cached block is missing"@,
            Some(b) => "cached block is "@ + text::decimal(b.len()) + " bytes, sidecar claims "@
                + text::decimal(n),
        },
    }
}

/// Validate an entry against its sidecar.
///
/// `Ok(None)` is "not cached". `Err` is "cached, but wrong", which the caller
/// deletes. Each file is given as it was found, or `None` where there is none.
pub fn read_entry(sidecar: Option<String>, block: Option<Vec<u8>>, sidecar_path: &str) -> (r:
    Result<Option<Vec<u8>>, Error>)
    ensures
        match r {
            Ok(None) => sidecar is None,
            Ok(Some(b)) => {
                &&& sidecar is Some && block is Some
                &&& b@ == (block->0)@
                &&& served(text::opt_chars(sidecar), Some((block->0)@)) == Some(b@)
            },
            Err(e) => {
                let content = match block {
                    Some(b) => Some(b@),
                    None => None,
                };
                &&& sidecar is Some
                &&& served(text::opt_chars(sidecar), content) is None
                &&& e is NotFound
                &&& e.text() == complaint((sidecar->0)@, content, sidecar_path@)
            },
        },
{
    let written = match sidecar {
        Some(s) => s,
        None => {
            return Ok(None);
        },
    };
    let chars = to_chars(written.as_str());
    let length = match text::parse_u64(trimmed(&chars)) {
        Some(n) => n,
        None => {
            let mut message = owned(sidecar_path);
            message.push_str(" holds no usable length");
            return Err(Error::NotFound(message));
        },
    };
    match block {
        None => Err(Error::NotFound(owned("cached block is missing"))),
        Some(block) => {
            if block.len() as u64 != length {
                let mut message = owned("cached block is ");
                let found = from_chars(&text::decimal_of(block.len() as u64));
                message.push_str(found.as_str());
                message.push_str(" bytes, sidecar claims ");
                let wanted = from_chars(&text::decimal_of(length));
                message.push_str(wanted.as_str());
                return Err(Error::NotFound(message));
            }
            Ok(Some(block))
        },
    }
}

/// What a sidecar says of a block.
pub fn sidecar_text(len: usize) -> (r: String)
    ensures
        r@ == text::decimal(len as nat),
{
    from_chars(&text::decimal_of(len as u64))
}

/// One step of writing an entry.
#[derive(Debug, Clone, Copy, PartialEq, Eq, Structural)]
pub enum WriteStep {
    /// Write the whole block to a file of another name, and sync it.
    WriteAside,
    /// Rename it into place, so a reader never sees a partial block.
    MoveIntoPlace,
    /// Write the sidecar, and sync it.
    WriteSidecar,
}

/// The steps of writing an entry, in order.
pub open spec fn write_steps() -> Seq<WriteStep> {
    seq![WriteStep::WriteAside, WriteStep::MoveIntoPlace, WriteStep::WriteSidecar]
}

/// The steps of writing an entry: block, synced, then sidecar.
pub fn write_order() -> (r: Vec<WriteStep>)
    ensures
        r@ == write_steps(),
{
    let r = vec![WriteStep::WriteAside, WriteStep::MoveIntoPlace, WriteStep::WriteSidecar];
    assert(r@ =~= write_steps());
    r
}

/// The two files of an entry.
pub struct EntryFiles {
    pub sidecar: Option<Seq<char>>,
    pub block: Option<Seq<u8>>,
}

/// The files after one step of writing `block`.
pub open spec fn after_step(files: EntryFiles, step: WriteStep, block: Seq<u8>) -> EntryFiles {
    match step {
        WriteStep::WriteAside => files,
        WriteStep::MoveIntoPlace => EntryFiles { block: Some(block), ..files },
        WriteStep::WriteSidecar => EntryFiles {
            sidecar: Some(text::decimal(block.len())),
            ..files
        },
    }
}

/// The files after the first `n` steps of writing `block`.
pub open spec fn after_steps(files: EntryFiles, n: int, block: Seq<u8>) -> EntryFiles
    decreases n,
{
    if n <= 0 {
        files
    } else {
        after_step(after_steps(files, n - 1, block), write_steps()[n - 1], block)
    }
}

/// A beginning of a number written in decimal writes a smaller number.
proof fn lemma_beginning_is_smaller(n: nat, j: int)
    requires
        0 < j < text::decimal(n).len(),
    ensures
        text::digits_value(text::decimal(n).take(j)) < n,
    decreases n,
{
    let s = text::decimal(n);
    if n < 10 {
        assert(s.len() == 1);
    } else {
        let front = text::decimal(n / 10);
        assert(s.drop_last() =~= front);
        if j == s.len() - 1 {
            assert(s.take(j) =~= front);
            text::lemma_decimal_reads_back(n / 10);
        } else {
            assert(s.take(j) =~= front.take(j));
            lemma_beginning_is_smaller(n / 10, j);
        }
    }
}

/// What is written in decimal is nothing to trim.
proof fn lemma_digits_untrimmed(s: Seq<char>)
    requires
        text::all_digits(s),
    ensures
        text::trim(s) == s,
{
    if s.len() > 0 {
        assert(text::is_digit(s[0]));
        assert(text::is_digit(s[s.len() - 1]));
    }
}

/// Whatever was there before, and wherever the writing of a block stops, what a
/// reader is then served is what it was served before, or the new block whole,
/// or nothing. A sidecar may be cut off after any of its characters.
pub proof fn law_an_interrupted_write_serves_no_partial_block(
    files: EntryFiles,
    block: Seq<u8>,
    n: int,
    cut: int,
)
    requires
        0 <= n <= 3,
        block.len() <= u64::MAX,
        0 <= cut < text::decimal(block.len()).len(),
    ensures
        ({
            let stopped = after_steps(files, n, block);
            let out = served(stopped.sidecar, stopped.block);
            out is None || out == Some(block) || out == served(files.sidecar, files.block)
        }),
        n == 3 ==> served(
            after_steps(files, 3, block).sidecar,
            after_steps(files, 3, block).block,
        ) == Some(block),
        served(
            Some(text::decimal(block.len()).take(cut)),
            after_steps(files, 2, block).block,
        ) is None,
{
    reveal_with_fuel(after_steps, 4);
    let written = text::decimal(block.len());
    text::lemma_decimal_reads_back(block.len());
    lemma_digits_untrimmed(written);
    assert(written[0] != '+') by {
        assert(text::is_digit(written[0]));
    }
    let part = written.take(cut);
    assert(text::all_digits(part)) by {
        assert forall|i: int| 0 <= i < part.len() implies text::is_digit(#[trigger] part[i]) by {
            assert(part[i] == written[i]);
        }
    }
    lemma_digits_untrimmed(part);
    if cut > 0 {
        lemma_beginning_is_smaller(block.len(), cut);
        assert(part[0] == written[0]);
    }
}

/// One half of an entry.
#[derive(Debug, Clone, Copy, PartialEq, Eq, Structural)]
pub enum EntryHalf {
    Sidecar,
    Block,
}

/// The halves of an entry in the order they are removed. The sidecar goes first,
/// so an interrupted deletion leaves an entry that is not served rather than one
/// that claims to be valid.
pub fn discard_order() -> (r: Vec<EntryHalf>)
    ensures
        r@ == seq![EntryHalf::Sidecar, EntryHalf::Block],
        served(None, None) is None,
        forall|block: Option<Seq<u8>>| #[trigger] served(None, block) is None,
{
    let r = vec![EntryHalf::Sidecar, EntryHalf::Block];
    assert(r@ =~= seq![EntryHalf::Sidecar, EntryHalf::Block]);
    r
}

// ---------------------------------------------------------------------------
// What is stored
// ---------------------------------------------------------------------------

/// Whether a file name has an extension: a dot that is not its first character.
pub open spec fn has_extension(name: Seq<char>) -> bool {
    exists|i: int| 0 < i < name.len() && #[trigger] name[i] == '.'
}

/// Whether what a startup scan came across is an entry. Sidecars and interrupted
/// writes, which have an extension, are accounted through their block, not on
/// their own; a block without a sidecar was never finished.
pub fn is_entry(name: &str, is_file: bool, has_sidecar: bool) -> (r: bool)
    ensures
        r == (is_file && has_sidecar && !has_extension(name@)),
{
    let chars = to_chars(name);
    let mut i: usize = 1;
    while i < chars.len()
        invariant
            1 <= i,
            chars@ == name@,
            forall|j: int| 0 < j < i && j < name@.len() ==> #[trigger] name@[j] != '.',
        decreases chars.len() - i,
    {
        if chars[i] == '.' {
            assert(name@[i as int] == '.');
            return false;
        }
        i += 1;
    }
    is_file && has_sidecar
}

/// A block file that a scan of the cache found.
#[derive(Debug, PartialEq, Eq)]
pub struct Scanned {
    /// Where it lies below the root.
    pub path: String,
    pub len: u64,
    /// When it was last written, in whatever unit, later being larger.
    pub modified: u64,
}

impl Ranked for Scanned {
    open spec fn before(self, other: Self) -> bool {
        self.modified < other.modified
    }

    fn goes_before(&self, other: &Self) -> (r: bool) {
        self.modified < other.modified
    }
}

/// The entry of a path.
pub open spec fn entry_key(path: Seq<char>) -> KeyView {
    ((Seq::empty(), Seq::empty()), path, 0u64)
}

/// A length, as it is kept.
pub open spec fn entry_size(len: u64) -> KeptView {
    (len, Seq::empty())
}

fn key_of(path: &str) -> (r: Key)
    ensures
        recency::key_view(r) == entry_key(path@),
{
    ((String::new(), String::new()), owned(path), 0)
}

fn size_kept(len: u64) -> (r: Kept)
    ensures
        r@ == entry_size(len),
{
    let bytes: Vec<u8> = Vec::new();
    Kept { number: len, bytes: Arc::new(bytes) }
}

/// The index of the cache, keyed by the block file's path, because that is all a
/// startup scan can recover: the key it was written under is hashed away by
/// design.
pub struct DiskIndex {
    lru: LruCache<Key, Kept>,
    bytes: u128,
    hits: u64,
    misses: u64,
    evictions: u64,
    rejected: u64,
    budget: u64,
}

/// The entries after those of `found` were stored, one after the other.
pub open spec fn adopted(found: Seq<Scanned>) -> Seq<(KeyView, KeptView)>
    decreases found.len(),
{
    if found.len() == 0 {
        Seq::empty()
    } else {
        recency::fronted(
            adopted(found.drop_last()),
            entry_key(found.last().path@),
            entry_size(found.last().len),
        )
    }
}

/// The paths of the last `s.len() - keep` entries, the least recently used
/// first.
pub open spec fn dropped(s: Seq<(KeyView, KeptView)>, keep: int) -> Seq<Seq<char>>
    decreases s.len(),
{
    if s.len() <= keep || s.len() == 0 {
        Seq::empty()
    } else {
        seq![s.last().0.1] + dropped(s.drop_last(), keep)
    }
}

impl View for DiskIndex {
    type V = Seq<(KeyView, KeptView)>;

    /// The stored entries, most recently used first.
    closed spec fn view(&self) -> Seq<(KeyView, KeptView)> {
        recency::kept_in(self.lru)
    }
}

/// Numbers of 64 bits, no more of them than a machine word counts, add up to
/// less than 128 bits hold.
proof fn lemma_sum_bounded(s: Seq<(KeyView, KeptView)>)
    ensures
        recency::sum(s) <= s.len() * u64::MAX,
    decreases s.len(),
{
    if s.len() > 0 {
        lemma_sum_bounded(s.drop_last());
        assert(s.len() * u64::MAX == (s.len() - 1) * u64::MAX + u64::MAX) by (nonlinear_arith);
    }
}

proof fn lemma_fits_128(s: Seq<(KeyView, KeptView)>, held: usize)
    requires
        held == s.len(),
    ensures
        recency::sum(s) + u64::MAX <= u128::MAX,
{
    lemma_sum_bounded(s);
    assert(held * u64::MAX <= 0xffff_ffff_ffff_ffff * u64::MAX) by (nonlinear_arith)
        requires
            held <= 0xffff_ffff_ffff_ffff,
    ;
    assert(0xffff_ffff_ffff_ffff * u64::MAX + u64::MAX <= u128::MAX) by (nonlinear_arith);
}

impl DiskIndex {
    /// The bytes counted are the bytes stored, and no path is stored twice.
    pub closed spec fn wf(&self) -> bool {
        &&& recency::distinct(self@)
        &&& self.bytes == recency::sum(self@)
        &&& recency::room_in(self.lru) == usize::MAX
    }

    pub closed spec fn byte_budget(&self) -> u64 {
        self.budget
    }

    pub closed spec fn counted_hits(&self) -> u64 {
        self.hits
    }

    pub closed spec fn counted_misses(&self) -> u64 {
        self.misses
    }

    pub closed spec fn counted_evictions(&self) -> u64 {
        self.evictions
    }

    pub closed spec fn counted_rejected(&self) -> u64 {
        self.rejected
    }

    /// Keep a length under a path, as the most recently used.
    fn keep(&mut self, path: &str, len: u64)
        requires
            old(self).wf(),
        ensures
            final(self).wf(),
            old(self)@.len() < usize::MAX ==> final(self)@ == recency::fronted(
                old(self)@,
                entry_key(path@),
                entry_size(len),
            ),
            old(self)@.len() == usize::MAX ==> final(self)@ == old(self)@,
            final(self).budget == old(self).budget,
            final(self).hits == old(self).hits,
            final(self).misses == old(self).misses,
            final(self).evictions == old(self).evictions,
            final(self).rejected == old(self).rejected,
    {
        let ghost before = self@;
        let held = lru_len(&self.lru);
        if held == usize::MAX {
            return;
        }
        proof {
            recency::lemma_without(before, entry_key(path@));
            recency::lemma_fronted(before, entry_key(path@), entry_size(len));
            lemma_fits_128(before, held);
        }
        match lru_push(&mut self.lru, key_of(path), size_kept(len)) {
            Some((_, previous)) => {
                self.bytes = self.bytes - previous.number as u128;
            },
            None => {},
        }
        self.bytes = self.bytes + len as u128;
    }

    /// Drop entries, least recently used first, until inside the budget, and say
    /// which: their files are to be removed.
    fn evict_to_budget(&mut self) -> (r: Vec<String>)
        requires
            old(self).wf(),
        ensures
            final(self).wf(),
            final(self)@ == recency::fitted(old(self)@, old(self).budget),
            text::texts(r@) == dropped(old(self)@, final(self)@.len() as int),
            final(self).budget == old(self).budget,
            final(self).hits == old(self).hits,
            final(self).misses == old(self).misses,
            final(self).rejected == old(self).rejected,
            final(self).evictions == ring::more(
                old(self).evictions,
                (old(self)@.len() - final(self)@.len()) as nat,
            ),
    {
        let ghost before = self@;
        let mut doomed: Vec<String> = Vec::new();
        let ghost keep = recency::fitted(before, self.budget).len() as int;
        proof {
            recency::lemma_fitted(before, self.budget);
            assert(text::texts(doomed@) + dropped(self@, keep) =~= dropped(before, keep));
        }
        while self.bytes > self.budget as u128
            invariant
                self.wf(),
                recency::fitted(before, self.budget) == recency::fitted(self@, self.budget),
                keep == recency::fitted(before, self.budget).len(),
                keep <= self@.len() <= before.len(),
                text::texts(doomed@) + dropped(self@, keep) == dropped(before, keep),
                self.budget == old(self).budget,
                self.hits == old(self).hits,
                self.misses == old(self).misses,
                self.rejected == old(self).rejected,
                self.evictions == ring::more(
                    old(self).evictions,
                    (before.len() - self@.len()) as nat,
                ),
            decreases self@.len(),
        {
            let ghost now = self@;
            let ghost listed = doomed@;
            match lru_pop_last(&mut self.lru) {
                Some((key, kept)) => {
                    proof {
                        recency::lemma_distinct_front(now);
                        recency::lemma_fitted(now.drop_last(), self.budget);
                    }
                    self.bytes = self.bytes - kept.number as u128;
                    self.evictions = self.evictions.saturating_add(1);
                    let ghost path = key.1;
                    doomed.push(key.1);
                    assert(text::texts(doomed@) =~= text::texts(listed).push(path@));
                    assert(text::texts(doomed@) + dropped(self@, keep) =~= text::texts(listed) + (
                    seq![path@] + dropped(self@, keep)));
                },
                None => {
                    assert(false);
                },
            }
        }
        proof {
            assert(recency::fitted(self@, self.budget) == self@);
            assert(dropped(self@, keep) =~= Seq::<Seq<char>>::empty());
            assert(text::texts(doomed@) + dropped(self@, keep) =~= text::texts(doomed@));
        }
        doomed
    }

    /// Adopt whatever a previous run left behind, the oldest first, and say which
    /// files are to be removed for the budget's sake.
    ///
    /// Ordered by modification time so the recovered order is at least
    /// approximately right; within a session, real access order takes over.
    pub fn open(budget_bytes: u64, found: Vec<Scanned>) -> (r: (Self, Vec<String>))
        ensures
            r.0.wf(),
            r.0.byte_budget() == budget_bytes,
            ({
                let all = adopted(order::sorted_by(found@, order::rank::<Scanned>()));
                found@.len() < usize::MAX ==> {
                    &&& r.0@ == recency::fitted(all, budget_bytes)
                    &&& text::texts(r.1@) == dropped(all, r.0@.len() as int)
                    &&& r.0.counted_evictions() == ring::more(0, (all.len() - r.0@.len()) as nat)
                }
            }),
            r.0.counted_hits() == 0,
            r.0.counted_misses() == 0,
            r.0.counted_rejected() == 0,
    {
        let sorted = order::sort_ranked(found);
        proof {
            order::lemma_sorted(found@, order::rank::<Scanned>());
        }
        let mut index = DiskIndex {
            lru: lru_unbounded(),
            bytes: 0,
            hits: 0,
            misses: 0,
            evictions: 0,
            rejected: 0,
            budget: budget_bytes,
        };
        let mut i: usize = 0;
        assert(sorted@.take(0) =~= Seq::empty());
        while i < sorted.len()
            invariant
                i <= sorted@.len(),
                index.wf(),
                index.budget == budget_bytes,
                index.hits == 0,
                index.misses == 0,
                index.evictions == 0,
                index.rejected == 0,
                sorted@.len() < usize::MAX ==> index@ == adopted(sorted@.take(i as int))
                    && index@.len() <= i,
            decreases sorted.len() - i,
        {
            let ghost before = index@;
            index.keep(sorted[i].path.as_str(), sorted[i].len);
            proof {
                assert(sorted@.take(i + 1).drop_last() =~= sorted@.take(i as int));
                recency::lemma_without(before, entry_key(sorted@[i as int].path@));
            }
            i += 1;
        }
        assert(sorted@.take(sorted@.len() as int) =~= sorted@);
        let doomed = index.evict_to_budget();
        (index, doomed)
    }

    /// A block was read back and found whole. Promotes it, and adopts an entry
    /// that a concurrent writer added.
    pub fn hit(&mut self, path: &str, len: u64)
        requires
            old(self).wf(),
        ensures
            final(self).wf(),
            final(self).byte_budget() == old(self).byte_budget(),
            final(self).counted_hits() == ring::more(old(self).counted_hits(), 1),
            final(self).counted_misses() == old(self).counted_misses(),
            final(self).counted_rejected() == old(self).counted_rejected(),
            final(self).counted_evictions() == old(self).counted_evictions(),
            match recency::lookup(old(self)@, entry_key(path@)) {
                Some(v) => final(self)@ == recency::fronted(old(self)@, entry_key(path@), v),
                None => old(self)@.len() < usize::MAX ==> final(self)@ == recency::fronted(
                    old(self)@,
                    entry_key(path@),
                    entry_size(len),
                ),
            },
    {
        let ghost before = self@;
        self.hits = self.hits.saturating_add(1);
        let known = lru_get(&mut self.lru, &key_of(path));
        if known.is_none() {
            self.keep(path, len);
        } else {
            proof {
                let v = recency::lookup(before, entry_key(path@))->0;
                recency::lemma_without(before, entry_key(path@));
                recency::lemma_fronted(before, entry_key(path@), v);
            }
        }
    }

    /// A block was not there.
    pub fn miss(&mut self)
        requires
            old(self).wf(),
        ensures
            final(self).wf(),
            final(self)@ == old(self)@,
            final(self).byte_budget() == old(self).byte_budget(),
            final(self).counted_hits() == old(self).counted_hits(),
            final(self).counted_misses() == ring::more(old(self).counted_misses(), 1),
            final(self).counted_rejected() == old(self).counted_rejected(),
            final(self).counted_evictions() == old(self).counted_evictions(),
    {
        self.misses = self.misses.saturating_add(1);
    }

    /// A block was there, but wrong: a miss, and an entry to remove.
    pub fn reject(&mut self)
        requires
            old(self).wf(),
        ensures
            final(self).wf(),
            final(self)@ == old(self)@,
            final(self).byte_budget() == old(self).byte_budget(),
            final(self).counted_hits() == old(self).counted_hits(),
            final(self).counted_misses() == ring::more(old(self).counted_misses(), 1),
            final(self).counted_rejected() == ring::more(old(self).counted_rejected(), 1),
            final(self).counted_evictions() == old(self).counted_evictions(),
    {
        self.misses = self.misses.saturating_add(1);
        self.rejected = self.rejected.saturating_add(1);
    }

    /// Whether a block of this length is stored at all.
    pub fn admits(&self, len: u64) -> (r: bool)
        ensures
            r == (len <= self.byte_budget()),
    {
        len <= self.budget
    }

    /// A block was written. Says which files are to be removed to stay inside the
    /// budget.
    pub fn stored(&mut self, path: &str, len: u64) -> (r: Vec<String>)
        requires
            old(self).wf(),
        ensures
            final(self).wf(),
            final(self).byte_budget() == old(self).byte_budget(),
            final(self).counted_hits() == old(self).counted_hits(),
            final(self).counted_misses() == old(self).counted_misses(),
            final(self).counted_rejected() == old(self).counted_rejected(),
            old(self)@.len() < usize::MAX ==> {
                let all = recency::fronted(old(self)@, entry_key(path@), entry_size(len));
                &&& final(self)@ == recency::fitted(all, old(self).byte_budget())
                &&& text::texts(r@) == dropped(all, final(self)@.len() as int)
                &&& final(self).counted_evictions() == ring::more(
                    old(self).counted_evictions(),
                    (all.len() - final(self)@.len()) as nat,
                )
            },
    {
        self.keep(path, len);
        self.evict_to_budget()
    }

    pub fn stats(&self) -> (r: DiskStats)
        requires
            self.wf(),
        ensures
            r.hits == self.counted_hits(),
            r.misses == self.counted_misses(),
            r.evictions == self.counted_evictions(),
            r.rejected == self.counted_rejected(),
            r.stored_bytes == block::capped(recency::sum(self@)),
            r.entries == self@.len(),
    {
        DiskStats {
            hits: self.hits,
            misses: self.misses,
            evictions: self.evictions,
            rejected: self.rejected,
            stored_bytes: if self.bytes <= u64::MAX as u128 {
                self.bytes as u64
            } else {
                u64::MAX
            },
            entries: lru_len(&self.lru),
        }
    }
}

/// An index holds each path once.
pub proof fn law_an_index_holds_each_path_once(index: &DiskIndex)
    requires
        index.wf(),
    ensures
        recency::distinct(index@),
{
}

/// Once a block was stored the cache is inside its budget, and a block that fits
/// the budget is still there.
pub proof fn law_the_disk_budget_holds(
    stored: Seq<(KeyView, KeptView)>,
    path: Seq<char>,
    len: u64,
    budget: u64,
)
    requires
        recency::distinct(stored),
    ensures
        ({
            let after = recency::fitted(
                recency::fronted(stored, entry_key(path), entry_size(len)),
                budget,
            );
            &&& recency::sum(after) <= budget
            &&& len <= budget ==> after.len() > 0 && after[0] == (
                entry_key(path),
                entry_size(len),
            )
        }),
{
    recency::lemma_fitted(
        recency::fronted(stored, entry_key(path), entry_size(len)),
        budget,
    );
}

/// A block is served exactly where its sidecar claims its length: no more bytes
/// and no fewer, and nothing without a sidecar.
pub proof fn law_a_block_is_served_by_its_length(block: Seq<u8>, claim: nat)
    requires
        claim <= u64::MAX,
    ensures
        claim == block.len() ==> served(Some(text::decimal(claim)), Some(block)) == Some(block),
        claim != block.len() ==> served(Some(text::decimal(claim)), Some(block)) is None,
        served(Some(text::decimal(claim)), None) is None,
        served(None, Some(block)) is None,
{
    let digits = text::decimal(claim);
    text::lemma_decimal_reads_back(claim);
    assert(text::is_digit(digits[0]) && text::is_digit(digits[digits.len() - 1]));
    assert(text::trim(digits) == digits);
    assert(text::unsigned_digits(digits) == Some(digits));
}

/// What was found on disk is taken up oldest first, so what was written last is
/// given up last.
pub proof fn law_older_entries_are_given_up_first(a: Scanned, b: Scanned)
    ensures
        a.before(b) <==> a.modified < b.modified,
{
}

} // verus!
