//! The links this app knows about, and what opening them takes.
//!
//! ## Where the secrets live
//!
//! A public-link URL carries its decryption password in its **fragment**, and a
//! custom-password link needs a second secret on top. Both are, in full, the
//! ability to read the share, so neither goes in the config file. The config
//! holds the share's id, its display name and its token; the URL and the custom
//! password go in the system's credential store.

use vstd::prelude::*;
use vstd::slice::slice_subrange;

use crate::catalog::CrawledNode;
use crate::config;
use crate::config::read_json;
use crate::config::AppDirs;
use crate::config::Place;
use crate::config::Stored;
use crate::core_error::Error;
use crate::order;
use crate::text;
use crate::uid::NodeUid;

verus! {

/// What the app records about a share, minus its secrets.
#[derive(Debug, PartialEq, Eq)]
pub struct Share {
    /// Stable id, used as the credential-store key and the catalog's share
    /// column. Assigned once and never reused.
    pub id: String,
    /// What to call this share on screen.
    pub name: String,
    /// The link token: the path segment of the share URL. Not a secret on its
    /// own: without the fragment it decrypts nothing.
    pub token: String,
    /// Whether opening this share needs a custom password in addition to the
    /// fragment.
    pub has_custom_password: bool,
}

impl Clone for Share {
    fn clone(&self) -> (r: Self)
        ensures
            r == *self,
    {
        Share {
            id: self.id.clone(),
            name: self.name.clone(),
            token: self.token.clone(),
            has_custom_password: self.has_custom_password,
        }
    }
}

/// The secrets for one share, as the credential store holds them.
#[derive(Debug, PartialEq, Eq)]
pub struct ShareSecrets {
    /// The full share URL, fragment included.
    pub url: String,
    /// The custom password, when the link has one.
    pub custom_password: Option<String>,
}

// ---------------------------------------------------------------------------
// The token in a URL
// ---------------------------------------------------------------------------

/// Whether the character at `i` begins the fragment.
pub open spec fn begins_fragment(url: Seq<char>) -> spec_fn(int) -> bool {
    |i: int| url[i] == '#'
}

/// A link without its fragment, which is the password.
pub open spec fn without_fragment(url: Seq<char>) -> Seq<char> {
    match text::first_from(0, url.len() as int, begins_fragment(url)) {
        Some(end) => url.take(end),
        None => url,
    }
}

/// Where the marker before the token stands.
pub open spec fn marks(link: Seq<char>) -> spec_fn(int) -> bool {
    |i: int| text::stands_at(link, "/urls/"@, i)
}

/// Where the marker before the token stands first in a link without its
/// fragment.
pub open spec fn marker_at(link: Seq<char>) -> Option<int> {
    text::first_from(0, link.len() as int, marks(link))
}

/// Whether the character at `i` begins the query.
pub open spec fn begins_query(tail: Seq<char>) -> spec_fn(int) -> bool {
    |i: int| tail[i] == '?'
}

/// What stands before the query.
pub open spec fn before_query(tail: Seq<char>) -> Seq<char> {
    match text::first_from(0, tail.len() as int, begins_query(tail)) {
        Some(end) => tail.take(end),
        None => tail,
    }
}

/// The token of a link that has the marker at `at`.
pub open spec fn token_after(link: Seq<char>, at: int) -> Seq<char> {
    text::trim_end_set(before_query(link.skip(at + 6)), seq!['/'])
}

/// What is wrong with a URL, where it is no share link.
pub open spec fn url_fault(url: Seq<char>) -> Option<Seq<char>> {
    let link = without_fragment(url);
    match marker_at(link) {
        None => Some("not a Proton share URL"@),
        Some(at) => if token_after(link, at).len() == 0 {
            Some("Proton share URL carries no share token"@)
        } else if !url.contains('#') {
            Some("Proton share URL has no #password fragment; copy the full share link"@)
        } else {
            None
        },
    }
}

/// The token of a share link. It is read from what stands before the fragment,
/// so nothing of the password can become a part of it.
pub open spec fn token_of(url: Seq<char>) -> Seq<char> {
    let link = without_fragment(url);
    token_after(link, marker_at(link)->0)
}

/// Where the marker before the token stands first.
fn find_marker(v: &[char]) -> (r: Option<usize>)
    ensures
        match r {
            Some(at) => marker_at(v@) == Some(at as int) && at + 6 <= v@.len(),
            None => marker_at(v@) is None,
        },
{
    let marker = text::to_chars("/urls/");
    proof {
        reveal_strlit("/urls/");
    }
    let mut i: usize = 0;
    let len: usize = v.len();
    let ghost p = marks(v@);
    while i < len
        invariant
            i <= len,
            len == v@.len(),
            marker@ == "/urls/"@,
            marker@.len() == 6,
            p == marks(v@),
            text::first_from(0, len as int, p) == text::first_from(i as int, len as int, p),
        decreases len - i,
    {
        if text::chars_stand_at(v, &marker, i) {
            assert(p(i as int));
            return Some(i);
        }
        assert(!p(i as int));
        i += 1;
    }
    None
}

/// What stands before the fragment.
fn cut_fragment(url: &[char]) -> (r: &[char])
    ensures
        r@ == without_fragment(url@),
{
    let mut i: usize = 0;
    let len: usize = url.len();
    let ghost p = begins_fragment(url@);
    while i < len
        invariant
            i <= len,
            len == url@.len(),
            p == begins_fragment(url@),
            text::first_from(0, len as int, p) == text::first_from(i as int, len as int, p),
        decreases len - i,
    {
        if url[i] == '#' {
            assert(p(i as int));
            let r = slice_subrange(url, 0, i);
            assert(r@ =~= url@.take(i as int));
            return r;
        }
        assert(!p(i as int));
        i += 1;
    }
    url
}

/// What stands before the query.
fn cut_query(tail: &[char]) -> (r: &[char])
    ensures
        r@ == before_query(tail@),
{
    let mut i: usize = 0;
    let len: usize = tail.len();
    let ghost p = begins_query(tail@);
    while i < len
        invariant
            i <= len,
            len == tail@.len(),
            p == begins_query(tail@),
            text::first_from(0, len as int, p) == text::first_from(i as int, len as int, p),
        decreases len - i,
    {
        if tail[i] == '?' {
            assert(p(i as int));
            let r = slice_subrange(tail, 0, i);
            assert(r@ =~= tail@.take(i as int));
            return r;
        }
        assert(!p(i as int));
        i += 1;
    }
    tail
}

/// The token out of a share URL: the path segment after `/urls/`.
///
/// The store needs a stable id for a share before it has opened it, and the id
/// must not be derived from the password, which would put a secret in the config
/// file by the back door. So the fragment is cut off before anything is looked
/// for: a marker inside it is part of the password.
pub fn token_from_url(url: &str) -> (r: Result<String, Error>)
    ensures
        match url_fault(url@) {
            Some(fault) => r is Err && r->Err_0 is Config && r->Err_0->Config_0@ == fault,
            None => r is Ok && r->Ok_0@ == token_of(url@),
        },
{
    let v = text::to_chars(url);
    let link = cut_fragment(&v);
    let at: usize = match find_marker(link) {
        Some(at) => at,
        None => {
            return Err(Error::Config(text::owned("not a Proton share URL")));
        },
    };
    let len: usize = link.len();
    let tail = slice_subrange(link, at + 6, len);
    assert(tail@ =~= link@.skip(at + 6));
    let mut slash: Vec<char> = Vec::new();
    slash.push('/');
    assert(slash@ =~= seq!['/']);
    let token = text::trimmed_end_set(cut_query(tail), &slash);
    if token.len() == 0 {
        return Err(Error::Config(text::owned("Proton share URL carries no share token")));
    }
    if !text::in_set(&v, '#') {
        return Err(
            Error::Config(
                text::owned(
                    "Proton share URL has no #password fragment; copy the full share link",
                ),
            ),
        );
    }
    Ok(text::from_chars(token))
}

/// The first place where a predicate holds does not depend on what follows it.
proof fn lemma_first_agrees(from: int, at: int, m: int, n: int, p: spec_fn(int) -> bool, q: spec_fn(int) -> bool)
    requires
        from <= at < m,
        at < n,
        p(at),
        q(at),
        forall|i: int| #![trigger p(i)] #![trigger q(i)] from <= i <= at ==> p(i) == q(i),
    ensures
        text::first_from(from, m, p) == text::first_from(from, n, q),
        text::first_from(from, m, p) is Some,
        from <= text::first_from(from, m, p)->0 <= at,
    decreases at - from,
{
    if !p(from) {
        assert(!q(from));
        lemma_first_agrees(from + 1, at, m, n, p, q);
    }
}

/// The id of a share carries no secret: links that differ only in their
/// fragment, which is the password, have the same token or the same fault,
/// whatever either fragment holds.
pub proof fn law_the_token_carries_no_secret(
    link: Seq<char>,
    fragment: Seq<char>,
    other: Seq<char>,
)
    ensures
        url_fault(link.push('#') + fragment) == url_fault(link.push('#') + other),
        token_of(link.push('#') + fragment) == token_of(link.push('#') + other),
{
    let a = link.push('#') + fragment;
    let b = link.push('#') + other;
    let end = link.len() as int;
    assert(a[end] == '#' && b[end] == '#');
    assert(a.contains('#') && b.contains('#'));
    assert forall|i: int|
        #![trigger begins_fragment(a)(i)]
        #![trigger begins_fragment(b)(i)]
        0 <= i <= end implies begins_fragment(a)(i) == begins_fragment(b)(i) by {
        assert(a[i] == b[i]);
    }
    assert(begins_fragment(a)(end) && begins_fragment(b)(end));
    lemma_first_agrees(
        0,
        end,
        a.len() as int,
        b.len() as int,
        begins_fragment(a),
        begins_fragment(b),
    );
    assert(without_fragment(a) =~= without_fragment(b));
}

// ---------------------------------------------------------------------------
// The list of shares
// ---------------------------------------------------------------------------

/// The id of the share with a token.
pub open spec fn share_id_of(token: Seq<char>) -> Seq<char> {
    "share-"@ + token
}

/// Whether a share of this id is listed.
pub open spec fn lists(shares: Seq<Share>, id: Seq<char>) -> bool {
    exists|i: int| 0 <= i < shares.len() && (#[trigger] shares[i]).id@ == id
}

/// A listed share that is to be added: what goes to the credential store, and
/// under which key, and the list to write.
#[derive(Debug, PartialEq, Eq)]
pub struct Addition {
    pub share: Share,
    pub secrets: ShareSecrets,
    pub shares: Vec<Share>,
}

/// The steps of adding or removing a share.
#[derive(Debug, Clone, Copy, PartialEq, Eq, Structural)]
pub enum ShareStep {
    StoreSecrets,
    WriteList,
    DeleteSecrets,
}

/// The steps of adding a share. The secrets come first: a failure then leaves no
/// listed share whose credentials do not exist.
pub open spec fn adding() -> Seq<ShareStep> {
    seq![ShareStep::StoreSecrets, ShareStep::WriteList]
}

/// The steps of removing a share, in the mirror-image order.
pub open spec fn removing() -> Seq<ShareStep> {
    seq![ShareStep::WriteList, ShareStep::DeleteSecrets]
}

/// The steps of adding a share.
pub fn add_order() -> (r: Vec<ShareStep>)
    ensures
        r@ == adding(),
{
    let r = vec![ShareStep::StoreSecrets, ShareStep::WriteList];
    assert(r@ =~= adding());
    r
}

/// The steps of removing a share.
pub fn remove_order() -> (r: Vec<ShareStep>)
    ensures
        r@ == removing(),
{
    let r = vec![ShareStep::WriteList, ShareStep::DeleteSecrets];
    assert(r@ =~= removing());
    r
}

/// Whether a share is listed and whether its secrets are stored.
pub struct ShareState {
    pub listed: bool,
    pub stored: bool,
}

/// The state after the first `n` of some steps, where writing the list makes
/// `listed` so.
pub open spec fn share_after(
    state: ShareState,
    steps: Seq<ShareStep>,
    n: int,
    listed: bool,
) -> ShareState
    decreases n,
{
    if n <= 0 {
        state
    } else {
        let before = share_after(state, steps, n - 1, listed);
        match steps[n - 1] {
            ShareStep::StoreSecrets => ShareState { stored: true, ..before },
            ShareStep::WriteList => ShareState { listed, ..before },
            ShareStep::DeleteSecrets => ShareState { stored: false, ..before },
        }
    }
}

/// Stopped after any of their steps, neither adding nor removing a share leaves
/// one that is listed and whose secrets are gone. Finished, each has done both
/// of its halves.
pub proof fn law_a_listed_share_has_its_secrets(state: ShareState, n: int)
    requires
        0 <= n <= 2,
        state.listed ==> state.stored,
    ensures
        share_after(state, adding(), n, true).listed ==> share_after(
            state,
            adding(),
            n,
            true,
        ).stored,
        share_after(state, removing(), n, false).listed ==> share_after(
            state,
            removing(),
            n,
            false,
        ).stored,
        share_after(state, adding(), 2, true) == (ShareState { listed: true, stored: true }),
        share_after(state, removing(), 2, false) == (ShareState { listed: false, stored: false }),
{
    reveal_with_fuel(share_after, 3);
}

/// The configured shares.
#[derive(Debug, PartialEq, Eq)]
pub struct ShareStore {
    dirs: AppDirs,
}

impl ShareStore {
    pub closed spec fn directories(self) -> AppDirs {
        self.dirs
    }

    pub fn new(dirs: AppDirs) -> (r: Self)
        ensures
            r.directories() == dirs,
    {
        ShareStore { dirs }
    }

    /// Where the list is.
    pub fn file(&self) -> (r: Place)
        ensures
            r@ == (config::PlaceView {
                base: self.directories().config@,
                parts: seq!["shares.json"@],
            }),
    {
        self.dirs.shares_file()
    }

    /// Every configured share, in the order they were added, given what is in
    /// the file. A list that will not parse is an error, never an empty one.
    pub fn list(&self, path: &str, stored: Stored<Vec<Share>>) -> (r: Result<Vec<Share>, Error>)
        ensures
            match stored {
                Stored::Missing => r is Ok && r->Ok_0@.len() == 0,
                Stored::Found(shares) => r == Ok::<Vec<Share>, Error>(shares),
                Stored::Unreadable(why) => r == Err::<Vec<Share>, Error>(Error::Io(why)),
                Stored::Invalid(why) => r is Err && r->Err_0 is Config && r->Err_0->Config_0@
                    == path@ + " is not valid config: "@ + why@,
            },
    {
        match read_json(path, stored) {
            Ok(Some(shares)) => Ok(shares),
            Ok(None) => Ok(Vec::new()),
            Err(error) => Err(error),
        }
    }

    /// A share to add to the ones that are configured.
    pub fn add(
        &self,
        shares: Vec<Share>,
        name: &str,
        url: &str,
        custom_password: Option<&str>,
    ) -> (r: Result<Addition, Error>)
        ensures
            match url_fault(url@) {
                Some(fault) => r is Err && r->Err_0 is Config && r->Err_0->Config_0@ == fault,
                None => if lists(shares@, share_id_of(token_of(url@))) {
                    r is Err && r->Err_0 is Config && r->Err_0->Config_0@ == "a share for token "@
                        + token_of(url@) + " is already configured"@
                } else {
                    &&& r is Ok
                    &&& r->Ok_0.share.id@ == share_id_of(token_of(url@))
                    &&& r->Ok_0.share.name@ == name@
                    &&& r->Ok_0.share.token@ == token_of(url@)
                    &&& r->Ok_0.share.has_custom_password == (r->Ok_0.secrets.custom_password
                        is Some)
                    &&& r->Ok_0.secrets.url@ == url@
                    &&& text::opt_chars(r->Ok_0.secrets.custom_password) == text::non_empty(
                        match custom_password {
                            Some(password) => Some(password@),
                            None => None,
                        },
                    )
                    &&& r->Ok_0.shares@ == shares@.push(r->Ok_0.share)
                },
            },
    {
        let token = match token_from_url(url) {
            Ok(token) => token,
            Err(error) => {
                return Err(error);
            },
        };
        let id = text::joined("share-", token.as_str());
        if find_share(&shares, id.as_str()).is_some() {
            let mut message = text::joined("a share for token ", token.as_str());
            message.push_str(" is already configured");
            return Err(Error::Config(message));
        }
        let custom_password = text::non_empty_option(
            match custom_password {
                Some(password) => Some(text::owned(password)),
                None => None,
            },
        );
        let share = Share {
            id,
            name: text::owned(name),
            token,
            has_custom_password: custom_password.is_some(),
        };
        let mut shares = shares;
        shares.push(share.clone());
        Ok(Addition { share, secrets: ShareSecrets { url: text::owned(url), custom_password }, shares })
    }

    /// The list without a share, to write before its secrets are deleted.
    pub fn remove(&self, shares: Vec<Share>, id: &str) -> (r: Result<Vec<Share>, Error>)
        ensures
            if lists(shares@, id@) {
                r is Ok && r->Ok_0@ == shares@.filter(|share: Share| share.id@ != id@)
            } else {
                r is Err && r->Err_0 is NotFound && r->Err_0->NotFound_0@ == "no share with id "@
                    + id@
            },
    {
        if find_share(&shares, id).is_none() {
            return Err(Error::NotFound(text::joined("no share with id ", id)));
        }
        let ghost keep = |share: Share| share.id@ != id@;
        let mut out: Vec<Share> = Vec::new();
        let mut i: usize = 0;
        let len: usize = shares.len();
        proof {
            reveal(Seq::filter);
            assert(shares@.take(0).filter(keep) =~= Seq::empty());
        }
        while i < len
            invariant
                i <= len,
                len == shares@.len(),
                keep == (|share: Share| share.id@ != id@),
                out@ == shares@.take(i as int).filter(keep),
            decreases len - i,
        {
            reveal(Seq::filter);
            assert(shares@.take(i + 1).drop_last() =~= shares@.take(i as int));
            assert(shares@.take(i + 1).last() == shares@[i as int]);
            if !text::same_text(shares[i].id.as_str(), id) {
                out.push(shares[i].clone());
            }
            i += 1;
        }
        assert(shares@.take(len as int) =~= shares@);
        Ok(out)
    }
}

/// Where a share of this id is listed first.
pub fn find_share(shares: &[Share], id: &str) -> (r: Option<usize>)
    ensures
        match r {
            Some(at) => {
                &&& at < shares@.len()
                &&& shares@[at as int].id@ == id@
                &&& forall|j: int| 0 <= j < at ==> (#[trigger] shares@[j]).id@ != id@
            },
            None => !lists(shares@, id@),
        },
{
    let mut i: usize = 0;
    while i < shares.len()
        invariant
            i <= shares@.len(),
            forall|k: int| 0 <= k < i ==> (#[trigger] shares@[k]).id@ != id@,
        decreases shares.len() - i,
    {
        if text::same_text(shares[i].id.as_str(), id) {
            return Some(i);
        }
        i += 1;
    }
    None
}

/// What stored secrets read as: the text of none is an error, and so is a text
/// that does not decode.
pub fn loaded_secrets(
    id: &str,
    decoded: Option<Result<ShareSecrets, String>>,
) -> (r: Result<ShareSecrets, Error>)
    ensures
        match decoded {
            None => r is Err && r->Err_0 is NotFound && r->Err_0->NotFound_0@ == "share "@ + id@
                + " has no stored credentials; remove and re-add it"@,
            Some(Err(why)) => r is Err && r->Err_0 is Config && r->Err_0->Config_0@
                == "stored share secrets are unreadable: "@ + why@,
            Some(Ok(secrets)) => r == Ok::<ShareSecrets, Error>(secrets),
        },
{
    match decoded {
        None => {
            let mut message = text::joined("share ", id);
            message.push_str(" has no stored credentials; remove and re-add it");
            Err(Error::NotFound(message))
        },
        Some(Err(why)) => Err(
            Error::Config(text::joined("stored share secrets are unreadable: ", why.as_str())),
        ),
        Some(Ok(secrets)) => Ok(secrets),
    }
}

/// Removing a share that was just added gives the list back as it was.
pub proof fn law_removing_undoes_adding(shares: Seq<Share>, share: Share)
    requires
        !lists(shares, share.id@),
    ensures
        shares.push(share).filter(|s: Share| s.id@ != share.id@) == shares,
{
    let keep = |s: Share| s.id@ != share.id@;
    lemma_keeps_all(shares, keep);
    reveal(Seq::filter);
    assert(shares.push(share).drop_last() =~= shares);
}

proof fn lemma_keeps_all(shares: Seq<Share>, keep: spec_fn(Share) -> bool)
    requires
        forall|i: int| 0 <= i < shares.len() ==> keep(#[trigger] shares[i]),
    ensures
        shares.filter(keep) == shares,
    decreases shares.len(),
{
    reveal(Seq::filter);
    if shares.len() > 0 {
        let front = shares.drop_last();
        assert forall|i: int| 0 <= i < front.len() implies keep(#[trigger] front[i]) by {
            assert(front[i] == shares[i]);
        }
        lemma_keeps_all(front, keep);
        assert(keep(shares[shares.len() - 1]));
        assert(front.push(shares.last()) =~= shares);
    }
}

// ---------------------------------------------------------------------------
// Several shares as one library
// ---------------------------------------------------------------------------

/// The client of a share among those that were opened: the last one opened.
pub open spec fn client_in<C>(clients: Seq<(String, C)>, id: Seq<char>) -> Option<C>
    decreases clients.len(),
{
    if clients.len() == 0 {
        None
    } else if clients.last().0@ == id {
        Some(clients.last().1)
    } else {
        client_in(clients.drop_last(), id)
    }
}

/// The shares that opened, in order, each with its client.
pub open spec fn opened<C>(outcomes: Seq<(Share, Result<C, Error>)>) -> Seq<(String, C)>
    decreases outcomes.len(),
{
    if outcomes.len() == 0 {
        Seq::empty()
    } else {
        let front = opened(outcomes.drop_last());
        match outcomes.last().1 {
            Ok(client) => front.push((outcomes.last().0.id, client)),
            Err(_) => front,
        }
    }
}

/// The shares that did not open, in order, each with its error.
pub open spec fn failed<C>(outcomes: Seq<(Share, Result<C, Error>)>) -> Seq<(Share, Error)>
    decreases outcomes.len(),
{
    if outcomes.len() == 0 {
        Seq::empty()
    } else {
        let front = failed(outcomes.drop_last());
        match outcomes.last().1 {
            Ok(_) => front,
            Err(error) => front.push((outcomes.last().0, error)),
        }
    }
}

/// Several opened shares, presented as one library.
#[derive(Debug)]
pub struct SharedLibrary<C> {
    clients: Vec<(String, C)>,
}

impl<C> SharedLibrary<C> {
    pub closed spec fn clients(self) -> Seq<(String, C)> {
        self.clients@
    }

    /// The library of every share that opened, and the ones that did not.
    ///
    /// A share that fails to open is reported and skipped rather than failing
    /// the whole library: one revoked link should not make the other three
    /// unwatchable.
    pub fn open_all(outcomes: Vec<(Share, Result<C, Error>)>) -> (r: (
        Self,
        Vec<(Share, Error)>,
    ))
        ensures
            r.0.clients() == opened(outcomes@),
            r.1@ == failed(outcomes@),
    {
        let mut clients: Vec<(String, C)> = Vec::new();
        let mut failures: Vec<(Share, Error)> = Vec::new();
        for outcome in iter: outcomes
            invariant
                iter.seq() == outcomes@,
                clients@ == opened(outcomes@.take(iter.index() as int)),
                failures@ == failed(outcomes@.take(iter.index() as int)),
        {
            let ghost n = iter.index() as int;
            assert(outcomes@.take(n + 1).drop_last() =~= outcomes@.take(n));
            assert(outcomes@.take(n + 1).last() == outcome);
            let (share, result) = outcome;
            match result {
                Ok(client) => {
                    clients.push((share.id, client));
                },
                Err(error) => {
                    failures.push((share, error));
                },
            }
        }
        assert(outcomes@.take(outcomes@.len() as int) =~= outcomes@);
        (SharedLibrary { clients }, failures)
    }

    /// The client for one share.
    pub fn client(&self, share_id: &str) -> (r: Option<&C>)
        ensures
            match r {
                Some(client) => client_in(self.clients(), share_id@) == Some(*client),
                None => client_in(self.clients(), share_id@) is None,
            },
    {
        let mut i: usize = self.clients.len();
        assert(self.clients@.take(i as int) =~= self.clients@);
        while i > 0
            invariant
                i <= self.clients@.len(),
                client_in(self.clients@, share_id@) == client_in(
                    self.clients@.take(i as int),
                    share_id@,
                ),
            decreases i,
        {
            assert(self.clients@.take(i as int).drop_last() =~= self.clients@.take(i - 1));
            assert(self.clients@.take(i as int).last() == self.clients@[i - 1]);
            if text::same_text(self.clients[i - 1].0.as_str(), share_id) {
                return Some(&self.clients[i - 1].1);
            }
            i -= 1;
        }
        None
    }

    /// The client for one share, or the error that it is not open.
    pub fn open_client(&self, share_id: &str) -> (r: Result<&C, Error>)
        ensures
            match client_in(self.clients(), share_id@) {
                Some(client) => r is Ok && *r->Ok_0 == client,
                None => r is Err && r->Err_0 is NotFound && r->Err_0->NotFound_0@ == "share "@
                    + share_id@ + " is not open"@,
            },
    {
        match self.client(share_id) {
            Some(client) => Ok(client),
            None => {
                let mut message = text::joined("share ", share_id);
                message.push_str(" is not open");
                Err(Error::NotFound(message))
            },
        }
    }

    /// Every opened share id, in order and once each.
    pub fn share_ids(&self) -> (r: Vec<String>)
        ensures
            forall|i: int, j: int|
                0 <= i < j < r@.len() ==> order::text_lt(
                    (#[trigger] r@[i])@,
                    (#[trigger] r@[j])@,
                ),
            forall|id: Seq<char>|
                #[trigger] text::texts(r@).contains(id) <==> client_in(self.clients(), id) is Some,
    {
        let mut out: Vec<String> = Vec::new();
        let mut i: usize = 0;
        let len: usize = self.clients.len();
        while i < len
            invariant
                i <= len,
                len == self.clients@.len(),
                ascending(text::texts(out@)),
                forall|id: Seq<char>|
                    #[trigger] text::texts(out@).contains(id) <==> client_in(
                        self.clients@.take(i as int),
                        id,
                    ) is Some,
            decreases len - i,
        {
            assert(self.clients@.take(i + 1).drop_last() =~= self.clients@.take(i as int));
            assert(self.clients@.take(i + 1).last() == self.clients@[i as int]);
            out = with_id(out, &self.clients[i].0);
            i += 1;
        }
        assert(self.clients@.take(len as int) =~= self.clients@);
        assert forall|i: int, j: int| 0 <= i < j < out@.len() implies order::text_lt(
            (#[trigger] out@[i])@,
            (#[trigger] out@[j])@,
        ) by {
            assert(text::texts(out@)[i] == out@[i]@ && text::texts(out@)[j] == out@[j]@);
        }
        out
    }
}

spec fn ascending(s: Seq<Seq<char>>) -> bool {
    forall|i: int, j: int|
        0 <= i < j < s.len() ==> order::text_lt(#[trigger] s[i], #[trigger] s[j])
}

/// Ids in order with one more among them.
fn with_id(ids: Vec<String>, id: &String) -> (r: Vec<String>)
    requires
        ascending(text::texts(ids@)),
    ensures
        ascending(text::texts(r@)),
        forall|x: Seq<char>| #[trigger] text::texts(r@).contains(x) <==> text::texts(
            ids@,
        ).contains(x) || x == id@,
{
    let chars = text::to_chars(id.as_str());
    let mut ids = ids;
    let mut at: usize = 0;
    let ghost before = text::texts(ids@);
    while at < ids.len() && order::chars_lt(&text::to_chars(ids[at].as_str()), &chars)
        invariant
            at <= ids@.len(),
            before == text::texts(ids@),
            chars@ == id@,
            forall|k: int| 0 <= k < at ==> order::text_lt(#[trigger] before[k], id@),
        decreases ids.len() - at,
    {
        assert(before[at as int] == ids@[at as int]@);
        at += 1;
    }
    if at < ids.len() && text::same_text(ids[at].as_str(), id.as_str()) {
        assert(before[at as int] == id@);
        return ids;
    }
    proof {
        if at < ids@.len() {
            assert(before[at as int] == ids@[at as int]@);
            assert forall|k: int| at <= k < before.len() implies order::text_lt(
                id@,
                #[trigger] before[k],
            ) by {
                order::lemma_text_order(before[at as int], id@, id@);
                order::lemma_text_order(id@, before[at as int], id@);
                if k > at {
                    assert(order::text_lt(before[at as int], before[k]));
                    order::lemma_text_order(before[k], before[at as int], id@);
                    order::lemma_text_order(before[at as int], before[k], id@);
                    order::lemma_text_order(id@, before[k], before[at as int]);
                }
            }
        }
    }
    ids.insert(at, id.clone());
    proof {
        let after = text::texts(ids@);
        assert(after =~= before.insert(at as int, id@));
        assert forall|i: int, j: int| 0 <= i < j < after.len() implies order::text_lt(
            #[trigger] after[i],
            #[trigger] after[j],
        ) by {
            if j < at {
                assert(after[i] == before[i] && after[j] == before[j]);
            } else if j == at {
                assert(after[i] == before[i]);
            } else if i == at {
                assert(after[j] == before[j - 1]);
            } else if i < at {
                assert(after[i] == before[i] && after[j] == before[j - 1]);
            } else {
                assert(after[i] == before[i - 1] && after[j] == before[j - 1]);
            }
        }
        assert forall|x: Seq<char>| #[trigger] after.contains(x) <==> before.contains(x) || x
            == id@ by {
            if after.contains(x) {
                let k = choose|k: int| 0 <= k < after.len() && after[k] == x;
                if k < at {
                    assert(before[k] == x);
                } else if k > at {
                    assert(before[k - 1] == x);
                }
            }
            if before.contains(x) {
                let k = choose|k: int| 0 <= k < before.len() && before[k] == x;
                if k < at {
                    assert(after[k] == x);
                } else {
                    assert(after[k + 1] == x);
                }
            }
            assert(after[at as int] == id@);
        }
    }
    ids
}

// ---------------------------------------------------------------------------
// Crawling
// ---------------------------------------------------------------------------

/// A walk over a share's whole subtree, depth first.
#[derive(Debug)]
pub struct Crawl {
    folders: Vec<NodeUid>,
    found: Vec<CrawledNode>,
}

/// The folders among some nodes, in order.
pub open spec fn folders_among(nodes: Seq<CrawledNode>) -> Seq<NodeUid>
    decreases nodes.len(),
{
    if nodes.len() == 0 {
        Seq::empty()
    } else if nodes.last().kind is Folder {
        folders_among(nodes.drop_last()).push(nodes.last().uid)
    } else {
        folders_among(nodes.drop_last())
    }
}

impl Crawl {
    /// The folders whose children are still to be listed, the next one last.
    pub closed spec fn pending(self) -> Seq<NodeUid> {
        self.folders@
    }

    /// What was found so far.
    pub closed spec fn found(self) -> Seq<CrawledNode> {
        self.found@
    }

    /// Start from the share's root, which is asked about whatever it is.
    pub fn begin(root: CrawledNode) -> (r: Self)
        ensures
            r.pending() == seq![root.uid],
            r.found() == seq![root],
    {
        let mut folders: Vec<NodeUid> = Vec::new();
        folders.push(root.uid.clone());
        let mut found: Vec<CrawledNode> = Vec::new();
        found.push(root);
        assert(folders@ =~= seq![root.uid]);
        assert(found@ =~= seq![root]);
        Crawl { folders, found }
    }

    /// The folder to list next: the one found last.
    pub fn next_folder(&mut self) -> (r: Option<NodeUid>)
        ensures
            final(self).found() == old(self).found(),
            old(self).pending().len() == 0 ==> {
                &&& r is None
                &&& final(self).pending() == old(self).pending()
            },
            old(self).pending().len() > 0 ==> {
                &&& r == Some(old(self).pending().last())
                &&& final(self).pending() == old(self).pending().drop_last()
            },
    {
        self.folders.pop()
    }

    /// Take in the children of a folder: all of them are found, and the folders
    /// among them are still to be listed.
    pub fn children(&mut self, children: Vec<CrawledNode>)
        ensures
            final(self).found() == old(self).found() + children@,
            final(self).pending() == old(self).pending() + folders_among(children@),
    {
        let ghost found = self.found@;
        let ghost pending = self.folders@;
        assert(found + children@.take(0) =~= found);
        assert(pending + folders_among(children@.take(0)) =~= pending);
        for child in iter: children
            invariant
                iter.seq() == children@,
                self.found@ == found + children@.take(iter.index() as int),
                self.folders@ == pending + folders_among(children@.take(iter.index() as int)),
        {
            let ghost n = iter.index() as int;
            assert(children@.take(n + 1).drop_last() =~= children@.take(n));
            assert(children@.take(n + 1).last() == child);
            if child.is_folder() {
                self.folders.push(child.uid.clone());
            }
            assert(self.folders@ =~= pending + folders_among(children@.take(n + 1)));
            self.found.push(child);
            assert(self.found@ =~= found + children@.take(n + 1));
        }
        assert(children@.take(children@.len() as int) =~= children@);
    }

    /// Every node that was found.
    pub fn finish(self) -> (r: Vec<CrawledNode>)
        ensures
            r@ == self.found(),
    {
        self.found
    }
}

/// Whether every folder found so far is still to be listed, or has all its
/// children among what was found. `tree` says what a folder holds.
pub open spec fn covers(
    found: Seq<CrawledNode>,
    pending: Seq<NodeUid>,
    tree: spec_fn(NodeUid) -> Seq<CrawledNode>,
) -> bool {
    forall|i: int|
        0 <= i < found.len() && (#[trigger] found[i]).kind is Folder ==> pending.contains(
            found[i].uid,
        ) || holds_all(found, tree(found[i].uid))
}

/// Whether all of some nodes were found.
pub open spec fn holds_all(found: Seq<CrawledNode>, nodes: Seq<CrawledNode>) -> bool {
    forall|i: int| 0 <= i < nodes.len() ==> found.contains(#[trigger] nodes[i])
}

proof fn lemma_folders_among(nodes: Seq<CrawledNode>, i: int)
    requires
        0 <= i < nodes.len(),
        nodes[i].kind is Folder,
    ensures
        folders_among(nodes).contains(nodes[i].uid),
    decreases nodes.len(),
{
    let front = folders_among(nodes.drop_last());
    if i == nodes.len() - 1 {
        assert(front.push(nodes.last().uid)[front.len() as int] == nodes[i].uid);
    } else {
        lemma_folders_among(nodes.drop_last(), i);
        let k = choose|k: int| 0 <= k < front.len() && front[k] == nodes[i].uid;
        assert(folders_among(nodes)[k] == nodes[i].uid);
    }
}

/// A walk yields every node of the share: it starts covering what it found, it
/// covers it after each folder it lists, and once no folder is left to list,
/// everything that any found folder holds was found.
pub proof fn law_a_crawl_misses_nothing(
    root: CrawledNode,
    found: Seq<CrawledNode>,
    pending: Seq<NodeUid>,
    tree: spec_fn(NodeUid) -> Seq<CrawledNode>,
)
    requires
        covers(found, pending, tree),
    ensures
        covers(seq![root], seq![root.uid], tree),
        pending.len() > 0 ==> {
            let listed = tree(pending.last());
            covers(found + listed, pending.drop_last() + folders_among(listed), tree)
        },
        pending.len() == 0 ==> forall|i: int|
            0 <= i < found.len() && (#[trigger] found[i]).kind is Folder ==> holds_all(
                found,
                tree(found[i].uid),
            ),
{
    assert(seq![root.uid][0] == root.uid);
    if pending.len() > 0 {
        let listed = tree(pending.last());
        let now = found + listed;
        let left = pending.drop_last() + folders_among(listed);
        assert forall|i: int| 0 <= i < now.len() && (#[trigger] now[i]).kind is Folder implies left.contains(
            now[i].uid,
        ) || holds_all(now, tree(now[i].uid)) by {
            if i < found.len() {
                assert(now[i] == found[i]);
                if holds_all(found, tree(found[i].uid)) {
                    lemma_still_held(found, listed, tree(found[i].uid));
                } else {
                    let k = choose|k: int| 0 <= k < pending.len() && pending[k] == found[i].uid;
                    if k == pending.len() - 1 {
                        lemma_added(found, listed);
                    } else {
                        assert(left[k] == found[i].uid);
                    }
                }
            } else {
                let j = i - found.len();
                assert(now[i] == listed[j]);
                lemma_folders_among(listed, j);
                let more = folders_among(listed);
                let k = choose|k: int| 0 <= k < more.len() && more[k] == listed[j].uid;
                assert(left[pending.len() - 1 + k] == listed[j].uid);
            }
        }
    }
}

proof fn lemma_still_held(
    found: Seq<CrawledNode>,
    more: Seq<CrawledNode>,
    nodes: Seq<CrawledNode>,
)
    requires
        holds_all(found, nodes),
    ensures
        holds_all(found + more, nodes),
{
    assert forall|i: int| 0 <= i < nodes.len() implies (found + more).contains(
        #[trigger] nodes[i],
    ) by {
        let k = choose|k: int| 0 <= k < found.len() && found[k] == nodes[i];
        assert((found + more)[k] == nodes[i]);
    }
}

proof fn lemma_added(found: Seq<CrawledNode>, more: Seq<CrawledNode>)
    ensures
        holds_all(found + more, more),
{
    assert forall|i: int| 0 <= i < more.len() implies (found + more).contains(
        #[trigger] more[i],
    ) by {
        assert((found + more)[found.len() + i] == more[i]);
    }
}

/// A whole share link gives the token that stands in it, up to its query or its
/// fragment, slashes behind it aside.
#[verifier::rlimit(40)]
pub proof fn law_a_share_link_gives_its_token(
    site: Seq<char>,
    token: Seq<char>,
    slashes: Seq<char>,
    query: Seq<char>,
    fragment: Seq<char>,
)
    requires
        !site.contains('#'),
        forall|i: int| 0 <= i < site.len() ==> !#[trigger] text::stands_at(
            site + "/urls/"@ + token + slashes + query,
            "/urls/"@,
            i,
        ),
        token.len() > 0,
        token.last() != '/',
        !token.contains('#') && !token.contains('?'),
        forall|i: int| 0 <= i < slashes.len() ==> #[trigger] slashes[i] == '/',
        query.len() == 0 || query[0] == '?',
        !query.contains('#'),
    ensures
        ({
            let url = (site + "/urls/"@ + token + slashes + query).push('#') + fragment;
            &&& url_fault(url) is None
            &&& token_of(url) == token
        }),
{
    reveal_strlit("/urls/");
    let link = site + "/urls/"@ + token + slashes + query;
    let url = link.push('#') + fragment;
    let n = site.len() as int;
    assert(!link.contains('#')) by {
        if link.contains('#') {
            let i = choose|i: int| 0 <= i < link.len() && link[i] == '#';
            let a = n + 6;
            let b = a + token.len();
            let c = b + slashes.len();
            if i < n {
                assert(site[i] == '#');
            } else if i < a {
                assert(link[i] == "/urls/"@[i - n]);
            } else if i < b {
                assert(token[i - a] == '#');
            } else if i < c {
                assert(slashes[i - b] == '/');
                assert(link[i] == slashes[i - b]);
            } else {
                assert(query[i - c] == '#');
            }
        }
    }
    lemma_fragment_is_cut(link, fragment);
    assert(link.subrange(n, n + 6) =~= "/urls/"@);
    let p = marks(link);
    assert(p(n));
    text::lemma_first_from(0, link.len() as int, p);
    let first = text::first_from(0, link.len() as int, p)->0;
    if first < n {
        assert(text::stands_at(link, "/urls/"@, first));
    }
    let tail = token + slashes + query;
    assert(link.skip(n + 6) =~= tail);
    lemma_query_is_cut(token + slashes, query);
    assert(tail =~= (token + slashes) + query);
    lemma_slashes_are_cut(token, slashes);
    assert(url[link.len() as int] == '#');
    assert(url.contains('#'));
}

proof fn lemma_fragment_is_cut(link: Seq<char>, fragment: Seq<char>)
    requires
        !link.contains('#'),
    ensures
        without_fragment(link.push('#') + fragment) == link,
{
    let url = link.push('#') + fragment;
    let n = link.len() as int;
    let p = begins_fragment(url);
    assert(p(n));
    text::lemma_first_from(0, url.len() as int, p);
    let first = text::first_from(0, url.len() as int, p)->0;
    if first < n {
        assert(p(first));
        assert(link.contains(link[first]));
    }
    assert(url.take(n) =~= link);
}

proof fn lemma_query_is_cut(path: Seq<char>, query: Seq<char>)
    requires
        forall|i: int| 0 <= i < path.len() ==> #[trigger] path[i] != '?',
        query.len() == 0 || query[0] == '?',
    ensures
        before_query(path + query) == path,
{
    let tail = path + query;
    let n = path.len() as int;
    let p = begins_query(tail);
    text::lemma_first_from(0, tail.len() as int, p);
    if query.len() > 0 {
        assert(p(n));
        let first = text::first_from(0, tail.len() as int, p)->0;
        if first < n {
            assert(p(first));
            assert(path[first] != '?');
        }
        assert(tail.take(n) =~= path);
    } else {
        assert(tail =~= path);
        if let Some(first) = text::first_from(0, tail.len() as int, p) {
            assert(p(first));
            assert(path[first] != '?');
        }
    }
}

proof fn lemma_slashes_are_cut(token: Seq<char>, slashes: Seq<char>)
    requires
        token.len() > 0,
        token.last() != '/',
        forall|i: int| 0 <= i < slashes.len() ==> #[trigger] slashes[i] == '/',
    ensures
        text::trim_end_set(token + slashes, seq!['/']) == token,
    decreases slashes.len(),
{
    let all = token + slashes;
    let set = seq!['/'];
    assert(set[0] == '/');
    if slashes.len() == 0 {
        assert(all =~= token);
        if set.contains(token.last()) {
            let k = choose|k: int| 0 <= k < set.len() && set[k] == token.last();
            assert(k == 0);
        }
    } else {
        assert(all.last() == slashes[slashes.len() - 1]);
        assert(set.contains(all.last()));
        assert(all.drop_last() =~= token + slashes.drop_last());
        lemma_slashes_are_cut(token, slashes.drop_last());
    }
}

/// Text without the marker is no share link, and neither is one whose marker only
/// stands in its fragment.
pub proof fn law_other_links_are_refused(link: Seq<char>, fragment: Seq<char>)
    requires
        !link.contains('#'),
        !text::contains_text(link, "/urls/"@),
    ensures
        url_fault(link) == Some("not a Proton share URL"@),
        url_fault(link.push('#') + fragment) == Some("not a Proton share URL"@),
{
    lemma_fragment_is_cut(link, fragment);
    text::lemma_first_from(0, link.len() as int, begins_fragment(link));
    if let Some(i) = text::first_from(0, link.len() as int, begins_fragment(link)) {
        assert(begins_fragment(link)(i));
        assert(link.contains(link[i]));
    }
    text::lemma_first_from(0, link.len() as int, marks(link));
    if let Some(i) = text::first_from(0, link.len() as int, marks(link)) {
        assert(text::stands_at(link, "/urls/"@, i));
    }
}

/// The id of a share is its token behind a fixed word, so two tokens have two ids.
pub proof fn law_an_id_is_made_of_its_token(token: Seq<char>, other: Seq<char>)
    ensures
        share_id_of(token).take(6) == "share-"@,
        share_id_of(token).skip(6) == token,
        share_id_of(token) == share_id_of(other) <==> token == other,
{
    reveal_strlit("share-");
    assert(share_id_of(token).take(6) =~= "share-"@);
    assert(share_id_of(token).skip(6) =~= token);
    assert(share_id_of(other).skip(6) =~= other);
}

} // verus!
