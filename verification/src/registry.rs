//! The table a `pstr://` URL is looked up in.
//!
//! The player is given an opaque token, not an identity: a URL is `pstr://7`,
//! never one that names a share.
//!
//! **The open callback must not do work.** The caller opens the stream itself,
//! where an error survives, and registers the result. What the callback then does
//! is a hash lookup.
//!
//! **A share token is a secret.** Putting it in a URL puts it in the player's log
//! and on-screen title. A number leaks nothing.

use vstd::prelude::*;
use vstd::slice::slice_subrange;

use std::collections::HashMap;

use crate::text;
use crate::text::chars_stand_at;
use crate::text::from_chars;
use crate::text::owned;
use crate::text::to_chars;

verus! {

broadcast use vstd::std_specs::hash::group_hash_axioms;

/// The protocol prefix.
pub const PROTOCOL: &'static str = "pstr";

/// The URL of a token.
pub open spec fn url_of(id: u64) -> Seq<char> {
    "pstr://"@ + text::decimal(id as nat)
}

/// Whether a URL is the one that is given out for a token, a single trailing
/// slash aside.
pub open spec fn names(uri: Seq<char>, id: u64) -> bool {
    uri == url_of(id) || uri == url_of(id).push('/')
}

/// What stands behind the prefix, a single trailing slash aside.
spec fn behind_prefix(uri: Seq<char>) -> Seq<char> {
    let rest = uri.subrange(7, uri.len() as int);
    if rest.len() > 0 && rest.last() == '/' {
        rest.drop_last()
    } else {
        rest
    }
}

/// A URL names a token when the token in decimal is what stands behind the
/// prefix.
proof fn lemma_names(uri: Seq<char>, id: u64)
    ensures
        names(uri, id) == ("pstr://"@.is_prefix_of(uri) && behind_prefix(uri) == text::decimal(
            id as nat,
        )),
        text::unsigned_value(text::decimal(id as nat), u64::MAX as nat) == Some(id as nat),
{
    reveal_strlit("pstr://");
    let url = url_of(id);
    let digits = text::decimal(id as nat);
    text::lemma_decimal_reads_back(id as nat);
    assert(text::is_digit(digits[0]));
    assert(text::is_digit(digits[digits.len() - 1]));
    if uri == url {
        assert(uri.subrange(0, 7) =~= "pstr://"@);
        assert(uri.subrange(7, uri.len() as int) =~= digits);
    }
    if uri == url.push('/') {
        assert(uri.subrange(0, 7) =~= "pstr://"@);
        assert(uri.subrange(7, uri.len() as int) =~= digits.push('/'));
        assert(digits.push('/').drop_last() =~= digits);
    }
    if "pstr://"@.is_prefix_of(uri) && behind_prefix(uri) == digits {
        let rest = uri.subrange(7, uri.len() as int);
        assert(uri =~= "pstr://"@ + rest);
        if rest.len() > 0 && rest.last() == '/' {
            assert(rest =~= digits.push('/'));
            assert(uri =~= url.push('/'));
        }
    }
}

/// Streams that can currently be opened, by their tokens.
pub struct StreamRegistry<T> {
    next: u64,
    open: HashMap<u64, T>,
}

impl<T> View for StreamRegistry<T> {
    type V = Map<u64, T>;

    closed spec fn view(&self) -> Map<u64, T> {
        self.open@
    }
}

/// What can happen to the streams that can be opened.
pub enum Event<T> {
    /// A stream was published, and this token given out for it.
    Published(u64, T),
    /// The stream behind this token was revoked.
    Revoked(u64),
}

/// Names one published stream.
#[derive(Debug, Clone, Copy, PartialEq, Eq, Structural)]
pub struct StreamHandle {
    id: u64,
}

impl StreamHandle {
    pub closed spec fn token(&self) -> u64 {
        self.id
    }

    /// The URL to hand the player.
    pub fn url(&self) -> (r: String)
        ensures
            r@ == url_of(self.token()),
    {
        let mut url = owned("pstr://");
        let digits = from_chars(&text::decimal_of(self.id));
        url.push_str(digits.as_str());
        url
    }

    pub fn id(&self) -> (r: u64)
        ensures
            r == self.token(),
    {
        self.id
    }
}

/// Whether an event makes one registry into the other: a stream is published
/// under the upcoming token, and a token that is revoked stays used up. The
/// other streams stay as they are.
pub open spec fn leads_to<T>(
    before: StreamRegistry<T>,
    event: Event<T>,
    after: StreamRegistry<T>,
) -> bool {
    match event {
        Event::Published(token, stream) => {
            &&& token == before.upcoming()
            &&& after.upcoming() == before.upcoming() + 1
            &&& after@ == before@.insert(token, stream)
        },
        Event::Revoked(token) => {
            &&& after.upcoming() == before.upcoming()
            &&& after@ == before@.remove(token)
        },
    }
}

impl<T> StreamRegistry<T> {
    /// The token that the next stream gets.
    pub closed spec fn upcoming(&self) -> u64 {
        self.next
    }

    /// Every token in use was given out before.
    pub closed spec fn wf(&self) -> bool {
        forall|id: u64| #[trigger] self@.dom().contains(id) ==> id < self.next
    }

    pub fn new() -> (r: Self)
        ensures
            r.wf(),
            r@ == Map::<u64, T>::empty(),
            r.upcoming() == 1,
    {
        StreamRegistry { next: 1, open: HashMap::new() }
    }

    /// Publish a stream and get back the handle that names it. Its token was
    /// never given out before.
    pub fn publish(&mut self, stream: T) -> (r: StreamHandle)
        requires
            old(self).wf(),
            old(self).upcoming() < u64::MAX,
        ensures
            final(self).wf(),
            !old(self)@.dom().contains(r.token()),
            leads_to(*old(self), Event::Published(r.token(), stream), *final(self)),
    {
        let id = self.next;
        assert(!self@.dom().contains(id));
        self.next = self.next + 1;
        let _ = self.open.insert(id, stream);
        StreamHandle { id }
    }

    /// The stream behind a token.
    pub fn lookup(&self, id: u64) -> (r: Option<&T>)
        ensures
            match r {
                Some(stream) => self@.dom().contains(id) && *stream == self@[id],
                None => !self@.dom().contains(id),
            },
    {
        self.open.get(&id)
    }

    /// Stop publishing a stream. The URL no longer resolves; a playback already
    /// in progress is not disturbed.
    pub fn revoke(&mut self, handle: StreamHandle)
        requires
            old(self).wf(),
        ensures
            final(self).wf(),
            leads_to(*old(self), Event::Revoked(handle.token()), *final(self)),
    {
        let ghost before = self@;
        let _ = self.open.remove(&handle.id);
        assert forall|id: u64| #[trigger] self@.dom().contains(id) implies id < self.next by {
            assert(before.dom().contains(id));
        }
    }

    /// How many streams are published.
    pub fn len(&self) -> (r: usize)
        ensures
            r == self@.dom().len(),
    {
        self.open.len()
    }

    pub fn is_empty(&self) -> (r: bool)
        ensures
            r == (self@.dom().len() == 0),
    {
        self.open.len() == 0
    }
}

/// Pull the token out of a `pstr://` URL.
///
/// Deliberately strict: anything that is not exactly the shape that is given out
/// is a miss, not a guess. A trailing slash is what a URL parser would leave
/// behind; nothing else is let through, so a number with a sign or with leading
/// zeros is a miss too.
pub fn parse_url(uri: &str) -> (r: Option<u64>)
    ensures
        forall|id: u64| #[trigger] names(uri@, id) <==> r == Some(id),
        r is Some ==> names(uri@, r->0),
{
    let chars = to_chars(uri);
    let prefix = to_chars("pstr://");
    proof {
        reveal_strlit("pstr://");
        text::lemma_prefix_stands(uri@, "pstr://"@);
        assert forall|id: u64| #[trigger]
            names(uri@, id) == ("pstr://"@.is_prefix_of(uri@) && behind_prefix(uri@)
                == text::decimal(id as nat)) && text::unsigned_value(
                text::decimal(id as nat),
                u64::MAX as nat,
            ) == Some(id as nat) by {
            lemma_names(uri@, id);
        }
    }
    if !chars_stand_at(&chars, &prefix, 0) {
        return None;
    }
    let rest = slice_subrange(&chars, 7, chars.len());
    let number = if rest.len() > 0 && rest[rest.len() - 1] == '/' {
        let trimmed = slice_subrange(rest, 0, rest.len() - 1);
        assert(trimmed@ =~= rest@.drop_last());
        trimmed
    } else {
        rest
    };
    assert(number@ == behind_prefix(uri@));
    match text::parse_u64(number) {
        Some(id) => if text::same_chars(number, &text::decimal_of(id)) {
            Some(id)
        } else {
            None
        },
        None => None,
    }
}

// ---------------------------------------------------------------------------
// What holds of every registry
// ---------------------------------------------------------------------------

/// The URL that is handed out for a token names that token and no other, and so
/// does the same URL with a slash behind it.
pub proof fn law_urls_round_trip(id: u64, other: u64)
    ensures
        names(url_of(id), other) <==> other == id,
        names(url_of(id).push('/'), other) <==> other == id,
{
    lemma_names(url_of(id), id);
    lemma_names(url_of(id), other);
    lemma_names(url_of(id).push('/'), id);
    lemma_names(url_of(id).push('/'), other);
}

/// Whatever is published stands under a token that was given out before, so the
/// upcoming one is free.
pub proof fn law_published_tokens_were_given_out<T>(registry: &StreamRegistry<T>, id: u64)
    requires
        registry.wf(),
        registry@.dom().contains(id),
    ensures
        id < registry.upcoming(),
{
}

/// Whether each of the events led from one registry to the next, all through a
/// registry's life.
pub open spec fn is_run<T>(states: Seq<StreamRegistry<T>>, events: Seq<Event<T>>) -> bool {
    &&& states.len() == events.len() + 1
    &&& forall|i: int|
        0 <= i < events.len() ==> leads_to(states[i], #[trigger] events[i], states[i + 1])
}

/// The upcoming token never goes back.
proof fn lemma_upcoming_grows<T>(
    states: Seq<StreamRegistry<T>>,
    events: Seq<Event<T>>,
    i: int,
    j: int,
)
    requires
        is_run(states, events),
        0 <= i <= j < states.len(),
    ensures
        states[i].upcoming() <= states[j].upcoming(),
    decreases j - i,
{
    if i < j {
        lemma_upcoming_grows(states, events, i, j - 1);
        assert(leads_to(states[j - 1], events[j - 1], states[j]));
    }
}

/// No token is ever given out twice, whatever was published and revoked in
/// between: of two that were given out, the later one is larger.
pub proof fn law_tokens_are_never_reused<T>(
    states: Seq<StreamRegistry<T>>,
    events: Seq<Event<T>>,
    i: int,
    j: int,
)
    requires
        is_run(states, events),
        0 <= i < j < events.len(),
        events[i] is Published,
        events[j] is Published,
    ensures
        events[i]->Published_0 < events[j]->Published_0,
{
    assert(leads_to(states[i], events[i], states[i + 1]));
    assert(leads_to(states[j], events[j], states[j + 1]));
    lemma_upcoming_grows(states, events, i + 1, j);
}

/// A published stream is found under its token until that token is revoked, and
/// nothing is ever found under it again from then on.
pub proof fn law_a_stream_is_found_until_it_is_revoked<T>(
    states: Seq<StreamRegistry<T>>,
    events: Seq<Event<T>>,
    i: int,
    k: int,
)
    requires
        is_run(states, events),
        0 <= i < k < states.len(),
        events[i] is Published,
    ensures
        ({
            let token = events[i]->Published_0;
            if exists|j: int| i < j < k && #[trigger] events[j] == Event::<T>::Revoked(token) {
                !states[k]@.dom().contains(token)
            } else {
                states[k]@.dom().contains(token) && states[k]@[token] == events[i]->Published_1
            }
        }),
    decreases k,
{
    let token = events[i]->Published_0;
    assert(leads_to(states[k - 1], events[k - 1], states[k]));
    if i + 1 < k {
        law_a_stream_is_found_until_it_is_revoked(states, events, i, k - 1);
        if events[k - 1] is Published {
            law_tokens_are_never_reused(states, events, i, k - 1);
        }
        let gone = exists|j: int|
            i < j < k - 1 && #[trigger] events[j] == Event::<T>::Revoked(token);
        if gone {
            let j = choose|j: int|
                i < j < k - 1 && #[trigger] events[j] == Event::<T>::Revoked(token);
            assert(i < j < k && events[j] == Event::<T>::Revoked(token));
        } else if events[k - 1] == Event::<T>::Revoked(token) {
            assert(i < k - 1 < k);
        }
    }
}

} // verus!
