//! What names a node, wherever it is met.

use vstd::prelude::*;

use crate::text;

verus! {

/// What names a node: its volume and its link.
#[derive(Debug, PartialEq, Eq, Hash)]
pub struct NodeUid {
    pub volume_id: String,
    pub link_id: String,
}

/// A [`NodeUid`] with its parts taken as sequences of characters.
pub type UidView = (Seq<char>, Seq<char>);

impl View for NodeUid {
    type V = UidView;

    open spec fn view(&self) -> UidView {
        (self.volume_id@, self.link_id@)
    }
}

impl Clone for NodeUid {
    fn clone(&self) -> (r: Self)
        ensures
            r == *self,
    {
        NodeUid { volume_id: self.volume_id.clone(), link_id: self.link_id.clone() }
    }
}

/// A node's name written out: `volume~link`.
pub open spec fn written(uid: UidView) -> Seq<char> {
    uid.0 + seq!['~'] + uid.1
}

impl NodeUid {
    pub fn new(volume_id: &str, link_id: &str) -> (r: Self)
        ensures
            r@ == (volume_id@, link_id@),
    {
        NodeUid { volume_id: text::owned(volume_id), link_id: text::owned(link_id) }
    }

    /// The name written out.
    pub fn text(&self) -> (r: String)
        ensures
            r@ == written(self@),
    {
        let mut r = self.volume_id.clone();
        r.push_str("~");
        r.push_str(self.link_id.as_str());
        proof {
            reveal_strlit("~");
            assert("~"@ =~= seq!['~']);
        }
        r
    }

    /// Whether two names are the same.
    pub fn same(&self, other: &NodeUid) -> (r: bool)
        ensures
            r == (self@ == other@),
    {
        self.volume_id == other.volume_id && self.link_id == other.link_id
    }
}

/// A name written out tells its node: where no volume holds the separator, two
/// nodes are written the same only where they are the same.
pub proof fn law_a_written_name_tells_its_node(a: UidView, b: UidView)
    requires
        !a.0.contains('~'),
        !b.0.contains('~'),
    ensures
        written(a) == written(b) <==> a == b,
{
    if written(a) == written(b) {
        let s = written(a);
        let (n, m) = (a.0.len() as int, b.0.len() as int);
        assert(s[n] == '~' && s[m] == '~');
        if n < m {
            assert(b.0[n] == s[n]);
            assert(b.0.contains('~'));
        }
        if m < n {
            assert(a.0[m] == s[m]);
            assert(a.0.contains('~'));
        }
        assert(a.0 =~= s.take(n) && b.0 =~= s.take(n));
        assert(a.1 =~= s.skip(n + 1) && b.1 =~= s.skip(n + 1));
    }
}

} // verus!
