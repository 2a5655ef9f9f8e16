//! Objects fetched so far. A computation over content-addressed objects is
//! a function of a table of those that are known; it either finishes or
//! names the object that it needs next.
use vstd::prelude::*;

use crate::digest::Digest;
use crate::error::{CoreError, ErrorView, Result};

verus! {

/// What came of fetching an object: an error, bytes that do not parse, or
/// an object with the length of its plaintext.
#[derive(Debug)]
pub enum Fetched<N> {
    Failed(CoreError),
    Malformed { detail: String },
    Object { len: usize, object: N },
}

/// What came of fetching an object, with the object by its view.
pub enum FetchedView<V> {
    Failed(ErrorView),
    Malformed { detail: Seq<char> },
    Object { len: nat, object: V },
}

impl<N: View> View for Fetched<N> {
    type V = FetchedView<N::V>;

    open spec fn view(&self) -> FetchedView<N::V> {
        match self {
            Fetched::Failed(e) => FetchedView::Failed(e@),
            Fetched::Malformed { detail } => FetchedView::Malformed { detail: detail@ },
            Fetched::Object { len, object } => FetchedView::Object {
                len: *len as nat,
                object: object@,
            },
        }
    }
}

/// A result, or the object that is needed first.
#[derive(Debug)]
pub enum Step<T> {
    Done(T),
    Fetch(Digest),
}

/// The objects known so far, by digest.
#[derive(Debug)]
pub struct Table<N> {
    entries: Vec<(Digest, Fetched<N>)>,
}

pub open spec fn table_of<N: View>(s: Seq<(Digest, Fetched<N>)>) -> Map<Digest, FetchedView<N::V>>
    decreases s.len(),
{
    if s.len() == 0 {
        Map::empty()
    } else {
        table_of(s.drop_last()).insert(s.last().0, s.last().1@)
    }
}

impl<N: View> View for Table<N> {
    type V = Map<Digest, FetchedView<N::V>>;

    closed spec fn view(&self) -> Map<Digest, FetchedView<N::V>> {
        table_of(self.entries@)
    }
}

impl<N: View> Table<N> {
    pub fn new() -> (r: Self)
        ensures
            r@ == Map::<Digest, FetchedView<N::V>>::empty(),
    {
        Table { entries: Vec::new() }
    }

    /// Records what came of fetching `digest`.
    pub fn insert(&mut self, digest: Digest, fetched: Fetched<N>)
        ensures
            final(self)@ == old(self)@.insert(digest, fetched@),
    {
        let ghost before = self.entries@;
        self.entries.push((digest, fetched));
        assert(self.entries@.drop_last() =~= before);
    }

    /// What is known of `digest`.
    pub fn get(&self, digest: &Digest) -> (r: Option<&Fetched<N>>)
        ensures
            match r {
                Some(f) => self@.contains_key(*digest) && self@[*digest] == f@,
                None => !self@.contains_key(*digest),
            },
    {
        let mut n: usize = self.entries.len();
        let ghost all = self.entries@;
        assert(all.take(n as int) =~= all);
        while n > 0
            invariant
                n <= all.len(),
                all == self.entries@,
                self@.contains_key(*digest) == table_of(all.take(n as int)).contains_key(*digest),
                self@.contains_key(*digest) ==> self@[*digest] == table_of(
                    all.take(n as int),
                )[*digest],
            decreases n,
        {
            assert(all.take(n as int).drop_last() =~= all.take(n - 1));
            if self.entries[n - 1].0 == *digest {
                return Some(&self.entries[n - 1].1);
            }
            n = n - 1;
        }
        None
    }
}

/// Whether `m` knows all that `t` knows.
pub open spec fn extends<V>(m: Map<Digest, FetchedView<V>>, t: Map<Digest, FetchedView<V>>) -> bool {
    forall|d: Digest| #[trigger] t.contains_key(d) ==> m.contains_key(d) && m[d] == t[d]
}

/// Whether every object in `ups`, with a plaintext of at most `max` bytes,
/// is in `m` under its digest.
pub open spec fn stored<V>(
    m: Map<Digest, FetchedView<V>>,
    ups: Seq<(Digest, V)>,
    max: nat,
) -> bool {
    forall|i: int|
        0 <= i < ups.len() ==> {
            let d = (#[trigger] ups[i]).0;
            m.contains_key(d) && (m[d] matches FetchedView::Object { len, object } && len <= max
                && object == ups[i].1)
        }
}

/// Objects to store, by view.
pub open spec fn uploads_view<N: View>(s: Seq<(Digest, N)>) -> Seq<(Digest, N::V)> {
    s.map_values(|u: (Digest, N)| (u.0, u.1@))
}

/// Whether `address` gave every object in `ups` the digest that it has there.
pub open spec fn addressed<N, F: Fn(&N) -> Result<Digest>>(address: F, ups: Seq<(Digest, N)>) -> bool {
    forall|i: int|
        0 <= i < ups.len() ==> call_ensures(address, (&(#[trigger] ups[i]).1,), Ok(ups[i].0))
}

/// Gives `object` its digest and sets it aside to be stored.
pub fn put_object<N: View, F: Fn(&N) -> Result<Digest>>(
    address: &F,
    object: N,
    uploads: &mut Vec<(Digest, N)>,
) -> (r: Result<Digest>)
    requires
        forall|n: &N| call_requires(*address, (n,)),
        addressed(*address, old(uploads)@),
    ensures
        addressed(*address, final(uploads)@),
        match r {
            Ok(d) => final(uploads)@ == old(uploads)@.push((d, object)),
            Err(e) => final(uploads)@ == old(uploads)@ && call_ensures(
                *address,
                (&object,),
                Err(e),
            ),
        },
{
    match address(&object) {
        Err(e) => Err(e),
        Ok(d) => {
            let ghost before = uploads@;
            uploads.push((d, object));
            assert forall|i: int| 0 <= i < uploads@.len() implies call_ensures(
                *address,
                (&(#[trigger] uploads@[i]).1,),
                Ok(uploads@[i].0),
            ) by {
                if i < before.len() {
                    assert(uploads@[i] == before[i]);
                }
            }
            Ok(d)
        },
    }
}

/// Where more is stored, less is.
pub proof fn lemma_stored_prefix<N: View>(
    m: Map<Digest, FetchedView<N::V>>,
    ups: Seq<(Digest, N)>,
    more: Seq<(Digest, N)>,
    max: nat,
)
    requires
        stored(m, uploads_view(more), max),
        ups.len() <= more.len(),
        more.take(ups.len() as int) == ups,
    ensures
        stored(m, uploads_view(ups), max),
        forall|i: int|
            0 <= i < more.len() ==> m.contains_key((#[trigger] more[i]).0) && (m[more[i].0] matches
                FetchedView::Object { len, object } && len <= max && object == more[i].1@),
{
    let mv = uploads_view(more);
    assert forall|i: int| 0 <= i < more.len() implies m.contains_key((#[trigger] more[i]).0) && (
    m[more[i].0] matches FetchedView::Object { len, object } && len <= max && object
        == more[i].1@) by {
        assert(mv[i] == (more[i].0, more[i].1@));
    }
    let uv = uploads_view(ups);
    assert forall|i: int| 0 <= i < uv.len() implies {
        let d = (#[trigger] uv[i]).0;
        m.contains_key(d) && (m[d] matches FetchedView::Object { len, object } && len <= max
            && object == uv[i].1)
    } by {
        assert(more.take(ups.len() as int)[i] == more[i]);
        assert(uv[i] == (ups[i].0, ups[i].1@));
    }
}

} // verus!
