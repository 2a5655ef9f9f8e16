//! Orphan sweep: which objects nothing refers to. Every ref, operation and
//! stable key is a root; what a reachable object names is reachable too.
//! Objects younger than the cutoff are left alone, since a writer may be
//! about to publish them. Nothing is deleted.
use vstd::prelude::*;

use crate::digest::{lemma_digest_view, Digest};
use crate::error::CoreError;
use crate::json::{
    fault_message, fault_text, fields_view, json_of, lemma_list_view, lemma_object_view, parse,
    Json, JsonView,
};
use crate::object::ObjectInfo;
use crate::session::failure_text;
use crate::store::{object_key_of, Failure, KeyLayout};
use crate::text::{hex_text, join2, join3, same_text};
use crate::time::{is_moment, Timestamp};

verus! {

/// What a sweep found.
#[derive(Debug)]
pub struct SweepReport {
    pub refs_scanned: usize,
    pub objects_scanned: usize,
    pub reachable: usize,
    pub in_grace: usize,
    pub candidates: Vec<String>,
    pub deleted: usize,
}

/// Why a sweep ends without a report.
#[derive(Debug)]
pub enum SweepFault {
    DeleteDisabled,
    EarlierKeys { tenant: String },
    UnreadableRoot { key: String, detail: String },
    MalformedRoot { key: String, detail: String },
    MissingObject { digest: Digest, detail: String },
}

impl SweepFault {
    pub open spec fn text(self) -> Seq<char> {
        match self {
            SweepFault::DeleteDisabled =>
                "destructive online sweep is disabled until a separately proven generation barrier exists"@,
            SweepFault::EarlierKeys { tenant } => "comb/v1 keys exist for tenant "@ + tenant@
                + "; this process uses comb/v2 only"@,
            SweepFault::UnreadableRoot { key, detail } => "sweep aborted: unreadable root "@ + key@
                + (": "@ + detail@),
            SweepFault::MalformedRoot { key, detail } => "sweep aborted: malformed root "@ + key@ + (
            ": "@ + detail@),
            SweepFault::MissingObject { digest, detail } =>
                "sweep aborted: missing reachable object "@ + digest.text() + (": "@ + detail@),
        }
    }

    pub fn to_string(&self) -> (r: String)
        ensures
            r@ == self.text(),
    {
        match self {
            SweepFault::DeleteDisabled =>
                "destructive online sweep is disabled until a separately proven generation barrier exists".to_owned(),
            SweepFault::EarlierKeys { tenant } => join3(
                "comb/v1 keys exist for tenant ",
                tenant,
                "; this process uses comb/v2 only",
            ),
            SweepFault::UnreadableRoot { key, detail } => {
                let tail: String = join2(": ", detail);
                join3("sweep aborted: unreadable root ", key, &tail)
            },
            SweepFault::MalformedRoot { key, detail } => {
                let tail: String = join2(": ", detail);
                join3("sweep aborted: malformed root ", key, &tail)
            },
            SweepFault::MissingObject { digest, detail } => {
                let tail: String = join2(": ", detail);
                let name: String = digest.to_string();
                join3("sweep aborted: missing reachable object ", &name, &tail)
            },
        }
    }
}

// ------------------------------------------------------- digests in values
/// The digest that a text is.
pub open spec fn text_digest(s: Seq<char>) -> Option<Digest> {
    if exists|d: Digest| #[trigger] d.text() == s {
        Some(choose|d: Digest| #[trigger] d.text() == s)
    } else {
        None
    }
}

/// The digests in a value, in order.
pub open spec fn digests_of(j: JsonView) -> Seq<Digest>
    decreases j, 0nat,
{
    match j {
        JsonView::Text(s) => match text_digest(s) {
            Some(d) => seq![d],
            None => Seq::empty(),
        },
        JsonView::List(items) => list_digests(items, items.len()),
        JsonView::Object(fields) => field_digests(fields, fields.len()),
        _ => Seq::empty(),
    }
}

/// What stands at a place in a value: each step leads to an item of a list or
/// to the value of a field of an object, by its number.
pub open spec fn value_at(j: JsonView, place: Seq<nat>) -> Option<JsonView>
    decreases place.len(),
{
    if place.len() == 0 {
        Some(j)
    } else {
        match j {
            JsonView::List(items) => if place[0] < items.len() {
                value_at(items[place[0] as int], place.drop_first())
            } else {
                None
            },
            JsonView::Object(fields) => if place[0] < fields.len() {
                value_at(fields[place[0] as int].1, place.drop_first())
            } else {
                None
            },
            _ => None,
        }
    }
}

/// Whether a text at some place in a value is that of the digest.
pub open spec fn occurs(j: JsonView, d: Digest) -> bool {
    exists|place: Seq<nat>| #[trigger] value_at(j, place) == Some(JsonView::Text(d.text()))
}

/// The digests in the first `n` items.
pub open spec fn list_digests(items: Seq<JsonView>, n: nat) -> Seq<Digest>
    decreases items, n,
{
    if n == 0 || n > items.len() {
        Seq::empty()
    } else {
        list_digests(items, (n - 1) as nat) + digests_of(items[n - 1])
    }
}

/// The digests in the first `n` fields.
pub open spec fn field_digests(fields: Seq<(Seq<char>, JsonView)>, n: nat) -> Seq<Digest>
    decreases fields, n,
{
    if n == 0 || n > fields.len() {
        Seq::empty()
    } else {
        field_digests(fields, (n - 1) as nat) + digests_of(fields[n - 1].1)
    }
}

/// A digest occurs in a list if it occurs in some item.
proof fn lemma_occurs_in_list(items: Seq<JsonView>, d: Digest)
    ensures
        occurs(JsonView::List(items), d) <==> exists|i: int|
            0 <= i < items.len() && occurs(#[trigger] items[i], d),
{
    let j = JsonView::List(items);
    let want = Some(JsonView::Text(d.text()));
    if occurs(j, d) {
        let place = choose|place: Seq<nat>| #[trigger] value_at(j, place) == want;
        assert(place.len() > 0);
        assert(value_at(items[place[0] as int], place.drop_first()) == want);
        assert(occurs(items[place[0] as int], d));
    }
    if exists|i: int| 0 <= i < items.len() && occurs(#[trigger] items[i], d) {
        let i = choose|i: int| 0 <= i < items.len() && occurs(#[trigger] items[i], d);
        let rest = choose|place: Seq<nat>| #[trigger] value_at(items[i], place) == want;
        let place = seq![i as nat] + rest;
        assert(place.drop_first() =~= rest);
        assert(value_at(j, place) == want);
    }
}

/// A digest occurs in an object if it occurs in the value of some field.
proof fn lemma_occurs_in_object(fields: Seq<(Seq<char>, JsonView)>, d: Digest)
    ensures
        occurs(JsonView::Object(fields), d) <==> exists|i: int|
            0 <= i < fields.len() && occurs((#[trigger] fields[i]).1, d),
{
    let j = JsonView::Object(fields);
    let want = Some(JsonView::Text(d.text()));
    if occurs(j, d) {
        let place = choose|place: Seq<nat>| #[trigger] value_at(j, place) == want;
        assert(place.len() > 0);
        assert(value_at(fields[place[0] as int].1, place.drop_first()) == want);
        assert(occurs(fields[place[0] as int].1, d));
    }
    if exists|i: int| 0 <= i < fields.len() && occurs((#[trigger] fields[i]).1, d) {
        let i = choose|i: int| 0 <= i < fields.len() && occurs((#[trigger] fields[i]).1, d);
        let rest = choose|place: Seq<nat>| #[trigger] value_at(fields[i].1, place) == want;
        let place = seq![i as nat] + rest;
        assert(place.drop_first() =~= rest);
        assert(value_at(j, place) == want);
    }
}

proof fn lemma_in_both(a: Seq<Digest>, b: Seq<Digest>, d: Digest)
    ensures
        (a + b).contains(d) <==> a.contains(d) || b.contains(d),
{
    let s = a + b;
    if s.contains(d) {
        let i = choose|i: int| 0 <= i < s.len() && s[i] == d;
        if i < a.len() {
            assert(a[i] == d);
        } else {
            assert(b[i - a.len()] == d);
        }
    }
    if a.contains(d) {
        let i = choose|i: int| 0 <= i < a.len() && a[i] == d;
        assert(s[i] == d);
    }
    if b.contains(d) {
        let i = choose|i: int| 0 <= i < b.len() && b[i] == d;
        assert(s[a.len() + i] == d);
    }
}

proof fn lemma_list_digests(items: Seq<JsonView>, n: nat, d: Digest)
    requires
        n <= items.len(),
    ensures
        list_digests(items, n).contains(d) <==> exists|i: int|
            0 <= i < n && occurs(#[trigger] items[i], d),
    decreases items, n,
{
    if n > 0 {
        lemma_list_digests(items, (n - 1) as nat, d);
        law_digests_are_those_that_occur(items[n - 1], d);
        lemma_in_both(list_digests(items, (n - 1) as nat), digests_of(items[n - 1]), d);
    }
}

proof fn lemma_field_digests(fields: Seq<(Seq<char>, JsonView)>, n: nat, d: Digest)
    requires
        n <= fields.len(),
    ensures
        field_digests(fields, n).contains(d) <==> exists|i: int|
            0 <= i < n && occurs((#[trigger] fields[i]).1, d),
    decreases fields, n,
{
    if n > 0 {
        lemma_field_digests(fields, (n - 1) as nat, d);
        law_digests_are_those_that_occur(fields[n - 1].1, d);
        lemma_in_both(field_digests(fields, (n - 1) as nat), digests_of(fields[n - 1].1), d);
    }
}

/// Every digest that occurs in a value, at whatever place, is found in it, and
/// nothing else is.
pub proof fn law_digests_are_those_that_occur(j: JsonView, d: Digest)
    ensures
        digests_of(j).contains(d) <==> occurs(j, d),
    decreases j, 0nat,
{
    match j {
        JsonView::List(items) => {
            lemma_occurs_in_list(items, d);
            lemma_list_digests(items, items.len(), d);
        },
        JsonView::Object(fields) => {
            lemma_occurs_in_object(fields, d);
            lemma_field_digests(fields, fields.len(), d);
        },
        JsonView::Text(s) => {
            if s == d.text() {
                let e = text_digest(s)->0;
                crate::digest::law_digest_text_injective(d, e);
                assert(digests_of(j)[0] == d);
                assert(value_at(j, Seq::empty()) == Some(JsonView::Text(d.text())));
            }
            if digests_of(j).contains(d) {
                assert(value_at(j, Seq::empty()) == Some(JsonView::Text(d.text())));
            }
            if occurs(j, d) {
                let place = choose|place: Seq<nat>| #[trigger]
                    value_at(j, place) == Some(JsonView::Text(d.text()));
                assert(place.len() == 0);
            }
        },
        _ => {
            if occurs(j, d) {
                let place = choose|place: Seq<nat>| #[trigger]
                    value_at(j, place) == Some(JsonView::Text(d.text()));
                assert(place.len() == 0);
            }
        },
    }
}

/// Adds the digests that occur in a value.
proof fn lemma_found(before: Seq<Digest>, j: JsonView)
    ensures
        forall|d: Digest| #[trigger]
            (before + digests_of(j)).contains(d) <==> before.contains(d) || occurs(j, d),
{
    assert forall|d: Digest| #[trigger] (before + digests_of(j)).contains(d) <==> before.contains(
        d,
    ) || occurs(j, d) by {
        lemma_in_both(before, digests_of(j), d);
        law_digests_are_those_that_occur(j, d);
    }
}

/// Collects every digest in a value.
pub fn digests_in(value: &Json, out: &mut Vec<Digest>)
    ensures
        final(out)@ == old(out)@ + digests_of(value@),
        forall|d: Digest| #[trigger]
            final(out)@.contains(d) <==> old(out)@.contains(d) || occurs(value@, d),
    decreases value,
{
    proof {
        lemma_found(out@, value@);
    }
    match value {
        Json::Text(s) => {
            match Digest::parse(s) {
                Ok(d) => {
                    proof {
                        let e = choose|e: Digest| #[trigger] e.text() == s@;
                        crate::digest::law_digest_text_injective(d, e);
                    }
                    out.push(d);
                },
                Err(_) => {},
            }
            assert(out@ =~= old(out)@ + digests_of(value@));
        },
        Json::List(items) => {
            proof {
                lemma_list_view(*items);
            }
            let ghost all = items@.map_values(|j: Json| j@);
            let mut i: usize = 0;
            assert(out@ =~= old(out)@ + list_digests(all, 0));
            while i < items.len()
                invariant
                    i <= items@.len(),
                    *value == Json::List(*items),
                    all == items@.map_values(|j: Json| j@),
                    out@ == old(out)@ + list_digests(all, i as nat),
                decreases items@.len() - i,
            {
                assert(decreases_to!(*value => value->List_0));
                assert(decreases_to!(*items => items@[i as int]));
                digests_in(&items[i], out);
                assert(all[i as int] == items@[i as int]@);
                assert(out@ =~= old(out)@ + list_digests(all, (i + 1) as nat));
                i = i + 1;
            }
        },
        Json::Object(fields) => {
            proof {
                lemma_object_view(*fields);
            }
            let ghost all = fields_view(fields@);
            let mut i: usize = 0;
            assert(out@ =~= old(out)@ + field_digests(all, 0));
            while i < fields.len()
                invariant
                    i <= fields@.len(),
                    *value == Json::Object(*fields),
                    all == fields_view(fields@),
                    out@ == old(out)@ + field_digests(all, i as nat),
                decreases fields@.len() - i,
            {
                assert(decreases_to!(*value => value->Object_0));
                assert(decreases_to!(*fields => fields@[i as int]));
                digests_in(&fields[i].1, out);
                assert(all[i as int].1 == fields@[i as int].1@);
                assert(out@ =~= old(out)@ + field_digests(all, (i + 1) as nat));
                i = i + 1;
            }
        },
        _ => {
            assert(out@ =~= old(out)@ + digests_of(value@));
        },
    }
}

// ---------------------------------------------------------------- the walk
/// Where a walk stands: what was reached, in the order in which it was, and
/// what is still to be looked at.
pub struct Sweep {
    queue: Vec<Digest>,
    at: usize,
    seen: Vec<Digest>,
    roots: usize,
}

/// The next digest that was not reached before, and what is left after it.
pub open spec fn next_unseen(seen: Seq<Digest>, pending: Seq<Digest>) -> (Option<Digest>, Seq<Digest>)
    decreases pending.len(),
{
    if pending.len() == 0 {
        (None, pending)
    } else if seen.contains(pending[0]) {
        next_unseen(seen, pending.drop_first())
    } else {
        (Some(pending[0]), pending.drop_first())
    }
}

/// The digests in the payload of an object; none in one that is no JSON.
pub open spec fn payload_digests(payload: Seq<u8>) -> Seq<Digest> {
    match json_of(payload) {
        Ok(j) => digests_of(j),
        Err(_) => Seq::empty(),
    }
}

fn has_digest(s: &Vec<Digest>, d: &Digest) -> (r: bool)
    ensures
        r == s@.contains(*d),
{
    let mut i: usize = 0;
    while i < s.len()
        invariant
            i <= s@.len(),
            forall|j: int| 0 <= j < i ==> s@[j] != *d,
        decreases s@.len() - i,
    {
        if s[i] == *d {
            assert(s@[i as int] == *d);
            return true;
        }
        i = i + 1;
    }
    false
}

impl Sweep {
    pub closed spec fn pending(self) -> Seq<Digest> {
        self.queue@.skip(self.at as int)
    }

    pub closed spec fn reached(self) -> Seq<Digest> {
        self.seen@
    }

    pub closed spec fn scanned(self) -> nat {
        self.roots as nat
    }

    pub closed spec fn wf(self) -> bool {
        self.at <= self.queue@.len()
    }

    /// Begins a walk. It does not begin where objects are to be deleted, or
    /// where the tenant has keys of an earlier layout.
    pub fn begin(tenant: &str, delete: bool, earlier_keys: bool) -> (r: core::result::Result<
        Self,
        SweepFault,
    >)
        ensures
            match r {
                Ok(s) => !delete && !earlier_keys && s.wf() && s.pending().len() == 0
                    && s.reached().len() == 0 && s.scanned() == 0,
                Err(SweepFault::DeleteDisabled) => delete,
                Err(SweepFault::EarlierKeys { tenant: t }) => !delete && earlier_keys && t@
                    == tenant@,
                _ => false,
            },
    {
        if delete {
            return Err(SweepFault::DeleteDisabled);
        }
        if earlier_keys {
            return Err(SweepFault::EarlierKeys { tenant: tenant.to_owned() });
        }
        Ok(Sweep { queue: Vec::new(), at: 0, seen: Vec::new(), roots: 0 })
    }

    /// A root was read: what it names is to be looked at. A root that cannot
    /// be read, or is no JSON, ends the walk.
    pub fn on_root(&mut self, key: &str, read: core::result::Result<Vec<u8>, CoreError>) -> (r:
        core::result::Result<(), SweepFault>)
        requires
            old(self).wf(),
            old(self).scanned() < usize::MAX,
        ensures
            final(self).wf(),
            final(self).reached() == old(self).reached(),
            match read {
                Err(e) => (r matches Err(SweepFault::UnreadableRoot { key: k, detail }) && k@
                    == key@ && detail@ == e.text()) && final(self).pending() == old(
                    self,
                ).pending() && final(self).scanned() == old(self).scanned(),
                Ok(bytes) => match json_of(bytes@) {
                    Err(f) => (r matches Err(SweepFault::MalformedRoot { key: k, detail }) && k@
                        == key@ && detail@ == fault_text(f)) && final(self).pending() == old(
                        self,
                    ).pending() && final(self).scanned() == old(self).scanned(),
                    Ok(j) => r is Ok && final(self).pending() == old(self).pending() + digests_of(j)
                        && final(self).scanned() == old(self).scanned() + 1 && forall|d: Digest|
                        #[trigger]
                        final(self).pending().contains(d) <==> old(self).pending().contains(d)
                            || occurs(j, d),
                },
            },
    {
        let bytes: Vec<u8> = match read {
            Ok(b) => b,
            Err(e) => {
                return Err(
                    SweepFault::UnreadableRoot { key: key.to_owned(), detail: e.to_string() },
                );
            },
        };
        match parse(&bytes) {
            Err(f) => Err(
                SweepFault::MalformedRoot { key: key.to_owned(), detail: fault_message(f) },
            ),
            Ok(j) => {
                let ghost before = self.queue@;
                proof {
                    lemma_found(old(self).pending(), j@);
                }
                digests_in(&j, &mut self.queue);
                self.roots = self.roots + 1;
                assert(self.queue@.skip(self.at as int) =~= before.skip(self.at as int)
                    + digests_of(j@));
                Ok(())
            },
        }
    }

    /// The next object to look at; it counts as reached.
    pub fn next(&mut self) -> (r: Option<Digest>)
        requires
            old(self).wf(),
        ensures
            final(self).wf(),
            final(self).scanned() == old(self).scanned(),
            match r {
                Some(d) => old(self).pending().contains(d) && !old(self).reached().contains(d),
                None => final(self).pending().len() == 0,
            },
            forall|e: Digest| #[trigger]
                old(self).pending().contains(e) ==> final(self).reached().contains(e)
                    || final(self).pending().contains(e),
            forall|e: Digest| #[trigger]
                final(self).pending().contains(e) ==> old(self).pending().contains(e),
            r == next_unseen(old(self).reached(), old(self).pending()).0,
            final(self).pending() == next_unseen(old(self).reached(), old(self).pending()).1,
            final(self).reached() == match r {
                Some(d) => old(self).reached().push(d),
                None => old(self).reached(),
            },
    {
        proof {
            lemma_next_unseen(self.reached(), self.pending());
        }
        while self.at < self.queue.len()
            invariant
                self.wf(),
                self.seen@ == old(self).seen@,
                self.queue@ == old(self).queue@,
                self.roots == old(self).roots,
                next_unseen(old(self).reached(), old(self).pending()) == next_unseen(
                    self.reached(),
                    self.pending(),
                ),
            decreases self.queue@.len() - self.at,
        {
            let d: Digest = self.queue[self.at];
            assert(self.pending()[0] == d);
            assert(self.pending().drop_first() =~= self.queue@.skip(self.at + 1));
            self.at = self.at + 1;
            if !has_digest(&self.seen, &d) {
                proof {
                    lemma_next_unseen(old(self).reached(), old(self).pending());
                    lemma_pushed(old(self).reached(), d);
                }
                self.seen.push(d);
                assert(self.pending() =~= next_unseen(old(self).reached(), old(self).pending()).1);
                return Some(d);
            }
        }
        None
    }

    /// An object was read: what it names is to be looked at. A digest that
    /// names no object is passed over, since fingerprints are written in the
    /// same way; any other failure ends the walk.
    pub fn on_object(&mut self, digest: Digest, read: core::result::Result<Vec<u8>, Failure>) -> (r:
        core::result::Result<(), SweepFault>)
        requires
            old(self).wf(),
        ensures
            final(self).wf(),
            final(self).scanned() == old(self).scanned(),
            final(self).reached() == old(self).reached(),
            match read {
                Ok(payload) => r is Ok && final(self).pending() == old(self).pending()
                    + payload_digests(payload@) && forall|d: Digest| #[trigger]
                    final(self).pending().contains(d) <==> old(self).pending().contains(d) || (
                    json_of(payload@) matches Ok(j) && occurs(j, d)),
                Err(f) => final(self).pending() == old(self).pending() && if f matches Failure::Core(
                    e,
                ) && e is NotFound {
                    r is Ok
                } else {
                    r matches Err(SweepFault::MissingObject { digest: d, detail }) && d == digest
                        && detail@ == crate::session::failure_message(f)
                },
            },
    {
        match read {
            Err(f) => {
                if let Failure::Core(CoreError::NotFound(_)) = &f {
                    return Ok(());
                }
                Err(SweepFault::MissingObject { digest, detail: failure_text(&f) })
            },
            Ok(payload) => {
                let ghost before = self.queue@;
                match parse(&payload) {
                    Ok(j) => {
                        proof {
                            lemma_found(self.pending(), j@);
                        }
                        digests_in(&j, &mut self.queue);
                    },
                    Err(_) => {},
                }
                assert(self.queue@.skip(self.at as int) =~= before.skip(self.at as int)
                    + payload_digests(payload@));
                Ok(())
            },
        }
    }

    /// What is left to collect: the objects that were not reached, less those
    /// younger than the cutoff.
    pub fn report(&self, objects: &Vec<ObjectInfo>, cutoff: Timestamp) -> (r: SweepReport)
        requires
            self.wf(),
        ensures
            r.refs_scanned == self.scanned(),
            r.objects_scanned == objects@.len(),
            r.reachable == self.reached().len(),
            forall|key: Seq<char>| #[trigger]
                is_left(key, objects@, self.reached(), cutoff) <==> r.candidates@.map_values(
                    |s: String| s@,
                ).contains(key),
            r.candidates@.len() + r.in_grace <= objects@.len(),
            r.in_grace == young(objects@, self.reached(), cutoff).len(),
            r.candidates@.map_values(|s: String| s@) == orphans(
                objects@,
                self.reached(),
                cutoff,
            ),
            r.deleted == 0,
    {
        let mut in_grace: usize = 0;
        let mut candidates: Vec<String> = Vec::new();
        let mut i: usize = 0;
        let ghost seen = self.seen@;
        assert(candidates@.map_values(|s: String| s@) =~= orphans(objects@.take(0), seen, cutoff));
        while i < objects.len()
            invariant
                i <= objects@.len(),
                seen == self.seen@,
                in_grace <= i,
                in_grace == young(objects@.take(i as int), seen, cutoff).len(),
                candidates@.map_values(|s: String| s@) == orphans(
                    objects@.take(i as int),
                    seen,
                    cutoff,
                ),
            decreases objects@.len() - i,
        {
            let o: &ObjectInfo = &objects[i];
            let ghost before = candidates@;
            let ghost next = objects@.take(i + 1);
            proof {
                assert(next.drop_last() =~= objects@.take(i as int));
                assert(next.last() == *o);
            }
            if !self.reaches(&o.key) {
                if o.modified.after(&cutoff) {
                    in_grace = in_grace + 1;
                } else {
                    candidates.push(o.key.clone());
                    assert(candidates@.map_values(|s: String| s@) =~= before.map_values(
                        |s: String| s@,
                    ).push(o.key@));
                }
            }
            i = i + 1;
        }
        assert(objects@.take(i as int) =~= objects@);
        proof {
            lemma_sorted_out(objects@, seen, cutoff);
            law_candidates_are_old_and_unreached(objects@, seen, cutoff);
        }
        SweepReport {
            refs_scanned: self.roots,
            objects_scanned: objects.len(),
            reachable: self.seen.len(),
            in_grace,
            candidates,
            deleted: 0,
        }
    }

    fn reaches(&self, key: &str) -> (r: bool)
        ensures
            r == is_reached(key@, self.seen@),
    {
        let name: String = last_segment(key);
        let mut i: usize = 0;
        while i < self.seen.len()
            invariant
                i <= self.seen@.len(),
                name@ == segment_from(key@),
                forall|j: int| 0 <= j < i ==> hex_text((#[trigger] self.seen@[j])@) != name@,
            decreases self.seen@.len() - i,
        {
            let hex: String = self.seen[i].hex();
            if same_text(&hex, &name) {
                assert(hex_text(self.seen@[i as int]@) == name@);
                return true;
            }
            i = i + 1;
        }
        false
    }
}

/// What follows the last slash of a key.
pub open spec fn segment_from(key: Seq<char>) -> Seq<char>
    decreases key.len(),
{
    if key.len() == 0 || key.last() == '/' {
        Seq::empty()
    } else {
        segment_from(key.drop_last()).push(key.last())
    }
}

fn last_segment(key: &str) -> (r: String)
    ensures
        r@ == segment_from(key@),
{
    let n: usize = key.unicode_len();
    let mut i: usize = n;
    assert(key@.take(n as int) =~= key@);
    assert(key@.subrange(n as int, n as int) =~= Seq::<char>::empty());
    assert(segment_from(key@) =~= segment_from(key@.take(n as int)) + key@.subrange(
        n as int,
        n as int,
    ));
    while i > 0 && key.get_char(i - 1) != '/'
        invariant
            n == key@.len(),
            i <= n,
            segment_from(key@) == segment_from(key@.take(i as int)) + key@.subrange(
                i as int,
                n as int,
            ),
        decreases i,
    {
        proof {
            let head = key@.take(i as int);
            assert(head.drop_last() =~= key@.take(i - 1));
            assert(segment_from(head) == segment_from(key@.take(i - 1)).push(key@[i - 1]));
            assert(segment_from(key@.take(i - 1)).push(key@[i - 1]) + key@.subrange(
                i as int,
                n as int,
            ) =~= segment_from(key@.take(i - 1)) + key@.subrange(i - 1, n as int));
        }
        i = i - 1;
    }
    let s: &str = key.substring_char(i, n);
    proof {
        assert(segment_from(key@.take(i as int)) =~= Seq::<char>::empty());
        assert(s@ =~= segment_from(key@));
    }
    s.to_owned()
}

/// Whether the digest that a key ends in was reached.
pub open spec fn is_reached(key: Seq<char>, seen: Seq<Digest>) -> bool {
    exists|i: int| 0 <= i < seen.len() && hex_text((#[trigger] seen[i])@) == segment_from(key)
}

/// The keys of the objects that were not reached and are not young, in order.
pub open spec fn orphans(objects: Seq<ObjectInfo>, seen: Seq<Digest>, cutoff: Timestamp) -> Seq<
    Seq<char>,
>
    decreases objects.len(),
{
    if objects.len() == 0 {
        Seq::empty()
    } else {
        let o = objects.last();
        let rest = orphans(objects.drop_last(), seen, cutoff);
        if !is_reached(o.key@, seen) && o.modified@ <= cutoff@ {
            rest.push(o.key@)
        } else {
            rest
        }
    }
}

/// The keys of the objects that were not reached and are young, in order.
pub open spec fn young(objects: Seq<ObjectInfo>, seen: Seq<Digest>, cutoff: Timestamp) -> Seq<
    Seq<char>,
>
    decreases objects.len(),
{
    if objects.len() == 0 {
        Seq::empty()
    } else {
        let o = objects.last();
        let rest = young(objects.drop_last(), seen, cutoff);
        if !is_reached(o.key@, seen) && o.modified@ > cutoff@ {
            rest.push(o.key@)
        } else {
            rest
        }
    }
}

/// The moment before which an object is no longer young, if there is one.
pub fn cutoff(now: Timestamp, grace_mins: i64) -> (r: Option<Timestamp>)
    ensures
        r is Some <==> is_moment(now@ - grace_mins * 60_000_000_000),
        r matches Some(t) ==> t@ == now@ - grace_mins * 60_000_000_000,
{
    let nanos: i128 = now.nanos();
    Timestamp::from_nanos(nanos - grace_mins as i128 * 60_000_000_000)
}

/// The prefix of the keys of an earlier layout.
pub fn earlier_prefix(tenant: &str) -> (r: String)
    ensures
        r@ == "comb/v1/tenants/"@ + tenant@ + "/"@,
{
    join3("comb/v1/tenants/", tenant, "/")
}

/// The prefixes of the roots.
pub fn root_prefixes(tenant: &str) -> (r: Vec<String>)
    ensures
        r@.map_values(|s: String| s@) == seq![
            "comb/v2/tenants/"@ + tenant@ + "/refs/"@,
            "comb/v2/tenants/"@ + tenant@ + "/ops/"@,
            "comb/v2/tenants/"@ + tenant@ + "/stable/"@,
        ],
{
    let mut out: Vec<String> = Vec::new();
    out.push(join3("comb/v2/tenants/", tenant, "/refs/"));
    out.push(join3("comb/v2/tenants/", tenant, "/ops/"));
    out.push(join3("comb/v2/tenants/", tenant, "/stable/"));
    assert(out@.map_values(|s: String| s@) =~= seq![
        "comb/v2/tenants/"@ + tenant@ + "/refs/"@,
        "comb/v2/tenants/"@ + tenant@ + "/ops/"@,
        "comb/v2/tenants/"@ + tenant@ + "/stable/"@,
    ]);
    out
}

/// The prefix of the objects.
pub fn object_prefix(tenant: &str) -> (r: String)
    ensures
        r@ == "comb/v2/tenants/"@ + tenant@ + "/objects/b3k/"@,
{
    join3("comb/v2/tenants/", tenant, "/objects/b3k/")
}

// ------------------------------------------------------------ reachability
/// Whether everything that a reached object names is reached or pending.
pub open spec fn covers(
    seen: Seq<Digest>,
    pending: Seq<Digest>,
    names: spec_fn(Digest) -> Seq<Digest>,
) -> bool {
    forall|d: Digest, e: Digest|
        #![trigger seen.contains(d), names(d).contains(e)]
        seen.contains(d) && names(d).contains(e) ==> seen.contains(e) || pending.contains(e)
}

proof fn lemma_pushed(s: Seq<Digest>, d: Digest)
    ensures
        forall|e: Digest| #[trigger] s.push(d).contains(e) <==> s.contains(e) || e == d,
{
    assert forall|e: Digest| #[trigger] s.push(d).contains(e) <==> s.contains(e) || e == d by {
        let t = s.push(d);
        if s.contains(e) {
            let i = choose|i: int| 0 <= i < s.len() && s[i] == e;
            assert(t[i] == e);
        }
        if t.contains(e) {
            let i = choose|i: int| 0 <= i < t.len() && t[i] == e;
            if i < s.len() {
                assert(s[i] == e);
            }
        }
        assert(t[s.len() as int] == d);
    }
}

proof fn lemma_next_unseen(seen: Seq<Digest>, pending: Seq<Digest>)
    ensures
        ({
            let (r, rest) = next_unseen(seen, pending);
            &&& r is None ==> rest.len() == 0
            &&& r matches Some(d) ==> pending.contains(d) && !seen.contains(d)
            &&& forall|e: Digest| #[trigger] rest.contains(e) ==> pending.contains(e)
            &&& forall|e: Digest|
                #[trigger] pending.contains(e) ==> seen.contains(e) || rest.contains(e) || r == Some(
                    e,
                )
        }),
    decreases pending.len(),
{
    if pending.len() > 0 {
        let tail = pending.drop_first();
        assert forall|e: Digest| #[trigger] tail.contains(e) implies pending.contains(e) by {
            let i = choose|i: int| 0 <= i < tail.len() && tail[i] == e;
            assert(pending[i + 1] == e);
        }
        assert(pending.contains(pending[0]));
        assert forall|e: Digest| #[trigger] pending.contains(e) implies e == pending[0]
            || tail.contains(e) by {
            let i = choose|i: int| 0 <= i < pending.len() && pending[i] == e;
            if i > 0 {
                assert(tail[i - 1] == e);
            }
        }
        if seen.contains(pending[0]) {
            lemma_next_unseen(seen, tail);
        }
    }
}

/// One step of the walk keeps what it has to: after an object was looked at,
/// everything that a reached object names is reached or pending, and so is
/// everything that was before. A walk that has come to its end has nothing
/// pending.
pub proof fn law_walk_loses_nothing(
    seen: Seq<Digest>,
    pending: Seq<Digest>,
    names: spec_fn(Digest) -> Seq<Digest>,
    e: Digest,
)
    requires
        covers(seen, pending, names),
    ensures
        ({
            let (r, rest) = next_unseen(seen, pending);
            match r {
                Some(d) => {
                    &&& covers(seen.push(d), rest + names(d), names)
                    &&& (seen.contains(e) || pending.contains(e) ==> seen.push(d).contains(e) || (
                    rest + names(d)).contains(e))
                },
                None => covers(seen, Seq::empty(), names) && (seen.contains(e) || pending.contains(
                    e,
                ) ==> seen.contains(e)),
            }
        }),
{
    lemma_next_unseen(seen, pending);
    let (r, rest) = next_unseen(seen, pending);
    match r {
        Some(d) => {
            let s2 = seen.push(d);
            let p2 = rest + names(d);
            assert forall|x: Digest| seen.contains(x) implies #[trigger] s2.contains(x) by {
                let i = choose|i: int| 0 <= i < seen.len() && seen[i] == x;
                assert(s2[i] == x);
            }
            assert(s2.contains(d)) by {
                assert(s2[seen.len() as int] == d);
            }
            assert forall|x: Digest| rest.contains(x) implies #[trigger] p2.contains(x) by {
                let i = choose|i: int| 0 <= i < rest.len() && rest[i] == x;
                assert(p2[i] == x);
            }
            let own = names(d);
            assert forall|x: Digest| own.contains(x) implies #[trigger] p2.contains(x) by {
                let i = choose|i: int| 0 <= i < own.len() && own[i] == x;
                assert(p2[rest.len() + i] == x);
            }
            assert forall|a: Digest, b: Digest|
                #![trigger s2.contains(a), names(a).contains(b)]
                s2.contains(a) && names(a).contains(b) implies s2.contains(b) || p2.contains(b) by {
                if a != d {
                    let i = choose|i: int| 0 <= i < s2.len() && s2[i] == a;
                    assert(seen[i] == a);
                    assert(seen.contains(a));
                    if !seen.contains(b) {
                        assert(pending.contains(b));
                    }
                }
            }
        },
        None => {
            assert forall|a: Digest, b: Digest|
                #![trigger seen.contains(a), names(a).contains(b)]
                seen.contains(a) && names(a).contains(b) implies seen.contains(b)
                || Seq::<Digest>::empty().contains(b) by {
                if !seen.contains(b) {
                    assert(pending.contains(b));
                }
            }
        },
    }
}

/// Whether each digest of a path is named by the one before it.
pub open spec fn is_path(path: Seq<Digest>, names: spec_fn(Digest) -> Seq<Digest>) -> bool {
    path.len() > 0 && forall|i: int|
        #![trigger path[i]]
        0 < i < path.len() ==> names(path[i - 1]).contains(path[i])
}

/// What is reachable from a root through objects that name one another was
/// reached when the walk ends, and no object under its name is collected.
pub proof fn law_reachable_is_never_collected(
    seen: Seq<Digest>,
    names: spec_fn(Digest) -> Seq<Digest>,
    path: Seq<Digest>,
    objects: Seq<ObjectInfo>,
    cutoff: Timestamp,
    k: int,
)
    requires
        covers(seen, Seq::empty(), names),
        is_path(path, names),
        seen.contains(path[0]),
    ensures
        seen.contains(path.last()),
        0 <= k < orphans(objects, seen, cutoff).len() ==> segment_from(
            orphans(objects, seen, cutoff)[k],
        ) != hex_text(path.last()@),
    decreases path.len(),
{
    if path.len() > 1 {
        let head = path.drop_last();
        assert forall|i: int| #![trigger head[i]] 0 < i < head.len() implies names(
            head[i - 1],
        ).contains(head[i]) by {
            assert(path[i - 1] == head[i - 1] && path[i] == head[i]);
        }
        law_reachable_is_never_collected(seen, names, head, objects, cutoff, k);
        let n = path.len() - 1;
        assert(path[n - 1] == head.last());
        assert(names(path[n - 1]).contains(path[n]));
    }
    if 0 <= k < orphans(objects, seen, cutoff).len() {
        lemma_orphan_unreached(objects, seen, cutoff, k);
        let i = choose|i: int| 0 <= i < seen.len() && seen[i] == path.last();
        assert(seen[i] == path.last());
    }
}

proof fn lemma_orphan_unreached(
    objects: Seq<ObjectInfo>,
    seen: Seq<Digest>,
    cutoff: Timestamp,
    k: int,
)
    requires
        0 <= k < orphans(objects, seen, cutoff).len(),
    ensures
        !is_reached(orphans(objects, seen, cutoff)[k], seen),
        exists|i: int|
            0 <= i < objects.len() && (#[trigger] objects[i]).key@ == orphans(
                objects,
                seen,
                cutoff,
            )[k] && objects[i].modified@ <= cutoff@,
    decreases objects.len(),
{
    let o = objects.last();
    let rest = orphans(objects.drop_last(), seen, cutoff);
    if k < rest.len() {
        lemma_orphan_unreached(objects.drop_last(), seen, cutoff, k);
        let i = choose|i: int|
            0 <= i < objects.drop_last().len() && (#[trigger] objects.drop_last()[i]).key@ == rest[k]
                && objects.drop_last()[i].modified@ <= cutoff@;
        assert(objects[i].key@ == rest[k]);
    } else {
        assert(objects[objects.len() - 1] == o);
    }
}

/// Every object that was not reached and is not young is a candidate.
pub proof fn law_unreached_objects_are_candidates(
    objects: Seq<ObjectInfo>,
    seen: Seq<Digest>,
    cutoff: Timestamp,
    i: int,
)
    requires
        0 <= i < objects.len(),
        !is_reached(objects[i].key@, seen),
        objects[i].modified@ <= cutoff@,
    ensures
        orphans(objects, seen, cutoff).contains(objects[i].key@),
    decreases objects.len(),
{
    let all = orphans(objects, seen, cutoff);
    let rest = orphans(objects.drop_last(), seen, cutoff);
    if i < objects.len() - 1 {
        assert(objects.drop_last()[i] == objects[i]);
        law_unreached_objects_are_candidates(objects.drop_last(), seen, cutoff, i);
        let k = choose|k: int| 0 <= k < rest.len() && rest[k] == objects[i].key@;
        assert(all[k] == objects[i].key@);
    } else {
        assert(all[rest.len() as int] == objects[i].key@);
    }
}

/// Whether an object under `key` is older than the cutoff and was not reached.
pub open spec fn is_left(
    key: Seq<char>,
    objects: Seq<ObjectInfo>,
    seen: Seq<Digest>,
    cutoff: Timestamp,
) -> bool {
    !is_reached(key, seen) && exists|i: int|
        0 <= i < objects.len() && (#[trigger] objects[i]).key@ == key && objects[i].modified@
            <= cutoff@
}

/// The candidates are the objects that were not reached and are not young, all
/// of them and no others.
pub proof fn law_candidates_are_old_and_unreached(
    objects: Seq<ObjectInfo>,
    seen: Seq<Digest>,
    cutoff: Timestamp,
)
    ensures
        forall|key: Seq<char>| #[trigger]
            orphans(objects, seen, cutoff).contains(key) <==> is_left(key, objects, seen, cutoff),
{
    let all = orphans(objects, seen, cutoff);
    assert forall|key: Seq<char>| #[trigger] all.contains(key) <==> is_left(
        key,
        objects,
        seen,
        cutoff,
    ) by {
        if all.contains(key) {
            let k = choose|k: int| 0 <= k < all.len() && all[k] == key;
            lemma_orphan_unreached(objects, seen, cutoff, k);
        }
        if is_left(key, objects, seen, cutoff) {
            let i = choose|i: int|
                0 <= i < objects.len() && (#[trigger] objects[i]).key@ == key
                    && objects[i].modified@ <= cutoff@;
            law_unreached_objects_are_candidates(objects, seen, cutoff, i);
        }
    }
}

/// How many objects were reached.
pub open spec fn kept(objects: Seq<ObjectInfo>, seen: Seq<Digest>) -> nat
    decreases objects.len(),
{
    if objects.len() == 0 {
        0
    } else {
        kept(objects.drop_last(), seen) + if is_reached(objects.last().key@, seen) {
            1nat
        } else {
            0
        }
    }
}

/// Every object was reached, or is young, or is a candidate, and only one of
/// these.
proof fn lemma_sorted_out(objects: Seq<ObjectInfo>, seen: Seq<Digest>, cutoff: Timestamp)
    ensures
        orphans(objects, seen, cutoff).len() + young(objects, seen, cutoff).len() + kept(
            objects,
            seen,
        ) == objects.len(),
    decreases objects.len(),
{
    if objects.len() > 0 {
        lemma_sorted_out(objects.drop_last(), seen, cutoff);
    }
}

proof fn lemma_segment(front: Seq<char>, name: Seq<char>)
    requires
        front.len() > 0,
        front.last() == '/',
        forall|i: int| 0 <= i < name.len() ==> #[trigger] name[i] != '/',
    ensures
        segment_from(front + name) == name,
    decreases name.len(),
{
    if name.len() == 0 {
        assert(front + name =~= front);
        assert(segment_from(front) =~= name);
    } else {
        let shorter = name.drop_last();
        assert forall|i: int| 0 <= i < shorter.len() implies #[trigger] shorter[i] != '/' by {
            assert(name[i] != '/');
        }
        lemma_segment(front, shorter);
        assert((front + name).drop_last() =~= front + shorter);
        assert((front + name).last() == name.last());
        assert(name[name.len() - 1] != '/');
        assert(shorter.push(name.last()) =~= name);
    }
}

/// An object is kept by its own digest and by no other: the key that it is
/// stored under counts as reached exactly if its digest was.
pub proof fn law_object_is_kept_by_its_digest(
    layout: KeyLayout,
    tenant: Seq<char>,
    d: Digest,
    seen: Seq<Digest>,
)
    ensures
        is_reached(object_key_of(layout, tenant, d), seen) <==> seen.contains(d),
{
    let name = hex_text(d@);
    let key = object_key_of(layout, tenant, d);
    lemma_digest_view(d);
    reveal_strlit("/");
    let front = key.take(key.len() - name.len());
    assert(key =~= front + name);
    assert(front.last() == '/');
    assert forall|i: int| 0 <= i < name.len() implies #[trigger] name[i] != '/' by {
        crate::text::lemma_hex_text_ascii(d@);
    }
    lemma_segment(front, name);
    if is_reached(key, seen) {
        let i = choose|i: int| 0 <= i < seen.len() && hex_text((#[trigger] seen[i])@) == name;
        assert(seen[i].text() == d.text());
        crate::digest::law_digest_text_injective(seen[i], d);
    }
    if seen.contains(d) {
        let i = choose|i: int| 0 <= i < seen.len() && seen[i] == d;
        assert(hex_text(seen[i]@) == name);
    }
}

/// Whether the object stored as `d` is JSON in which `e` occurs.
pub open spec fn refers(stored: Map<Digest, Seq<u8>>, d: Digest, e: Digest) -> bool {
    stored.contains_key(d) && (json_of(stored[d]) matches Ok(j) && occurs(j, e))
}

/// What the object stored as `d` names.
pub open spec fn names_in(stored: Map<Digest, Seq<u8>>) -> spec_fn(Digest) -> Seq<Digest> {
    |d: Digest|
        if stored.contains_key(d) {
            payload_digests(stored[d])
        } else {
            Seq::empty()
        }
}

/// Whether `run` is a walk over what is stored, each state what was reached
/// and what is pending, to its end: nothing reached at first, one object
/// looked at in each step, and nothing left to look at.
pub open spec fn walks(run: Seq<(Seq<Digest>, Seq<Digest>)>, stored: Map<Digest, Seq<u8>>) -> bool {
    &&& run.len() > 0
    &&& run[0].0.len() == 0
    &&& forall|i: int|
        0 <= i < run.len() - 1 ==> {
            let (r, rest) = next_unseen((#[trigger] run[i]).0, run[i].1);
            r is Some && run[i + 1].0 == run[i].0.push(r->0) && run[i + 1].1 == rest + names_in(
                stored,
            )(r->0)
        }
    &&& next_unseen(run.last().0, run.last().1).0 is None
}

proof fn lemma_walk(
    run: Seq<(Seq<Digest>, Seq<Digest>)>,
    stored: Map<Digest, Seq<u8>>,
    n: int,
    e: Digest,
)
    requires
        walks(run, stored),
        0 <= n < run.len(),
        run[0].1.contains(e),
    ensures
        covers(run[n].0, run[n].1, names_in(stored)),
        run[n].0.contains(e) || run[n].1.contains(e),
    decreases n,
{
    if n > 0 {
        lemma_walk(run, stored, n - 1, e);
        assert(run[n - 1].0.len() >= 0);
        law_walk_loses_nothing(run[n - 1].0, run[n - 1].1, names_in(stored), e);
    }
}

/// What a root names, and what is referred to from there, from object to
/// object, is never collected: wherever in the JSON of each the next digest
/// occurs, the walk has reached it at its end, and the object is no candidate.
pub proof fn law_sweep_keeps_what_is_referred_to(
    run: Seq<(Seq<Digest>, Seq<Digest>)>,
    stored: Map<Digest, Seq<u8>>,
    root: JsonView,
    path: Seq<Digest>,
    layout: KeyLayout,
    tenant: Seq<char>,
    objects: Seq<ObjectInfo>,
    cutoff: Timestamp,
)
    requires
        walks(run, stored),
        forall|d: Digest| occurs(root, d) ==> #[trigger] run[0].1.contains(d),
        path.len() > 0,
        occurs(root, path[0]),
        forall|i: int|
            0 < i < path.len() ==> #[trigger] refers(stored, path[i - 1], path[i]),
    ensures
        run.last().0.contains(path.last()),
        !orphans(objects, run.last().0, cutoff).contains(
            object_key_of(layout, tenant, path.last()),
        ),
{
    let n = run.len() - 1;
    let seen = run[n].0;
    let names = names_in(stored);
    assert(run[0].1.contains(path[0]));
    lemma_walk(run, stored, n, path[0]);
    law_walk_loses_nothing(seen, run[n].1, names, path[0]);
    assert forall|i: int| #![trigger path[i]] 0 < i < path.len() implies names(
        path[i - 1],
    ).contains(path[i]) by {
        assert(refers(stored, path[i - 1], path[i]));
        law_digests_are_those_that_occur(json_of(stored[path[i - 1]])->Ok_0, path[i]);
    }
    law_reachable_is_never_collected(seen, names, path, objects, cutoff, 0);
    let key = object_key_of(layout, tenant, path.last());
    law_object_is_kept_by_its_digest(layout, tenant, path.last(), seen);
    let all = orphans(objects, seen, cutoff);
    if all.contains(key) {
        let k = choose|k: int| 0 <= k < all.len() && all[k] == key;
        lemma_orphan_unreached(objects, seen, cutoff, k);
    }
}

/// A walk reaches nothing but what it was given to look at and what objects
/// that it reached name.
pub proof fn law_walk_reaches_only_what_is_named(
    run: Seq<(Seq<Digest>, Seq<Digest>)>,
    stored: Map<Digest, Seq<u8>>,
    n: int,
    e: Digest,
)
    requires
        walks(run, stored),
        0 <= n < run.len(),
        run[n].0.contains(e) || run[n].1.contains(e),
    ensures
        run[0].1.contains(e) || exists|d: Digest| #[trigger]
            run[n].0.contains(d) && refers(stored, d, e),
    decreases n,
{
    if n > 0 {
        assert(run[n - 1].0.len() >= 0);
        let (r, rest) = next_unseen(run[n - 1].0, run[n - 1].1);
        let d = r->0;
        lemma_next_unseen(run[n - 1].0, run[n - 1].1);
        lemma_pushed(run[n - 1].0, d);
        lemma_in_both(rest, names_in(stored)(d), e);
        assert(run[n].0.contains(d));
        if run[n - 1].0.contains(e) || run[n - 1].1.contains(e) {
            law_walk_reaches_only_what_is_named(run, stored, n - 1, e);
            if !run[0].1.contains(e) {
                let c = choose|c: Digest| #[trigger]
                    run[n - 1].0.contains(c) && refers(stored, c, e);
                assert(run[n].0.contains(c));
            }
        } else {
            assert(names_in(stored)(d).contains(e));
            law_digests_are_those_that_occur(json_of(stored[d])->Ok_0, e);
            assert(refers(stored, d, e));
        }
    }
}

/// No young object is collected, whatever was reached.
pub proof fn law_young_objects_are_kept(
    objects: Seq<ObjectInfo>,
    seen: Seq<Digest>,
    cutoff: Timestamp,
    k: int,
)
    requires
        0 <= k < orphans(objects, seen, cutoff).len(),
    ensures
        exists|i: int|
            0 <= i < objects.len() && (#[trigger] objects[i]).key@ == orphans(
                objects,
                seen,
                cutoff,
            )[k] && objects[i].modified@ <= cutoff@,
{
    lemma_orphan_unreached(objects, seen, cutoff, k);
}

/// Every object is reached, a candidate or in its grace, and only one of them:
/// in its grace is one that is not reached and is younger than the cutoff.
pub proof fn law_young_objects_are_in_their_grace(
    objects: Seq<ObjectInfo>,
    seen: Seq<Digest>,
    cutoff: Timestamp,
)
    ensures
        forall|k: Seq<char>|
            young(objects, seen, cutoff).contains(k) <==> exists|i: int|
                0 <= i < objects.len() && (#[trigger] objects[i]).key@ == k && !is_reached(k, seen)
                    && objects[i].modified@ > cutoff@,
        young(objects, seen, cutoff).len() == objects.filter(
            |o: ObjectInfo| !is_reached(o.key@, seen) && o.modified@ > cutoff@,
        ).len(),
    decreases objects.len(),
{
    reveal(Seq::filter);
    if objects.len() == 0 {
        assert(young(objects, seen, cutoff).len() == 0);
    } else {
        let front = objects.drop_last();
        let o = objects.last();
        law_young_objects_are_in_their_grace(front, seen, cutoff);
        let rest = young(front, seen, cutoff);
        let all = young(objects, seen, cutoff);
        assert forall|k: Seq<char>| all.contains(k) <==> exists|i: int|
            0 <= i < objects.len() && (#[trigger] objects[i]).key@ == k && !is_reached(k, seen)
                && objects[i].modified@ > cutoff@ by {
            if all.contains(k) {
                if rest.contains(k) {
                    let i = choose|i: int|
                        0 <= i < front.len() && (#[trigger] front[i]).key@ == k && !is_reached(
                            k,
                            seen,
                        ) && front[i].modified@ > cutoff@;
                    assert(objects[i].key@ == k);
                } else {
                    let j = choose|j: int| 0 <= j < all.len() && all[j] == k;
                    if j < rest.len() {
                        assert(rest[j] == k);
                    }
                    assert(objects[objects.len() - 1].key@ == k);
                }
            }
            if exists|i: int|
                0 <= i < objects.len() && (#[trigger] objects[i]).key@ == k && !is_reached(k, seen)
                    && objects[i].modified@ > cutoff@ {
                let i = choose|i: int|
                    0 <= i < objects.len() && (#[trigger] objects[i]).key@ == k && !is_reached(
                        k,
                        seen,
                    ) && objects[i].modified@ > cutoff@;
                if i < front.len() {
                    assert(front[i].key@ == k);
                    assert(rest.contains(k));
                    let j = choose|j: int| 0 <= j < rest.len() && rest[j] == k;
                    assert(all[j] == k);
                } else {
                    assert(all[all.len() - 1] == k);
                }
            }
        }
    }
}

} // verus!
