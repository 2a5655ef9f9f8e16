//! Object backends: what a conditional write may do, the in-memory backend,
//! and the decisions of the file and S3 backends.
use vstd::prelude::*;
use vstd::utf8::*;

use crate::bytes::copy_bytes;
use crate::error::{CoreError, Result};
use crate::foreign::{blake3_plain, hex_encode, plain_blake3};
use crate::text::{decimal, decimal_text, hex_text, join2, join3, same_text, strip_prefix};
use crate::time::Timestamp;

verus! {

/// Opaque provider version token.
#[derive(Debug, PartialEq, Eq)]
pub struct Version(pub String);

impl Clone for Version {
    fn clone(&self) -> (r: Self)
        ensures
            r == *self,
    {
        Version(self.0.clone())
    }
}

impl View for Version {
    type V = Seq<char>;

    open spec fn view(&self) -> Seq<char> {
        self.0@
    }
}

/// What a listing says of an object.
#[derive(Debug)]
pub struct ObjectInfo {
    pub key: String,
    pub modified: Timestamp,
}

/// The error for an object of more than `limit` bytes.
pub fn object_too_large(key: &str, limit: u64, actual: Option<u64>) -> (r: CoreError)
    ensures
        r matches CoreError::ObjectTooLarge { key: k, limit: l, actual: a } && k@ == key@ && l
            == limit && a == actual,
{
    CoreError::ObjectTooLarge { key: key.to_owned(), limit, actual }
}

/// What a conditional write comes to.
pub enum CasView {
    Write,
    AlreadyExists,
    PreconditionFailed,
}

/// A write that expects nothing creates; one that expects a version
/// replaces exactly that version.
pub open spec fn cas_verdict(live: Option<Seq<char>>, expected: Option<Seq<char>>) -> CasView {
    match (live, expected) {
        (None, None) => CasView::Write,
        (Some(_), None) => CasView::AlreadyExists,
        (None, Some(_)) => CasView::PreconditionFailed,
        (Some(l), Some(e)) => if l == e {
            CasView::Write
        } else {
            CasView::PreconditionFailed
        },
    }
}

/// An optional version, by view.
pub open spec fn version_view(v: Option<&Version>) -> Option<Seq<char>> {
    match v {
        Some(x) => Some(x@),
        None => None,
    }
}

/// What is said of a version that is not the one that was expected.
pub open spec fn stale_text(key: Seq<char>, live: Option<Seq<char>>, expected: Seq<char>) -> Seq<char> {
    match live {
        None => key + ": gone"@,
        Some(l) => key + ": expected version "@ + expected + ", live "@ + l,
    }
}

/// Whether a write is refused as the verdict says.
pub open spec fn refused_cas<T>(
    r: Result<T>,
    key: Seq<char>,
    live: Option<Seq<char>>,
    expected: Option<Seq<char>>,
) -> bool {
    match cas_verdict(live, expected) {
        CasView::Write => false,
        CasView::AlreadyExists => r matches Err(CoreError::AlreadyExists(k)) && k@ == key,
        CasView::PreconditionFailed => r matches Err(CoreError::PreconditionFailed(m)) && m@
            == stale_text(key, live, expected->0),
    }
}

/// Whether a conditional write of `key` may go ahead.
pub fn check_cas(key: &str, live: Option<&Version>, expected: Option<&Version>) -> (r: Result<()>)
    ensures
        r is Ok <==> cas_verdict(version_view(live), version_view(expected)) is Write,
        r is Ok <==> match (live, expected) {
            (None, None) => true,
            (Some(l), Some(e)) => l@ == e@,
            _ => false,
        },
        (r matches Err(e) && e is AlreadyExists) <==> live is Some && expected is None,
        (r matches Err(e) && e is PreconditionFailed) <==> expected is Some && (live is None
            || live->0@ != expected->0@),
        r is Err ==> refused_cas(r, key@, version_view(live), version_view(expected)),
{
    match (live, expected) {
        (None, None) => Ok(()),
        (Some(_), None) => Err(CoreError::AlreadyExists(key.to_owned())),
        (None, Some(_)) => Err(CoreError::PreconditionFailed(join2(key, ": gone"))),
        (Some(l), Some(e)) => {
            if same_text(&l.0, &e.0) {
                Ok(())
            } else {
                let mut m: String = join3(key, ": expected version ", &e.0);
                m.append(", live ");
                m.append(&l.0);
                Err(CoreError::PreconditionFailed(m))
            }
        },
    }
}

// ----------------------------------------------------------------- memory
/// An object in memory.
#[derive(Debug)]
pub struct MemoryObject {
    pub key: String,
    pub body: Vec<u8>,
    pub version: u64,
    pub modified: Timestamp,
}

/// In-memory backend. Version tokens are counters.
#[derive(Debug)]
pub struct MemoryBackend {
    objects: Vec<MemoryObject>,
}

pub struct ObjectView {
    pub body: Seq<u8>,
    pub version: u64,
    pub modified: Timestamp,
}

pub open spec fn object_view(o: MemoryObject) -> ObjectView {
    ObjectView { body: o.body@, version: o.version, modified: o.modified }
}

spec fn objects_map(s: Seq<MemoryObject>) -> Map<Seq<char>, ObjectView>
    decreases s.len(),
{
    if s.len() == 0 {
        Map::empty()
    } else {
        objects_map(s.drop_last()).insert(s.last().key@, object_view(s.last()))
    }
}

spec fn distinct_keys(s: Seq<MemoryObject>) -> bool {
    forall|i: int, j: int|
        0 <= i < j < s.len() ==> (#[trigger] s[i]).key@ != (#[trigger] s[j]).key@
}

proof fn lemma_objects_map(s: Seq<MemoryObject>)
    requires
        distinct_keys(s),
    ensures
        forall|i: int|
            0 <= i < s.len() ==> objects_map(s).contains_key((#[trigger] s[i]).key@)
                && objects_map(s)[s[i].key@] == object_view(s[i]),
        forall|k: Seq<char>|
            #[trigger] objects_map(s).contains_key(k) ==> exists|i: int|
                0 <= i < s.len() && (#[trigger] s[i]).key@ == k,
    decreases s.len(),
{
    if s.len() > 0 {
        let t = s.drop_last();
        assert(distinct_keys(t)) by {
            assert forall|i: int, j: int| 0 <= i < j < t.len() implies (#[trigger] t[i]).key@ != (
            #[trigger] t[j]).key@ by {
                assert(s[i].key@ != s[j].key@);
            }
        }
        lemma_objects_map(t);
        assert forall|i: int| 0 <= i < s.len() implies objects_map(s).contains_key(
            (#[trigger] s[i]).key@,
        ) && objects_map(s)[s[i].key@] == object_view(s[i]) by {
            if i < s.len() - 1 {
                assert(t[i] == s[i]);
                assert(s[i].key@ != s[s.len() - 1].key@);
            }
        }
        assert forall|k: Seq<char>| #[trigger] objects_map(s).contains_key(k) implies exists|i: int|
            0 <= i < s.len() && (#[trigger] s[i]).key@ == k by {
            if k == s.last().key@ {
                assert(s[s.len() - 1].key@ == k);
            } else {
                assert(objects_map(t).contains_key(k));
                let i = choose|i: int| 0 <= i < t.len() && (#[trigger] t[i]).key@ == k;
                assert(s[i].key@ == k);
            }
        }
    }
}

/// Whether `r` is what creating an object comes to.
pub open spec fn created(
    before: Map<Seq<char>, ObjectView>,
    after: Map<Seq<char>, ObjectView>,
    key: Seq<char>,
    body: Seq<u8>,
    r: Result<Version>,
) -> bool {
    match r {
        Ok(v) => {
            &&& !before.contains_key(key)
            &&& v@ == decimal(1)
            &&& after.contains_key(key)
            &&& after[key].body == body
            &&& after[key].version == 1
            &&& after.remove(key) == before
        },
        Err(e) => {
            &&& before.contains_key(key)
            &&& after == before
            &&& e matches CoreError::AlreadyExists(k) && k@ == key
        },
    }
}

/// The live version of an object.
pub open spec fn live_version(m: Map<Seq<char>, ObjectView>, key: Seq<char>) -> Option<Seq<char>> {
    if m.contains_key(key) {
        Some(decimal(m[key].version as nat))
    } else {
        None
    }
}

/// Whether `r` is what a conditional write comes to.
pub open spec fn updated(
    before: Map<Seq<char>, ObjectView>,
    after: Map<Seq<char>, ObjectView>,
    key: Seq<char>,
    expected: Option<Seq<char>>,
    body: Seq<u8>,
    r: Result<Version>,
) -> bool {
    let live = live_version(before, key);
    if cas_verdict(live, expected) is Write {
        let next = if before.contains_key(key) {
            before[key].version + 1
        } else {
            1
        };
        &&& r matches Ok(v) && v@ == decimal(next as nat)
        &&& after.contains_key(key)
        &&& after[key].body == body
        &&& after[key].version == next
        &&& after.remove(key) == before.remove(key)
    } else {
        after == before && refused_cas(r, key, live, expected)
    }
}

/// Whether `r` is what reading an object comes to.
pub open spec fn got(
    m: Map<Seq<char>, ObjectView>,
    key: Seq<char>,
    r: Result<(Vec<u8>, Version)>,
) -> bool {
    match r {
        Ok(p) => m.contains_key(key) && p.0@ == m[key].body && p.1@ == decimal(
            m[key].version as nat,
        ),
        Err(e) => !m.contains_key(key) && (e matches CoreError::NotFound(k) && k@ == key),
    }
}

/// Whether `r` is what reading an object of bounded size comes to.
pub open spec fn got_limited(
    m: Map<Seq<char>, ObjectView>,
    key: Seq<char>,
    max: u64,
    r: Result<(Vec<u8>, Version)>,
) -> bool {
    if !m.contains_key(key) {
        r matches Err(CoreError::NotFound(k)) && k@ == key
    } else if m[key].body.len() > max {
        r matches Err(CoreError::ObjectTooLarge { key: k, limit, actual }) && k@ == key && limit
            == max && actual == Some(m[key].body.len() as u64)
    } else {
        r matches Ok(p) && p.0@ == m[key].body && p.1@ == decimal(m[key].version as nat)
    }
}

/// Whether a listing names every object whose key begins with `prefix`, once
/// and in no order of note.
pub open spec fn lists(
    m: Map<Seq<char>, ObjectView>,
    prefix: Seq<char>,
    r: Seq<ObjectInfo>,
) -> bool {
    &&& forall|i: int|
        0 <= i < r.len() ==> {
            let o = #[trigger] r[i];
            m.contains_key(o.key@) && prefix.is_prefix_of(o.key@) && o.modified
                == m[o.key@].modified
        }
    &&& forall|i: int, j: int|
        0 <= i < j < r.len() ==> (#[trigger] r[i]).key@ != (#[trigger] r[j]).key@
    &&& forall|k: Seq<char>|
        #[trigger] m.contains_key(k) && prefix.is_prefix_of(k) ==> exists|i: int|
            0 <= i < r.len() && (#[trigger] r[i]).key@ == k
}

impl View for MemoryBackend {
    type V = Map<Seq<char>, ObjectView>;

    closed spec fn view(&self) -> Map<Seq<char>, ObjectView> {
        objects_map(self.objects@)
    }
}

impl MemoryBackend {
    /// No key is held twice.
    pub closed spec fn wf(self) -> bool {
        distinct_keys(self.objects@)
    }

    pub fn new() -> (r: Self)
        ensures
            r.wf(),
            r@ == Map::<Seq<char>, ObjectView>::empty(),
    {
        MemoryBackend { objects: Vec::new() }
    }

    fn position(&self, key: &str) -> (r: Option<usize>)
        requires
            self.wf(),
        ensures
            match r {
                Some(i) => i < self.objects@.len() && self.objects@[i as int].key@ == key@
                    && self@.contains_key(key@) && self@[key@] == object_view(
                    self.objects@[i as int],
                ),
                None => !self@.contains_key(key@) && forall|i: int|
                    0 <= i < self.objects@.len() ==> (#[trigger] self.objects@[i]).key@ != key@,
            },
    {
        proof {
            lemma_objects_map(self.objects@);
        }
        let mut i: usize = 0;
        while i < self.objects.len()
            invariant
                i <= self.objects@.len(),
                distinct_keys(self.objects@),
                forall|j: int| 0 <= j < i ==> (#[trigger] self.objects@[j]).key@ != key@,
                forall|j: int|
                    0 <= j < self.objects@.len() ==> self@.contains_key(
                        (#[trigger] self.objects@[j]).key@,
                    ) && self@[self.objects@[j].key@] == object_view(self.objects@[j]),
            decreases self.objects@.len() - i,
        {
            if same_text(&self.objects[i].key, key) {
                return Some(i);
            }
            i = i + 1;
        }
        None
    }

    fn add(&mut self, key: &str, body: &[u8])
        requires
            old(self).wf(),
            !old(self)@.contains_key(key@),
            forall|i: int|
                0 <= i < old(self).objects@.len() ==> (#[trigger] old(self).objects@[i]).key@
                    != key@,
        ensures
            final(self).wf(),
            final(self)@.contains_key(key@),
            final(self)@[key@].body == body@,
            final(self)@[key@].version == 1,
            final(self)@.remove(key@) == old(self)@,
    {
        let ghost before = self.objects@;
        self.objects.push(
            MemoryObject {
                key: key.to_owned(),
                body: copy_bytes(body),
                version: 1,
                modified: Timestamp::now(),
            },
        );
        assert(self.objects@.drop_last() =~= before);
        assert(self@.remove(key@) =~= old(self)@);
    }

    /// Creates an object that does not exist yet.
    pub fn put_create(&mut self, key: &str, body: &[u8]) -> (r: Result<Version>)
        requires
            old(self).wf(),
        ensures
            final(self).wf(),
            created(old(self)@, final(self)@, key@, body@, r),
    {
        match self.position(key) {
            Some(_) => Err(CoreError::AlreadyExists(key.to_owned())),
            None => {
                self.add(key, body);
                Ok(Version(decimal_text(1)))
            },
        }
    }

    /// Creates an object, or replaces the version that is expected.
    pub fn put_update(&mut self, key: &str, expected: Option<&Version>, body: &[u8]) -> (r: Result<
        Version,
    >)
        requires
            old(self).wf(),
            old(self)@.contains_key(key@) ==> old(self)@[key@].version < u64::MAX,
        ensures
            final(self).wf(),
            updated(old(self)@, final(self)@, key@, version_view(expected), body@, r),
    {
        match self.position(key) {
            None => match check_cas(key, None, expected) {
                Err(e) => Err(e),
                Ok(_) => {
                    self.add(key, body);
                    assert(self@.remove(key@) =~= old(self)@.remove(key@));
                    Ok(Version(decimal_text(1)))
                },
            },
            Some(i) => {
                let version: u64 = self.objects[i].version;
                let live: Version = Version(decimal_text(version));
                match check_cas(key, Some(&live), expected) {
                    Err(e) => Err(e),
                    Ok(_) => {
                        let ghost before = self.objects@;
                        let fresh: MemoryObject = MemoryObject {
                            key: key.to_owned(),
                            body: copy_bytes(body),
                            version: version + 1,
                            modified: Timestamp::now(),
                        };
                        self.objects.set(i, fresh);
                        proof {
                            lemma_replace(before, i as int, fresh);
                        }
                        Ok(Version(decimal_text(version + 1)))
                    },
                }
            },
        }
    }

    /// The object and its version.
    pub fn get(&self, key: &str) -> (r: Result<(Vec<u8>, Version)>)
        requires
            self.wf(),
        ensures
            got(self@, key@, r),
    {
        match self.position(key) {
            None => Err(CoreError::NotFound(key.to_owned())),
            Some(i) => Ok(
                (
                    copy_bytes(&self.objects[i].body),
                    Version(decimal_text(self.objects[i].version)),
                ),
            ),
        }
    }

    /// The object, if it has at most `max_encoded_bytes` bytes.
    pub fn get_limited(&self, key: &str, max_encoded_bytes: u64) -> (r: Result<(Vec<u8>, Version)>)
        requires
            self.wf(),
        ensures
            got_limited(self@, key@, max_encoded_bytes, r),
    {
        match self.position(key) {
            None => Err(CoreError::NotFound(key.to_owned())),
            Some(i) => {
                let n: u64 = self.objects[i].body.len() as u64;
                if n > max_encoded_bytes {
                    return Err(object_too_large(key, max_encoded_bytes, Some(n)));
                }
                Ok(
                    (
                        copy_bytes(&self.objects[i].body),
                        Version(decimal_text(self.objects[i].version)),
                    ),
                )
            },
        }
    }

    pub fn contains(&self, key: &str) -> (r: bool)
        requires
            self.wf(),
        ensures
            r == self@.contains_key(key@),
    {
        match self.position(key) {
            Some(_) => true,
            None => false,
        }
    }

    /// Removes an object. Removing one that is not there is no error.
    pub fn delete(&mut self, key: &str)
        requires
            old(self).wf(),
        ensures
            final(self).wf(),
            final(self)@ == old(self)@.remove(key@),
    {
        match self.position(key) {
            None => {
                assert(self@.remove(key@) =~= self@);
            },
            Some(i) => {
                let ghost before = self.objects@;
                self.objects.remove(i);
                proof {
                    lemma_remove(before, i as int);
                }
            },
        }
    }

    /// The objects whose key begins with `prefix`.
    pub fn list(&self, prefix: &str) -> (r: Vec<ObjectInfo>)
        requires
            self.wf(),
        ensures
            lists(self@, prefix@, r@),
    {
        proof {
            lemma_objects_map(self.objects@);
        }
        let mut out: Vec<ObjectInfo> = Vec::new();
        let mut i: usize = 0;
        while i < self.objects.len()
            invariant
                i <= self.objects@.len(),
                distinct_keys(self.objects@),
                forall|j: int|
                    0 <= j < self.objects@.len() ==> self@.contains_key(
                        (#[trigger] self.objects@[j]).key@,
                    ) && self@[self.objects@[j].key@] == object_view(self.objects@[j]),
                forall|k: int|
                    0 <= k < out@.len() ==> {
                        let o = #[trigger] out@[k];
                        self@.contains_key(o.key@) && prefix@.is_prefix_of(o.key@) && o.modified
                            == self@[o.key@].modified && exists|j: int|
                            0 <= j < i && (#[trigger] self.objects@[j]).key@ == o.key@
                    },
                forall|a: int, b: int|
                    0 <= a < b < out@.len() ==> (#[trigger] out@[a]).key@ != (
                    #[trigger] out@[b]).key@,
                forall|j: int|
                    0 <= j < i && prefix@.is_prefix_of((#[trigger] self.objects@[j]).key@)
                        ==> exists|k: int| 0 <= k < out@.len() && (#[trigger] out@[k]).key@
                        == self.objects@[j].key@,
            decreases self.objects@.len() - i,
        {
            let ghost before = out@;
            match strip_prefix(&self.objects[i].key, prefix) {
                None => {},
                Some(rest) => {
                    proof {
                        crate::text::lemma_prefix_unique(
                            self.objects@[i as int].key@,
                            prefix@,
                            rest@,
                            rest@,
                        );
                    }
                    out.push(
                        ObjectInfo {
                            key: self.objects[i].key.clone(),
                            modified: self.objects[i].modified,
                        },
                    );
                    proof {
                        let n = before.len() as int;
                        assert(out@[n].key@ == self.objects@[i as int].key@);
                        assert forall|a: int, b: int| 0 <= a < b < out@.len() implies (
                        #[trigger] out@[a]).key@ != (#[trigger] out@[b]).key@ by {
                            assert(out@[a] == before[a]);
                            if b < n {
                                assert(out@[b] == before[b]);
                            } else {
                                let j = choose|j: int|
                                    0 <= j < i && (#[trigger] self.objects@[j]).key@
                                        == before[a].key@;
                                assert(self.objects@[j].key@ != self.objects@[i as int].key@);
                            }
                        }
                    }
                },
            }
            proof {
                assert forall|k: int| 0 <= k < out@.len() implies {
                    let o = #[trigger] out@[k];
                    self@.contains_key(o.key@) && prefix@.is_prefix_of(o.key@) && o.modified
                        == self@[o.key@].modified && exists|j: int|
                        0 <= j < i + 1 && (#[trigger] self.objects@[j]).key@ == o.key@
                } by {
                    if k < before.len() {
                        assert(out@[k] == before[k]);
                        let j = choose|j: int|
                            0 <= j < i && (#[trigger] self.objects@[j]).key@ == before[k].key@;
                        assert(self.objects@[j].key@ == out@[k].key@);
                    } else {
                        assert(self.objects@[i as int].key@ == out@[k].key@);
                    }
                }
                assert forall|j: int|
                    0 <= j < i + 1 && prefix@.is_prefix_of(
                        (#[trigger] self.objects@[j]).key@,
                    ) implies exists|k: int|
                    0 <= k < out@.len() && (#[trigger] out@[k]).key@ == self.objects@[j].key@ by {
                    if j < i {
                        let k = choose|k: int|
                            0 <= k < before.len() && (#[trigger] before[k]).key@
                                == self.objects@[j].key@;
                        assert(out@[k] == before[k]);
                    } else {
                        let n = before.len() as int;
                        assert(out@[n].key@ == self.objects@[j].key@);
                    }
                }
            }
            i = i + 1;
        }
        out
    }
}

proof fn lemma_replace(before: Seq<MemoryObject>, i: int, o: MemoryObject)
    requires
        distinct_keys(before),
        0 <= i < before.len(),
        o.key@ == before[i].key@,
    ensures
        distinct_keys(before.update(i, o)),
        objects_map(before.update(i, o)).contains_key(o.key@),
        objects_map(before.update(i, o))[o.key@] == object_view(o),
        objects_map(before.update(i, o)).remove(o.key@) == objects_map(before).remove(o.key@),
{
    let after = before.update(i, o);
    assert forall|a: int, b: int| 0 <= a < b < after.len() implies (#[trigger] after[a]).key@ != (
    #[trigger] after[b]).key@ by {
        assert(before[a].key@ != before[b].key@);
    }
    lemma_objects_map(before);
    lemma_objects_map(after);
    assert(after[i] == o);
    let x = objects_map(after).remove(o.key@);
    let y = objects_map(before).remove(o.key@);
    assert forall|k: Seq<char>|
        #![trigger x.dom().contains(k)]
        #![trigger y.dom().contains(k)]
        #![trigger x[k]]
        x.dom().contains(k) == y.dom().contains(k) && (x.dom().contains(k) ==> x[k] == y[k]) by {
        if k != o.key@ {
            if objects_map(after).contains_key(k) {
                let j = choose|j: int| 0 <= j < after.len() && (#[trigger] after[j]).key@ == k;
                assert(before[j] == after[j]);
            }
            if objects_map(before).contains_key(k) {
                let j = choose|j: int| 0 <= j < before.len() && (#[trigger] before[j]).key@ == k;
                assert(before[j] == after[j]);
            }
        }
    }
    assert(x.dom() =~= y.dom());
    assert(x =~= y);
}

proof fn lemma_remove(before: Seq<MemoryObject>, i: int)
    requires
        distinct_keys(before),
        0 <= i < before.len(),
    ensures
        distinct_keys(before.remove(i)),
        objects_map(before.remove(i)) == objects_map(before).remove(before[i].key@),
{
    let after = before.remove(i);
    assert forall|a: int, b: int| 0 <= a < b < after.len() implies (#[trigger] after[a]).key@ != (
    #[trigger] after[b]).key@ by {
        let x = if a < i {
            a
        } else {
            a + 1
        };
        let y = if b < i {
            b
        } else {
            b + 1
        };
        assert(before[x].key@ != before[y].key@);
    }
    lemma_objects_map(before);
    lemma_objects_map(after);
    let x = objects_map(after);
    let y = objects_map(before).remove(before[i].key@);
    assert forall|k: Seq<char>|
        #![trigger x.dom().contains(k)]
        #![trigger y.dom().contains(k)]
        #![trigger x[k]]
        x.dom().contains(k) == y.dom().contains(k) && (x.dom().contains(k) ==> x[k] == y[k]) by {
        if x.contains_key(k) {
            let j = choose|j: int| 0 <= j < after.len() && (#[trigger] after[j]).key@ == k;
            let b = if j < i {
                j
            } else {
                j + 1
            };
            assert(before[b] == after[j]);
            assert(before[b].key@ != before[i].key@);
        }
        if y.contains_key(k) {
            let j = choose|j: int| 0 <= j < before.len() && (#[trigger] before[j]).key@ == k;
            let a = if j < i {
                j
            } else {
                j - 1
            };
            assert(j != i);
            assert(after[a] == before[j]);
        }
    }
    assert(x.dom() =~= y.dom());
    assert(x =~= y);
}

/// Of two writers that saw the same version, at most one succeeds: whoever
/// writes first changes the version that the other expects.
pub proof fn law_cas_has_one_winner(version: u64, expected: Seq<char>)
    requires
        version < u64::MAX,
        cas_verdict(Some(decimal(version as nat)), Some(expected)) is Write,
    ensures
        cas_verdict(Some(decimal((version + 1) as nat)), Some(expected)) is PreconditionFailed,
{
    crate::text::lemma_decimal_injective(version as nat, (version + 1) as nat);
}

// ------------------------------------------------------------------ local
/// The segments of a key, between slashes.
pub open spec fn has_bad_segment(key: Seq<u8>) -> bool {
    exists|a: int, b: int| #[trigger] is_segment(key, a, b) && (b == a || (b == a + 2 && key[a]
        == 0x2e && key[a + 1] == 0x2e))
}

/// Whether `key[a..b]` is one of the segments between slashes.
pub open spec fn is_segment(key: Seq<u8>, a: int, b: int) -> bool {
    &&& 0 <= a <= b <= key.len()
    &&& a == 0 || key[a - 1] == 0x2f
    &&& b == key.len() || key[b] == 0x2f
    &&& forall|i: int| a <= i < b ==> #[trigger] key[i] != 0x2f
}

/// Whether a key may name a file: no segment of it is empty or `..`.
pub fn check_key(key: &str) -> (r: Result<()>)
    ensures
        r is Ok <==> !has_bad_segment(encode_utf8(key@)),
        r matches Err(e) ==> (e matches CoreError::InvalidFormat(m) && m@ == "bad key: "@ + key@),
{
    let k: &[u8] = key.as_bytes();
    let ghost s = k@;
    let mut start: usize = 0;
    let mut i: usize = 0;
    loop
        invariant
            s == k@,
            s == encode_utf8(key@),
            start <= i <= s.len(),
            start == 0 || s[start - 1] == 0x2f,
            forall|j: int| start <= j < i ==> #[trigger] s[j] != 0x2f,
            forall|a: int, b: int|
                #[trigger] is_segment(s, a, b) && b < start ==> !(b == a || (b == a + 2 && s[a]
                    == 0x2e && s[a + 1] == 0x2e)),
        decreases s.len() + 1 - i,
    {
        if i == k.len() || k[i] == 0x2f {
            assert(is_segment(s, start as int, i as int));
            if i == start || (i - start == 2 && k[start] == 0x2e && k[start + 1] == 0x2e) {
                return Err(CoreError::InvalidFormat(join2("bad key: ", key)));
            }
            assert forall|a: int, b: int|
                #[trigger] is_segment(s, a, b) && b < i + 1 implies !(b == a || (b == a + 2 && s[a]
                == 0x2e && s[a + 1] == 0x2e)) by {
                if b >= start {
                    if b < i {
                        assert(s[b] != 0x2f);
                    } else {
                        if a < start {
                            assert(s[start - 1] != 0x2f);
                        } else if a > start {
                            assert(s[a - 1] == 0x2f);
                            assert(s[a - 1] != 0x2f);
                        }
                    }
                }
            }
            if i == k.len() {
                return Ok(());
            }
            start = i + 1;
        }
        i = i + 1;
    }
}

/// A path below a directory: `name` behind `root`.
pub open spec fn below(root: Seq<char>, name: Seq<char>) -> Seq<char> {
    if root.len() == 0 || root.last() == '/' {
        root + name
    } else {
        root + "/"@ + name
    }
}

/// The directory in which a backend of files keeps its objects.
#[derive(Debug)]
pub struct LocalBackend {
    root: String,
}

impl View for LocalBackend {
    type V = Seq<char>;

    closed spec fn view(&self) -> Seq<char> {
        self.root@
    }
}

impl LocalBackend {
    pub fn new(root: &str) -> (r: Self)
        ensures
            r@ == root@,
    {
        LocalBackend { root: root.to_owned() }
    }

    /// The file of an object. A key that could leave the directory has none.
    pub fn path_for(&self, key: &str) -> (r: Result<String>)
        ensures
            r is Ok <==> !has_bad_segment(encode_utf8(key@)),
            r matches Ok(p) ==> p@ == below(self@, key@),
            r matches Err(e) ==> (e matches CoreError::InvalidFormat(m) && m@ == "bad key: "@
                + key@),
    {
        match check_key(key) {
            Err(e) => Err(e),
            Ok(_) => {
                let n: usize = self.root.as_str().unicode_len();
                if n == 0 || self.root.as_str().get_char(n - 1) == '/' {
                    Ok(join2(&self.root, key))
                } else {
                    Ok(join3(&self.root, "/", key))
                }
            },
        }
    }
}

/// The version token of a file: the unkeyed BLAKE3 of its bytes, in
/// hexadecimal.
pub fn version_of(bytes: &[u8]) -> (r: Version)
    ensures
        r@ == hex_text(plain_blake3(bytes@)),
{
    let hash: [u8; 32] = blake3_plain(bytes);
    Version(hex_encode(&hash))
}

// --------------------------------------------------------------------- s3
/// The key of an object in a bucket that is shared under a prefix.
pub fn full_key(prefix: &str, key: &str) -> (r: String)
    ensures
        r@ == (if prefix@.len() == 0 {
            key@
        } else {
            prefix@ + "/"@ + key@
        }),
{
    if prefix.is_empty() {
        key.to_owned()
    } else {
        join3(prefix, "/", key)
    }
}

/// The key of an object without the prefix that its bucket is shared under.
pub fn listed_key(prefix: &str, full: &str) -> (r: String)
    ensures
        prefix@.len() == 0 ==> r@ == full@,
        prefix@.len() > 0 && (prefix@ + "/"@).is_prefix_of(full@) ==> full@ == prefix@ + "/"@ + r@,
        prefix@.len() > 0 && !(prefix@ + "/"@).is_prefix_of(full@) ==> r@ == full@,
{
    if prefix.is_empty() {
        return full.to_owned();
    }
    let strip: String = join2(prefix, "/");
    match strip_prefix(full, &strip) {
        Some(rest) => {
            proof {
                crate::text::lemma_prefix_unique(full@, strip@, rest@, rest@);
            }
            rest.to_owned()
        },
        None => full.to_owned(),
    }
}

/// What an object is listed as, it was stored as.
pub proof fn law_listed_key_undoes_full_key(prefix: Seq<char>, key: Seq<char>, listed: Seq<char>)
    requires
        prefix.len() > 0,
        prefix + "/"@ + key == prefix + "/"@ + listed,
    ensures
        listed == key,
{
    assert((prefix + "/"@ + key).skip((prefix + "/"@).len() as int) =~= key);
    assert((prefix + "/"@ + listed).skip((prefix + "/"@).len() as int) =~= listed);
}

/// What a failed S3 write of `key` means, by its HTTP status and error code.
pub fn map_put_err(key: &str, status: Option<u16>, code: &str, creating: bool, detail: &str) -> (r:
    CoreError)
    ensures
        if status == Some(412u16) || code@ == "PreconditionFailed"@ {
            if creating {
                r matches CoreError::AlreadyExists(k) && k@ == key@
            } else {
                r is PreconditionFailed
            }
        } else if status == Some(404u16) || code@ == "NoSuchKey"@ {
            r is PreconditionFailed
        } else {
            r is BackendUnavailable
        },
{
    let s: u16 = match status {
        Some(n) => n,
        None => 0,
    };
    if s == 412 || same_text(code, "PreconditionFailed") {
        if creating {
            CoreError::AlreadyExists(key.to_owned())
        } else {
            CoreError::PreconditionFailed(join2(key, ": version is stale"))
        }
    } else if s == 404 || same_text(code, "NoSuchKey") {
        CoreError::PreconditionFailed(join2(key, ": gone"))
    } else {
        let mut m: String = join3("s3 put ", key, ": ");
        m.append(detail);
        CoreError::BackendUnavailable(m)
    }
}

/// What a failed S3 read of `key` means, by its HTTP status and error code.
pub fn map_get_err(key: &str, status: Option<u16>, code: &str, detail: &str) -> (r: CoreError)
    ensures
        if status == Some(404u16) || code@ == "NoSuchKey"@ {
            r matches CoreError::NotFound(k) && k@ == key@
        } else {
            r is BackendUnavailable
        },
{
    let s: u16 = match status {
        Some(n) => n,
        None => 0,
    };
    if s == 404 || same_text(code, "NoSuchKey") {
        CoreError::NotFound(key.to_owned())
    } else {
        let mut m: String = join3("s3 get ", key, ": ");
        m.append(detail);
        CoreError::BackendUnavailable(m)
    }
}

/// How many bytes to read of an object of at most `max` bytes: one more, so
/// that a longer one shows.
pub fn read_allowance(key: &str, max: u64, announced: Option<u64>) -> (r: Result<u64>)
    ensures
        match announced {
            Some(n) if n > max => r matches Err(CoreError::ObjectTooLarge { key: k, limit, actual })
                && k@ == key@ && limit == max && actual == Some(n),
            _ => r matches Ok(m) && m == (if max < u64::MAX {
                max + 1
            } else {
                max as int
            }),
        },
{
    match announced {
        Some(n) => {
            if n > max {
                return Err(object_too_large(key, max, Some(n)));
            }
        },
        None => {},
    }
    if max < u64::MAX {
        Ok(max + 1)
    } else {
        Ok(max)
    }
}

/// Whether what was read is within the limit.
pub fn check_read(key: &str, max: u64, read: u64) -> (r: Result<()>)
    ensures
        r is Ok <==> read <= max,
        r matches Err(e) ==> (e matches CoreError::ObjectTooLarge { key: k, limit, actual } && k@
            == key@ && limit == max && actual is None),
{
    if read > max {
        return Err(object_too_large(key, max, None));
    }
    Ok(())
}

/// What is created can be read, at version 1, and nothing else changes. A key
/// that is taken stays as it is, and only such a key is refused.
pub proof fn law_create_stores_once(
    before: Map<Seq<char>, ObjectView>,
    after: Map<Seq<char>, ObjectView>,
    key: Seq<char>,
    body: Seq<u8>,
    r: Result<Version>,
    other: Seq<char>,
)
    requires
        created(before, after, key, body, r),
    ensures
        r is Ok <==> !before.contains_key(key),
        r is Ok ==> after.contains_key(key) && after[key].body == body && after[key].version == 1,
        r matches Ok(v) ==> v@ == "1"@,
        r matches Err(e) ==> e is AlreadyExists && after == before,
        other != key ==> (after.contains_key(other) <==> before.contains_key(other)),
        other != key && before.contains_key(other) ==> after[other] == before[other],
{
    reveal_strlit("1");
    reveal_with_fuel(decimal, 2);
    assert("1"@ =~= decimal(1));
    if r is Ok {
        assert(after.remove(key).contains_key(other) <==> before.contains_key(other));
        if other != key && before.contains_key(other) {
            assert(after.remove(key)[other] == before[other]);
        }
    }
}

/// A key is written exactly where its live version is the expected one, or
/// where it is absent and none is expected. Each write is one version up and
/// leaves the other keys alone; a refused one changes nothing.
pub proof fn law_update_is_conditional(
    before: Map<Seq<char>, ObjectView>,
    after: Map<Seq<char>, ObjectView>,
    key: Seq<char>,
    expected: Option<Seq<char>>,
    body: Seq<u8>,
    r: Result<Version>,
    other: Seq<char>,
)
    requires
        updated(before, after, key, expected, body, r),
        before.contains_key(key) ==> before[key].version < u64::MAX,
    ensures
        r is Ok <==> match expected {
            None => !before.contains_key(key),
            Some(e) => before.contains_key(key) && e == decimal(before[key].version as nat),
        },
        r is Ok ==> after.contains_key(key) && after[key].body == body && r->Ok_0@ == decimal(
            after[key].version as nat,
        ),
        r is Ok && !before.contains_key(key) ==> after[key].version == 1,
        r is Ok && before.contains_key(key) ==> after[key].version == before[key].version + 1,
        r is Err ==> after == before,
        (r matches Err(e) && e is AlreadyExists) <==> expected is None && before.contains_key(key),
        r matches Err(e) ==> e is AlreadyExists || e is PreconditionFailed,
        other != key ==> (after.contains_key(other) <==> before.contains_key(other)),
        other != key && before.contains_key(other) ==> after[other] == before[other],
{
    if r is Ok {
        assert(after.remove(key).contains_key(other) <==> before.remove(key).contains_key(other));
        if other != key && before.contains_key(other) {
            assert(after.remove(key)[other] == before.remove(key)[other]);
        }
    }
}

/// Every object that is there is read, whole and with its version, and only
/// what is absent is not found.
pub proof fn law_present_object_is_read(
    m: Map<Seq<char>, ObjectView>,
    key: Seq<char>,
    r: Result<(Vec<u8>, Version)>,
)
    requires
        got(m, key, r),
    ensures
        r is Ok <==> m.contains_key(key),
        r matches Ok(p) ==> p.0@ == m[key].body && p.1@ == decimal(m[key].version as nat),
        r matches Err(e) ==> e is NotFound,
{
}

/// A bounded read gives what a read without a bound gives, exactly where the
/// body is no longer than the bound.
pub proof fn law_bounded_read_is_a_read(
    m: Map<Seq<char>, ObjectView>,
    key: Seq<char>,
    max: u64,
    r: Result<(Vec<u8>, Version)>,
)
    requires
        got_limited(m, key, max, r),
    ensures
        r is Ok <==> m.contains_key(key) && m[key].body.len() <= max,
        r is Ok ==> got(m, key, r),
        r matches Ok(p) ==> p.0@ == m[key].body,
        (r matches Err(e) && e is NotFound) <==> !m.contains_key(key),
        (r matches Err(e) && e is ObjectTooLarge) <==> m.contains_key(key) && m[key].body.len()
            > max,
{
}

/// A listing holds each key that begins with the prefix once, and no other.
pub proof fn law_listing_is_complete(
    m: Map<Seq<char>, ObjectView>,
    prefix: Seq<char>,
    r: Seq<ObjectInfo>,
    key: Seq<char>,
)
    requires
        lists(m, prefix, r),
    ensures
        m.contains_key(key) && key.len() >= prefix.len() && key.take(prefix.len() as int) == prefix
            <==> exists|i: int| 0 <= i < r.len() && (#[trigger] r[i]).key@ == key,
        forall|i: int, j: int|
            0 <= i < r.len() && 0 <= j < r.len() && (#[trigger] r[i]).key@ == (#[trigger] r[j]).key@
                ==> i == j,
        forall|i: int| 0 <= i < r.len() ==> (#[trigger] r[i]).modified == m[r[i].key@].modified,
{
    assert(prefix.is_prefix_of(key) <==> key.len() >= prefix.len() && key.take(prefix.len() as int)
        =~= prefix);
}

/// A key is bad exactly where it is empty, begins or ends with a slash, has
/// two slashes in a row, or has `..` for a whole segment.
pub proof fn law_bad_keys(key: Seq<u8>)
    ensures
        key.len() == 0 ==> has_bad_segment(key),
        key.len() > 0 && key[0] == 0x2f ==> has_bad_segment(key),
        key.len() > 0 && key.last() == 0x2f ==> has_bad_segment(key),
        forall|i: int|
            0 < i < key.len() && #[trigger] key[i] == 0x2f && key[i - 1] == 0x2f
                ==> has_bad_segment(key),
        forall|i: int|
            0 < i < key.len() && #[trigger] key[i] == 0x2e && key[i - 1] == 0x2e && (i == 1 || key[i
                - 2] == 0x2f) && (i + 1 == key.len() || key[i + 1] == 0x2f) ==> has_bad_segment(
                key,
            ),
        has_bad_segment(key) ==> key.len() == 0 || key[0] == 0x2f || key.last() == 0x2f || (exists|
            i: int,
        |
            0 < i < key.len() && #[trigger] key[i] == 0x2f && key[i - 1] == 0x2f) || (exists|i: int|
            0 < i < key.len() && #[trigger] key[i] == 0x2e && key[i - 1] == 0x2e && (i == 1 || key[i
                - 2] == 0x2f) && (i + 1 == key.len() || key[i + 1] == 0x2f)),
{
    if key.len() == 0 || key[0] == 0x2f {
        assert(is_segment(key, 0, 0));
    }
    if key.len() > 0 && key.last() == 0x2f {
        assert(is_segment(key, key.len() as int, key.len() as int));
    }
    assert forall|i: int|
        0 < i < key.len() && #[trigger] key[i] == 0x2f && key[i - 1] == 0x2f implies has_bad_segment(
        key,
    ) by {
        assert(is_segment(key, i, i));
    }
    assert forall|i: int|
        0 < i < key.len() && #[trigger] key[i] == 0x2e && key[i - 1] == 0x2e && (i == 1 || key[i
            - 2] == 0x2f) && (i + 1 == key.len() || key[i + 1] == 0x2f) implies has_bad_segment(
        key,
    ) by {
        assert(is_segment(key, i - 1, i + 1));
    }
    if has_bad_segment(key) {
        let (a, b) = choose|a: int, b: int| #[trigger]
            is_segment(key, a, b) && (b == a || (b == a + 2 && key[a] == 0x2e && key[a + 1]
                == 0x2e));
        if b == a {
            if 0 < a < key.len() {
                assert(key[a] == 0x2f);
            }
        } else {
            assert(key[a + 1] == 0x2e);
        }
    }
}

/// A path is its root, one slash where the root is not empty, and the name.
pub proof fn law_path_is_below_its_root(root: Seq<char>, name: Seq<char>)
    ensures
        below(root, name).take(root.len() as int) == root,
        below(root, name).skip(below(root, name).len() - name.len()) == name,
        root.len() == 0 ==> below(root, name) == name,
        root.len() > 0 ==> below(root, name)[below(root, name).len() - name.len() - 1] == '/',
        below(root, name).len() <= root.len() + 1 + name.len(),
        root.len() > 0 && root.last() == '/' ==> below(root, name).len() == root.len() + name.len(),
{
    reveal_strlit("/");
    let p = below(root, name);
    assert(p.take(root.len() as int) =~= root);
    assert(p.skip(p.len() - name.len()) =~= name);
    assert(root.len() == 0 ==> p =~= name);
}

} // verus!
