//! A backend that loses requests and answers where a die says so. What the
//! die shows is handed to each call: `before` loses the request, `after` the
//! answer to a write that was made.
use vstd::prelude::*;

use crate::error::{CoreError, Result};
use crate::object::{
    created, got, got_limited, lists, updated, version_view, MemoryBackend, ObjectInfo, ObjectView,
    Version,
};
use crate::text::join3;

verus! {

#[derive(Debug)]
pub struct FaultBackend {
    inner: MemoryBackend,
    pub injected_before: u64,
    pub injected_after: u64,
}

impl FaultBackend {
    pub closed spec fn objects(self) -> Map<Seq<char>, ObjectView> {
        self.inner@
    }

    pub closed spec fn wf(self) -> bool {
        self.inner.wf()
    }

    /// How many requests and how many answers were lost.
    pub closed spec fn lost(self) -> (u64, u64) {
        (self.injected_before, self.injected_after)
    }

    pub fn new(inner: MemoryBackend) -> (r: Self)
        requires
            inner.wf(),
        ensures
            r.wf(),
            r.objects() == inner@,
            r.lost() == (0u64, 0u64),
    {
        FaultBackend { inner, injected_before: 0, injected_after: 0 }
    }

    /// The backend without its faults.
    pub fn inner(&self) -> (r: &MemoryBackend)
        requires
            self.wf(),
        ensures
            r.wf(),
            r@ == self.objects(),
    {
        &self.inner
    }

    fn lost_request(&mut self, what: &str) -> (r: CoreError)
        ensures
            r matches CoreError::BackendUnavailable(m) && m@ == "injected: "@ + what@
                + " request lost before backend"@,
            *final(self) == (FaultBackend {
                injected_before: old(self).injected_before.wrapping_add(1),
                ..*old(self)
            }),
    {
        self.injected_before = self.injected_before.wrapping_add(1);
        CoreError::BackendUnavailable(join3("injected: ", what, " request lost before backend"))
    }

    fn lost_response(&mut self, what: &str) -> (r: CoreError)
        ensures
            r matches CoreError::BackendUnavailable(m) && m@ == "injected: "@ + what@
                + " committed but response lost"@,
            *final(self) == (FaultBackend {
                injected_after: old(self).injected_after.wrapping_add(1),
                ..*old(self)
            }),
    {
        self.injected_after = self.injected_after.wrapping_add(1);
        CoreError::BackendUnavailable(join3("injected: ", what, " committed but response lost"))
    }

    /// Whether a request was lost on its way.
    pub open spec fn request_lost<T>(
        before: FaultBackend,
        after: FaultBackend,
        name: Seq<char>,
        r: Result<T>,
    ) -> bool {
        &&& r matches Err(CoreError::BackendUnavailable(m)) && m@ == "injected: "@ + name
            + " request lost before backend"@
        &&& after.objects() == before.objects()
        &&& after.lost() == (before.lost().0.wrapping_add(1), before.lost().1)
    }

    /// Whether a write was made and its answer lost; `inner` tells what the
    /// inner backend makes of it.
    pub open spec fn write_met(
        before: FaultBackend,
        after: FaultBackend,
        name: Seq<char>,
        inner: spec_fn(Map<Seq<char>, ObjectView>, Result<Version>) -> bool,
        lose_request: bool,
        lose_response: bool,
        r: Result<Version>,
    ) -> bool {
        if lose_request {
            Self::request_lost(before, after, name, r)
        } else {
            ||| inner(after.objects(), r) && (r is Ok ==> !lose_response) && after.lost()
                == before.lost()
            ||| {
                &&& lose_response
                &&& exists|v: Version| inner(after.objects(), Ok::<Version, CoreError>(v))
                &&& r matches Err(CoreError::BackendUnavailable(m)) && m@ == "injected: "@ + name
                    + " committed but response lost"@
                &&& after.lost() == (before.lost().0, before.lost().1.wrapping_add(1))
            }
        }
    }

    pub fn put_create(&mut self, key: &str, body: &[u8], before: bool, after: bool) -> (r: Result<
        Version,
    >)
        requires
            old(self).wf(),
        ensures
            final(self).wf(),
            Self::write_met(
                *old(self),
                *final(self),
                "put_create"@,
                |m: Map<Seq<char>, ObjectView>, x: Result<Version>|
                    created(old(self).objects(), m, key@, body@, x),
                before,
                after,
                r,
            ),
    {
        if before {
            return Err(self.lost_request("put_create"));
        }
        let ghost inner = |m: Map<Seq<char>, ObjectView>, x: Result<Version>|
            created(old(self).objects(), m, key@, body@, x);
        match self.inner.put_create(key, body) {
            Err(e) => Err(e),
            Ok(v) => {
                assert(inner(self.objects(), Ok::<Version, CoreError>(v)));
                if after {
                    return Err(self.lost_response("put_create"));
                }
                Ok(v)
            },
        }
    }

    pub fn put_update(
        &mut self,
        key: &str,
        expected: Option<&Version>,
        body: &[u8],
        before: bool,
        after: bool,
    ) -> (r: Result<Version>)
        requires
            old(self).wf(),
            old(self).objects().contains_key(key@) ==> old(self).objects()[key@].version < u64::MAX,
        ensures
            final(self).wf(),
            Self::write_met(
                *old(self),
                *final(self),
                "put_update"@,
                |m: Map<Seq<char>, ObjectView>, x: Result<Version>|
                    updated(old(self).objects(), m, key@, version_view(expected), body@, x),
                before,
                after,
                r,
            ),
    {
        if before {
            return Err(self.lost_request("put_update"));
        }
        let ghost inner = |m: Map<Seq<char>, ObjectView>, x: Result<Version>|
            updated(old(self).objects(), m, key@, version_view(expected), body@, x);
        match self.inner.put_update(key, expected, body) {
            Err(e) => Err(e),
            Ok(v) => {
                assert(inner(self.objects(), Ok::<Version, CoreError>(v)));
                if after {
                    return Err(self.lost_response("put_update"));
                }
                Ok(v)
            },
        }
    }

    pub fn get(&mut self, key: &str, before: bool) -> (r: Result<(Vec<u8>, Version)>)
        requires
            old(self).wf(),
        ensures
            final(self).wf(),
            if before {
                Self::request_lost(*old(self), *final(self), "get"@, r)
            } else {
                *final(self) == *old(self) && got(old(self).objects(), key@, r)
            },
    {
        if before {
            return Err(self.lost_request("get"));
        }
        self.inner.get(key)
    }

    pub fn get_limited(&mut self, key: &str, max_encoded_bytes: u64, before: bool) -> (r: Result<
        (Vec<u8>, Version),
    >)
        requires
            old(self).wf(),
        ensures
            final(self).wf(),
            if before {
                Self::request_lost(*old(self), *final(self), "get_limited"@, r)
            } else {
                *final(self) == *old(self) && got_limited(
                    old(self).objects(),
                    key@,
                    max_encoded_bytes,
                    r,
                )
            },
    {
        if before {
            return Err(self.lost_request("get_limited"));
        }
        self.inner.get_limited(key, max_encoded_bytes)
    }

    pub fn contains(&mut self, key: &str, before: bool) -> (r: Result<bool>)
        requires
            old(self).wf(),
        ensures
            final(self).wf(),
            if before {
                Self::request_lost(*old(self), *final(self), "exists"@, r)
            } else {
                *final(self) == *old(self) && r == Ok::<bool, CoreError>(
                    old(self).objects().contains_key(key@),
                )
            },
    {
        if before {
            return Err(self.lost_request("exists"));
        }
        Ok(self.inner.contains(key))
    }

    pub fn delete(&mut self, key: &str, before: bool, after: bool) -> (r: Result<()>)
        requires
            old(self).wf(),
        ensures
            final(self).wf(),
            if before {
                Self::request_lost(*old(self), *final(self), "delete"@, r)
            } else {
                &&& final(self).objects() == old(self).objects().remove(key@)
                &&& if after {
                    (r matches Err(CoreError::BackendUnavailable(m)) && m@ == "injected: "@
                        + "delete"@ + " committed but response lost"@) && final(self).lost() == (
                        old(self).lost().0,
                        old(self).lost().1.wrapping_add(1),
                    )
                } else {
                    r is Ok && final(self).lost() == old(self).lost()
                }
            },
    {
        if before {
            return Err(self.lost_request("delete"));
        }
        self.inner.delete(key);
        if after {
            return Err(self.lost_response("delete"));
        }
        Ok(())
    }

    pub fn list(&mut self, prefix: &str, before: bool) -> (r: Result<Vec<ObjectInfo>>)
        requires
            old(self).wf(),
        ensures
            final(self).wf(),
            if before {
                Self::request_lost(*old(self), *final(self), "list"@, r)
            } else {
                *final(self) == *old(self) && (r matches Ok(v) && lists(
                    old(self).objects(),
                    prefix@,
                    v@,
                ))
            },
    {
        if before {
            return Err(self.lost_request("list"));
        }
        Ok(self.inner.list(prefix))
    }
}

/// Where nothing is lost, a faulty backend is the backend itself.
pub proof fn law_no_fault_no_difference(
    before: FaultBackend,
    after: FaultBackend,
    name: Seq<char>,
    inner: spec_fn(Map<Seq<char>, ObjectView>, Result<Version>) -> bool,
    r: Result<Version>,
)
    requires
        FaultBackend::write_met(before, after, name, inner, false, false, r),
    ensures
        inner(after.objects(), r),
        after.lost() == before.lost(),
{
}

/// A lost request changes nothing. A write whose response is lost is never
/// reported as done: it was refused, or it was made and counted as lost.
pub proof fn law_lost_writes_fail(
    before: FaultBackend,
    after: FaultBackend,
    name: Seq<char>,
    inner: spec_fn(Map<Seq<char>, ObjectView>, Result<Version>) -> bool,
    lose_request: bool,
    lose_response: bool,
    r: Result<Version>,
)
    requires
        FaultBackend::write_met(before, after, name, inner, lose_request, lose_response, r),
        before.lost().0 < u64::MAX,
        before.lost().1 < u64::MAX,
    ensures
        lose_request || lose_response ==> r is Err,
        lose_request ==> after.objects() == before.objects() && r->Err_0 is BackendUnavailable
            && after.lost() == ((before.lost().0 + 1) as u64, before.lost().1),
        !lose_request && lose_response ==> (inner(after.objects(), r) && after.lost()
            == before.lost()) || (r->Err_0 is BackendUnavailable && after.lost() == (
            before.lost().0,
            (before.lost().1 + 1) as u64,
        ) && exists|v: Version| inner(after.objects(), Ok::<Version, CoreError>(v))),
{
}

} // verus!
