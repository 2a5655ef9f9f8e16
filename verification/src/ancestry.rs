//! Chains without a flaw: every generation of them is found in few steps, so
//! that whatever was published is found again.
use vstd::arithmetic::power2::{lemma2_to64, lemma_pow2_unfold, pow2};
use vstd::prelude::*;

use crate::chain::{
    history, load, records, records_request, scan, seek, seek_from, skip_pointer, ChainLoad,
    ChainSeek, CommitRecord, HistoryView, ScanView, SkipView, MAX_SEEK_HOPS,
};
use crate::commit::{law_skip_is_largest_power, skip_of, skip_target};
use crate::digest::Digest;
use crate::publish::{resolution, Resolution};
use crate::refs::RefValue;
use crate::table::FetchedView;

verus! {

// ------------------------------------------------------------------ steps
/// How many steps it takes from generation `g` back to `t`: a skip where it
/// does not lead too far, and else the parent.
pub open spec fn steps_back(g: nat, t: nat) -> nat
    decreases g,
{
    if g <= t {
        0
    } else {
        proof {
            law_skip_is_largest_power(g);
        }
        if skip_target(g) >= t {
            1 + steps_back(skip_target(g), t)
        } else {
            1 + steps_back((g - 1) as nat, t)
        }
    }
}

/// How many of these steps go to a parent because the skip leads too far.
pub open spec fn falls_back(g: nat, t: nat) -> nat
    decreases g,
{
    if g <= t {
        0
    } else {
        proof {
            law_skip_is_largest_power(g);
        }
        if skip_target(g) >= t {
            falls_back(skip_target(g), t)
        } else {
            1 + falls_back((g - 1) as nat, t)
        }
    }
}

proof fn lemma_odd_step(g: nat, t: nat)
    requires
        g % 2 == 1,
        t < g,
    ensures
        steps_back(g, t) == 1 + steps_back((g - 1) as nat, t),
        falls_back(g, t) == falls_back((g - 1) as nat, t),
{
    assert(skip_target(g) == g - 1);
}

/// Between even generations, a walk goes as between their halves, but for
/// one more step for each fall to a parent.
proof fn lemma_even_steps(h: nat, u: nat)
    requires
        u <= h,
    ensures
        steps_back(2 * h, 2 * u) == steps_back(h, u) + falls_back(h, u),
        falls_back(2 * h, 2 * u) == falls_back(h, u),
    decreases h,
{
    if u < h {
        law_skip_is_largest_power(h);
        assert(skip_of(2 * h) == 2 * skip_of(h)) by {
            assert((2 * h) % 2 == 0 && (2 * h) / 2 == h);
        }
        assert(skip_target(2 * h) == 2 * skip_target(h));
        if skip_target(h) >= u {
            lemma_even_steps(skip_target(h), u);
        } else {
            lemma_even_steps((h - 1) as nat, u);
            let odd = (2 * h - 1) as nat;
            lemma_odd_step(odd, 2 * u);
            assert(odd - 1 == 2 * ((h - 1) as nat));
        }
    }
}

/// An odd generation takes one step more than the one after it.
proof fn lemma_odd_target(h: nat, u: nat)
    requires
        u + 1 <= h,
    ensures
        steps_back(2 * h, 2 * u + 1) == steps_back(2 * h, 2 * u + 2) + 1,
        falls_back(2 * h, 2 * u + 1) == falls_back(2 * h, 2 * u + 2) + 1,
    decreases h,
{
    law_skip_is_largest_power(h);
    assert(skip_of(2 * h) == 2 * skip_of(h)) by {
        assert((2 * h) % 2 == 0 && (2 * h) / 2 == h);
    }
    assert(skip_target(2 * h) == 2 * skip_target(h));
    if h == u + 1 {
        assert(steps_back((2 * h - 1) as nat, 2 * u + 1) == 0);
        assert(falls_back((2 * h - 1) as nat, 2 * u + 1) == 0);
    } else if skip_target(h) >= u + 1 {
        lemma_odd_target(skip_target(h), u);
    } else {
        let odd = (2 * h - 1) as nat;
        lemma_odd_step(odd, 2 * u + 1);
        lemma_odd_step(odd, 2 * u + 2);
        assert(odd - 1 == 2 * ((h - 1) as nat));
        lemma_odd_target((h - 1) as nat, u);
    }
}

/// Among generations of `b` bits, at most `b` falls and `b * b + b` steps.
proof fn lemma_few_steps(g: nat, t: nat, b: nat)
    requires
        t <= g,
        g < pow2(b),
    ensures
        falls_back(g, t) <= b,
        steps_back(g, t) <= b * b + b,
    decreases b, g,
{
    if t < g {
        assert(b > 0) by {
            if b == 0 {
                lemma2_to64();
            }
        }
        let c = (b - 1) as nat;
        lemma_pow2_unfold(b);
        assert(c * c + c + c + 2 <= b * b + b) by (nonlinear_arith)
            requires
                c == b - 1,
                b >= 1,
        ;
        if g % 2 == 1 {
            lemma_odd_step(g, t);
            lemma_even_bound((g - 1) as nat, t, b);
        } else {
            lemma_even_bound(g, t, b);
        }
    }
}

proof fn lemma_even_bound(g: nat, t: nat, b: nat)
    requires
        g % 2 == 0,
        t <= g,
        b > 0,
        g < pow2(b),
    ensures
        falls_back(g, t) <= b,
        steps_back(g, t) <= ((b - 1) * (b - 1) + (b - 1)) + (b - 1) + 1,
    decreases b, 0nat,
{
    let c = (b - 1) as nat;
    let h = g / 2;
    lemma_pow2_unfold(b);
    assert(g == 2 * h && h < pow2(c));
    assert(c * c + c >= 0) by (nonlinear_arith)
        requires
            c >= 0,
    ;
    if t < g {
        if t % 2 == 0 {
            let u = t / 2;
            lemma_few_steps(h, u, c);
            lemma_even_steps(h, u);
        } else {
            let u = t / 2;
            assert(t == 2 * u + 1 && u + 1 <= h);
            lemma_few_steps(h, u + 1, c);
            lemma_even_steps(h, u + 1);
            lemma_odd_target(h, u);
        }
    }
}

/// Any generation is reached from any later one in fewer steps than a walk
/// may take.
pub proof fn law_steps_are_few(g: u64, t: u64)
    requires
        t <= g,
    ensures
        steps_back(g as nat, t as nat) <= MAX_SEEK_HOPS,
{
    lemma2_to64();
    lemma_few_steps(g as nat, t as nat, 64);
}

// ----------------------------------------------------------------- chains
/// Whether `chain` holds the commits of a resource from the first generation
/// on, each with the pointers that it should have, and all of them are known.
pub open spec fn is_ancestry(
    m: Map<Digest, FetchedView<CommitRecord>>,
    chain: Seq<CommitRecord>,
    resource: Seq<char>,
) -> bool {
    &&& chain.len() <= u64::MAX
    &&& forall|i: int|
        0 <= i < chain.len() ==> {
            let c = #[trigger] chain[i];
            &&& load(m, c.digest) == ChainLoad::View(c)
            &&& c.header.resource@ == resource
            &&& c.header.generation == i + 1
            &&& c.header.parent == parent_in(chain, i)
            &&& c.header.skip == skip_in(chain, i)
        }
}

/// The parent that the `i`-th commit of a chain should name.
pub open spec fn parent_in(chain: Seq<CommitRecord>, i: int) -> Option<Digest> {
    if i == 0 {
        None
    } else {
        Some(chain[i - 1].digest)
    }
}

/// The skip that the `i`-th commit of a chain should name.
pub open spec fn skip_in(chain: Seq<CommitRecord>, i: int) -> Option<Digest> {
    if skip_target((i + 1) as nat) == 0 {
        None
    } else {
        Some(chain[skip_target((i + 1) as nat) - 1].digest)
    }
}

proof fn lemma_walk(
    m: Map<Digest, FetchedView<CommitRecord>>,
    chain: Seq<CommitRecord>,
    resource: Seq<char>,
    g: nat,
    target: u64,
    hops: nat,
    reads: nat,
)
    requires
        is_ancestry(m, chain, resource),
        1 <= target <= g <= chain.len(),
        hops + steps_back(g, target as nat) <= MAX_SEEK_HOPS,
    ensures
        seek_from(m, chain[g - 1], target, resource, hops, reads) matches ChainSeek::Found(v, _)
            && v == chain[target - 1],
    decreases g,
{
    let c = chain[g - 1];
    assert(c.header.generation == g);
    if g > target {
        law_skip_is_largest_power(g);
        let s = skip_target(g);
        if s > 0 {
            assert(chain[s - 1].header.generation == s);
            assert(load(m, chain[s - 1].digest) == ChainLoad::View(chain[s - 1]));
        }
        if s >= target {
            lemma_walk(m, chain, resource, s, target, hops + 1, reads + 1);
        } else {
            let p = (g - 1) as nat;
            assert(chain[p - 1].header.generation == p);
            assert(load(m, chain[p - 1].digest) == ChainLoad::View(chain[p - 1]));
            lemma_walk(m, chain, resource, p, target, hops + 1, reads + 1);
            lemma_walk(m, chain, resource, p, target, hops + 1, reads + 2);
        }
    }
}

/// In a chain without a flaw every generation is found from its last commit,
/// however far back it is.
pub proof fn law_seek_reaches_every_generation(
    m: Map<Digest, FetchedView<CommitRecord>>,
    chain: Seq<CommitRecord>,
    resource: Seq<char>,
    target: u64,
)
    requires
        is_ancestry(m, chain, resource),
        1 <= target <= chain.len(),
    ensures
        seek(m, chain.last().digest, target, resource) matches ChainSeek::Found(v, _) && v
            == chain[target - 1],
{
    let n = chain.len();
    assert(load(m, chain[n - 1].digest) == ChainLoad::View(chain[n - 1]));
    law_steps_are_few(n as u64, target);
    lemma_walk(m, chain, resource, n, target, 0, 1);
}

/// The commit that is put behind a chain without a flaw, with the skip that
/// is computed for it, leaves it without a flaw.
pub proof fn law_publication_extends_the_ancestry(
    m: Map<Digest, FetchedView<CommitRecord>>,
    chain: Seq<CommitRecord>,
    resource: Seq<char>,
    next: CommitRecord,
)
    requires
        is_ancestry(m, chain, resource),
        chain.len() < u64::MAX,
        load(m, next.digest) == ChainLoad::View(next),
        next.header.resource@ == resource,
        next.header.generation == chain.len() + 1,
        next.header.parent == parent_in(chain.push(next), chain.len() as int),
        skip_pointer(m, next.header.generation, next.header.parent, resource) == SkipView::Skip(
            next.header.skip,
        ),
    ensures
        is_ancestry(m, chain.push(next), resource),
{
    let n = chain.len();
    let all = chain.push(next);
    law_skip_is_largest_power((n + 1) as nat);
    let t = skip_target((n + 1) as nat);
    assert(next.header.skip == skip_in(all, n as int)) by {
        if n > 0 && t > 0 {
            if t < n {
                law_seek_reaches_every_generation(m, chain, resource, t as u64);
                assert(chain[t - 1].digest == all[t - 1].digest);
            } else {
                assert(all[n - 1] == chain.last());
            }
        }
    }
    assert forall|i: int| 0 <= i < all.len() implies {
        let c = #[trigger] all[i];
        &&& load(m, c.digest) == ChainLoad::View(c)
        &&& c.header.resource@ == resource
        &&& c.header.generation == i + 1
        &&& c.header.parent == parent_in(all, i)
        &&& c.header.skip == skip_in(all, i)
    } by {
        if i < n {
            assert(all[i] == chain[i]);
            law_skip_is_largest_power((i + 1) as nat);
            if i > 0 {
                assert(all[i - 1] == chain[i - 1]);
            }
            let s = skip_target((i + 1) as nat);
            if s > 0 {
                assert(all[s - 1] == chain[s - 1]);
            }
        }
    }
}

/// What was published is found again: as long as the chain behind the head
/// has no flaw, a retry whose intent is still pending comes to its own commit,
/// however many publications came after it.
pub proof fn law_retry_finds_its_publication(
    m: Map<Digest, FetchedView<CommitRecord>>,
    chain: Seq<CommitRecord>,
    head: RefValue,
    base: u64,
    id: Seq<char>,
    request: Digest,
    resource: Seq<char>,
)
    requires
        is_ancestry(m, chain, resource),
        head.generation == chain.len(),
        head.head_commit == Some(chain.last().digest),
        base < chain.len(),
        records(chain[base as int], id),
        records_request(chain[base as int], id, request),
    ensures
        resolution(m, head, base, id, request, resource) == Resolution::Found(chain[base as int]),
{
    law_seek_reaches_every_generation(m, chain, resource, (base + 1) as u64);
}

/// A scan finds the newest commit that records an identity, as long as it is
/// not further back than a scan may go.
pub proof fn law_scan_finds_its_publication(
    m: Map<Digest, FetchedView<CommitRecord>>,
    chain: Seq<CommitRecord>,
    resource: Seq<char>,
    id: Seq<char>,
    request: Digest,
    i: int,
    n: int,
    hops: nat,
)
    requires
        is_ancestry(m, chain, resource),
        0 <= i <= n < chain.len(),
        hops + (n - i) < MAX_SEEK_HOPS,
        records(chain[i], id),
        records_request(chain[i], id, request),
        forall|j: int| i < j <= n ==> !records(#[trigger] chain[j], id),
    ensures
        scan(m, chain[n].digest, id, request, resource, hops) == ScanView::Found(chain[i]),
    decreases n - i,
{
    assert(load(m, chain[n].digest) == ChainLoad::View(chain[n]));
    if i < n {
        law_scan_finds_its_publication(m, chain, resource, id, request, i, n - 1, hops + 1);
    }
}

/// The history of a chain without a flaw is its commits, newest first, as
/// many as are asked for.
pub proof fn law_history_is_newest_first(
    m: Map<Digest, FetchedView<CommitRecord>>,
    chain: Seq<CommitRecord>,
    resource: Seq<char>,
    n: int,
    max: nat,
)
    requires
        is_ancestry(m, chain, resource),
        0 <= n < chain.len(),
    ensures
        history(m, chain[n].digest, resource, max) matches HistoryView::Entries(s) && s.len() == if max
            <= n + 1 {
            max as int
        } else {
            n + 1
        } && forall|i: int| 0 <= i < s.len() ==> #[trigger] s[i] == chain[n - i],
    decreases n,
{
    if max > 0 {
        let v = chain[n];
        assert(load(m, v.digest) == ChainLoad::View(v));
        if n > 0 {
            law_history_is_newest_first(m, chain, resource, n - 1, (max - 1) as nat);
            let rest = history(m, chain[n - 1].digest, resource, (max - 1) as nat)->Entries_0;
            let s = seq![v] + rest;
            assert forall|i: int| 0 <= i < s.len() implies #[trigger] s[i] == chain[n - i] by {
                if i > 0 {
                    assert(s[i] == rest[i - 1]);
                }
            }
        }
    }
}

} // verus!
