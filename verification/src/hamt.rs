//! Bounded hash-array-mapped trie for the stable keys of a complete feed.
//!
//! The trie fans out by five bits of a 256-bit path at each level, so a
//! branch sits at depth 0 to 51 and a leaf at depth 1 to 52; the last group
//! of bits holds one live bit and four zeros. The root lives in the log
//! manifest; nodes are immutable objects addressed by digest.
//!
//! A missing child on a verified path is a valid negative. A missing or
//! malformed node that the path needs is an error, never an absence.
use vstd::prelude::*;

use crate::bits::{
    bit, bit_of, byte_with, get_quintet, keep_bits, lemma_bits_determine, lemma_byte_with_bits,
    lemma_quintet_bits, lemma_quintet_range, quintet,
};
use crate::bytes::same_bytes;
use crate::digest::{
    digest_from, lemma_digest_exists, lemma_digest_injective, lemma_digest_view, to_array32, Digest,
    DigestKey,
};
use crate::error::{integrity, recovery_failed, rejected, CoreError, ErrorView, Result};
use crate::operation::{stable_path, StableKey};
use crate::table::{
    addressed, extends, lemma_stored_prefix, put_object, stored, uploads_view, Fetched, FetchedView,
    Step, Table,
};
use crate::text::{decimal, decimal_text, join2, join3, join4, join5, same_text};

verus! {

pub const NODE_SCHEMA: &'static str = "comb.log.stable-index-node/v1";

pub const ROOT_SCHEMA: &'static str = "comb.log.stable-index-root/v1";

pub const MAX_NODE_BYTES: usize = 4096;

pub const MAX_STABLE_ADMISSIONS: usize = 1_024;

pub const MAX_STABLE_ADMISSION_BYTES: usize = 262_144;

/// Last level that a branch may sit at.
pub const MAX_BRANCH_DEPTH: usize = 51;

/// Last level that a leaf may sit at.
pub const MAX_LEAF_DEPTH: usize = 52;

/// The publication that an index is read at.
#[derive(Debug, Clone, Copy)]
pub struct IndexHead {
    pub generation: u64,
    pub head_seq: u64,
}

#[derive(Debug)]
pub struct StableIndexRoot {
    pub schema: String,
    pub digest: Digest,
    pub entries: u64,
}

impl Clone for StableIndexRoot {
    fn clone(&self) -> (r: Self)
        ensures
            r == *self,
    {
        StableIndexRoot {
            schema: self.schema.clone(),
            digest: self.digest,
            entries: self.entries,
        }
    }
}

impl StableIndexRoot {
    pub fn new(digest: Digest, entries: u64) -> (r: Self)
        ensures
            r.schema@ == ROOT_SCHEMA@,
            r.digest == digest,
            r.entries == entries,
    {
        StableIndexRoot { schema: ROOT_SCHEMA.to_owned(), digest, entries }
    }

    pub fn validate(&self) -> (r: Result<()>)
        ensures
            r is Ok <==> self.schema@ == ROOT_SCHEMA@,
            r matches Err(e) ==> (e matches CoreError::IntegrityError(m) && m@
                == "unsupported stable index root schema "@ + self.schema@),
    {
        if !same_text(&self.schema, ROOT_SCHEMA) {
            return Err(
                CoreError::IntegrityError(
                    join2("unsupported stable index root schema ", &self.schema),
                ),
            );
        }
        Ok(())
    }
}

/// The receipt of a stable append: what was appended under the key, where,
/// and by which publication.
#[derive(Debug)]
pub struct StableIndexEntry {
    pub key: StableKey,
    pub payload_hash: Digest,
    pub first: u64,
    pub last: u64,
    pub generation: u64,
}

pub struct EntryView {
    pub key: Seq<u8>,
    pub payload_hash: Digest,
    pub first: u64,
    pub last: u64,
    pub generation: u64,
}

impl View for StableIndexEntry {
    type V = EntryView;

    open spec fn view(&self) -> EntryView {
        EntryView {
            key: self.key@,
            payload_hash: self.payload_hash,
            first: self.first,
            last: self.last,
            generation: self.generation,
        }
    }
}

impl Clone for StableIndexEntry {
    fn clone(&self) -> (r: Self)
        ensures
            r@ == self@,
    {
        StableIndexEntry {
            key: self.key.clone(),
            payload_hash: self.payload_hash,
            first: self.first,
            last: self.last,
            generation: self.generation,
        }
    }
}

#[derive(Debug, Clone, Copy)]
pub struct HamtChild {
    pub slot: u8,
    pub digest: Digest,
}

#[derive(Debug)]
pub enum HamtNode {
    Branch { schema: String, depth: u8, prefix: Digest, children: Vec<HamtChild> },
    Leaf { schema: String, entry: StableIndexEntry },
}

pub enum NodeView {
    Branch { schema: Seq<char>, depth: u8, prefix: Digest, children: Seq<HamtChild> },
    Leaf { schema: Seq<char>, entry: EntryView },
}

impl View for HamtNode {
    type V = NodeView;

    open spec fn view(&self) -> NodeView {
        match self {
            HamtNode::Branch { schema, depth, prefix, children } => NodeView::Branch {
                schema: schema@,
                depth: *depth,
                prefix: *prefix,
                children: children@,
            },
            HamtNode::Leaf { schema, entry } => NodeView::Leaf { schema: schema@, entry: entry@ },
        }
    }
}

/// What a lookup finds.
#[derive(Debug)]
pub enum Lookup {
    Found(StableIndexEntry),
    Absent,
}

/// The log whose keys an index holds.
pub struct LogScope {
    pub key: DigestKey,
    pub tenant: String,
    pub log: String,
}

impl LogScope {
    /// The path of the stable key `k` in this log's index.
    pub open spec fn path(self, k: Seq<u8>) -> Seq<u8> {
        stable_path(self.key, self.tenant@, self.log@, k)@
    }

    /// The path of a stable key in this log's index.
    pub fn path_digest(&self, k: &StableKey) -> (r: Digest)
        ensures
            r@ == self.path(k@),
    {
        k.path_digest(&self.key, &self.tenant, &self.log)
    }
}

/// A receipt that a publication can hold: it covers a range of sequences
/// from 1 on and is no newer than the publication.
pub open spec fn receipt_ok(e: EntryView, head: IndexHead) -> bool {
    1 <= e.first <= e.last <= head.head_seq && 1 <= e.generation <= head.generation
}

/// Whether `slot` can occur in a branch at `depth`.
pub open spec fn slot_allowed(slot: int, depth: nat) -> bool {
    0 <= slot < 32 && (depth < 51 || (depth == 51 && slot % 16 == 0) || slot == 0)
}

/// The slots of a branch are allowed and strictly increase.
pub open spec fn slots_ok(children: Seq<HamtChild>, depth: nat) -> bool {
    &&& forall|i: int|
        0 <= i < children.len() ==> slot_allowed((#[trigger] children[i]).slot as int, depth)
    &&& slots_rise(children)
}

/// The slots of some children strictly increase.
pub open spec fn slots_rise(children: Seq<HamtChild>) -> bool {
    forall|i: int, j: int|
        0 <= i < j < children.len() ==> (#[trigger] children[i]).slot < (#[trigger] children[j]).slot
}

/// Whether `d` is `path` with all but its first `depth` groups of bits
/// set to zero.
pub open spec fn is_masked(d: Seq<u8>, path: Seq<u8>, depth: nat) -> bool {
    d.len() == 32 && forall|k: int|
        0 <= k < 256 ==> #[trigger] bit(d, k) == if k < 5 * depth {
            bit(path, k)
        } else {
            0
        }
}

/// `path` with all but its first `depth` groups of bits set to zero.
pub open spec fn masked(path: Seq<u8>, depth: nat) -> Digest {
    choose|d: Digest| #[trigger] is_masked(d@, path, depth)
}

/// Whether two paths share their first `depth` groups of bits.
pub open spec fn same_prefix(a: Seq<u8>, b: Seq<u8>, depth: nat) -> bool {
    forall|g: int| 0 <= g < depth ==> #[trigger] quintet(a, g) == quintet(b, g)
}

/// Whether a node may stand at `depth` on `path`.
pub open spec fn node_ok(
    n: NodeView,
    scope: LogScope,
    head: IndexHead,
    path: Seq<u8>,
    depth: nat,
) -> bool {
    match n {
        NodeView::Branch { schema, depth: at, prefix, children } => {
            &&& schema == NODE_SCHEMA@
            &&& at == depth
            &&& prefix == masked(path, depth)
            &&& slots_ok(children, depth)
        },
        NodeView::Leaf { schema, entry } => {
            &&& schema == NODE_SCHEMA@
            &&& same_prefix(scope.path(entry.key), path, depth)
            &&& receipt_ok(entry, head)
        },
    }
}

/// What is wrong with the slots of a branch at `depth` from the `i`-th on.
pub open spec fn slots_fault(children: Seq<HamtChild>, depth: nat, i: nat) -> Option<Seq<char>>
    decreases children.len() - i,
{
    if i >= children.len() {
        None
    } else {
        let slot = children[i as int].slot;
        if slot >= 32 {
            Some("stable index slot "@ + decimal(slot as nat) + " exceeds fanout 32"@)
        } else if !slot_allowed(slot as int, depth) {
            Some(
                "stable index slot "@ + decimal(slot as nat) + " is not valid at depth "@ + decimal(
                    depth,
                ),
            )
        } else if i > 0 && slot <= children[i - 1].slot {
            Some("stable index branch slots must be unique and strictly increasing"@)
        } else {
            slots_fault(children, depth, i + 1)
        }
    }
}

/// What is wrong with a node at `depth` on `path`, but for what a leaf must
/// share with the path and the publication.
pub open spec fn shape_fault(digest: Digest, n: NodeView, path: Seq<u8>, depth: nat) -> Option<
    Seq<char>,
> {
    match n {
        NodeView::Branch { schema, depth: at, prefix, children } => if schema != NODE_SCHEMA@ {
            Some("unsupported stable index node schema "@ + schema + " at "@ + digest.text())
        } else if at != depth {
            Some(
                "stable index branch depth "@ + decimal(at as nat) + " does not match walk "@
                    + decimal(depth),
            )
        } else if prefix != masked(path, depth) {
            Some("stable index branch is not bound to the path that reached it"@)
        } else {
            slots_fault(children, depth, 0)
        },
        NodeView::Leaf { schema, entry } => if schema != NODE_SCHEMA@ {
            Some("unsupported stable index node schema "@ + schema + " at "@ + digest.text())
        } else if entry.first == 0 || entry.first > entry.last || entry.generation == 0 {
            Some("stable index leaf "@ + digest.text() + " has an invalid range or generation"@)
        } else {
            None
        },
    }
}

/// What is wrong with a node of `len` bytes at `depth` on `path`.
#[verifier::opaque]
pub open spec fn node_fault(
    digest: Digest,
    len: nat,
    n: NodeView,
    scope: LogScope,
    head: IndexHead,
    path: Seq<u8>,
    depth: nat,
) -> Option<Seq<char>> {
    if len > MAX_NODE_BYTES {
        Some("stable index node "@ + digest.text() + " exceeds 4096 bytes"@)
    } else if shape_fault(digest, n, path, depth) is Some {
        shape_fault(digest, n, path, depth)
    } else {
        match n {
            NodeView::Branch { .. } => None,
            NodeView::Leaf { entry, .. } => if !same_prefix(
                scope.path(entry.key),
                path,
                depth,
            ) {
                Some("stable index leaf is not on the path that reached it"@)
            } else {
                receipt_fault(
                    entry.first,
                    entry.last,
                    entry.generation,
                    head.generation,
                    head.head_seq,
                )
            },
        }
    }
}

/// What a failed fetch of a node means for the walk that needed it.
#[verifier::opaque]
pub open spec fn load_error(digest: Digest, e: ErrorView) -> ErrorView {
    match e {
        ErrorView::BackendUnavailable(_) => e,
        ErrorView::Io(_) => ErrorView::BackendUnavailable(
            "stable index node "@ + digest.text() + ": "@ + e.text(),
        ),
        ErrorView::NotFound(_) => ErrorView::IntegrityError(
            "stable index node "@ + digest.text() + " is missing"@,
        ),
        ErrorView::IntegrityError(_) => ErrorView::IntegrityError(
            "stable index node "@ + digest.text() + ": "@ + e.text(),
        ),
        ErrorView::InvalidFormat(_) => ErrorView::IntegrityError(
            "stable index node "@ + digest.text() + ": "@ + e.text(),
        ),
        _ => ErrorView::RecoveryFailed(
            "unclassified error loading stable index node "@ + digest.text() + ": "@ + e.text(),
        ),
    }
}

/// What is known of the node that a walk needs.
pub enum Load {
    Need,
    Fail(ErrorView),
    Node(NodeView),
}

pub open spec fn load(
    m: Map<Digest, FetchedView<NodeView>>,
    scope: LogScope,
    head: IndexHead,
    d: Digest,
    path: Seq<u8>,
    depth: nat,
) -> Load {
    if !m.contains_key(d) {
        Load::Need
    } else {
        match m[d] {
            FetchedView::Failed(e) => Load::Fail(load_error(d, e)),
            FetchedView::Malformed { detail } => Load::Fail(
                ErrorView::IntegrityError(
                    "stable index node "@ + d.text() + " is malformed: "@ + detail,
                ),
            ),
            FetchedView::Object { len, object } => if len <= MAX_NODE_BYTES && node_ok(
                object,
                scope,
                head,
                path,
                depth,
            ) {
                Load::Node(object)
            } else {
                Load::Fail(
                    ErrorView::IntegrityError(
                        node_fault(d, len, object, scope, head, path, depth)->0,
                    ),
                )
            },
        }
    }
}

/// The digest in `slot`.
pub open spec fn child_of(children: Seq<HamtChild>, slot: int) -> Option<Digest>
    decreases children.len(),
{
    if children.len() == 0 {
        None
    } else if children[0].slot == slot {
        Some(children[0].digest)
    } else {
        child_of(children.drop_first(), slot)
    }
}

/// Where the walk along a path ends: at a node that is not known, at one
/// that cannot be used, at a leaf, at a branch without a child in the slot
/// of the path, or at a branch below the last level.
pub enum Descent {
    Fetch(Digest),
    Fail(ErrorView),
    Leaf { depth: nat, entry: EntryView },
    Gap { depth: nat },
    TooDeep,
}

pub open spec fn descent(
    m: Map<Digest, FetchedView<NodeView>>,
    scope: LogScope,
    head: IndexHead,
    path: Seq<u8>,
    d: Digest,
    depth: nat,
) -> Descent
    decreases 53 - depth,
{
    match load(m, scope, head, d, path, depth) {
        Load::Need => Descent::Fetch(d),
        Load::Fail(c) => Descent::Fail(c),
        Load::Node(NodeView::Leaf { entry, .. }) => Descent::Leaf { depth, entry },
        Load::Node(NodeView::Branch { children, .. }) => if depth > 51 {
            Descent::TooDeep
        } else {
            match child_of(children, quintet(path, depth as int)) {
                None => Descent::Gap { depth },
                Some(next) => descent(m, scope, head, path, next, depth + 1),
            }
        },
    }
}

/// What a lookup gives.
pub enum LookupView {
    Fetch(Digest),
    Fail(ErrorView),
    Found(EntryView),
    Absent,
}

/// What the subtree at `d` holds for `key`.
pub open spec fn found(
    m: Map<Digest, FetchedView<NodeView>>,
    scope: LogScope,
    head: IndexHead,
    d: Digest,
    depth: nat,
    key: Seq<u8>,
) -> LookupView {
    match descent(m, scope, head, scope.path(key), d, depth) {
        Descent::Fetch(n) => LookupView::Fetch(n),
        Descent::Fail(c) => LookupView::Fail(c),
        Descent::Leaf { entry, .. } => if entry.key == key {
            LookupView::Found(entry)
        } else {
            LookupView::Absent
        },
        Descent::Gap { .. } => LookupView::Absent,
        Descent::TooDeep => LookupView::Fail(
            ErrorView::IntegrityError("stable index branch exceeds nibble depth"@),
        ),
    }
}

/// What an index holds for `key`. An index without entries has no
/// children, and the root is a branch.
pub open spec fn index_lookup(
    m: Map<Digest, FetchedView<NodeView>>,
    scope: LogScope,
    head: IndexHead,
    root: StableIndexRoot,
    key: Seq<u8>,
) -> LookupView {
    if root.schema@ != ROOT_SCHEMA@ {
        LookupView::Fail(
            ErrorView::IntegrityError("unsupported stable index root schema "@ + root.schema@),
        )
    } else {
        match load(m, scope, head, root.digest, scope.path(key), 0) {
            Load::Node(NodeView::Leaf { .. }) => LookupView::Fail(
                ErrorView::IntegrityError("stable index root digest must address a branch"@),
            ),
            Load::Node(NodeView::Branch { children, .. }) => if root.entries == 0 && children.len()
                > 0 {
                LookupView::Fail(
                    ErrorView::IntegrityError(
                        "stable index root count is 0 but the root branch has children"@,
                    ),
                )
            } else {
                found(m, scope, head, root.digest, 0, key)
            },
            _ => found(m, scope, head, root.digest, 0, key),
        }
    }
}

/// Whether a lookup came to a conclusion.
pub open spec fn concluded(v: LookupView) -> bool {
    v is Found || v is Absent
}

// ---------------------------------------------------------------- paths
proof fn lemma_masked_unique(a: Digest, b: Digest, path: Seq<u8>, depth: nat)
    requires
        is_masked(a@, path, depth),
        is_masked(b@, path, depth),
    ensures
        a == b,
{
    assert forall|k: int| 0 <= k < 8 * a@.len() implies #[trigger] bit(a@, k) == bit(b@, k) by {
        assert(bit(b@, k) == bit(b@, k));
    }
    lemma_bits_determine(a@, b@);
    lemma_digest_injective(a, b);
}

/// Paths that share a prefix mask alike.
proof fn lemma_masked_shared(a: Seq<u8>, b: Seq<u8>, depth: nat)
    requires
        same_prefix(a, b, depth),
        depth <= 52,
    ensures
        masked(a, depth) == masked(b, depth),
{
    assert forall|k: int| 0 <= k < 256 && k < 5 * depth implies #[trigger] bit(a, k) == bit(b, k) by {
        let g = k / 5;
        assert(quintet(a, g) == quintet(b, g));
        lemma_quintet_bits(a, g, k % 5);
        lemma_quintet_bits(b, g, k % 5);
        assert(5 * g + k % 5 == k);
    }
    assert forall|d: Digest| #[trigger] is_masked(d@, a, depth) == is_masked(d@, b, depth) by {
        if is_masked(d@, a, depth) {
            assert forall|k: int| 0 <= k < 256 implies #[trigger] bit(d@, k) == (if k < 5 * depth {
                bit(b, k)
            } else {
                0
            }) by {
                if k < 5 * depth {
                    assert(bit(a, k) == bit(b, k));
                }
            }
        }
        if is_masked(d@, b, depth) {
            assert forall|k: int| 0 <= k < 256 implies #[trigger] bit(d@, k) == (if k < 5 * depth {
                bit(a, k)
            } else {
                0
            }) by {
                if k < 5 * depth {
                    assert(bit(a, k) == bit(b, k));
                }
            }
        }
    }
    lemma_masked_exists(a, depth);
    let d = masked(a, depth);
    assert(is_masked(d@, a, depth));
    assert(is_masked(d@, b, depth));
    lemma_masked_unique(d, masked(b, depth), b, depth);
}

/// Bit `j` of byte `i` of a masked path.
spec fn masked_bit(path: Seq<u8>, depth: nat, i: int) -> spec_fn(int) -> int {
    |j: int|
        if 8 * i + j < 5 * depth {
            bit(path, 8 * i + j)
        } else {
            0
        }
}

proof fn lemma_masked_exists(path: Seq<u8>, depth: nat)
    ensures
        exists|d: Digest| #[trigger] is_masked(d@, path, depth),
{
    let raw = Seq::new(32, |i: int| byte_with(masked_bit(path, depth, i)));
    assert forall|k: int| 0 <= k < 256 implies #[trigger] bit(raw, k) == (if k < 5 * depth {
        bit(path, k)
    } else {
        0
    }) by {
        let i = k / 8;
        let j = k % 8;
        lemma_byte_with_bits(masked_bit(path, depth, i));
        assert(8 * i + j == k);
        assert(bit_of(raw[i] as int, j, 8) == masked_bit(path, depth, i)(j));
    }
    lemma_digest_exists(raw);
    let d = digest_from(raw);
    assert(is_masked(d@, path, depth));
}

/// The path with only its first `depth` steps.
pub fn masked_path(path: &Digest, depth: usize) -> (r: Digest)
    requires
        depth <= 60,
    ensures
        r == masked(path@, depth as nat),
{
    let raw: [u8; 32] = path.raw();
    proof {
        lemma_digest_view(*path);
    }
    let kept: Vec<u8> = keep_bits(&raw, 5 * depth);
    let r: Digest = Digest::from_raw(to_array32(&kept));
    proof {
        assert(is_masked(r@, path@, depth as nat));
        lemma_masked_unique(r, masked(path@, depth as nat), path@, depth as nat);
    }
    r
}

/// The slot of a path at `depth`.
pub fn nibble(path: &Digest, depth: usize) -> (r: Result<u8>)
    ensures
        r is Ok <==> depth <= MAX_BRANCH_DEPTH,
        r matches Ok(s) ==> s == quintet(path@, depth as int) && s < 32,
        r matches Err(e) ==> e@ == ErrorView::Rejected("stable key path depth"@),
{
    if depth > MAX_BRANCH_DEPTH {
        return Err(rejected("stable key path depth"));
    }
    proof {
        lemma_digest_view(*path);
    }
    let raw: [u8; 32] = path.raw();
    Ok(get_quintet(&raw, depth))
}

/// The bits of a slot that are live at `depth`.
pub fn slot_mask(depth: usize) -> (r: u8)
    ensures
        r == (if depth < 51 {
            0x1fu8
        } else if depth == 51 {
            0x10u8
        } else {
            0u8
        }),
{
    if depth < 51 {
        0x1f
    } else if depth == 51 {
        0x10
    } else {
        0
    }
}

/// Whether two paths share their first `depth` slots. Paths have no slots
/// below the last level: where those that they have are the same, a greater
/// depth is refused.
pub fn path_prefix_matches(leaf_path: &Digest, search_path: &Digest, depth: usize) -> (r: Result<bool>)
    ensures
        if depth <= 52 {
            r matches Ok(m) && m == same_prefix(leaf_path@, search_path@, depth as nat) && m == (
            masked(leaf_path@, depth as nat) == masked(search_path@, depth as nat))
        } else if same_prefix(leaf_path@, search_path@, 52) {
            r matches Err(e) && e@ == ErrorView::Rejected("stable key path depth"@)
        } else {
            r matches Ok(m) && !m
        },
{
    proof {
        lemma_digest_view(*leaf_path);
        lemma_digest_view(*search_path);
        if depth <= 52 {
            lemma_masked_tells(leaf_path@, search_path@, depth as nat);
        }
    }
    let mut d: usize = 0;
    while d < depth
        invariant
            d <= depth,
            d <= 52,
            depth <= 52 ==> (same_prefix(leaf_path@, search_path@, depth as nat) <==> masked(
                leaf_path@,
                depth as nat,
            ) == masked(search_path@, depth as nat)),
            forall|g: int| 0 <= g < d ==> #[trigger] quintet(leaf_path@, g) == quintet(
                search_path@,
                g,
            ),
        decreases depth - d,
    {
        let a: u8 = match nibble(leaf_path, d) {
            Err(e) => {
                return Err(e);
            },
            Ok(s) => s,
        };
        let b: u8 = match nibble(search_path, d) {
            Err(e) => {
                return Err(e);
            },
            Ok(s) => s,
        };
        if a != b {
            assert(quintet(leaf_path@, d as int) != quintet(search_path@, d as int));
            return Ok(false);
        }
        d = d + 1;
    }
    Ok(true)
}

/// Paths share a prefix exactly if they mask alike.
proof fn lemma_masked_tells(a: Seq<u8>, b: Seq<u8>, depth: nat)
    requires
        a.len() == 32,
        b.len() == 32,
        depth <= 52,
    ensures
        same_prefix(a, b, depth) <==> masked(a, depth) == masked(b, depth),
{
    if same_prefix(a, b, depth) {
        lemma_masked_shared(a, b, depth);
    }
    if masked(a, depth) == masked(b, depth) {
        lemma_masked_exists(a, depth);
        lemma_masked_exists(b, depth);
        let d = masked(a, depth);
        assert(is_masked(d@, a, depth) && is_masked(d@, b, depth));
        assert forall|k: int| 0 <= k < 5 * depth && k < 256 implies #[trigger] bit(a, k) == bit(
            b,
            k,
        ) by {
            assert(bit(d@, k) == bit(a, k));
            assert(bit(d@, k) == bit(b, k));
        }
        lemma_prefix_bits(a, b, depth);
    }
}

proof fn lemma_prefix_bits(a: Seq<u8>, b: Seq<u8>, depth: nat)
    requires
        a.len() == 32,
        b.len() == 32,
    ensures
        same_prefix(a, b, depth) <==> forall|k: int|
            0 <= k < 5 * depth && k < 256 ==> #[trigger] bit(a, k) == bit(b, k),
{
    if same_prefix(a, b, depth) {
        assert forall|k: int| 0 <= k < 5 * depth && k < 256 implies #[trigger] bit(a, k) == bit(
            b,
            k,
        ) by {
            let g = k / 5;
            assert(quintet(a, g) == quintet(b, g));
            lemma_quintet_bits(a, g, k % 5);
            lemma_quintet_bits(b, g, k % 5);
            assert(5 * g + k % 5 == k);
        }
    }
    if forall|k: int| 0 <= k < 5 * depth && k < 256 ==> #[trigger] bit(a, k) == bit(b, k) {
        assert forall|g: int| 0 <= g < depth implies #[trigger] quintet(a, g) == quintet(b, g) by {
            assert(bit(a, 5 * g) == bit(b, 5 * g));
            assert(bit(a, 5 * g + 1) == bit(b, 5 * g + 1));
            assert(bit(a, 5 * g + 2) == bit(b, 5 * g + 2));
            assert(bit(a, 5 * g + 3) == bit(b, 5 * g + 3));
            assert(bit(a, 5 * g + 4) == bit(b, 5 * g + 4));
        }
    }
}

/// Two paths share their first groups of bits when they agree on as many bits,
/// or on all that they have. It does not matter which of them comes first;
/// every two share none; and paths that part stay apart further down.
pub proof fn law_prefix_test_is_of_bits(a: Seq<u8>, b: Seq<u8>, depth: nat, deeper: nat)
    requires
        a.len() == 32,
        b.len() == 32,
        depth <= deeper,
    ensures
        same_prefix(a, b, depth) <==> forall|k: int|
            0 <= k < 5 * depth && k < 256 ==> #[trigger] bit(a, k) == bit(b, k),
        depth <= 52 ==> (same_prefix(a, b, depth) <==> masked(a, depth) == masked(b, depth)),
        same_prefix(a, b, depth) == same_prefix(b, a, depth),
        same_prefix(a, b, 0),
        !same_prefix(a, b, depth) ==> !same_prefix(a, b, deeper),
{
    lemma_prefix_bits(a, b, depth);
    if depth <= 52 {
        lemma_masked_tells(a, b, depth);
    }
    if same_prefix(a, b, depth) {
        assert forall|g: int| 0 <= g < depth implies #[trigger] quintet(b, g) == quintet(a, g) by {
            assert(quintet(a, g) == quintet(b, g));
        }
    }
    if same_prefix(b, a, depth) {
        assert forall|g: int| 0 <= g < depth implies #[trigger] quintet(a, g) == quintet(b, g) by {
            assert(quintet(b, g) == quintet(a, g));
        }
    }
}

// ------------------------------------------------------------- validation
/// Why a receipt cannot stand in an index read at `head_generation` and
/// `head_seq`.
pub open spec fn receipt_fault(
    first: u64,
    last: u64,
    generation: u64,
    head_generation: u64,
    head_seq: u64,
) -> Option<Seq<char>> {
    if first == 0 || first > last {
        Some(
            "stable index leaf range "@ + decimal(first as nat) + "..="@ + decimal(last as nat)
                + " is invalid"@,
        )
    } else if generation == 0 {
        Some("stable index leaf generation must be > 0"@)
    } else if generation > head_generation {
        Some(
            "stable index leaf generation "@ + decimal(generation as nat) + " is ahead of head "@
                + decimal(head_generation as nat),
        )
    } else if last > head_seq {
        Some(
            "stable index leaf last "@ + decimal(last as nat) + " is ahead of head_seq "@ + decimal(
                head_seq as nat,
            ),
        )
    } else {
        None
    }
}

/// Whether a receipt can stand in an index read at `head_generation` and
/// `head_seq`.
pub fn validate_receipt(
    first: u64,
    last: u64,
    generation: u64,
    head_generation: u64,
    head_seq: u64,
) -> (r: Result<()>)
    ensures
        r is Ok <==> 1 <= first <= last <= head_seq && 1 <= generation <= head_generation,
        match receipt_fault(first, last, generation, head_generation, head_seq) {
            None => r is Ok,
            Some(m) => r matches Err(CoreError::IntegrityError(t)) && t@ == m,
        },
{
    if first == 0 || first > last {
        let m: String = join5(
            "stable index leaf range ",
            &decimal_text(first),
            "..=",
            &decimal_text(last),
            " is invalid",
        );
        return Err(CoreError::IntegrityError(m));
    }
    if generation == 0 {
        return Err(integrity("stable index leaf generation must be > 0"));
    }
    if generation > head_generation {
        let m: String = join4(
            "stable index leaf generation ",
            &decimal_text(generation),
            " is ahead of head ",
            &decimal_text(head_generation),
        );
        return Err(CoreError::IntegrityError(m));
    }
    if last > head_seq {
        let m: String = join4(
            "stable index leaf last ",
            &decimal_text(last),
            " is ahead of head_seq ",
            &decimal_text(head_seq),
        );
        return Err(CoreError::IntegrityError(m));
    }
    Ok(())
}

fn validate_branch_slots(children: &Vec<HamtChild>, depth: usize) -> (r: Result<()>)
    ensures
        r is Ok <==> slots_ok(children@, depth as nat),
        match slots_fault(children@, depth as nat, 0) {
            None => r is Ok,
            Some(m) => r matches Err(e) && e@ == ErrorView::IntegrityError(m),
        },
{
    let mask: u8 = slot_mask(depth);
    let mut i: usize = 0;
    while i < children.len()
        invariant
            i <= children@.len(),
            slots_fault(children@, depth as nat, 0) == slots_fault(
                children@,
                depth as nat,
                i as nat,
            ),
            mask == (if depth < 51 {
                0x1fu8
            } else if depth == 51 {
                0x10u8
            } else {
                0u8
            }),
            forall|j: int|
                0 <= j < i ==> slot_allowed((#[trigger] children@[j]).slot as int, depth as nat),
            forall|j: int, k: int|
                0 <= j < k < i ==> (#[trigger] children@[j]).slot < (#[trigger] children@[k]).slot,
        decreases children@.len() - i,
    {
        let slot: u8 = children[i].slot;
        if slot >= 32 {
            assert(!slot_allowed(children@[i as int].slot as int, depth as nat));
            let m: String = join3(
                "stable index slot ",
                &decimal_text(slot as u64),
                " exceeds fanout 32",
            );
            return Err(CoreError::IntegrityError(m));
        }
        proof {
            assert(slot < 32 ==> slot & !0x1fu8 == 0u8) by (bit_vector);
            assert(slot < 32 ==> (slot & !0x10u8 == 0u8 <==> slot % 16 == 0)) by (bit_vector);
            assert(slot & !0u8 == slot) by (bit_vector);
        }
        if slot & !mask != 0 {
            assert(!slot_allowed(children@[i as int].slot as int, depth as nat));
            let m: String = join4(
                "stable index slot ",
                &decimal_text(slot as u64),
                " is not valid at depth ",
                &decimal_text(depth as u64),
            );
            return Err(CoreError::IntegrityError(m));
        }
        if i > 0 {
            if slot <= children[i - 1].slot {
                assert(!(children@[i - 1].slot < children@[i as int].slot));
                return Err(
                    integrity("stable index branch slots must be unique and strictly increasing"),
                );
            }
        }
        i = i + 1;
    }
    Ok(())
}

fn unknown_schema(schema: &str, digest: &Digest) -> (r: CoreError)
    ensures
        r@ == ErrorView::IntegrityError(
            "unsupported stable index node schema "@ + schema@ + " at "@ + digest.text(),
        ),
{
    CoreError::IntegrityError(
        join4("unsupported stable index node schema ", schema, " at ", &digest.to_string()),
    )
}

/// Whether `node` may be read at `depth` on `path`, but for what a leaf
/// must share with the path and the publication.
fn validate_node(digest: &Digest, node: &HamtNode, path: &Digest, depth: usize) -> (r: Result<()>)
    requires
        depth <= 52,
    ensures
        match shape_fault(*digest, node@, path@, depth as nat) {
            None => r is Ok,
            Some(m) => r matches Err(e) && e@ == ErrorView::IntegrityError(m),
        },
        r is Ok <==> match node@ {
            NodeView::Branch { schema, depth: at, prefix, children } => schema == NODE_SCHEMA@ && at
                == depth && prefix == masked(path@, depth as nat) && slots_ok(
                children,
                depth as nat,
            ),
            NodeView::Leaf { schema, entry } => schema == NODE_SCHEMA@ && 1 <= entry.first
                <= entry.last && entry.generation >= 1,
        },
{
    match node {
        HamtNode::Branch { schema, depth: at, prefix, children } => {
            if !same_text(schema, NODE_SCHEMA) {
                return Err(unknown_schema(schema, digest));
            }
            if *at as usize != depth {
                let m: String = join4(
                    "stable index branch depth ",
                    &decimal_text(*at as u64),
                    " does not match walk ",
                    &decimal_text(depth as u64),
                );
                return Err(CoreError::IntegrityError(m));
            }
            if *prefix != masked_path(path, depth) {
                return Err(
                    integrity("stable index branch is not bound to the path that reached it"),
                );
            }
            validate_branch_slots(children, depth)
        },
        HamtNode::Leaf { schema, entry } => {
            if !same_text(schema, NODE_SCHEMA) {
                return Err(unknown_schema(schema, digest));
            }
            if entry.first == 0 || entry.first > entry.last || entry.generation == 0 {
                let m: String = join3(
                    "stable index leaf ",
                    &digest.to_string(),
                    " has an invalid range or generation",
                );
                return Err(CoreError::IntegrityError(m));
            }
            Ok(())
        },
    }
}

/// What a failed fetch of an index node means.
pub fn map_node_load_err(digest: &Digest, e: &CoreError) -> (r: CoreError)
    ensures
        r@ == load_error(*digest, e@),
{
    proof {
        reveal(load_error);
    }
    let id: String = digest.to_string();
    match e {
        CoreError::BackendUnavailable(_) => e.clone(),
        CoreError::Io(_) => CoreError::BackendUnavailable(
            join4("stable index node ", &id, ": ", &e.to_string()),
        ),
        CoreError::NotFound(_) => CoreError::IntegrityError(
            join3("stable index node ", &id, " is missing"),
        ),
        CoreError::IntegrityError(_) | CoreError::InvalidFormat(_) => CoreError::IntegrityError(
            join4("stable index node ", &id, ": ", &e.to_string()),
        ),
        _ => CoreError::RecoveryFailed(
            join4("unclassified error loading stable index node ", &id, ": ", &e.to_string()),
        ),
    }
}

/// The node that a walk needs, once it has been fetched and holds up.
fn load_node<'a>(
    table: &'a Table<HamtNode>,
    scope: &LogScope,
    digest: &Digest,
    path: &Digest,
    depth: usize,
    head: IndexHead,
) -> (r: Result<Option<&'a HamtNode>>)
    requires
        depth <= 52,
    ensures
        match load(table@, *scope, head, *digest, path@, depth as nat) {
            Load::Need => r matches Ok(None),
            Load::Fail(c) => r matches Err(e) && e@ == c,
            Load::Node(n) => r matches Ok(Some(node)) && node@ == n,
        },
{
    proof {
        reveal(node_fault);
    }
    match table.get(digest) {
        None => Ok(None),
        Some(Fetched::Failed(e)) => Err(map_node_load_err(digest, e)),
        Some(Fetched::Malformed { detail }) => Err(
            CoreError::IntegrityError(
                join4("stable index node ", &digest.to_string(), " is malformed: ", detail),
            ),
        ),
        Some(Fetched::Object { len, object }) => {
            if *len > MAX_NODE_BYTES {
                let m: String = join3(
                    "stable index node ",
                    &digest.to_string(),
                    " exceeds 4096 bytes",
                );
                return Err(CoreError::IntegrityError(m));
            }
            match validate_node(digest, object, path, depth) {
                Err(e) => {
                    return Err(e);
                },
                Ok(_) => {},
            }
            if let HamtNode::Leaf { entry, .. } = object {
                let leaf_path: Digest = scope.path_digest(&entry.key);
                let on_path: bool = match path_prefix_matches(&leaf_path, path, depth) {
                    Err(e) => {
                        return Err(e);
                    },
                    Ok(m) => m,
                };
                if !on_path {
                    return Err(
                        integrity("stable index leaf is not on the path that reached it"),
                    );
                }
                match validate_receipt(
                    entry.first,
                    entry.last,
                    entry.generation,
                    head.generation,
                    head.head_seq,
                ) {
                    Err(e) => {
                        return Err(e);
                    },
                    Ok(_) => {},
                }
            }
            Ok(Some(object))
        },
    }
}

/// The digest in `slot`.
pub fn child(children: &Vec<HamtChild>, slot: u8) -> (r: Option<Digest>)
    ensures
        r == child_of(children@, slot as int),
{
    let mut i: usize = 0;
    assert(children@.skip(0) =~= children@);
    while i < children.len()
        invariant
            i <= children@.len(),
            child_of(children@, slot as int) == child_of(children@.skip(i as int), slot as int),
        decreases children@.len() - i,
    {
        if children[i].slot == slot {
            return Some(children[i].digest);
        }
        assert(children@.skip(i as int).drop_first() =~= children@.skip(i + 1));
        i = i + 1;
    }
    None
}

// ----------------------------------------------------------------- lookup
/// Looks `key` up in an index.
pub fn lookup(
    table: &Table<HamtNode>,
    scope: &LogScope,
    root: &StableIndexRoot,
    key: &StableKey,
    head: IndexHead,
) -> (r: Result<Step<Lookup>>)
    ensures
        match index_lookup(table@, *scope, head, *root, key@) {
            LookupView::Fetch(d) => r matches Ok(Step::Fetch(n)) && n == d,
            LookupView::Fail(c) => r matches Err(e) && e@ == c,
            LookupView::Found(e) => r matches Ok(Step::Done(Lookup::Found(f))) && f@ == e,
            LookupView::Absent => r matches Ok(Step::Done(Lookup::Absent)),
        },
{
    match root.validate() {
        Err(e) => {
            return Err(e);
        },
        Ok(_) => {},
    }
    let path: Digest = scope.path_digest(key);
    lookup_at(table, scope, root, key, &path, head)
}

fn lookup_at(
    table: &Table<HamtNode>,
    scope: &LogScope,
    root: &StableIndexRoot,
    key: &StableKey,
    path: &Digest,
    head: IndexHead,
) -> (r: Result<Step<Lookup>>)
    requires
        root.schema@ == ROOT_SCHEMA@,
        path@ == scope.path(key@),
    ensures
        match index_lookup(table@, *scope, head, *root, key@) {
            LookupView::Fetch(d) => r matches Ok(Step::Fetch(n)) && n == d,
            LookupView::Fail(c) => r matches Err(e) && e@ == c,
            LookupView::Found(e) => r matches Ok(Step::Done(Lookup::Found(f))) && f@ == e,
            LookupView::Absent => r matches Ok(Step::Done(Lookup::Absent)),
        },
{
    let mut digest: Digest = root.digest;
    let mut depth: usize = 0;
    loop
        invariant
            depth <= 52,
            path@ == scope.path(key@),
            root.schema@ == ROOT_SCHEMA@,
            depth == 0 ==> digest == root.digest,
            depth > 0 ==> root.entries > 0,
            depth > 0 ==> index_lookup(table@, *scope, head, *root, key@) == found(
                table@,
                *scope,
                head,
                root.digest,
                0,
                key@,
            ),
            descent(table@, *scope, head, path@, root.digest, 0) == descent(
                table@,
                *scope,
                head,
                path@,
                digest,
                depth as nat,
            ),
        decreases 53 - depth,
    {
        let node: &HamtNode = match load_node(table, scope, &digest, path, depth, head) {
            Err(e) => {
                return Err(e);
            },
            Ok(None) => {
                return Ok(Step::Fetch(digest));
            },
            Ok(Some(n)) => n,
        };
        match node {
            HamtNode::Leaf { entry, .. } => {
                if depth == 0 {
                    return Err(integrity("stable index root digest must address a branch"));
                }
                if same_bytes(entry.key.as_bytes(), key.as_bytes()) {
                    if root.entries == 0 {
                        return Err(
                            integrity("stable index root count is 0 but a leaf was found"),
                        );
                    }
                    return Ok(Step::Done(Lookup::Found(entry.clone())));
                }
                return Ok(Step::Done(Lookup::Absent));
            },
            HamtNode::Branch { children, .. } => {
                if depth == 0 && root.entries == 0 && children.len() > 0 {
                    return Err(
                        integrity("stable index root count is 0 but the root branch has children"),
                    );
                }
                if depth > MAX_BRANCH_DEPTH {
                    return Err(integrity("stable index branch exceeds nibble depth"));
                }
                let slot: u8 = match nibble(path, depth) {
                    Err(e) => {
                        return Err(e);
                    },
                    Ok(s) => s,
                };
                match child(children, slot) {
                    None => {
                        return Ok(Step::Done(Lookup::Absent));
                    },
                    Some(next) => {
                        digest = next;
                        depth = depth + 1;
                    },
                }
            },
        }
    }
}

// ----------------------------------------------------------------- insert
/// A new version of an index, with the nodes to store for it. Each node
/// stands behind those that it refers to.
#[derive(Debug)]
pub struct Insertion {
    pub root: StableIndexRoot,
    pub uploads: Vec<(Digest, HamtNode)>,
}

/// Whether the subtree at `now`, read where `t` and `ups` are stored, holds
/// what the subtree at `was` holds there, and `entry` besides, for the keys
/// that share the first `depth` groups of bits with the path of `entry`.
pub open spec fn grafted(
    t: Map<Digest, FetchedView<NodeView>>,
    ups: Seq<(Digest, NodeView)>,
    scope: LogScope,
    head: IndexHead,
    was: Digest,
    now: Digest,
    depth: nat,
    entry: EntryView,
) -> bool {
    forall|m: Map<Digest, FetchedView<NodeView>>|
        #![trigger stored(m, ups, MAX_NODE_BYTES as nat)]
        extends(m, t) && stored(m, ups, MAX_NODE_BYTES as nat) ==> {
            &&& found(m, scope, head, now, depth, entry.key) == LookupView::Found(entry)
            &&& forall|key: Seq<u8>|
                #![trigger scope.path(key)]
                same_prefix(scope.path(key), scope.path(entry.key), depth) ==> reads_as_branch(
                    m,
                    scope,
                    head,
                    now,
                    scope.path(key),
                    depth,
                )
            &&& forall|key: Seq<u8>|
                #![trigger scope.path(key)]
                key != entry.key && same_prefix(scope.path(key), scope.path(entry.key), depth)
                    && concluded(found(m, scope, head, was, depth, key)) ==> found(
                    m,
                    scope,
                    head,
                    now,
                    depth,
                    key,
                ) == found(m, scope, head, was, depth, key)
        }
}

/// Whether the object at `d` is read as a branch at `depth` of `path`.
pub open spec fn reads_as_branch(
    m: Map<Digest, FetchedView<NodeView>>,
    scope: LogScope,
    head: IndexHead,
    d: Digest,
    path: Seq<u8>,
    depth: nat,
) -> bool {
    load(m, scope, head, d, path, depth) matches Load::Node(NodeView::Branch { .. })
}

/// Whether the paths of two keys part at some level from `depth` on.
pub open spec fn paths_part(a: Seq<u8>, b: Seq<u8>, depth: nat) -> bool {
    exists|g: int| depth <= g <= 51 && #[trigger] quintet(a, g) != quintet(b, g)
}

/// Why an insertion cannot be made, as far as the index decides.
pub enum Obstacle {
    Fetch(Digest),
    Fail(ErrorView),
    Clear,
}

/// What stands in the way of inserting `key` below `d`: a node that is not
/// known or cannot be used, the key itself, or a key whose path is the same.
pub open spec fn obstacle(
    m: Map<Digest, FetchedView<NodeView>>,
    scope: LogScope,
    head: IndexHead,
    d: Digest,
    depth: nat,
    key: Seq<u8>,
) -> Obstacle {
    match descent(m, scope, head, scope.path(key), d, depth) {
        Descent::Fetch(n) => Obstacle::Fetch(n),
        Descent::Fail(c) => Obstacle::Fail(c),
        Descent::TooDeep => Obstacle::Fail(ErrorView::Rejected("stable key path hash collision"@)),
        Descent::Gap { .. } => Obstacle::Clear,
        Descent::Leaf { depth: at, entry } => if entry.key == key {
            Obstacle::Fail(
                ErrorView::RecoveryFailed("stable index insert of a key that already has a leaf"@),
            )
        } else if !paths_part(scope.path(entry.key), scope.path(key), at) {
            Obstacle::Fail(ErrorView::Rejected("stable key path hash collision"@))
        } else {
            Obstacle::Clear
        },
    }
}

/// Whether `n` is the branch at level `g` over two paths that are the same
/// down to there.
#[verifier::opaque]
pub open spec fn forks(a: Seq<u8>, b: Seq<u8>, g: nat, n: NodeView) -> bool {
    &&& same_prefix(a, b, g)
    &&& n matches NodeView::Branch { children, .. }
    &&& n == branch_view(g, a, children)
    &&& slots_ok(children, g)
    &&& forall|s: int|
        #[trigger] child_of(children, s) is Some <==> (s == quintet(a, g as int) || s == quintet(
            b,
            g as int,
        ))
}

/// Whether `n` is a node that is written when the leaf of `a` at `depth`
/// gives way to one for `a` and one for `b`: either leaf, or a branch from
/// there down to where the paths part.
pub open spec fn split_writes(scope: LogScope, a: EntryView, b: EntryView, depth: nat, n: NodeView) -> bool {
    ||| n == leaf_view(a)
    ||| n == leaf_view(b)
    ||| exists|g: nat|
        depth <= g <= 51 && #[trigger] forks(scope.path(a.key), scope.path(b.key), g, n)
}

/// Whether `after` holds in every slot but `slot` what `before` holds, and
/// something in that one.
pub open spec fn refilled(
    before: Seq<HamtChild>,
    slot: int,
    after: Seq<HamtChild>,
    depth: nat,
) -> bool {
    &&& slots_ok(after, depth)
    &&& child_of(after, slot) is Some
    &&& forall|s: int| s != slot ==> #[trigger] child_of(after, s) == child_of(before, s)
}

/// Whether `n` is a node that is written when `entry` is inserted below `d`:
/// a branch on the path of its key with another child in the slot of the
/// path, the leaf of the entry, or what takes the place of another leaf.
pub open spec fn insert_writes(
    m: Map<Digest, FetchedView<NodeView>>,
    scope: LogScope,
    head: IndexHead,
    d: Digest,
    depth: nat,
    entry: EntryView,
    n: NodeView,
) -> bool
    decreases 53 - depth,
{
    let path = scope.path(entry.key);
    match load(m, scope, head, d, path, depth) {
        Load::Node(NodeView::Leaf { entry: a, .. }) => split_writes(scope, a, entry, depth, n),
        Load::Node(NodeView::Branch { children, .. }) => depth <= 51 && {
            let slot = quintet(path, depth as int);
            ||| match child_of(children, slot) {
                None => n == leaf_view(entry),
                Some(next) => insert_writes(m, scope, head, next, depth + 1, entry, n),
            }
            ||| n matches NodeView::Branch { children: after, .. } && n == branch_view(
                depth,
                path,
                after,
            ) && refilled(children, slot, after, depth)
        },
        _ => false,
    }
}

/// Whether `e` is why `entry` cannot be inserted where the index is known and
/// nothing in it is in the way: one of the nodes to write got no digest, or
/// the count of the entries is at its end.
pub open spec fn insert_failed<F: Fn(&HamtNode) -> Result<Digest>>(
    address: F,
    m: Map<Digest, FetchedView<NodeView>>,
    scope: LogScope,
    head: IndexHead,
    root: StableIndexRoot,
    entry: EntryView,
    e: CoreError,
) -> bool {
    ||| exists|n: &HamtNode|
        insert_writes(m, scope, head, root.digest, 0, entry, n@) && #[trigger] call_ensures(
            address,
            (n,),
            Err(e),
        )
    ||| root.entries == u64::MAX && e@ == ErrorView::Rejected(
        "stable index entry count overflow"@,
    )
}

/// The leaf of an entry.
pub fn leaf_node(entry: &StableIndexEntry) -> (r: HamtNode)
    ensures
        r@ == leaf_view(entry@),
{
    HamtNode::Leaf { schema: NODE_SCHEMA.to_owned(), entry: entry.clone() }
}

pub open spec fn leaf_view(entry: EntryView) -> NodeView {
    NodeView::Leaf { schema: NODE_SCHEMA@, entry }
}

/// The branch at the given depth of a path.
pub fn branch_node(depth: usize, path: &Digest, children: Vec<HamtChild>) -> (r: HamtNode)
    requires
        depth <= 52,
    ensures
        r@ == branch_view(depth as nat, path@, children@),
{
    HamtNode::Branch {
        schema: NODE_SCHEMA.to_owned(),
        depth: depth as u8,
        prefix: masked_path(path, depth),
        children,
    }
}

pub open spec fn branch_view(depth: nat, path: Seq<u8>, children: Seq<HamtChild>) -> NodeView {
    NodeView::Branch {
        schema: NODE_SCHEMA@,
        depth: depth as u8,
        prefix: masked(path, depth),
        children,
    }
}

/// Whether `n` is the root of an index without entries.
pub open spec fn is_empty_root(n: NodeView) -> bool {
    n matches NodeView::Branch { schema, depth, prefix, children } && schema == NODE_SCHEMA@ && depth
        == 0 && children.len() == 0 && prefix@.len() == 32 && forall|k: int|
        0 <= k < 256 ==> #[trigger] bit(prefix@, k) == 0
}

/// The root of an index without entries, and the node to store for it.
pub fn empty_root<F: Fn(&HamtNode) -> Result<Digest>>(address: &F) -> (r: Result<Insertion>)
    requires
        forall|n: &HamtNode| call_requires(*address, (n,)),
    ensures
        match r {
            Ok(ins) => {
                &&& addressed(*address, ins.uploads@)
                &&& ins.root.schema@ == ROOT_SCHEMA@
                &&& ins.root.entries == 0
                &&& forall|m: Map<Digest, FetchedView<NodeView>>,
                    scope: LogScope,
                    head: IndexHead,
                    key: Seq<u8>|
                    stored(m, uploads_view(ins.uploads@), MAX_NODE_BYTES as nat)
                        ==> #[trigger] index_lookup(m, scope, head, ins.root, key)
                        == LookupView::Absent
            },
            Err(e) => exists|n: &HamtNode|
                is_empty_root(n@) && #[trigger] call_ensures(*address, (n,), Err(e)),
        },
{
    let zero: Digest = Digest::from_raw([0u8; 32]);
    let node: HamtNode = branch_node(0, &zero, Vec::new());
    let ghost nv = node@;
    proof {
        lemma_masked_exists(zero@, 0);
        assert(is_masked(masked(zero@, 0)@, zero@, 0));
    }
    let digest: Digest = match address(&node) {
        Err(e) => {
            return Err(e);
        },
        Ok(d) => d,
    };
    let mut uploads: Vec<(Digest, HamtNode)> = Vec::new();
    uploads.push((digest, node));
    let root: StableIndexRoot = StableIndexRoot::new(digest, 0);
    proof {
        let ups = uploads_view(uploads@);
        assert(ups[0] == (digest, nv));
        assert forall|
            m: Map<Digest, FetchedView<NodeView>>,
            scope: LogScope,
            head: IndexHead,
            key: Seq<u8>,
        |
            stored(m, ups, MAX_NODE_BYTES as nat) implies #[trigger] index_lookup(
            m,
            scope,
            head,
            root,
            key,
        ) == LookupView::Absent by {
            assert(m.contains_key(ups[0].0));
            lemma_masked_shared(zero@, scope.path(key), 0);
            assert(load(m, scope, head, digest, scope.path(key), 0) == Load::Node(nv));
        }
    }
    Ok(Insertion { root, uploads })
}

/// Puts `digest` in `slot`, in place of what was there. The slots stay in
/// order, and at every depth that allows them and the new one allowed.
pub fn upsert_child(children: &mut Vec<HamtChild>, slot: u8, digest: Digest)
    requires
        slots_rise(old(children)@),
    ensures
        slots_rise(final(children)@),
        forall|depth: nat|
            slots_ok(old(children)@, depth) && slot_allowed(slot as int, depth)
                ==> #[trigger] slots_ok(final(children)@, depth),
        forall|s: int|
            #[trigger] child_of(final(children)@, s) == if s == slot {
                Some(digest)
            } else {
                child_of(old(children)@, s)
            },
        final(children)@.len() == old(children)@.len() + if child_of(
            old(children)@,
            slot as int,
        ) is Some {
            0int
        } else {
            1
        },
{
    let ghost before = children@;
    let mut i: usize = 0;
    while i < children.len() && children[i].slot < slot
        invariant
            children@ == before,
            i <= before.len(),
            forall|j: int| 0 <= j < i ==> (#[trigger] before[j]).slot < slot,
        decreases before.len() - i,
    {
        i = i + 1;
    }
    if i < children.len() && children[i].slot == slot {
        children.set(i, HamtChild { slot, digest });
        proof {
            lemma_update_child(before, i as int, digest);
            lemma_child_there(before, i as int);
            assert forall|depth: nat|
                slots_ok(before, depth) && slot_allowed(slot as int, depth) implies #[trigger] slots_ok(
                children@,
                depth,
            ) by {
                assert forall|j: int| 0 <= j < children@.len() implies slot_allowed(
                    (#[trigger] children@[j]).slot as int,
                    depth,
                ) by {
                    assert(children@[j].slot == before[j].slot);
                }
            }
        }
    } else {
        children.insert(i, HamtChild { slot, digest });
        proof {
            assert forall|j: int| i <= j < before.len() implies slot < (#[trigger] before[j]).slot by {
                if j > i {
                    assert(before[i as int].slot < before[j].slot);
                }
            }
            lemma_insert_child(before, i as int, slot, digest);
            lemma_child_above(before, slot as int);
            assert forall|depth: nat|
                slots_ok(before, depth) && slot_allowed(slot as int, depth) implies #[trigger] slots_ok(
                children@,
                depth,
            ) by {
                assert forall|j: int| 0 <= j < children@.len() implies slot_allowed(
                    (#[trigger] children@[j]).slot as int,
                    depth,
                ) by {
                    if j < i {
                        assert(children@[j] == before[j]);
                    } else if j > i {
                        assert(children@[j] == before[j - 1]);
                    }
                }
            }
        }
    }
}

proof fn lemma_child_there(children: Seq<HamtChild>, i: int)
    requires
        0 <= i < children.len(),
    ensures
        child_of(children, children[i].slot as int) is Some,
    decreases children.len(),
{
    if i > 0 {
        assert(children.drop_first()[i - 1] == children[i]);
        lemma_child_there(children.drop_first(), i - 1);
    }
}

proof fn lemma_child_above(children: Seq<HamtChild>, s: int)
    requires
        forall|j: int| 0 <= j < children.len() ==> (#[trigger] children[j]).slot != s,
    ensures
        child_of(children, s) is None,
    decreases children.len(),
{
    if children.len() > 0 {
        assert(children[0].slot != s);
        assert forall|j: int| 0 <= j < children.drop_first().len() implies (
        #[trigger] children.drop_first()[j]).slot != s by {
            assert(children[j + 1].slot != s);
        }
        lemma_child_above(children.drop_first(), s);
    }
}

proof fn lemma_update_child(before: Seq<HamtChild>, i: int, digest: Digest)
    requires
        0 <= i < before.len(),
        forall|j: int, k: int|
            0 <= j < k < before.len() ==> (#[trigger] before[j]).slot < (#[trigger] before[k]).slot,
    ensures
        ({
            let slot = before[i].slot;
            let after = before.update(i, HamtChild { slot, digest });
            forall|s: int|
                #[trigger] child_of(after, s) == if s == slot {
                    Some(digest)
                } else {
                    child_of(before, s)
                }
        }),
    decreases before.len(),
{
    let slot = before[i].slot;
    let after = before.update(i, HamtChild { slot, digest });
    if i == 0 {
        assert(after.drop_first() =~= before.drop_first());
    } else {
        assert(before[0].slot < before[i].slot);
        assert forall|j: int, k: int|
            0 <= j < k < before.drop_first().len() implies (#[trigger] before.drop_first()[j]).slot
            < (#[trigger] before.drop_first()[k]).slot by {
            assert(before[j + 1].slot < before[k + 1].slot);
        }
        lemma_update_child(before.drop_first(), i - 1, digest);
        assert(after.drop_first() =~= before.drop_first().update(i - 1, HamtChild { slot, digest }));
        assert forall|s: int| #[trigger] child_of(after, s) == (if s == slot {
            Some(digest)
        } else {
            child_of(before, s)
        }) by {
            assert(child_of(after.drop_first(), s) == if s == slot {
                Some(digest)
            } else {
                child_of(before.drop_first(), s)
            });
        }
    }
}

proof fn lemma_insert_child(
    before: Seq<HamtChild>,
    i: int,
    slot: u8,
    digest: Digest,
)
    requires
        slots_rise(before),
        0 <= i <= before.len(),
        forall|j: int| 0 <= j < i ==> (#[trigger] before[j]).slot < slot,
        forall|j: int| i <= j < before.len() ==> slot < (#[trigger] before[j]).slot,
    ensures
        slots_rise(before.insert(i, HamtChild { slot, digest })),
        forall|s: int|
            #[trigger] child_of(before.insert(i, HamtChild { slot, digest }), s) == if s == slot {
                Some(digest)
            } else {
                child_of(before, s)
            },
{
    let after = before.insert(i, HamtChild { slot, digest });
    assert forall|j: int, k: int| 0 <= j < k < after.len() implies (#[trigger] after[j]).slot < (
    #[trigger] after[k]).slot by {
        let bj = if j < i {
            j
        } else {
            j - 1
        };
        let bk = if k < i {
            k
        } else {
            k - 1
        };
        if j != i {
            assert(after[j] == before[bj]);
        }
        if k != i {
            assert(after[k] == before[bk]);
        }
    }
    lemma_insert_find(before, i, slot, digest);
}

proof fn lemma_insert_find(before: Seq<HamtChild>, i: int, slot: u8, digest: Digest)
    requires
        0 <= i <= before.len(),
        forall|j: int| 0 <= j < before.len() ==> (#[trigger] before[j]).slot != slot,
    ensures
        forall|s: int|
            #[trigger] child_of(before.insert(i, HamtChild { slot, digest }), s) == if s == slot {
                Some(digest)
            } else {
                child_of(before, s)
            },
    decreases before.len(),
{
    let c = HamtChild { slot, digest };
    let after = before.insert(i, c);
    if i == 0 {
        assert(after.drop_first() =~= before);
        assert(after[0] == c);
    } else {
        let tail = before.drop_first();
        assert(before[0].slot != slot);
        assert forall|j: int| 0 <= j < tail.len() implies (#[trigger] tail[j]).slot != slot by {
            assert(before[j + 1].slot != slot);
        }
        lemma_insert_find(tail, i - 1, slot, digest);
        assert(after.drop_first() =~= tail.insert(i - 1, c));
        assert(after[0] == before[0]);
        assert forall|s: int| #[trigger] child_of(after, s) == (if s == slot {
            Some(digest)
        } else {
            child_of(before, s)
        }) by {
            assert(child_of(after.drop_first(), s) == if s == slot {
                Some(digest)
            } else {
                child_of(tail, s)
            });
        }
    }
}

/// A conclusion stays when more becomes known.
proof fn lemma_more_known(
    t: Map<Digest, FetchedView<NodeView>>,
    m: Map<Digest, FetchedView<NodeView>>,
    scope: LogScope,
    head: IndexHead,
    path: Seq<u8>,
    d: Digest,
    depth: nat,
)
    requires
        extends(m, t),
        !(descent(t, scope, head, path, d, depth) is Fetch),
    ensures
        descent(m, scope, head, path, d, depth) == descent(t, scope, head, path, d, depth),
    decreases 53 - depth,
{
    assert(t.contains_key(d));
    assert(m[d] == t[d]);
    match load(t, scope, head, d, path, depth) {
        Load::Node(NodeView::Branch { children, .. }) => {
            if depth <= 51 {
                match child_of(children, quintet(path, depth as int)) {
                    Some(next) => {
                        lemma_more_known(t, m, scope, head, path, next, depth + 1);
                    },
                    None => {},
                }
            }
        },
        _ => {},
    }
}

/// The slot of a path is allowed at its level.
proof fn lemma_slot_allowed(path: Seq<u8>, depth: nat)
    requires
        path.len() == 32,
        depth <= 51,
    ensures
        slot_allowed(quintet(path, depth as int), depth),
{
    lemma_quintet_range(path, depth as int);
    if depth == 51 {
        assert(bit(path, 256) == 0 && bit(path, 257) == 0 && bit(path, 258) == 0 && bit(path, 259)
            == 0);
        crate::bits::lemma_bit_range(path, 255);
    }
}

/// A stored leaf is read on every path that it is on.
proof fn lemma_leaf_read(
    m: Map<Digest, FetchedView<NodeView>>,
    scope: LogScope,
    head: IndexHead,
    path: Seq<u8>,
    d: Digest,
    depth: nat,
    entry: EntryView,
)
    requires
        m.contains_key(d),
        m[d] matches FetchedView::Object { len, object } && len <= MAX_NODE_BYTES && object
            == leaf_view(entry),
        same_prefix(scope.path(entry.key), path, depth),
        receipt_ok(entry, head),
    ensures
        descent(m, scope, head, path, d, depth) == (Descent::Leaf { depth, entry }),
{
    assert(load(m, scope, head, d, path, depth) == Load::Node(leaf_view(entry)));
}

/// A stored branch is read on every path that shares its prefix.
proof fn lemma_branch_read(
    m: Map<Digest, FetchedView<NodeView>>,
    scope: LogScope,
    head: IndexHead,
    path: Seq<u8>,
    own: Seq<u8>,
    d: Digest,
    depth: nat,
    children: Seq<HamtChild>,
)
    requires
        depth <= 51,
        m.contains_key(d),
        m[d] matches FetchedView::Object { len, object } && len <= MAX_NODE_BYTES && object
            == branch_view(depth, own, children),
        same_prefix(own, path, depth),
        slots_ok(children, depth),
    ensures
        load(m, scope, head, d, path, depth) == Load::Node(branch_view(depth, own, children)),
        descent(m, scope, head, path, d, depth) == match child_of(
            children,
            quintet(path, depth as int),
        ) {
            None => Descent::Gap { depth },
            Some(next) => descent(m, scope, head, path, next, depth + 1),
        },
{
    lemma_masked_shared(own, path, depth);
    assert(load(m, scope, head, d, path, depth) == Load::Node(branch_view(depth, own, children)));
}

/// What a subtree made of two leaves holds, read at any head: both entries,
/// as far as that head bears them.
#[verifier::opaque]
spec fn holds_two(
    ups: Seq<(Digest, NodeView)>,
    scope: LogScope,
    now: Digest,
    depth: nat,
    a: EntryView,
    b: EntryView,
) -> bool {
    forall|m: Map<Digest, FetchedView<NodeView>>, head: IndexHead, key: Seq<u8>|
        stored(m, ups, MAX_NODE_BYTES as nat) && same_prefix(
            scope.path(key),
            scope.path(a.key),
            depth,
        ) ==> reads_as_branch(m, scope, head, now, scope.path(key), depth) && two_found(
            #[trigger] found(m, scope, head, now, depth, key),
            head,
            a,
            b,
            key,
        )
}

/// Whether `v` is what two leaves hold for `key` at a head that bears `b`, and
/// the other leaf if `key` is not that of `b`.
spec fn two_found(v: LookupView, head: IndexHead, a: EntryView, b: EntryView, key: Seq<u8>) -> bool {
    receipt_ok(b, head) && (receipt_ok(a, head) || key == b.key) ==> v == if key == a.key {
        LookupView::Found(a)
    } else if key == b.key {
        LookupView::Found(b)
    } else {
        LookupView::Absent
    }
}

/// A branch over two leaves holds both.
proof fn lemma_fork(
    start: Seq<(Digest, HamtNode)>,
    all: Seq<(Digest, HamtNode)>,
    scope: LogScope,
    now: Digest,
    da: Digest,
    db: Digest,
    depth: nat,
    a: EntryView,
    b: EntryView,
    children: Seq<HamtChild>,
)
    requires
        depth <= 51,
        all.len() == start.len() + 3,
        all[start.len() as int].0 == da,
        all[start.len() as int].1@ == leaf_view(a),
        all[start.len() as int + 1].0 == db,
        all[start.len() as int + 1].1@ == leaf_view(b),
        all[start.len() as int + 2].0 == now,
        all[start.len() as int + 2].1@ == branch_view(depth, scope.path(a.key), children),
        slots_ok(children, depth),
        a.key != b.key,
        same_prefix(scope.path(a.key), scope.path(b.key), depth),
        quintet(scope.path(a.key), depth as int) != quintet(scope.path(b.key), depth as int),
        forall|q: int|
            #[trigger] child_of(children, q) == if q == quintet(
                scope.path(b.key),
                depth as int,
            ) {
                Some(db)
            } else if q == quintet(scope.path(a.key), depth as int) {
                Some(da)
            } else {
                None
            },
    ensures
        holds_two(uploads_view(all), scope, now, depth, a, b),
{
    reveal(holds_two);
    let ups = uploads_view(all);
    let n = start.len() as int;
    let pa = scope.path(a.key);
    let pb = scope.path(b.key);
    assert forall|m: Map<Digest, FetchedView<NodeView>>, head: IndexHead, key: Seq<u8>|
        stored(m, ups, MAX_NODE_BYTES as nat) && same_prefix(
            scope.path(key),
            pa,
            depth,
        ) implies reads_as_branch(m, scope, head, now, scope.path(key), depth) && two_found(
        #[trigger] found(m, scope, head, now, depth, key),
        head,
        a,
        b,
        key,
    ) by {
        assert(all.take(all.len() as int) =~= all);
        lemma_stored_prefix(m, all, all, MAX_NODE_BYTES as nat);
        assert(m.contains_key(all[n].0));
        assert(m.contains_key(all[n + 1].0));
        assert(m.contains_key(all[n + 2].0));
        let p = scope.path(key);
        assert(same_prefix(pa, p, depth));
        lemma_branch_read(m, scope, head, p, pa, now, depth, children);
        let q = quintet(p, depth as int);
        assert(child_of(children, q) == if q == quintet(pb, depth as int) {
            Some(db)
        } else if q == quintet(pa, depth as int) {
            Some(da)
        } else {
            None
        });
        if q == quintet(pa, depth as int) {
            assert(same_prefix(pa, p, depth + 1));
            if receipt_ok(a, head) {
                lemma_leaf_read(m, scope, head, p, da, depth + 1, a);
            }
        } else if q == quintet(pb, depth as int) {
            assert forall|g: int| 0 <= g < depth + 1 implies #[trigger] quintet(pb, g) == quintet(
                p,
                g,
            ) by {
                if g < depth {
                    assert(quintet(pa, g) == quintet(pb, g));
                    assert(quintet(p, g) == quintet(pa, g));
                }
            }
            if receipt_ok(b, head) {
                lemma_leaf_read(m, scope, head, p, db, depth + 1, b);
            }
        }
    }
}

/// A branch over a subtree that holds two entries holds both.
proof fn lemma_chain(
    mid: Seq<(Digest, HamtNode)>,
    all: Seq<(Digest, HamtNode)>,
    scope: LogScope,
    now: Digest,
    below: Digest,
    depth: nat,
    a: EntryView,
    b: EntryView,
    children: Seq<HamtChild>,
)
    requires
        depth <= 51,
        all.len() == mid.len() + 1,
        all.take(mid.len() as int) == mid,
        all[mid.len() as int].0 == now,
        all[mid.len() as int].1@ == branch_view(depth, scope.path(a.key), children),
        slots_ok(children, depth),
        a.key != b.key,
        same_prefix(scope.path(a.key), scope.path(b.key), depth + 1),
        holds_two(uploads_view(mid), scope, below, depth + 1, a, b),
        forall|q: int|
            #[trigger] child_of(children, q) == if q == quintet(
                scope.path(a.key),
                depth as int,
            ) {
                Some(below)
            } else {
                None
            },
    ensures
        holds_two(uploads_view(all), scope, now, depth, a, b),
{
    reveal(holds_two);
    let ups = uploads_view(all);
    let pa = scope.path(a.key);
    let pb = scope.path(b.key);
    assert forall|m: Map<Digest, FetchedView<NodeView>>, head: IndexHead, key: Seq<u8>|
        stored(m, ups, MAX_NODE_BYTES as nat) && same_prefix(
            scope.path(key),
            pa,
            depth,
        ) implies reads_as_branch(m, scope, head, now, scope.path(key), depth) && two_found(
        #[trigger] found(m, scope, head, now, depth, key),
        head,
        a,
        b,
        key,
    ) by {
        lemma_stored_prefix(m, mid, all, MAX_NODE_BYTES as nat);
        assert(m.contains_key(all[mid.len() as int].0));
        let p = scope.path(key);
        assert(same_prefix(pa, p, depth));
        lemma_branch_read(m, scope, head, p, pa, now, depth, children);
        let q = quintet(p, depth as int);
        assert(child_of(children, q) == if q == quintet(pa, depth as int) {
            Some(below)
        } else {
            None
        });
        if q == quintet(pa, depth as int) {
            assert(same_prefix(p, pa, depth + 1));
            assert(stored(m, uploads_view(mid), MAX_NODE_BYTES as nat));
            assert(two_found(found(m, scope, head, below, depth + 1, key), head, a, b, key));
        } else {
            assert(key != a.key);
            assert(quintet(pb, depth as int) == quintet(pa, depth as int));
            assert(key != b.key);
        }
    }
}

/// Paths with different slots part there.
proof fn lemma_parted(a: Seq<u8>, b: Seq<u8>, depth: nat)
    requires
        depth <= 51,
        quintet(a, depth as int) != quintet(b, depth as int),
    ensures
        paths_part(a, b, depth),
{
}

/// Paths that share a slot part further down, if at all.
proof fn lemma_shared_slot(a: Seq<u8>, b: Seq<u8>, depth: nat)
    requires
        same_prefix(a, b, depth),
        quintet(a, depth as int) == quintet(b, depth as int),
    ensures
        same_prefix(a, b, depth + 1),
        paths_part(a, b, depth) == paths_part(a, b, depth + 1),
{
    if paths_part(a, b, depth) {
        let g = choose|g: int| depth <= g <= 51 && #[trigger] quintet(a, g) != quintet(b, g);
        assert(g != depth);
        assert(quintet(a, g) != quintet(b, g));
    }
}

/// No two paths part below the last level.
proof fn lemma_no_parting(a: Seq<u8>, b: Seq<u8>, depth: nat)
    requires
        depth > 51,
    ensures
        !paths_part(a, b, depth),
{
}

/// A branch over a leaf each for `a` and `b`, whose slots differ.
fn fork<F: Fn(&HamtNode) -> Result<Digest>>(
    address: &F,
    scope: &LogScope,
    a: &StableIndexEntry,
    a_path: &Digest,
    sa: u8,
    b: &StableIndexEntry,
    b_path: &Digest,
    sb: u8,
    depth: usize,
    uploads: &mut Vec<(Digest, HamtNode)>,
) -> (r: Result<Digest>)
    requires
        forall|n: &HamtNode| call_requires(*address, (n,)),
        addressed(*address, old(uploads)@),
        depth <= 51,
        a_path@ == scope.path(a.key@),
        b_path@ == scope.path(b.key@),
        sa == quintet(a_path@, depth as int),
        sb == quintet(b_path@, depth as int),
        sa != sb,
        slot_allowed(sa as int, depth as nat),
        slot_allowed(sb as int, depth as nat),
        a.key@ != b.key@,
        same_prefix(a_path@, b_path@, depth as nat),
    ensures
        addressed(*address, final(uploads)@),
        old(uploads)@.len() <= final(uploads)@.len(),
        final(uploads)@.take(old(uploads)@.len() as int) == old(uploads)@,
        match r {
            Ok(now) => holds_two(
                uploads_view(final(uploads)@),
                *scope,
                now,
                depth as nat,
                a@,
                b@,
            ),
            Err(e) => exists|n: &HamtNode|
                split_writes(*scope, a@, b@, depth as nat, n@) && #[trigger] call_ensures(
                    *address,
                    (n,),
                    Err(e),
                ),
        },
{
    let ghost start = uploads@;
    let da: Digest = match put_object(address, leaf_node(a), uploads) {
        Err(e) => {
            assert(uploads@.take(start.len() as int) =~= start);
            return Err(e);
        },
        Ok(d) => d,
    };
    let db: Digest = match put_object(address, leaf_node(b), uploads) {
        Err(e) => {
            assert(uploads@.take(start.len() as int) =~= start);
            return Err(e);
        },
        Ok(d) => d,
    };
    let mut children: Vec<HamtChild> = Vec::new();
    upsert_child(&mut children, sa, da);
    upsert_child(&mut children, sb, db);
    let ghost two = children@;
    let node: HamtNode = branch_node(depth, a_path, children);
    let ghost made = node;
    assert(forks(scope.path(a@.key), scope.path(b@.key), depth as nat, made@)) by {
        reveal(forks);
    }
    let r: Result<Digest> = put_object(address, node, uploads);
    assert(uploads@.take(start.len() as int) =~= start);
    proof {
        if r is Err {
            assert(split_writes(*scope, a@, b@, depth as nat, made@));
            assert(call_ensures(*address, (&made,), Err(r->Err_0)));
        }
        if r is Ok {
            lemma_fork(
                start,
                uploads@,
                *scope,
                r->Ok_0,
                da,
                db,
                depth as nat,
                a@,
                b@,
                two,
            );
        }
    }
    r
}

proof fn lemma_split_above(scope: LogScope, a: EntryView, b: EntryView, depth: nat, n: NodeView)
    requires
        split_writes(scope, a, b, depth + 1, n),
    ensures
        split_writes(scope, a, b, depth, n),
{
}

/// A chain of branches from `depth` down to where the paths of `a` and `b`
/// part, with a leaf for each below.
fn split<F: Fn(&HamtNode) -> Result<Digest>>(
    address: &F,
    scope: &LogScope,
    a: &StableIndexEntry,
    a_path: &Digest,
    b: &StableIndexEntry,
    b_path: &Digest,
    depth: usize,
    uploads: &mut Vec<(Digest, HamtNode)>,
) -> (r: Result<Digest>)
    requires
        forall|n: &HamtNode| call_requires(*address, (n,)),
        addressed(*address, old(uploads)@),
        depth <= 52,
        a_path@ == scope.path(a.key@),
        b_path@ == scope.path(b.key@),
        a.key@ != b.key@,
        same_prefix(a_path@, b_path@, depth as nat),
    ensures
        addressed(*address, final(uploads)@),
        old(uploads)@.len() <= final(uploads)@.len(),
        final(uploads)@.take(old(uploads)@.len() as int) == old(uploads)@,
        match r {
            Ok(now) => paths_part(a_path@, b_path@, depth as nat) && holds_two(
                uploads_view(final(uploads)@),
                *scope,
                now,
                depth as nat,
                a@,
                b@,
            ),
            Err(e) => if paths_part(a_path@, b_path@, depth as nat) {
                exists|n: &HamtNode|
                    split_writes(*scope, a@, b@, depth as nat, n@) && #[trigger] call_ensures(
                        *address,
                        (n,),
                        Err(e),
                    )
            } else {
                e@ == ErrorView::Rejected("stable key path hash collision"@)
            },
        },
    decreases 52 - depth,
{
    let ghost start = uploads@;
    assert(start.take(start.len() as int) =~= start);
    if depth > MAX_BRANCH_DEPTH {
        proof {
            lemma_no_parting(a_path@, b_path@, depth as nat);
        }
        return Err(rejected("stable key path hash collision"));
    }
    proof {
        lemma_digest_view(*a_path);
        lemma_digest_view(*b_path);
        lemma_slot_allowed(a_path@, depth as nat);
        lemma_slot_allowed(b_path@, depth as nat);
    }
    let sa: u8 = match nibble(a_path, depth) {
        Err(e) => {
            return Err(e);
        },
        Ok(s) => s,
    };
    let sb: u8 = match nibble(b_path, depth) {
        Err(e) => {
            return Err(e);
        },
        Ok(s) => s,
    };
    if sa != sb {
        proof {
            lemma_parted(a_path@, b_path@, depth as nat);
        }
        return fork(address, scope, a, a_path, sa, b, b_path, sb, depth, uploads);
    }
    proof {
        lemma_shared_slot(a_path@, b_path@, depth as nat);
    }
    let below: Digest = match split(
        address,
        scope,
        a,
        a_path,
        b,
        b_path,
        depth + 1,
        uploads,
    ) {
        Err(e) => {
            proof {
                if paths_part(a_path@, b_path@, (depth + 1) as nat) {
                    let n = choose|n: &HamtNode|
                        split_writes(*scope, a@, b@, (depth + 1) as nat, n@)
                            && #[trigger] call_ensures(*address, (n,), Err(e));
                    lemma_split_above(*scope, a@, b@, depth as nat, n@);
                }
            }
            return Err(e);
        },
        Ok(d) => d,
    };
    let ghost mid = uploads@;
    let mut children: Vec<HamtChild> = Vec::new();
    upsert_child(&mut children, sa, below);
    let ghost one = children@;
    let node: HamtNode = branch_node(depth, a_path, children);
    let ghost made = node;
    assert(forks(scope.path(a@.key), scope.path(b@.key), depth as nat, made@)) by {
        reveal(forks);
    }
    let r: Result<Digest> = put_object(address, node, uploads);
    assert(uploads@.take(start.len() as int) =~= mid.take(start.len() as int));
    proof {
        if r is Err {
            assert(split_writes(*scope, a@, b@, depth as nat, made@));
            assert(call_ensures(*address, (&made,), Err(r->Err_0)));
        }
        if r is Ok {
            assert(uploads@.take(mid.len() as int) =~= mid);
            lemma_chain(mid, uploads@, *scope, r->Ok_0, below, depth as nat, a@, b@, one);
        }
    }
    r
}

/// Inserts `entry` below `current`, copying the path to it.
fn insert_at<F: Fn(&HamtNode) -> Result<Digest>>(
    address: &F,
    table: &Table<HamtNode>,
    scope: &LogScope,
    current: Digest,
    entry: &StableIndexEntry,
    path: &Digest,
    depth: usize,
    head: IndexHead,
    uploads: &mut Vec<(Digest, HamtNode)>,
) -> (r: Result<Step<Digest>>)
    requires
        forall|n: &HamtNode| call_requires(*address, (n,)),
        addressed(*address, old(uploads)@),
        depth <= 52,
        path@ == scope.path(entry.key@),
    ensures
        addressed(*address, final(uploads)@),
        match obstacle(table@, *scope, head, current, depth as nat, entry.key@) {
            Obstacle::Fetch(d) => r matches Ok(Step::Fetch(n)) && n == d,
            Obstacle::Fail(c) => r matches Err(e) && e@ == c,
            Obstacle::Clear => match r {
                Ok(Step::Done(now)) => forall|at: IndexHead|
                    receipt_ok(entry@, at) ==> #[trigger] grafted(
                        table@,
                        uploads_view(final(uploads)@),
                        *scope,
                        at,
                        current,
                        now,
                        depth as nat,
                        entry@,
                    ),
                Ok(Step::Fetch(_)) => false,
                Err(e) => exists|n: &HamtNode|
                    insert_writes(table@, *scope, head, current, depth as nat, entry@, n@)
                        && #[trigger] call_ensures(*address, (n,), Err(e)),
            },
        },
    decreases 52 - depth,
{
    let node: &HamtNode = match load_node(table, scope, &current, path, depth, head) {
        Err(e) => {
            return Err(e);
        },
        Ok(None) => {
            return Ok(Step::Fetch(current));
        },
        Ok(Some(n)) => n,
    };
    proof {
        lemma_digest_view(*path);
    }
    match node {
        HamtNode::Leaf { entry: old_entry, .. } => {
            if same_bytes(old_entry.key.as_bytes(), entry.key.as_bytes()) {
                return Err(
                    recovery_failed("stable index insert of a key that already has a leaf"),
                );
            }
            if depth >= MAX_LEAF_DEPTH {
                return Err(rejected("stable key path hash collision"));
            }
            let old_path: Digest = scope.path_digest(&old_entry.key);
            let r: Result<Digest> = split(
                address,
                scope,
                old_entry,
                &old_path,
                entry,
                path,
                depth,
                uploads,
            );
            proof {
                if r is Ok {
                    let now = r->Ok_0;
                    assert forall|at: IndexHead| receipt_ok(entry@, at) implies #[trigger] grafted(
                        table@,
                        uploads_view(uploads@),
                        *scope,
                        at,
                        current,
                        now,
                        depth as nat,
                        entry@,
                    ) by {
                        lemma_split_grafts(
                            table@,
                            uploads_view(uploads@),
                            *scope,
                            head,
                            at,
                            current,
                            now,
                            depth as nat,
                            old_entry@,
                            entry@,
                        );
                    }
                }
            }
            match r {
                Err(e) => Err(e),
                Ok(d) => Ok(Step::Done(d)),
            }
        },
        HamtNode::Branch { children, .. } => {
            if depth > MAX_BRANCH_DEPTH {
                return Err(rejected("stable key path hash collision"));
            }
            let slot: u8 = match nibble(path, depth) {
                Err(e) => {
                    return Err(e);
                },
                Ok(s) => s,
            };
            proof {
                lemma_slot_allowed(path@, depth as nat);
            }
            let mut updated: Vec<HamtChild> = copy_children(children);
            let below: Digest = match child(children, slot) {
                None => match put_object(address, leaf_node(entry), uploads) {
                    Err(e) => {
                        return Err(e);
                    },
                    Ok(d) => d,
                },
                Some(next) => match insert_at(
                    address,
                    table,
                    scope,
                    next,
                    entry,
                    path,
                    depth + 1,
                    head,
                    uploads,
                ) {
                    Err(e) => {
                        return Err(e);
                    },
                    Ok(Step::Fetch(d)) => {
                        return Ok(Step::Fetch(d));
                    },
                    Ok(Step::Done(d)) => d,
                },
            };
            let ghost mid = uploads@;
            upsert_child(&mut updated, slot, below);
            let ghost after = updated@;
            let fresh: HamtNode = branch_node(depth, path, updated);
            assert(refilled(children@, slot as int, after, depth as nat));
            match put_object(address, fresh, uploads) {
                Err(e) => Err(e),
                Ok(now) => {
                    proof {
                        assert(uploads@.take(mid.len() as int) =~= mid);
                        assert forall|at: IndexHead| receipt_ok(entry@, at) implies #[trigger] grafted(
                            table@,
                            uploads_view(uploads@),
                            *scope,
                            at,
                            current,
                            now,
                            depth as nat,
                            entry@,
                        ) by {
                            lemma_branch_grafts(
                                table@,
                                mid,
                                uploads@,
                                *scope,
                                at,
                                current,
                                now,
                                below,
                                path@,
                                depth as nat,
                                entry@,
                                children@,
                                after,
                            );
                        }
                    }
                    Ok(Step::Done(now))
                },
            }
        },
    }
}

fn copy_children(children: &Vec<HamtChild>) -> (r: Vec<HamtChild>)
    ensures
        r@ == children@,
{
    let mut out: Vec<HamtChild> = Vec::new();
    let mut i: usize = 0;
    while i < children.len()
        invariant
            i <= children@.len(),
            out@ == children@.take(i as int),
        decreases children@.len() - i,
    {
        out.push(children[i]);
        assert(children@.take(i + 1) =~= children@.take(i as int).push(children@[i as int]));
        i = i + 1;
    }
    assert(children@.take(i as int) =~= children@);
    out
}

proof fn lemma_split_grafts(
    t: Map<Digest, FetchedView<NodeView>>,
    ups: Seq<(Digest, NodeView)>,
    scope: LogScope,
    loaded: IndexHead,
    head: IndexHead,
    was: Digest,
    now: Digest,
    depth: nat,
    a: EntryView,
    entry: EntryView,
)
    requires
        load(t, scope, loaded, was, scope.path(entry.key), depth) == Load::Node(leaf_view(a)),
        a.key != entry.key,
        receipt_ok(entry, head),
        holds_two(ups, scope, now, depth, a, entry),
    ensures
        grafted(t, ups, scope, head, was, now, depth, entry),
{
    reveal(holds_two);
    let own = scope.path(entry.key);
    assert(same_prefix(scope.path(a.key), own, depth));
    assert forall|m: Map<Digest, FetchedView<NodeView>>|
        extends(m, t) && stored(m, ups, MAX_NODE_BYTES as nat) implies {
        &&& found(m, scope, head, now, depth, entry.key) == LookupView::Found(entry)
        &&& forall|key: Seq<u8>|
            #![trigger scope.path(key)]
            same_prefix(scope.path(key), own, depth) ==> reads_as_branch(
                m,
                scope,
                head,
                now,
                scope.path(key),
                depth,
            )
        &&& forall|key: Seq<u8>|
            #![trigger scope.path(key)]
            key != entry.key && same_prefix(scope.path(key), own, depth) && concluded(
                found(m, scope, head, was, depth, key),
            ) ==> found(m, scope, head, now, depth, key) == found(m, scope, head, was, depth, key)
    } by {
        assert(same_prefix(own, scope.path(a.key), depth));
        assert(two_found(
            found(m, scope, head, now, depth, entry.key),
            head,
            a,
            entry,
            entry.key,
        ));
        assert forall|key: Seq<u8>|
            #![trigger scope.path(key)]
            same_prefix(scope.path(key), own, depth) implies reads_as_branch(
            m,
            scope,
            head,
            now,
            scope.path(key),
            depth,
        ) by {
            let p = scope.path(key);
            assert forall|g: int| 0 <= g < depth implies #[trigger] quintet(p, g) == quintet(
                scope.path(a.key),
                g,
            ) by {
                assert(quintet(scope.path(a.key), g) == quintet(own, g));
            }
            assert(same_prefix(p, scope.path(a.key), depth));
            assert(two_found(found(m, scope, head, now, depth, key), head, a, entry, key));
        }
        assert forall|key: Seq<u8>|
            #![trigger scope.path(key)]
            key != entry.key && same_prefix(scope.path(key), own, depth) && concluded(
                found(m, scope, head, was, depth, key),
            ) implies found(m, scope, head, now, depth, key) == found(
            m,
            scope,
            head,
            was,
            depth,
            key,
        ) by {
            let p = scope.path(key);
            assert(same_prefix(p, scope.path(a.key), depth)) by {
                assert forall|g: int| 0 <= g < depth implies #[trigger] quintet(p, g) == quintet(
                    scope.path(a.key),
                    g,
                ) by {
                    assert(quintet(scope.path(a.key), g) == quintet(own, g));
                }
            }
            assert(same_prefix(scope.path(a.key), p, depth));
            assert(m[was] == t[was]);
            assert(receipt_ok(a, head));
            assert(load(m, scope, head, was, p, depth) == Load::Node(leaf_view(a)));
            assert(two_found(found(m, scope, head, now, depth, key), head, a, entry, key));
        }
    }
}

#[verifier::spinoff_prover]
#[verifier::rlimit(40)]
proof fn lemma_branch_grafts(
    t: Map<Digest, FetchedView<NodeView>>,
    mid: Seq<(Digest, HamtNode)>,
    all: Seq<(Digest, HamtNode)>,
    scope: LogScope,
    head: IndexHead,
    was: Digest,
    now: Digest,
    below: Digest,
    own: Seq<u8>,
    depth: nat,
    entry: EntryView,
    before: Seq<HamtChild>,
    after: Seq<HamtChild>,
)
    requires
        depth <= 51,
        own == scope.path(entry.key),
        receipt_ok(entry, head),
        load(t, scope, head, was, own, depth) matches Load::Node(NodeView::Branch { children, .. })
            && children == before,
        all.len() == mid.len() + 1,
        all.take(mid.len() as int) == mid,
        all.last().0 == now,
        all.last().1@ == branch_view(depth, own, after),
        slots_ok(after, depth),
        forall|s: int|
            #[trigger] child_of(after, s) == if s == quintet(own, depth as int) {
                Some(below)
            } else {
                child_of(before, s)
            },
        match child_of(before, quintet(own, depth as int)) {
            None => mid.len() > 0 && mid.last().0 == below && mid.last().1@ == leaf_view(entry),
            Some(next) => grafted(
                t,
                uploads_view(mid),
                scope,
                head,
                next,
                below,
                depth + 1,
                entry,
            ),
        },
    ensures
        grafted(t, uploads_view(all), scope, head, was, now, depth, entry),
{
    let ups = uploads_view(all);
    let slot = quintet(own, depth as int);
    assert forall|m: Map<Digest, FetchedView<NodeView>>|
        extends(m, t) && stored(m, ups, MAX_NODE_BYTES as nat) implies {
        &&& found(m, scope, head, now, depth, entry.key) == LookupView::Found(entry)
        &&& forall|key: Seq<u8>|
            #![trigger scope.path(key)]
            same_prefix(scope.path(key), own, depth) ==> reads_as_branch(
                m,
                scope,
                head,
                now,
                scope.path(key),
                depth,
            )
        &&& forall|key: Seq<u8>|
            #![trigger scope.path(key)]
            key != entry.key && same_prefix(scope.path(key), own, depth) && concluded(
                found(m, scope, head, was, depth, key),
            ) ==> found(m, scope, head, now, depth, key) == found(m, scope, head, was, depth, key)
    } by {
        lemma_stored_prefix(m, mid, all, MAX_NODE_BYTES as nat);
        let last = all.len() - 1;
        assert(all[last].0 == now);
        lemma_branch_read(m, scope, head, own, own, now, depth, after);
        assert(child_of(after, slot) == Some(below));
        if child_of(before, slot) is None {
            let k = mid.len() - 1;
            assert(all[k] == all.take(mid.len() as int)[k]);
            assert(all[k].0 == below);
            lemma_leaf_read(m, scope, head, own, below, depth + 1, entry);
        } else {
            assert(stored(m, uploads_view(mid), MAX_NODE_BYTES as nat));
        }
        assert forall|key: Seq<u8>|
            #![trigger scope.path(key)]
            same_prefix(scope.path(key), own, depth) implies reads_as_branch(
            m,
            scope,
            head,
            now,
            scope.path(key),
            depth,
        ) by {
            let p = scope.path(key);
            assert(same_prefix(own, p, depth));
            lemma_branch_read(m, scope, head, p, own, now, depth, after);
        }
        assert forall|key: Seq<u8>|
            #![trigger scope.path(key)]
            key != entry.key && same_prefix(scope.path(key), own, depth) && concluded(
                found(m, scope, head, was, depth, key),
            ) implies found(m, scope, head, now, depth, key) == found(
            m,
            scope,
            head,
            was,
            depth,
            key,
        ) by {
            let p = scope.path(key);
            assert(same_prefix(own, p, depth));
            lemma_masked_shared(own, p, depth);
            lemma_branch_read(m, scope, head, p, own, now, depth, after);
            let q = quintet(p, depth as int);
            assert(m[was] == t[was]);
            assert(load(m, scope, head, was, p, depth) == load(t, scope, head, was, own, depth));
            assert(child_of(after, q) == if q == slot {
                Some(below)
            } else {
                child_of(before, q)
            });
            if q == slot {
                assert(same_prefix(own, p, depth + 1));
                assert(same_prefix(p, own, depth + 1));
                if child_of(before, slot) is None {
                    lemma_leaf_read(m, scope, head, p, below, depth + 1, entry);
                }
            }
        }
    }
}

/// Adds `entry` to an index. Nothing is stored; the new nodes come back
/// with the new root.
pub fn insert<F: Fn(&HamtNode) -> Result<Digest>>(
    address: &F,
    table: &Table<HamtNode>,
    scope: &LogScope,
    root: &StableIndexRoot,
    entry: &StableIndexEntry,
    head: IndexHead,
) -> (r: Result<Step<Insertion>>)
    requires
        forall|n: &HamtNode| call_requires(*address, (n,)),
    ensures
        ({
            let sound = root.schema@ == ROOT_SCHEMA@ && 1 <= entry.first <= entry.last && 1
                <= entry.generation;
            if !sound {
                r matches Err(e) && e@ == ErrorView::IntegrityError(
                    if root.schema@ != ROOT_SCHEMA@ {
                        "unsupported stable index root schema "@ + root.schema@
                    } else {
                        receipt_fault(
                            entry.first,
                            entry.last,
                            entry.generation,
                            entry.generation,
                            entry.last,
                        )->0
                    },
                )
            } else {
                match obstacle(table@, *scope, head, root.digest, 0, entry.key@) {
                    Obstacle::Fetch(d) => r matches Ok(Step::Fetch(n)) && n == d,
                    Obstacle::Fail(c) => r matches Err(e) && e@ == c,
                    Obstacle::Clear => match r {
                        Ok(Step::Done(ins)) => {
                            &&& addressed(*address, ins.uploads@)
                            &&& root.entries < u64::MAX
                            &&& ins.root.schema@ == ROOT_SCHEMA@
                            &&& ins.root.entries == root.entries + 1
                            &&& forall|at: IndexHead|
                                receipt_ok(entry@, at) ==> #[trigger] grafted(
                                    table@,
                                    uploads_view(ins.uploads@),
                                    *scope,
                                    at,
                                    root.digest,
                                    ins.root.digest,
                                    0,
                                    entry@,
                                )
                        },
                        Ok(Step::Fetch(_)) => false,
                        Err(e) => insert_failed(
                            *address,
                            table@,
                            *scope,
                            head,
                            *root,
                            entry@,
                            e,
                        ),
                    },
                }
            }
        }),
{
    match root.validate() {
        Err(e) => {
            return Err(e);
        },
        Ok(_) => {},
    }
    match validate_receipt(
        entry.first,
        entry.last,
        entry.generation,
        entry.generation,
        entry.last,
    ) {
        Err(e) => {
            return Err(e);
        },
        Ok(_) => {},
    }
    let path: Digest = scope.path_digest(&entry.key);
    let mut uploads: Vec<(Digest, HamtNode)> = Vec::new();
    match insert_at(address, table, scope, root.digest, entry, &path, 0, head, &mut uploads) {
        Err(e) => Err(e),
        Ok(Step::Fetch(d)) => Ok(Step::Fetch(d)),
        Ok(Step::Done(d)) => {
            if root.entries == u64::MAX {
                return Err(rejected("stable index entry count overflow"));
            }
            Ok(
                Step::Done(
                    Insertion { root: StableIndexRoot::new(d, root.entries + 1), uploads },
                ),
            )
        },
    }
}

// ------------------------------------------------------------------- laws
/// A stable key that was inserted is found with the receipt it was inserted
/// with, once the new nodes are stored.
pub proof fn law_inserted_key_is_found(
    t: Map<Digest, FetchedView<NodeView>>,
    ups: Seq<(Digest, NodeView)>,
    m: Map<Digest, FetchedView<NodeView>>,
    scope: LogScope,
    head: IndexHead,
    was: StableIndexRoot,
    now: StableIndexRoot,
    entry: EntryView,
)
    requires
        grafted(t, ups, scope, head, was.digest, now.digest, 0, entry),
        extends(m, t),
        stored(m, ups, MAX_NODE_BYTES as nat),
        now.schema@ == ROOT_SCHEMA@,
        now.entries == was.entries + 1,
    ensures
        index_lookup(m, scope, head, now, entry.key) == LookupView::Found(entry),
{
    assert(same_prefix(scope.path(entry.key), scope.path(entry.key), 0));
    assert(reads_as_branch(m, scope, head, now.digest, scope.path(entry.key), 0));
}

/// Inserting a stable key changes what the index holds for no other key,
/// wherever the old nodes and the new ones are stored.
pub proof fn law_insert_keeps_other_keys(
    t: Map<Digest, FetchedView<NodeView>>,
    ups: Seq<(Digest, NodeView)>,
    m: Map<Digest, FetchedView<NodeView>>,
    scope: LogScope,
    head: IndexHead,
    was: StableIndexRoot,
    now: StableIndexRoot,
    entry: EntryView,
    key: Seq<u8>,
)
    requires
        grafted(t, ups, scope, head, was.digest, now.digest, 0, entry),
        extends(m, t),
        stored(m, ups, MAX_NODE_BYTES as nat),
        now.schema@ == ROOT_SCHEMA@,
        now.entries == was.entries + 1,
        key != entry.key,
        concluded(index_lookup(m, scope, head, was, key)),
    ensures
        index_lookup(m, scope, head, now, key) == index_lookup(m, scope, head, was, key),
{
    assert(same_prefix(scope.path(key), scope.path(entry.key), 0));
    assert(reads_as_branch(m, scope, head, now.digest, scope.path(key), 0));
    assert(index_lookup(m, scope, head, was, key) == found(m, scope, head, was.digest, 0, key));
}

/// A lookup that came to a conclusion comes to the same one when more nodes
/// are known, and at every later publication.
pub proof fn law_lookup_is_stable(
    t: Map<Digest, FetchedView<NodeView>>,
    m: Map<Digest, FetchedView<NodeView>>,
    scope: LogScope,
    head: IndexHead,
    later: IndexHead,
    d: Digest,
    depth: nat,
    key: Seq<u8>,
)
    requires
        extends(m, t),
        head.generation <= later.generation,
        head.head_seq <= later.head_seq,
        concluded(found(t, scope, head, d, depth, key)),
    ensures
        found(m, scope, later, d, depth, key) == found(t, scope, head, d, depth, key),
    decreases 53 - depth,
{
    let path = scope.path(key);
    assert(t.contains_key(d));
    assert(m[d] == t[d]);
    assert(load(m, scope, later, d, path, depth) == load(t, scope, head, d, path, depth));
    match load(t, scope, head, d, path, depth) {
        Load::Node(NodeView::Branch { children, .. }) => {
            match child_of(children, quintet(path, depth as int)) {
                Some(next) => {
                    law_lookup_is_stable(t, m, scope, head, later, next, depth + 1, key);
                },
                None => {},
            }
        },
        _ => {},
    }
}

/// One insertion: the nodes that were known, those that were made, the head
/// at which it was made, the root after it, and the entry.
pub struct IndexStep {
    pub known: Map<Digest, FetchedView<NodeView>>,
    pub made: Seq<(Digest, NodeView)>,
    pub at: IndexHead,
    pub root: StableIndexRoot,
    pub entry: EntryView,
}

/// The root before the `i`-th of some insertions that began at `first`.
pub open spec fn root_before(first: StableIndexRoot, steps: Seq<IndexStep>, i: int) -> StableIndexRoot {
    if i == 0 {
        first
    } else {
        steps[i - 1].root
    }
}

/// Whether `steps` are insertions of different keys, one after the other and
/// at heads that never go back, whose nodes are all stored in `m`.
pub open spec fn index_grows(
    m: Map<Digest, FetchedView<NodeView>>,
    scope: LogScope,
    first: StableIndexRoot,
    steps: Seq<IndexStep>,
) -> bool {
    &&& forall|i: int|
        0 <= i < steps.len() ==> {
            let s = #[trigger] steps[i];
            let was = root_before(first, steps, i);
            &&& grafted(s.known, s.made, scope, s.at, was.digest, s.root.digest, 0, s.entry)
            &&& extends(m, s.known)
            &&& stored(m, s.made, MAX_NODE_BYTES as nat)
            &&& s.root.schema@ == ROOT_SCHEMA@
            &&& s.root.entries == was.entries + 1
        }
    &&& forall|i: int, j: int|
        0 <= i < j < steps.len() ==> {
            &&& (#[trigger] steps[i]).entry.key != (#[trigger] steps[j]).entry.key
            &&& steps[i].at.generation <= steps[j].at.generation
            &&& steps[i].at.head_seq <= steps[j].at.head_seq
        }
}

proof fn lemma_grows_before(
    m: Map<Digest, FetchedView<NodeView>>,
    scope: LogScope,
    first: StableIndexRoot,
    steps: Seq<IndexStep>,
)
    requires
        index_grows(m, scope, first, steps),
        steps.len() > 0,
    ensures
        index_grows(m, scope, first, steps.drop_last()),
{
    let before = steps.drop_last();
    assert forall|i: int| 0 <= i < before.len() implies {
        let x = #[trigger] before[i];
        let r = root_before(first, before, i);
        &&& grafted(x.known, x.made, scope, x.at, r.digest, x.root.digest, 0, x.entry)
        &&& extends(m, x.known)
        &&& stored(m, x.made, MAX_NODE_BYTES as nat)
        &&& x.root.schema@ == ROOT_SCHEMA@
        &&& x.root.entries == r.entries + 1
    } by {
        assert(before[i] == steps[i]);
        assert(root_before(first, before, i) == root_before(first, steps, i));
    }
    assert forall|a: int, b: int| 0 <= a < b < before.len() implies {
        &&& (#[trigger] before[a]).entry.key != (#[trigger] before[b]).entry.key
        &&& before[a].at.generation <= before[b].at.generation
        &&& before[a].at.head_seq <= before[b].at.head_seq
    } by {
        assert(steps[a].entry.key != steps[b].entry.key);
    }
}

/// A key that was inserted is found with its receipt after any number of
/// further insertions.
#[verifier::spinoff_prover]
#[verifier::rlimit(40)]
pub proof fn law_receipts_last(
    m: Map<Digest, FetchedView<NodeView>>,
    scope: LogScope,
    first: StableIndexRoot,
    steps: Seq<IndexStep>,
    j: int,
)
    requires
        index_grows(m, scope, first, steps),
        0 <= j < steps.len(),
    ensures
        index_lookup(m, scope, steps.last().at, steps.last().root, steps[j].entry.key)
            == LookupView::Found(steps[j].entry),
    decreases steps.len(),
{
    let n = steps.len() - 1;
    let s = steps[n];
    let was = root_before(first, steps, n);
    if j == n {
        law_inserted_key_is_found(s.known, s.made, m, scope, s.at, was, s.root, s.entry);
    } else {
        let before = steps.drop_last();
        let key = steps[j].entry.key;
        lemma_grows_before(m, scope, first, steps);
        assert(before[j] == steps[j]);
        law_receipts_last(m, scope, first, before, j);
        let p = steps[n - 1];
        assert(before.last() == p);
        assert(p.entry.key != s.entry.key);
        assert(steps[j].entry.key != s.entry.key);
        assert(index_lookup(m, scope, p.at, p.root, key) == found(
            m,
            scope,
            p.at,
            p.root.digest,
            0,
            key,
        ));
        law_lookup_is_stable(m, m, scope, p.at, s.at, p.root.digest, 0, key);
        assert(load(m, scope, s.at, p.root.digest, scope.path(key), 0) == load(
            m,
            scope,
            p.at,
            p.root.digest,
            scope.path(key),
            0,
        ));
        assert(index_lookup(m, scope, s.at, p.root, key) == LookupView::Found(steps[j].entry));
        law_insert_keeps_other_keys(s.known, s.made, m, scope, s.at, was, s.root, s.entry, key);
    }
}

/// An index that grew from an empty one holds nothing under a key that was
/// never inserted, and counts what was.
#[verifier::spinoff_prover]
#[verifier::rlimit(40)]
pub proof fn law_other_keys_stay_absent(
    m: Map<Digest, FetchedView<NodeView>>,
    scope: LogScope,
    first: StableIndexRoot,
    steps: Seq<IndexStep>,
    key: Seq<u8>,
)
    requires
        index_grows(m, scope, first, steps),
        steps.len() > 0,
        index_lookup(m, scope, steps[0].at, first, key) is Absent,
        forall|i: int| 0 <= i < steps.len() ==> (#[trigger] steps[i]).entry.key != key,
    ensures
        index_lookup(m, scope, steps.last().at, steps.last().root, key) is Absent,
        steps.last().root.entries == first.entries + steps.len(),
    decreases steps.len(),
{
    let n = steps.len() - 1;
    let s = steps[n];
    let was = root_before(first, steps, n);
    if n == 0 {
        law_insert_keeps_other_keys(s.known, s.made, m, scope, s.at, was, s.root, s.entry, key);
    } else {
        let before = steps.drop_last();
        lemma_grows_before(m, scope, first, steps);
        assert(before[0] == steps[0]);
        assert forall|i: int| 0 <= i < before.len() implies (#[trigger] before[i]).entry.key != key by {
            assert(before[i] == steps[i]);
        }
        law_other_keys_stay_absent(m, scope, first, before, key);
        let p = steps[n - 1];
        assert(before.last() == p);
        assert(p.entry.key != s.entry.key);
        lemma_lookup_later(m, scope, p.at, s.at, p.root, key);
        law_insert_keeps_other_keys(s.known, s.made, m, scope, s.at, was, s.root, s.entry, key);
    }
}

/// What an index was found to hold, it is found to hold at a later head.
pub proof fn lemma_lookup_later(
    m: Map<Digest, FetchedView<NodeView>>,
    scope: LogScope,
    head: IndexHead,
    later: IndexHead,
    root: StableIndexRoot,
    key: Seq<u8>,
)
    requires
        head.generation <= later.generation,
        head.head_seq <= later.head_seq,
        concluded(index_lookup(m, scope, head, root, key)),
    ensures
        index_lookup(m, scope, later, root, key) == index_lookup(m, scope, head, root, key),
{
    assert(index_lookup(m, scope, head, root, key) == found(m, scope, head, root.digest, 0, key));
    law_lookup_is_stable(m, m, scope, head, later, root.digest, 0, key);
    assert(load(m, scope, later, root.digest, scope.path(key), 0) == load(
        m,
        scope,
        head,
        root.digest,
        scope.path(key),
        0,
    ));
}

/// An insertion adds one key and touches no other: at the head it was made
/// for and at every later one, the new index holds the receipt under its key,
/// and under every other key what the old index held.
pub proof fn law_insert_adds_one_key(
    t: Map<Digest, FetchedView<NodeView>>,
    ups: Seq<(Digest, NodeView)>,
    m: Map<Digest, FetchedView<NodeView>>,
    scope: LogScope,
    head: IndexHead,
    later: IndexHead,
    was: StableIndexRoot,
    now: StableIndexRoot,
    entry: EntryView,
    key: Seq<u8>,
)
    requires
        grafted(t, ups, scope, head, was.digest, now.digest, 0, entry),
        extends(m, t),
        stored(m, ups, MAX_NODE_BYTES as nat),
        now.schema@ == ROOT_SCHEMA@,
        now.entries == was.entries + 1,
        head.generation <= later.generation,
        head.head_seq <= later.head_seq,
        key != entry.key ==> concluded(index_lookup(m, scope, head, was, key)),
    ensures
        index_lookup(m, scope, later, now, key) == if key == entry.key {
            LookupView::Found(entry)
        } else {
            index_lookup(m, scope, head, was, key)
        },
{
    law_inserted_key_is_found(t, ups, m, scope, head, was, now, entry);
    if key != entry.key {
        law_insert_keeps_other_keys(t, ups, m, scope, head, was, now, entry, key);
    }
    lemma_lookup_later(m, scope, head, later, now, key);
}

/// A receipt that is newer than the head that the index is read at is a
/// fault of the index, and never taken for an absence.
pub proof fn law_receipt_ahead_of_the_head_is_a_fault(
    t: Map<Digest, FetchedView<NodeView>>,
    ups: Seq<(Digest, NodeView)>,
    m: Map<Digest, FetchedView<NodeView>>,
    scope: LogScope,
    head: IndexHead,
    early: IndexHead,
    was: StableIndexRoot,
    now: StableIndexRoot,
    entry: EntryView,
)
    requires
        grafted(t, ups, scope, head, was.digest, now.digest, 0, entry),
        extends(m, t),
        stored(m, ups, MAX_NODE_BYTES as nat),
        now.schema@ == ROOT_SCHEMA@,
        now.entries == was.entries + 1,
        !receipt_ok(entry, early),
    ensures
        index_lookup(m, scope, early, now, entry.key) matches LookupView::Fail(
            ErrorView::IntegrityError(_),
        ),
{
    law_inserted_key_is_found(t, ups, m, scope, head, was, now, entry);
    assert(same_prefix(scope.path(entry.key), scope.path(entry.key), 0));
    assert(reads_as_branch(m, scope, head, now.digest, scope.path(entry.key), 0));
    lemma_found_early(m, scope, head, early, now.digest, 0, entry);
}

proof fn lemma_found_early(
    m: Map<Digest, FetchedView<NodeView>>,
    scope: LogScope,
    head: IndexHead,
    early: IndexHead,
    d: Digest,
    depth: nat,
    entry: EntryView,
)
    requires
        found(m, scope, head, d, depth, entry.key) == LookupView::Found(entry),
        !receipt_ok(entry, early),
    ensures
        found(m, scope, early, d, depth, entry.key) matches LookupView::Fail(
            ErrorView::IntegrityError(_),
        ),
    decreases 53 - depth,
{
    let path = scope.path(entry.key);
    match load(m, scope, head, d, path, depth) {
        Load::Node(NodeView::Branch { children, .. }) => {
            assert(load(m, scope, early, d, path, depth) == load(m, scope, head, d, path, depth));
            match child_of(children, quintet(path, depth as int)) {
                Some(next) => {
                    lemma_found_early(m, scope, head, early, next, depth + 1, entry);
                },
                None => {},
            }
        },
        _ => {},
    }
}

/// A node that the walk needs and that is missing, malformed or out of
/// place is never taken for an absence.
pub proof fn law_bad_node_is_not_absent(
    m: Map<Digest, FetchedView<NodeView>>,
    scope: LogScope,
    head: IndexHead,
    root: StableIndexRoot,
    key: Seq<u8>,
)
    requires
        index_lookup(m, scope, head, root, key) is Absent,
    ensures
        load(m, scope, head, root.digest, scope.path(key), 0) is Node,
        descent(m, scope, head, scope.path(key), root.digest, 0) is Leaf || descent(
            m,
            scope,
            head,
            scope.path(key),
            root.digest,
            0,
        ) is Gap,
{
}

/// Whether an index can belong to a publication: it has the known schema
/// and no more entries than events.
pub open spec fn root_fits(root: StableIndexRoot, head: IndexHead) -> bool {
    root.schema@ == ROOT_SCHEMA@ && root.entries <= head.head_seq && (root.entries > 0
        ==> head.generation > 0)
}

/// Why an index cannot belong to a publication.
pub open spec fn root_fault(root: StableIndexRoot, head: IndexHead) -> ErrorView {
    ErrorView::IntegrityError(
        if root.schema@ != ROOT_SCHEMA@ {
            "unsupported stable index root schema "@ + root.schema@
        } else if root.entries > head.head_seq {
            "stable index has more entries than the feed has events"@
        } else {
            "stable index has entries before the first publication"@
        },
    )
}

/// Whether an index can belong to a publication.
pub fn check_root_against_head(root: &StableIndexRoot, head: IndexHead) -> (r: Result<()>)
    ensures
        r is Ok <==> root_fits(*root, head),
        r matches Err(e) ==> e@ == root_fault(*root, head),
{
    match root.validate() {
        Err(e) => {
            return Err(e);
        },
        Ok(_) => {},
    }
    if root.entries > head.head_seq {
        return Err(integrity("stable index has more entries than the feed has events"));
    }
    if root.entries > 0 && head.generation == 0 {
        return Err(integrity("stable index has entries before the first publication"));
    }
    Ok(())
}

/// Whether a node of `len` encoded bytes may be stored.
pub fn check_node_size(len: usize) -> (r: Result<()>)
    ensures
        r is Ok <==> len <= MAX_NODE_BYTES,
        r matches Err(e) ==> (e matches CoreError::Rejected(m) && m@
            == "stable index node encodes to "@ + decimal(len as nat) + " bytes (max 4096)"@),
{
    if len > MAX_NODE_BYTES {
        let m: String = join3(
            "stable index node encodes to ",
            &decimal_text(len as u64),
            " bytes (max 4096)",
        );
        return Err(CoreError::Rejected(m));
    }
    Ok(())
}

/// Why a publication may not carry `count` stable admissions that encode
/// to `encoded_len` bytes.
pub open spec fn admissions_fault(count: nat, encoded_len: nat) -> ErrorView {
    ErrorView::Rejected(
        if count > MAX_STABLE_ADMISSIONS {
            "stable admissions "@ + decimal(count) + " exceed 1024"@
        } else {
            "stable admissions encode to "@ + decimal(encoded_len) + " bytes (max 262144)"@
        },
    )
}

/// Whether a publication may carry `count` stable admissions that encode
/// to `encoded_len` bytes.
pub fn admissions_size(count: usize, encoded_len: usize) -> (r: Result<()>)
    ensures
        r is Ok <==> count <= MAX_STABLE_ADMISSIONS && encoded_len <= MAX_STABLE_ADMISSION_BYTES,
        r is Ok <==> count <= 1024 && encoded_len <= 262_144,
        r matches Err(e) ==> e@ == admissions_fault(count as nat, encoded_len as nat),
{
    if count > MAX_STABLE_ADMISSIONS {
        let m: String = join3("stable admissions ", &decimal_text(count as u64), " exceed 1024");
        return Err(CoreError::Rejected(m));
    }
    if encoded_len > MAX_STABLE_ADMISSION_BYTES {
        let m: String = join3(
            "stable admissions encode to ",
            &decimal_text(encoded_len as u64),
            " bytes (max 262144)",
        );
        return Err(CoreError::Rejected(m));
    }
    Ok(())
}

/// A receipt, a slot and an index are taken exactly where they can belong: a
/// receipt has a range and a generation that are not ahead of the head; a slot
/// is one of 32, of which the last full level has two and the one below it
/// one; and an index has no more entries than there are events.
pub proof fn law_parts_of_the_index_fit(
    e: EntryView,
    head: IndexHead,
    slot: int,
    depth: nat,
    root: StableIndexRoot,
)
    ensures
        receipt_ok(e, head) <==> 0 < e.first && e.first <= e.last && e.last <= head.head_seq && 0
            < e.generation && e.generation <= head.generation,
        depth <= 50 ==> (slot_allowed(slot, depth) <==> 0 <= slot <= 31),
        slot_allowed(slot, 51) <==> slot == 0 || slot == 16,
        depth >= 52 ==> (slot_allowed(slot, depth) <==> slot == 0),
        root_fits(root, head) <==> root.schema@ == "comb.log.stable-index-root/v1"@ && root.entries
            <= head.head_seq && (root.entries == 0 || head.generation >= 1),
{
}

/// A slot of a branch holds what was put there: the digest of the first child
/// with the slot, if there is one.
pub proof fn law_slot_holds_its_child(children: Seq<HamtChild>, slot: int)
    ensures
        child_of(children, slot) is None <==> forall|i: int|
            0 <= i < children.len() ==> (#[trigger] children[i]).slot != slot,
        child_of(children, slot) matches Some(d) ==> exists|i: int|
            0 <= i < children.len() && (#[trigger] children[i]).slot == slot && children[i].digest
                == d,
    decreases children.len(),
{
    if children.len() > 0 {
        let rest = children.drop_first();
        law_slot_holds_its_child(rest, slot);
        assert(forall|i: int| 0 <= i < rest.len() ==> #[trigger] rest[i] == children[i + 1]);
        if children[0].slot != slot {
            match child_of(rest, slot) {
                Some(d) => {
                    let i = choose|i: int|
                        0 <= i < rest.len() && (#[trigger] rest[i]).slot == slot && rest[i].digest
                            == d;
                    assert(children[i + 1].slot == slot);
                },
                None => {
                    assert forall|i: int| 0 <= i < children.len() implies (
                    #[trigger] children[i]).slot != slot by {
                        if i > 0 {
                            assert(rest[i - 1].slot != slot);
                        }
                    }
                },
            }
        }
    }
}

proof fn lemma_leaf_on_path(
    m: Map<Digest, FetchedView<NodeView>>,
    scope: LogScope,
    head: IndexHead,
    path: Seq<u8>,
    d: Digest,
    depth: nat,
)
    ensures
        descent(m, scope, head, path, d, depth) matches Descent::Leaf { depth: at, entry } ==> depth
            <= at && (depth <= 52 ==> at <= 52) && same_prefix(scope.path(entry.key), path, at),
    decreases 53 - depth,
{
    match load(m, scope, head, d, path, depth) {
        Load::Node(NodeView::Branch { children, .. }) => {
            if depth <= 51 {
                match child_of(children, quintet(path, depth as int)) {
                    Some(next) => {
                        lemma_leaf_on_path(m, scope, head, path, next, depth + 1);
                    },
                    None => {},
                }
            }
        },
        _ => {},
    }
}

/// A key that was looked up and not found can be inserted, unless another key
/// has its path; and one that was found cannot.
pub proof fn law_absent_key_can_be_inserted(
    m: Map<Digest, FetchedView<NodeView>>,
    scope: LogScope,
    head: IndexHead,
    d: Digest,
    key: Seq<u8>,
)
    requires
        forall|other: Seq<u8>|
            other != key ==> #[trigger] scope.path(other) != scope.path(key),
    ensures
        found(m, scope, head, d, 0, key) is Absent <==> obstacle(m, scope, head, d, 0, key) is Clear,
        found(m, scope, head, d, 0, key) is Found ==> (obstacle(m, scope, head, d, 0, key) matches
            Obstacle::Fail(ErrorView::RecoveryFailed(_))),
        found(m, scope, head, d, 0, key) matches LookupView::Fetch(n) ==> obstacle(
            m,
            scope,
            head,
            d,
            0,
            key,
        ) == Obstacle::Fetch(n),
{
    let path = scope.path(key);
    lemma_leaf_on_path(m, scope, head, path, d, 0);
    match descent(m, scope, head, path, d, 0) {
        Descent::Leaf { depth: at, entry } => {
            if entry.key != key {
                let other = scope.path(entry.key);
                assert(other != path);
                if !paths_part(other, path, at) {
                    assert(same_prefix(other, path, 52)) by {
                        assert forall|g: int| 0 <= g < 52 implies #[trigger] quintet(other, g)
                            == quintet(path, g) by {}
                    }
                    lemma_path_len(scope, entry.key);
                    lemma_path_len(scope, key);
                    law_prefix_test_is_of_bits(other, path, 52, 52);
                    assert forall|k: int| 0 <= k < 8 * other.len() implies #[trigger] bit(other, k)
                        == bit(path, k) by {}
                    crate::bits::lemma_bits_determine(other, path);
                }
            }
        },
        _ => {},
    }
}

proof fn lemma_path_len(scope: LogScope, k: Seq<u8>)
    ensures
        scope.path(k).len() == 32,
{
    lemma_digest_view(stable_path(scope.key, scope.tenant@, scope.log@, k));
}

} // verus!
