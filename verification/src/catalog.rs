//! Immutable append-oriented chunk catalog: a B+tree of the chunks of a
//! complete feed, in sequence order.
use vstd::prelude::*;

use crate::digest::Digest;
use crate::error::{integrity, rejected, CoreError, ErrorView, Result};
use crate::table::{
    addressed, extends, lemma_stored_prefix, put_object, stored, uploads_view, Fetched, FetchedView,
    Step, Table,
};
use crate::text::{decimal, decimal_text, join3, join4};

verus! {

pub const MAX_CATALOG_NODE_OBJECT_BYTES: u64 = 16_384;

pub const MAX_CATALOG_ITEMS: usize = 32;

pub const MAX_CATALOG_HEIGHT: u8 = 8;

pub const CATALOG_NODE_SCHEMA: &'static str = "comb.log.chunk-catalog-node/v1";

#[derive(Clone, Copy, Debug, PartialEq, Eq, Structural)]
pub enum CatalogSchemaV1 {
    V1,
}

/// A chunk of events and the sequences that it covers.
#[derive(Clone, Copy, Debug, PartialEq, Eq, Structural)]
pub struct CatalogChunkRef {
    pub digest: Digest,
    pub first_seq: u64,
    pub last_seq: u64,
    pub event_count: u32,
    pub raw_payload_bytes: u64,
    pub plaintext_bytes: u64,
}

/// A subtree and the sequences that it covers.
#[derive(Clone, Copy, Debug, PartialEq, Eq, Structural)]
pub struct CatalogChild {
    pub first_seq: u64,
    pub last_seq: u64,
    pub chunk_count: u64,
    pub digest: Digest,
}

#[derive(Clone, Copy, Debug, PartialEq, Eq, Structural)]
pub struct ChunkCatalogRoot {
    pub schema: CatalogSchemaV1,
    pub digest: Digest,
    pub height: u8,
    pub first_seq: u64,
    pub last_seq: u64,
    pub chunk_count: u64,
}

#[derive(Clone, Copy, Debug, PartialEq, Eq, Structural)]
pub enum CatalogState {
    Empty,
    Root { root: ChunkCatalogRoot },
}

#[derive(Debug)]
pub enum CatalogNode {
    Leaf { schema: CatalogSchemaV1, refs: Vec<CatalogChunkRef> },
    Branch { schema: CatalogSchemaV1, height: u8, children: Vec<CatalogChild> },
}

pub enum CatalogNodeView {
    Leaf { refs: Seq<CatalogChunkRef> },
    Branch { height: u8, children: Seq<CatalogChild> },
}

impl View for CatalogNode {
    type V = CatalogNodeView;

    open spec fn view(&self) -> CatalogNodeView {
        match self {
            CatalogNode::Leaf { refs, .. } => CatalogNodeView::Leaf { refs: refs@ },
            CatalogNode::Branch { height, children, .. } => CatalogNodeView::Branch {
                height: *height,
                children: children@,
            },
        }
    }
}

// ------------------------------------------------------------- validation
/// A chunk covers as many sequences, from 1 on, as it has events.
pub open spec fn ref_ok(r: CatalogChunkRef) -> bool {
    1 <= r.first_seq <= r.last_seq && r.last_seq - r.first_seq + 1 == r.event_count
}

/// Chunks follow one another without a gap.
pub open spec fn refs_contiguous(refs: Seq<CatalogChunkRef>) -> bool {
    &&& forall|i: int| 0 <= i < refs.len() ==> ref_ok(#[trigger] refs[i])
    &&& forall|i: int|
        0 < i < refs.len() ==> (#[trigger] refs[i]).first_seq == refs[i - 1].last_seq + 1
}

pub open spec fn leaf_ok(refs: Seq<CatalogChunkRef>) -> bool {
    1 <= refs.len() <= MAX_CATALOG_ITEMS && refs_contiguous(refs)
}

/// A subtree covers at least one chunk and no more chunks than sequences.
pub open spec fn child_ok(c: CatalogChild) -> bool {
    1 <= c.first_seq <= c.last_seq && 1 <= c.chunk_count <= c.last_seq - c.first_seq + 1
}

pub open spec fn branch_ok(children: Seq<CatalogChild>, height: int) -> bool {
    &&& 1 <= children.len() <= MAX_CATALOG_ITEMS
    &&& 1 <= height <= MAX_CATALOG_HEIGHT
    &&& forall|i: int| 0 <= i < children.len() ==> child_ok(#[trigger] children[i])
    &&& forall|i: int|
        0 < i < children.len() ==> (#[trigger] children[i]).first_seq == children[i - 1].last_seq
            + 1
}

pub open spec fn node_ok(n: CatalogNodeView) -> bool {
    match n {
        CatalogNodeView::Leaf { refs } => leaf_ok(refs),
        CatalogNodeView::Branch { height, children } => branch_ok(children, height as int),
    }
}

/// What is wrong with a chunk.
pub open spec fn ref_fault(r: CatalogChunkRef) -> Option<Seq<char>> {
    if r.first_seq == 0 || r.last_seq < r.first_seq || r.event_count == 0 {
        Some("catalog chunk ref has an impossible range"@)
    } else if r.last_seq - r.first_seq + 1 != r.event_count {
        Some("catalog chunk ref event_count does not match sequence span"@)
    } else {
        None
    }
}

/// What is wrong with the chunks of a leaf from the `i`-th on.
pub open spec fn refs_fault(refs: Seq<CatalogChunkRef>, i: nat) -> Option<Seq<char>>
    decreases refs.len() - i,
{
    if i >= refs.len() {
        None
    } else if ref_fault(refs[i as int]) is Some {
        ref_fault(refs[i as int])
    } else if i > 0 && refs[i as int].first_seq != refs[i - 1].last_seq + 1 {
        Some("catalog leaf ranges are gapped or overlapping"@)
    } else {
        refs_fault(refs, i + 1)
    }
}

/// What is wrong with a leaf.
pub open spec fn leaf_fault(refs: Seq<CatalogChunkRef>) -> Option<Seq<char>> {
    if refs.len() == 0 || refs.len() > MAX_CATALOG_ITEMS {
        Some("catalog leaf width is invalid"@)
    } else {
        refs_fault(refs, 0)
    }
}

/// What is wrong with the children of a branch from the `i`-th on.
pub open spec fn children_fault(children: Seq<CatalogChild>, i: nat) -> Option<Seq<char>>
    decreases children.len() - i,
{
    if i >= children.len() {
        None
    } else if !child_ok(children[i as int]) {
        Some("catalog child has an impossible range"@)
    } else if i > 0 && children[i as int].first_seq != children[i - 1].last_seq + 1 {
        Some("catalog child ranges are gapped or overlapping"@)
    } else {
        children_fault(children, i + 1)
    }
}

/// What is wrong with a branch.
pub open spec fn branch_fault(children: Seq<CatalogChild>, height: int) -> Option<Seq<char>> {
    if children.len() == 0 || children.len() > MAX_CATALOG_ITEMS {
        Some("catalog branch width is invalid"@)
    } else if height <= 0 || height > MAX_CATALOG_HEIGHT {
        Some("catalog branch height is invalid"@)
    } else {
        children_fault(children, 0)
    }
}

/// What is wrong with a node.
#[verifier::opaque]
pub open spec fn node_fault(n: CatalogNodeView) -> Option<Seq<char>> {
    match n {
        CatalogNodeView::Leaf { refs } => leaf_fault(refs),
        CatalogNodeView::Branch { height, children } => branch_fault(children, height as int),
    }
}

/// What is said of children whose ranges do not meet.
pub open spec fn gapped() -> ErrorView {
    ErrorView::IntegrityError("catalog child ranges are gapped or overlapping"@)
}

fn validate_ref(r: &CatalogChunkRef) -> (res: Result<()>)
    ensures
        res is Ok <==> ref_ok(*r),
        match ref_fault(*r) {
            None => res is Ok,
            Some(m) => res matches Err(e) && e@ == ErrorView::IntegrityError(m),
        },
{
    if r.first_seq == 0 || r.last_seq < r.first_seq || r.event_count == 0 {
        return Err(integrity("catalog chunk ref has an impossible range"));
    }
    let span: u64 = r.last_seq - r.first_seq + 1;
    if span != r.event_count as u64 {
        return Err(integrity("catalog chunk ref event_count does not match sequence span"));
    }
    Ok(())
}

pub fn validate_leaf_refs(refs: &Vec<CatalogChunkRef>) -> (r: Result<()>)
    ensures
        r is Ok <==> leaf_ok(refs@),
        match leaf_fault(refs@) {
            None => r is Ok,
            Some(m) => r matches Err(e) && e@ == ErrorView::IntegrityError(m),
        },
{
    if refs.len() == 0 || refs.len() > MAX_CATALOG_ITEMS {
        return Err(integrity("catalog leaf width is invalid"));
    }
    let mut i: usize = 0;
    while i < refs.len()
        invariant
            i <= refs@.len(),
            0 < refs@.len() <= MAX_CATALOG_ITEMS,
            refs_fault(refs@, 0) == refs_fault(refs@, i as nat),
            forall|j: int| 0 <= j < i ==> ref_ok(#[trigger] refs@[j]),
            forall|j: int|
                0 < j < i ==> (#[trigger] refs@[j]).first_seq == refs@[j - 1].last_seq + 1,
        decreases refs@.len() - i,
    {
        match validate_ref(&refs[i]) {
            Err(e) => {
                assert(!ref_ok(refs@[i as int]));
                return Err(e);
            },
            Ok(_) => {},
        }
        if i > 0 {
            let prev: u64 = refs[i - 1].last_seq;
            if prev == u64::MAX || refs[i].first_seq != prev + 1 {
                assert(refs@[i as int].first_seq != refs@[i - 1].last_seq + 1);
                return Err(integrity("catalog leaf ranges are gapped or overlapping"));
            }
        }
        i = i + 1;
    }
    Ok(())
}

pub fn validate_children(children: &Vec<CatalogChild>, height: u8) -> (r: Result<()>)
    ensures
        r is Ok <==> branch_ok(children@, height as int),
        match branch_fault(children@, height as int) {
            None => r is Ok,
            Some(m) => r matches Err(e) && e@ == ErrorView::IntegrityError(m),
        },
{
    if children.len() == 0 || children.len() > MAX_CATALOG_ITEMS {
        return Err(integrity("catalog branch width is invalid"));
    }
    if height == 0 || height > MAX_CATALOG_HEIGHT {
        return Err(integrity("catalog branch height is invalid"));
    }
    let mut i: usize = 0;
    while i < children.len()
        invariant
            i <= children@.len(),
            0 < children@.len() <= MAX_CATALOG_ITEMS,
            1 <= height <= MAX_CATALOG_HEIGHT,
            children_fault(children@, 0) == children_fault(children@, i as nat),
            forall|j: int| 0 <= j < i ==> child_ok(#[trigger] children@[j]),
            forall|j: int|
                0 < j < i ==> (#[trigger] children@[j]).first_seq == children@[j - 1].last_seq + 1,
        decreases children@.len() - i,
    {
        let c: CatalogChild = children[i];
        if c.first_seq == 0 || c.last_seq < c.first_seq || c.chunk_count == 0 || c.chunk_count
            > c.last_seq - c.first_seq + 1 {
            assert(!child_ok(children@[i as int]));
            return Err(integrity("catalog child has an impossible range"));
        }
        if i > 0 {
            let prev: u64 = children[i - 1].last_seq;
            if prev == u64::MAX || c.first_seq != prev + 1 {
                assert(children@[i as int].first_seq != children@[i - 1].last_seq + 1);
                return Err(integrity("catalog child ranges are gapped or overlapping"));
            }
        }
        i = i + 1;
    }
    Ok(())
}

/// Whether a node may be stored.
pub fn validate_node(node: &CatalogNode) -> (r: Result<()>)
    ensures
        r is Ok <==> node_ok(node@),
        match node_fault(node@) {
            None => r is Ok,
            Some(m) => r matches Err(e) && e@ == ErrorView::IntegrityError(m),
        },
{
    proof {
        reveal(node_fault);
    }
    match node {
        CatalogNode::Leaf { refs, .. } => validate_leaf_refs(refs),
        CatalogNode::Branch { height, children, .. } => validate_children(children, *height),
    }
}

// ---------------------------------------------------------------- reading
/// What a failed fetch of a node means for what needed it.
pub open spec fn read_error(digest: Digest, e: ErrorView) -> ErrorView {
    match e {
        ErrorView::BackendUnavailable(m) => ErrorView::BackendUnavailable(
            "catalog node "@ + digest.text() + ": "@ + m,
        ),
        ErrorView::Io(m) => ErrorView::BackendUnavailable(
            "catalog node "@ + digest.text() + ": "@ + m,
        ),
        ErrorView::NotFound(_) => ErrorView::IntegrityError(
            "catalog node "@ + digest.text() + " is missing"@,
        ),
        other => other,
    }
}

/// What is known of a node that is needed.
pub enum CatalogLoad {
    Need,
    Fail(ErrorView),
    Node(CatalogNodeView),
}

/// Why nothing can be read from what was fetched under a digest.
#[verifier::opaque]
pub open spec fn load_error(d: Digest, f: FetchedView<CatalogNodeView>) -> ErrorView {
    match f {
        FetchedView::Failed(e) => read_error(d, e),
        FetchedView::Malformed { detail } => ErrorView::IntegrityError(
            "catalog node "@ + d.text() + " is malformed: "@ + detail,
        ),
        FetchedView::Object { object, .. } => ErrorView::IntegrityError(node_fault(object)->0),
    }
}

pub open spec fn load(m: Map<Digest, FetchedView<CatalogNodeView>>, d: Digest) -> CatalogLoad {
    if !m.contains_key(d) {
        CatalogLoad::Need
    } else {
        match m[d] {
            FetchedView::Object { object, .. } => if node_ok(object) {
                CatalogLoad::Node(object)
            } else {
                CatalogLoad::Fail(load_error(d, m[d]))
            },
            _ => CatalogLoad::Fail(load_error(d, m[d])),
        }
    }
}

/// What a failed fetch of a catalog node means.
pub fn map_catalog_read_error(digest: &Digest, e: &CoreError) -> (r: CoreError)
    ensures
        r@ == read_error(*digest, e@),
{
    let id: String = digest.to_string();
    match e {
        CoreError::BackendUnavailable(m) => CoreError::BackendUnavailable(
            join4("catalog node ", &id, ": ", m),
        ),
        CoreError::Io(m) => CoreError::BackendUnavailable(join4("catalog node ", &id, ": ", m)),
        CoreError::NotFound(_) => CoreError::IntegrityError(
            join3("catalog node ", &id, " is missing"),
        ),
        other => other.clone(),
    }
}

fn load_node<'a>(table: &'a Table<CatalogNode>, digest: &Digest) -> (r: Result<
    Option<&'a CatalogNode>,
>)
    ensures
        match load(table@, *digest) {
            CatalogLoad::Need => r matches Ok(None),
            CatalogLoad::Fail(c) => r matches Err(e) && e@ == c,
            CatalogLoad::Node(n) => r matches Ok(Some(node)) && node@ == n,
        },
{
    proof {
        reveal(load_error);
    }
    match table.get(digest) {
        None => Ok(None),
        Some(Fetched::Failed(e)) => Err(map_catalog_read_error(digest, e)),
        Some(Fetched::Malformed { detail }) => Err(
            CoreError::IntegrityError(
                join4("catalog node ", &digest.to_string(), " is malformed: ", detail),
            ),
        ),
        Some(Fetched::Object { object, .. }) => match validate_node(object) {
            Err(e) => Err(e),
            Ok(_) => Ok(Some(object)),
        },
    }
}

// ------------------------------------------------------------------ trees
/// Whether `c` describes a subtree with the chunks `refs`.
pub open spec fn covers(c: CatalogChild, refs: Seq<CatalogChunkRef>) -> bool {
    &&& refs.len() > 0
    &&& c.first_seq == refs[0].first_seq
    &&& c.last_seq == refs.last().last_seq
    &&& c.chunk_count == refs.len()
}

/// The chunks of the tree of height `h` at `d`, in order, if every node of
/// it is known, stands at its height, and is described by its parent.
pub open spec fn tree(
    m: Map<Digest, FetchedView<CatalogNodeView>>,
    d: Digest,
    h: nat,
) -> Option<Seq<CatalogChunkRef>>
    decreases h, 0nat,
{
    match load(m, d) {
        CatalogLoad::Node(CatalogNodeView::Leaf { refs }) => if h == 0 {
            Some(refs)
        } else {
            None
        },
        CatalogLoad::Node(CatalogNodeView::Branch { height, children }) => if h > 0 && height == h {
            forest(m, children, (h - 1) as nat)
        } else {
            None
        },
        _ => None,
    }
}

/// The chunks of the trees of height `h` that `children` describe.
pub open spec fn forest(
    m: Map<Digest, FetchedView<CatalogNodeView>>,
    children: Seq<CatalogChild>,
    h: nat,
) -> Option<Seq<CatalogChunkRef>>
    decreases h, 1 + children.len(),
{
    if children.len() == 0 {
        Some(Seq::empty())
    } else {
        match (forest(m, children.drop_last(), h), tree(m, children.last().digest, h)) {
            (Some(a), Some(b)) => if covers(children.last(), b) {
                Some(a + b)
            } else {
                None
            },
            _ => None,
        }
    }
}

/// The chunks of a catalog, if all of it is known and sound.
pub open spec fn contents(
    m: Map<Digest, FetchedView<CatalogNodeView>>,
    state: CatalogState,
) -> Option<Seq<CatalogChunkRef>> {
    match state {
        CatalogState::Empty => Some(Seq::empty()),
        CatalogState::Root { root } => match tree(m, root.digest, root.height as nat) {
            Some(refs) => if covers(root_child(root), refs) {
                Some(refs)
            } else {
                None
            },
            None => None,
        },
    }
}

/// The root seen as a subtree.
pub open spec fn root_child(root: ChunkCatalogRoot) -> CatalogChild {
    CatalogChild {
        first_seq: root.first_seq,
        last_seq: root.last_seq,
        chunk_count: root.chunk_count,
        digest: root.digest,
    }
}

proof fn lemma_tree_more_known(
    t: Map<Digest, FetchedView<CatalogNodeView>>,
    m: Map<Digest, FetchedView<CatalogNodeView>>,
    d: Digest,
    h: nat,
)
    requires
        extends(m, t),
        tree(t, d, h) is Some,
    ensures
        tree(m, d, h) == tree(t, d, h),
    decreases h, 0nat,
{
    assert(t.contains_key(d));
    match load(t, d) {
        CatalogLoad::Node(CatalogNodeView::Branch { height, children }) => {
            lemma_forest_more_known(t, m, children, (h - 1) as nat);
        },
        _ => {},
    }
}

proof fn lemma_forest_more_known(
    t: Map<Digest, FetchedView<CatalogNodeView>>,
    m: Map<Digest, FetchedView<CatalogNodeView>>,
    children: Seq<CatalogChild>,
    h: nat,
)
    requires
        extends(m, t),
        forest(t, children, h) is Some,
    ensures
        forest(m, children, h) == forest(t, children, h),
    decreases h, 1 + children.len(),
{
    if children.len() > 0 {
        lemma_forest_more_known(t, m, children.drop_last(), h);
        lemma_tree_more_known(t, m, children.last().digest, h);
    }
}

/// How many chunks `children` describe.
pub open spec fn chunk_sum(children: Seq<CatalogChild>) -> nat
    decreases children.len(),
{
    if children.len() == 0 {
        0
    } else {
        chunk_sum(children.drop_last()) + children.last().chunk_count as nat
    }
}

/// A row of subtrees begins where the first begins and ends where the last
/// ends, and has the chunks of all.
proof fn lemma_forest_span(
    m: Map<Digest, FetchedView<CatalogNodeView>>,
    children: Seq<CatalogChild>,
    h: nat,
)
    requires
        forest(m, children, h) is Some,
    ensures
        forest(m, children, h)->0.len() == chunk_sum(children),
        children.len() > 0 ==> {
            let refs = forest(m, children, h)->0;
            refs.len() > 0 && refs[0].first_seq == children[0].first_seq && refs.last().last_seq
                == children.last().last_seq
        },
    decreases children.len(),
{
    if children.len() > 0 {
        let init = children.drop_last();
        lemma_forest_span(m, init, h);
        let a = forest(m, init, h)->0;
        let b = tree(m, children.last().digest, h)->0;
        let refs = forest(m, children, h)->0;
        assert(refs == a + b);
        assert(refs.last() == b.last());
        if init.len() == 0 {
            assert(a + b =~= b);
        } else {
            assert(refs[0] == a[0]);
        }
    }
}

/// The chunks of a sound tree follow one another without a gap.
pub proof fn law_catalog_is_contiguous(
    m: Map<Digest, FetchedView<CatalogNodeView>>,
    d: Digest,
    h: nat,
)
    requires
        tree(m, d, h) is Some,
    ensures
        tree(m, d, h)->0.len() > 0,
        refs_contiguous(tree(m, d, h)->0),
    decreases h, 0nat,
{
    match load(m, d) {
        CatalogLoad::Node(CatalogNodeView::Branch { height, children }) => {
            lemma_forest_contiguous(m, children, (h - 1) as nat);
            lemma_forest_span(m, children, (h - 1) as nat);
        },
        _ => {},
    }
}

#[verifier::spinoff_prover]
proof fn lemma_forest_contiguous(
    m: Map<Digest, FetchedView<CatalogNodeView>>,
    children: Seq<CatalogChild>,
    h: nat,
)
    requires
        forest(m, children, h) is Some,
        forall|i: int|
            0 < i < children.len() ==> (#[trigger] children[i]).first_seq == children[i
                - 1].last_seq + 1,
    ensures
        refs_contiguous(forest(m, children, h)->0),
    decreases h, 1 + children.len(),
{
    if children.len() > 0 {
        let init = children.drop_last();
        assert forall|i: int| 0 < i < init.len() implies (#[trigger] init[i]).first_seq == init[i
            - 1].last_seq + 1 by {
            assert(children[i].first_seq == children[i - 1].last_seq + 1);
        }
        lemma_forest_contiguous(m, init, h);
        lemma_forest_span(m, init, h);
        law_catalog_is_contiguous(m, children.last().digest, h);
        let a = forest(m, init, h)->0;
        let b = tree(m, children.last().digest, h)->0;
        if a.len() > 0 {
            assert(init.len() > 0) by {
                if init.len() == 0 {
                    assert(a.len() == 0);
                }
            }
            assert(children[children.len() - 1].first_seq == children[children.len() - 2].last_seq
                + 1);
        }
        lemma_joined_contiguous(a, b);
    }
}

proof fn lemma_joined_contiguous(a: Seq<CatalogChunkRef>, b: Seq<CatalogChunkRef>)
    requires
        refs_contiguous(a),
        refs_contiguous(b),
        a.len() > 0 && b.len() > 0 ==> b[0].first_seq == a.last().last_seq + 1,
    ensures
        refs_contiguous(a + b),
{
    let refs = a + b;
    assert forall|i: int| 0 <= i < refs.len() implies ref_ok(#[trigger] refs[i]) by {
        if i < a.len() {
            assert(refs[i] == a[i]);
        } else {
            assert(refs[i] == b[i - a.len()]);
        }
    }
    assert forall|i: int| 0 < i < refs.len() implies (#[trigger] refs[i]).first_seq == refs[i
        - 1].last_seq + 1 by {
        if i < a.len() {
            assert(refs[i] == a[i] && refs[i - 1] == a[i - 1]);
        } else if i == a.len() {
            assert(refs[i] == b[0]);
            assert(refs[i - 1] == a.last());
        } else {
            assert(refs[i] == b[i - a.len()] && refs[i - 1] == b[i - a.len() - 1]);
        }
    }
}

// ----------------------------------------------------------------- append
/// What is said of a tree that cannot grow any higher.
pub open spec fn too_high() -> ErrorView {
    ErrorView::Rejected("catalog height exceeded"@)
}

/// The right edge of a tree of height `h` at `d`, as far as it is known.
pub enum Spine {
    Fetch(Digest),
    Fail(ErrorView),
    Known,
}

pub open spec fn spine(
    m: Map<Digest, FetchedView<CatalogNodeView>>,
    d: Digest,
    h: nat,
) -> Spine
    decreases h,
{
    match load(m, d) {
        CatalogLoad::Need => Spine::Fetch(d),
        CatalogLoad::Fail(c) => Spine::Fail(c),
        CatalogLoad::Node(CatalogNodeView::Leaf { .. }) => if h == 0 {
            Spine::Known
        } else {
            Spine::Fail(ErrorView::IntegrityError("catalog leaf reached at nonzero height"@))
        },
        CatalogLoad::Node(CatalogNodeView::Branch { height, children }) => if h > 0 && height == h {
            spine(m, children.last().digest, (h - 1) as nat)
        } else {
            Spine::Fail(
                ErrorView::IntegrityError(
                    "catalog branch height "@ + decimal(height as nat) + " disagrees with parent "@
                        + decimal(h),
                ),
            )
        },
    }
}

/// The first sequence that a node covers.
pub open spec fn own_first(n: CatalogNodeView) -> u64 {
    match n {
        CatalogNodeView::Leaf { refs } => refs[0].first_seq,
        CatalogNodeView::Branch { children, .. } => children[0].first_seq,
    }
}

/// The last sequence that a node covers.
pub open spec fn own_last(n: CatalogNodeView) -> u64 {
    match n {
        CatalogNodeView::Leaf { refs } => refs.last().last_seq,
        CatalogNodeView::Branch { children, .. } => children.last().last_seq,
    }
}

/// Whether every node on the right edge covers what its parent says, and
/// the topmost one ends at `last`.
pub open spec fn edge_agrees(
    m: Map<Digest, FetchedView<CatalogNodeView>>,
    d: Digest,
    h: nat,
    last: u64,
) -> bool
    decreases h,
{
    match load(m, d) {
        CatalogLoad::Node(n) => own_last(n) == last && match n {
            CatalogNodeView::Leaf { .. } => true,
            CatalogNodeView::Branch { children, .. } => h > 0 && edge_agrees(
                m,
                children.last().digest,
                (h - 1) as nat,
                children.last().last_seq,
            ) && (load(m, children.last().digest) matches CatalogLoad::Node(c) && own_first(c)
                == children.last().first_seq),
        },
        _ => false,
    }
}

/// Whether no node on the right edge has room.
pub open spec fn edge_full(
    m: Map<Digest, FetchedView<CatalogNodeView>>,
    d: Digest,
    h: nat,
) -> bool
    decreases h,
{
    match load(m, d) {
        CatalogLoad::Node(CatalogNodeView::Leaf { refs }) => refs.len() >= MAX_CATALOG_ITEMS,
        CatalogLoad::Node(CatalogNodeView::Branch { children, .. }) => children.len()
            >= MAX_CATALOG_ITEMS && h > 0 && edge_full(m, children.last().digest, (h - 1) as nat),
        _ => false,
    }
}

/// Whether two subtrees cover the same, whatever their digests are.
pub open spec fn alike(a: CatalogChild, b: CatalogChild) -> bool {
    a == (CatalogChild { digest: a.digest, ..b })
}

pub open spec fn all_alike(a: Seq<CatalogChild>, b: Seq<CatalogChild>) -> bool {
    a.len() == b.len() && forall|i: int| 0 <= i < a.len() ==> alike(#[trigger] a[i], b[i])
}

/// A node as the branch above it describes it.
pub open spec fn described(n: CatalogNodeView, d: Digest) -> CatalogChild {
    CatalogChild {
        first_seq: own_first(n),
        last_seq: own_last(n),
        chunk_count: match n {
            CatalogNodeView::Leaf { refs } => refs.len() as u64,
            CatalogNodeView::Branch { children, .. } => chunk_sum(children) as u64,
        },
        digest: d,
    }
}

/// What becomes of a subtree that a chunk is put behind: one subtree, or two
/// side by side, or why it cannot be. The digests of the parts mean nothing,
/// for the nodes are yet to be given theirs.
pub enum Growth {
    Fail(ErrorView),
    Parts(Seq<CatalogChild>),
}

/// A node that takes the place of a subtree, unless it may not be stored.
#[verifier::opaque]
pub open spec fn made(n: CatalogNodeView, d: Digest) -> Growth {
    if node_ok(n) {
        Growth::Parts(seq![described(n, d)])
    } else {
        Growth::Fail(ErrorView::IntegrityError(node_fault(n)->0))
    }
}

/// A branch that takes the place of one with `children`, whose last child
/// became `parts`. A full branch gets a sibling for the second part, unless
/// it stands as high as can be.
pub open spec fn branch_growth(
    children: Seq<CatalogChild>,
    h: nat,
    parts: Seq<CatalogChild>,
    d: Digest,
) -> Growth {
    let kept = children.drop_last();
    let height = h as u8;
    if parts.len() == 1 || children.len() < MAX_CATALOG_ITEMS {
        made(CatalogNodeView::Branch { height, children: kept + parts }, d)
    } else if h >= MAX_CATALOG_HEIGHT {
        Growth::Fail(too_high())
    } else {
        match made(CatalogNodeView::Branch { height, children: kept.push(parts[0]) }, d) {
            Growth::Fail(c) => Growth::Fail(c),
            Growth::Parts(left) => Growth::Parts(
                left.push(
                    described(CatalogNodeView::Branch { height, children: seq![parts[1]] }, d),
                ),
            ),
        }
    }
}

/// What becomes of the tree of height `h` at `d` when `chunk` is put behind
/// it.
pub open spec fn growth(
    m: Map<Digest, FetchedView<CatalogNodeView>>,
    d: Digest,
    h: nat,
    chunk: CatalogChunkRef,
) -> Growth
    decreases h,
{
    match load(m, d) {
        CatalogLoad::Node(CatalogNodeView::Leaf { refs }) => if refs.len() < MAX_CATALOG_ITEMS {
            made(CatalogNodeView::Leaf { refs: refs.push(chunk) }, d)
        } else if refs.last().last_seq + 1 != chunk.first_seq {
            Growth::Fail(gapped())
        } else {
            Growth::Parts(
                seq![
                    described(CatalogNodeView::Leaf { refs }, d),
                    described(CatalogNodeView::Leaf { refs: seq![chunk] }, d),
                ],
            )
        },
        CatalogLoad::Node(CatalogNodeView::Branch { children, .. }) => if h == 0 {
            Growth::Fail(gapped())
        } else {
            match growth(m, children.last().digest, (h - 1) as nat, chunk) {
                Growth::Fail(c) => Growth::Fail(c),
                Growth::Parts(parts) => branch_growth(children, h, parts, d),
            }
        },
        _ => Growth::Fail(gapped()),
    }
}

/// What becomes of a catalog whose right edge is known when `chunk` is put
/// behind it: two halves get a root above them.
pub open spec fn catalog_growth(
    m: Map<Digest, FetchedView<CatalogNodeView>>,
    state: CatalogState,
    chunk: CatalogChunkRef,
) -> Growth {
    match state {
        CatalogState::Empty => Growth::Parts(
            seq![described(CatalogNodeView::Leaf { refs: seq![chunk] }, chunk.digest)],
        ),
        CatalogState::Root { root } => match growth(m, root.digest, root.height as nat, chunk) {
            Growth::Fail(c) => Growth::Fail(c),
            Growth::Parts(parts) => if parts.len() == 1 {
                Growth::Parts(parts)
            } else if root.height >= MAX_CATALOG_HEIGHT {
                Growth::Fail(too_high())
            } else {
                made(
                    CatalogNodeView::Branch { height: (root.height + 1) as u8, children: parts },
                    root.digest,
                )
            },
        },
    }
}

/// Whether `fresh` are the children `kept`, and `parts` behind them with the
/// digests that their nodes were given.
pub open spec fn carries(
    fresh: Seq<CatalogChild>,
    kept: Seq<CatalogChild>,
    parts: Seq<CatalogChild>,
) -> bool {
    &&& fresh.len() == kept.len() + parts.len()
    &&& fresh.take(kept.len() as int) == kept
    &&& all_alike(fresh.skip(kept.len() as int), parts)
}

/// Whether `n` is a branch at height `h` that is written in the place of one
/// with `children`, or beside it, whose last child became `parts`.
#[verifier::opaque]
pub open spec fn branch_writes(
    children: Seq<CatalogChild>,
    h: nat,
    parts: Seq<CatalogChild>,
    n: CatalogNodeView,
) -> bool {
    n matches CatalogNodeView::Branch { height, children: fresh } && height == h && node_ok(n) && {
        let kept = children.drop_last();
        if parts.len() == 1 || children.len() < MAX_CATALOG_ITEMS {
            carries(fresh, kept, parts)
        } else {
            ||| carries(fresh, kept, seq![parts[0]])
            ||| carries(fresh, Seq::empty(), seq![parts[1]])
        }
    }
}

/// Whether `n` is a node that is written when `chunk` is put behind the tree
/// of height `h` at `d`: the leaf with the chunk, or a branch above it on the
/// right edge.
pub open spec fn edge_writes(
    m: Map<Digest, FetchedView<CatalogNodeView>>,
    d: Digest,
    h: nat,
    chunk: CatalogChunkRef,
    n: CatalogNodeView,
) -> bool
    decreases h,
{
    match load(m, d) {
        CatalogLoad::Node(CatalogNodeView::Leaf { refs }) => node_ok(n) && n == (
        CatalogNodeView::Leaf {
            refs: if refs.len() < MAX_CATALOG_ITEMS {
                refs.push(chunk)
            } else {
                seq![chunk]
            },
        }),
        CatalogLoad::Node(CatalogNodeView::Branch { children, .. }) => h > 0 && {
            let last = children.last().digest;
            ||| edge_writes(m, last, (h - 1) as nat, chunk, n)
            ||| growth(m, last, (h - 1) as nat, chunk) matches Growth::Parts(parts)
                && branch_writes(children, h, parts, n)
        },
        _ => false,
    }
}

/// Whether `n` is a root over the two halves of a tree of height `h`.
pub open spec fn tops(h: u8, parts: Seq<CatalogChild>, n: CatalogNodeView) -> bool {
    n matches CatalogNodeView::Branch { height, children } && height == h + 1 && children.len() == 2
        && all_alike(children, parts) && node_ok(n)
}

/// Whether `n` is a node that is written when `chunk` is put behind a
/// catalog.
pub open spec fn append_writes(
    m: Map<Digest, FetchedView<CatalogNodeView>>,
    state: CatalogState,
    chunk: CatalogChunkRef,
    n: CatalogNodeView,
) -> bool {
    match state {
        CatalogState::Empty => n == (CatalogNodeView::Leaf { refs: seq![chunk] }),
        CatalogState::Root { root } => {
            let h = root.height as nat;
            ||| edge_writes(m, root.digest, h, chunk, n)
            ||| growth(m, root.digest, h, chunk) matches Growth::Parts(parts) && tops(
                root.height,
                parts,
                n,
            )
        },
    }
}

/// Whether `e` is why `chunk` cannot be put behind a catalog whose right edge
/// is known: one of the nodes to write got no digest, or the catalog cannot
/// take the chunk.
pub open spec fn append_failed<F: Fn(&CatalogNode) -> Result<Digest>>(
    address: F,
    m: Map<Digest, FetchedView<CatalogNodeView>>,
    state: CatalogState,
    chunk: CatalogChunkRef,
    e: CoreError,
) -> bool {
    ||| exists|n: &CatalogNode|
        append_writes(m, state, chunk, n@) && #[trigger] call_ensures(address, (n,), Err(e))
    ||| catalog_growth(m, state, chunk) == Growth::Fail(e@)
}

/// What appending to a subtree makes of it: a new version of it, or two
/// subtrees side by side.
enum SpineUpdate {
    Grown { node: CatalogChild },
    Split { left: CatalogChild, right: CatalogChild },
}

/// Whether `u` is the tree of height `h` at `d`, read in `t`, with `chunk`
/// behind it, once `ups` is stored.
spec fn appended(
    t: Map<Digest, FetchedView<CatalogNodeView>>,
    ups: Seq<(Digest, CatalogNodeView)>,
    d: Digest,
    h: nat,
    chunk: CatalogChunkRef,
    u: SpineUpdate,
) -> bool {
    forall|
        m: Map<Digest, FetchedView<CatalogNodeView>>,
        m2: Map<Digest, FetchedView<CatalogNodeView>>,
    |
        #![trigger extends(m, t), stored(m2, ups, MAX_CATALOG_NODE_OBJECT_BYTES as nat)]
        extends(m, t) && extends(m2, m) && stored(m2, ups, MAX_CATALOG_NODE_OBJECT_BYTES as nat)
            && tree(m, d, h) is Some ==> update_holds(m2, u, h, tree(m, d, h)->0.push(chunk))
}

/// Whether the trees of height `h` that `u` describes have the chunks `refs`.
spec fn update_holds(
    m: Map<Digest, FetchedView<CatalogNodeView>>,
    u: SpineUpdate,
    h: nat,
    refs: Seq<CatalogChunkRef>,
) -> bool {
    match u {
        SpineUpdate::Grown { node } => tree(m, node.digest, h) == Some(refs) && covers(node, refs),
        SpineUpdate::Split { left, right } => forest(m, seq![left, right], h) == Some(refs),
    }
}

/// What an update covers.
spec fn update_span(u: SpineUpdate) -> (u64, u64) {
    match u {
        SpineUpdate::Grown { node } => (node.first_seq, node.last_seq),
        SpineUpdate::Split { left, right } => (left.first_seq, right.last_seq),
    }
}

/// Whether the parts of an update can stand in a branch.
spec fn update_ok(u: SpineUpdate) -> bool {
    match u {
        SpineUpdate::Grown { node } => child_ok(node),
        SpineUpdate::Split { left, right } => child_ok(left) && child_ok(right)
            && right.first_seq == left.last_seq + 1,
    }
}

fn child_from_leaf(digest: Digest, refs: &Vec<CatalogChunkRef>) -> (r: CatalogChild)
    requires
        leaf_ok(refs@),
    ensures
        r.digest == digest,
        covers(r, refs@),
        child_ok(r),
{
    proof {
        lemma_leaf_room(refs@, refs@.len() as int);
    }
    CatalogChild {
        first_seq: refs[0].first_seq,
        last_seq: refs[refs.len() - 1].last_seq,
        chunk_count: refs.len() as u64,
        digest,
    }
}

/// Contiguous chunks cover at least as many sequences as there are chunks.
proof fn lemma_leaf_room(refs: Seq<CatalogChunkRef>, n: int)
    requires
        refs_contiguous(refs),
        0 < n <= refs.len(),
    ensures
        refs[n - 1].last_seq >= refs[0].first_seq + n - 1,
        1 <= refs[0].first_seq,
    decreases n,
{
    assert(ref_ok(refs[0]));
    assert(ref_ok(refs[n - 1]));
    if n > 1 {
        lemma_leaf_room(refs, n - 1);
        assert(refs[n - 1].first_seq == refs[n - 2].last_seq + 1);
    }
}

/// The subtree of a branch with the given children.
fn child_from_branch(digest: Digest, children: &Vec<CatalogChild>, Ghost(h): Ghost<int>) -> (r:
    CatalogChild)
    requires
        branch_ok(children@, h),
    ensures
        r.digest == digest,
        r.first_seq == children@[0].first_seq,
        r.last_seq == children@.last().last_seq,
        r.chunk_count == chunk_sum(children@),
        child_ok(r),
{
    let mut count: u64 = 0;
    let mut i: usize = 0;
    assert(child_ok(children@[0]));
    while i < children.len()
        invariant
            i <= children@.len(),
            branch_ok(children@, h),
            count == chunk_sum(children@.take(i as int)),
            i > 0 ==> 1 <= count <= children@[i - 1].last_seq - children@[0].first_seq + 1,
            i > 0 ==> children@[i - 1].last_seq >= children@[0].first_seq,
            i == 0 ==> count == 0,
        decreases children@.len() - i,
    {
        assert(child_ok(children@[i as int]));
        if i > 0 {
            assert(children@[i as int].first_seq == children@[i - 1].last_seq + 1);
        }
        assert(children@.take(i + 1).drop_last() =~= children@.take(i as int));
        count = count + children[i].chunk_count;
        i = i + 1;
    }
    assert(children@.take(i as int) =~= children@);
    CatalogChild {
        first_seq: children[0].first_seq,
        last_seq: children[children.len() - 1].last_seq,
        chunk_count: count,
        digest,
    }
}

/// Checks `node`, gives it its digest and sets it aside to be stored.
pub fn put_node<F: Fn(&CatalogNode) -> Result<Digest>>(
    address: &F,
    node: CatalogNode,
    uploads: &mut Vec<(Digest, CatalogNode)>,
) -> (r: Result<Digest>)
    requires
        forall|n: &CatalogNode| call_requires(*address, (n,)),
        addressed(*address, old(uploads)@),
    ensures
        addressed(*address, final(uploads)@),
        match r {
            Ok(d) => node_ok(node@) && final(uploads)@ == old(uploads)@.push((d, node)),
            Err(e) => final(uploads)@ == old(uploads)@ && if node_ok(node@) {
                call_ensures(*address, (&node,), Err(e))
            } else {
                e@ == ErrorView::IntegrityError(node_fault(node@)->0)
            },
        },
{
    match validate_node(&node) {
        Err(e) => Err(e),
        Ok(_) => put_object(address, node, uploads),
    }
}

fn copy_refs(refs: &Vec<CatalogChunkRef>) -> (r: Vec<CatalogChunkRef>)
    ensures
        r@ == refs@,
{
    let mut out: Vec<CatalogChunkRef> = Vec::new();
    let mut i: usize = 0;
    while i < refs.len()
        invariant
            i <= refs@.len(),
            out@ == refs@.take(i as int),
        decreases refs@.len() - i,
    {
        out.push(refs[i]);
        assert(refs@.take(i + 1) =~= refs@.take(i as int).push(refs@[i as int]));
        i = i + 1;
    }
    assert(refs@.take(i as int) =~= refs@);
    out
}

/// The first `n` of `children`.
fn copy_children(children: &Vec<CatalogChild>, n: usize) -> (r: Vec<CatalogChild>)
    requires
        n <= children@.len(),
    ensures
        r@ == children@.take(n as int),
{
    let mut out: Vec<CatalogChild> = Vec::new();
    let mut i: usize = 0;
    while i < n
        invariant
            i <= n <= children@.len(),
            out@ == children@.take(i as int),
        decreases n - i,
    {
        out.push(children[i]);
        assert(children@.take(i + 1) =~= children@.take(i as int).push(children@[i as int]));
        i = i + 1;
    }
    out
}

/// What an append to the tree of height `h` at `d` gives.
spec fn append_outcome<F: Fn(&CatalogNode) -> Result<Digest>>(
    address: F,
    t: Map<Digest, FetchedView<CatalogNodeView>>,
    ups: Seq<(Digest, CatalogNode)>,
    d: Digest,
    h: nat,
    chunk: CatalogChunkRef,
    r: Result<Step<SpineUpdate>>,
) -> bool {
    match spine(t, d, h) {
        Spine::Fetch(n) => r matches Ok(Step::Fetch(x)) && x == n,
        Spine::Fail(c) => r matches Err(e) && e@ == c,
        Spine::Known => match r {
            Ok(Step::Fetch(_)) => false,
            Ok(Step::Done(u)) => {
                &&& appended(t, uploads_view(ups), d, h, chunk, u)
                &&& update_ok(u)
                &&& edge_agrees(t, d, h, (chunk.first_seq - 1) as u64) ==> (load(t, d) matches
                    CatalogLoad::Node(n) && update_span(u).0 == own_first(n))
                &&& update_span(u).1 == chunk.last_seq
                &&& (u is Split <==> edge_full(t, d, h))
                &&& growth(t, d, h, chunk) matches Growth::Parts(parts) && all_alike(
                    update_parts(u),
                    parts,
                )
            },
            Err(e) => {
                ||| exists|n: &CatalogNode|
                    edge_writes(t, d, h, chunk, n@) && #[trigger] call_ensures(
                        address,
                        (n,),
                        Err(e),
                    )
                ||| growth(t, d, h, chunk) == Growth::Fail(e@)
            },
        },
    }
}

fn append_at<F: Fn(&CatalogNode) -> Result<Digest>>(
    address: &F,
    table: &Table<CatalogNode>,
    digest: &Digest,
    height: u8,
    chunk: CatalogChunkRef,
    uploads: &mut Vec<(Digest, CatalogNode)>,
) -> (r: Result<Step<SpineUpdate>>)
    requires
        forall|n: &CatalogNode| call_requires(*address, (n,)),
        addressed(*address, old(uploads)@),
        ref_ok(chunk),
    ensures
        addressed(*address, final(uploads)@),
        append_outcome(*address, table@, final(uploads)@, *digest, height as nat, chunk, r),
    decreases height,
{
    let node: &CatalogNode = match load_node(table, digest) {
        Err(e) => {
            return Err(e);
        },
        Ok(None) => {
            return Ok(Step::Fetch(*digest));
        },
        Ok(Some(n)) => n,
    };
    match node {
        CatalogNode::Leaf { refs, .. } => {
            if height != 0 {
                return Err(integrity("catalog leaf reached at nonzero height"));
            }
            append_to_leaf(address, Ghost(table@), digest, refs, chunk, uploads)
        },
        CatalogNode::Branch { height: h, children, .. } => {
            if *h != height {
                let m: String = join4(
                    "catalog branch height ",
                    &decimal_text(*h as u64),
                    " disagrees with parent ",
                    &decimal_text(height as u64),
                );
                return Err(CoreError::IntegrityError(m));
            }
            let last: CatalogChild = children[children.len() - 1];
            let below: SpineUpdate = match append_at(
                address,
                table,
                &last.digest,
                height - 1,
                chunk,
                uploads,
            ) {
                Err(e) => {
                    return Err(e);
                },
                Ok(Step::Fetch(d)) => {
                    return Ok(Step::Fetch(d));
                },
                Ok(Step::Done(u)) => u,
            };
            append_to_branch(
                address,
                Ghost(table@),
                digest,
                height,
                children,
                below,
                Ghost(chunk),
                uploads,
            )
        },
    }
}

/// Puts `chunk` behind the chunks of a leaf.
fn append_to_leaf<F: Fn(&CatalogNode) -> Result<Digest>>(
    address: &F,
    Ghost(t): Ghost<Map<Digest, FetchedView<CatalogNodeView>>>,
    digest: &Digest,
    refs: &Vec<CatalogChunkRef>,
    chunk: CatalogChunkRef,
    uploads: &mut Vec<(Digest, CatalogNode)>,
) -> (r: Result<Step<SpineUpdate>>)
    requires
        forall|n: &CatalogNode| call_requires(*address, (n,)),
        addressed(*address, old(uploads)@),
        ref_ok(chunk),
        load(t, *digest) == CatalogLoad::Node(CatalogNodeView::Leaf { refs: refs@ }),
    ensures
        addressed(*address, final(uploads)@),
        append_outcome(*address, t, final(uploads)@, *digest, 0, chunk, r),
{
    assert(leaf_ok(refs@));
    proof {
        reveal(made);
    }
    if refs.len() < MAX_CATALOG_ITEMS {
        let mut grown: Vec<CatalogChunkRef> = copy_refs(refs);
        grown.push(chunk);
        let ghost all = grown@;
        assert(all == refs@.push(chunk));
        proof {
            if chunk.first_seq == refs@.last().last_seq + 1 {
                lemma_push_contiguous(refs@, chunk);
            }
        }
        let kept: Vec<CatalogChunkRef> = copy_refs(&grown);
        match put_node(
            address,
            CatalogNode::Leaf { schema: CatalogSchemaV1::V1, refs: grown },
            uploads,
        ) {
            Err(e) => Err(e),
            Ok(d) => {
                let c: CatalogChild = child_from_leaf(d, &kept);
                let ghost u = SpineUpdate::Grown { node: c };
                proof {
                    let ups = uploads_view(uploads@);
                    assert(all[0] == refs@[0]);
                    assert(all.last() == chunk);
                    assert forall|
                        m: Map<Digest, FetchedView<CatalogNodeView>>,
                        m2: Map<Digest, FetchedView<CatalogNodeView>>,
                    |
                        extends(m, t) && extends(m2, m) && stored(
                            m2,
                            ups,
                            MAX_CATALOG_NODE_OBJECT_BYTES as nat,
                        ) && tree(m, *digest, 0) is Some implies update_holds(
                        m2,
                        u,
                        0,
                        tree(m, *digest, 0)->0.push(chunk),
                    ) by {
                        assert(t.contains_key(*digest));
                        assert(uploads@.take(uploads@.len() as int) =~= uploads@);
                        lemma_stored_prefix(
                            m2,
                            uploads@,
                            uploads@,
                            MAX_CATALOG_NODE_OBJECT_BYTES as nat,
                        );
                        assert(m2.contains_key(uploads@.last().0));
                        assert(load(m2, d) == CatalogLoad::Node(
                            CatalogNodeView::Leaf { refs: all },
                        ));
                    }
                }
                Ok(Step::Done(SpineUpdate::Grown { node: c }))
            },
        }
    } else {
        let mut right: Vec<CatalogChunkRef> = Vec::new();
        right.push(chunk);
        let kept: Vec<CatalogChunkRef> = copy_refs(&right);
        assert(leaf_ok(kept@));
        match put_node(
            address,
            CatalogNode::Leaf { schema: CatalogSchemaV1::V1, refs: right },
            uploads,
        ) {
            Err(e) => Err(e),
            Ok(d) => {
                let left: CatalogChild = child_from_leaf(*digest, refs);
                let fresh: CatalogChild = child_from_leaf(d, &kept);
                if left.last_seq == u64::MAX || fresh.first_seq != left.last_seq + 1 {
                    return Err(integrity("catalog child ranges are gapped or overlapping"));
                }
                let ghost u = SpineUpdate::Split { left, right: fresh };
                proof {
                    let ups = uploads_view(uploads@);
                    assert forall|
                        m: Map<Digest, FetchedView<CatalogNodeView>>,
                        m2: Map<Digest, FetchedView<CatalogNodeView>>,
                    |
                        extends(m, t) && extends(m2, m) && stored(
                            m2,
                            ups,
                            MAX_CATALOG_NODE_OBJECT_BYTES as nat,
                        ) && tree(m, *digest, 0) is Some implies update_holds(
                        m2,
                        u,
                        0,
                        tree(m, *digest, 0)->0.push(chunk),
                    ) by {
                        assert(t.contains_key(*digest));
                        assert(m.contains_key(*digest));
                        assert(uploads@.take(uploads@.len() as int) =~= uploads@);
                        lemma_stored_prefix(
                            m2,
                            uploads@,
                            uploads@,
                            MAX_CATALOG_NODE_OBJECT_BYTES as nat,
                        );
                        assert(m2.contains_key(uploads@.last().0));
                        assert(tree(m2, *digest, 0) == Some(refs@));
                        assert(load(m2, d) == CatalogLoad::Node(
                            CatalogNodeView::Leaf { refs: kept@ },
                        ));
                        assert(tree(m2, d, 0) == Some(kept@));
                        lemma_forest_pair(m2, left, fresh, 0);
                        assert(refs@ + kept@ =~= refs@.push(chunk));
                    }
                }
                Ok(Step::Done(SpineUpdate::Split { left, right: fresh }))
            },
        }
    }
}

proof fn lemma_push_contiguous(refs: Seq<CatalogChunkRef>, chunk: CatalogChunkRef)
    requires
        refs.len() > 0,
        refs_contiguous(refs),
        ref_ok(chunk),
        chunk.first_seq == refs.last().last_seq + 1,
    ensures
        refs_contiguous(refs.push(chunk)),
{
    let all = refs.push(chunk);
    assert forall|i: int| 0 <= i < all.len() implies ref_ok(#[trigger] all[i]) by {
        if i < refs.len() {
            assert(all[i] == refs[i]);
        }
    }
    assert forall|i: int| 0 < i < all.len() implies (#[trigger] all[i]).first_seq == all[i
        - 1].last_seq + 1 by {
        if i < refs.len() {
            assert(all[i] == refs[i] && all[i - 1] == refs[i - 1]);
        }
    }
}

proof fn lemma_forest_push(
    m: Map<Digest, FetchedView<CatalogNodeView>>,
    children: Seq<CatalogChild>,
    c: CatalogChild,
    h: nat,
)
    requires
        forest(m, children, h) is Some,
        tree(m, c.digest, h) is Some,
        covers(c, tree(m, c.digest, h)->0),
    ensures
        forest(m, children.push(c), h) == Some(forest(m, children, h)->0 + tree(m, c.digest, h)->0),
{
    assert(children.push(c).drop_last() =~= children);
}

proof fn lemma_forest_pair(
    m: Map<Digest, FetchedView<CatalogNodeView>>,
    left: CatalogChild,
    right: CatalogChild,
    h: nat,
)
    ensures
        forest(m, seq![left, right], h) is Some <==> {
            &&& tree(m, left.digest, h) matches Some(a)
            &&& tree(m, right.digest, h) matches Some(b)
            &&& covers(left, a)
            &&& covers(right, b)
        },
        forest(m, seq![left, right], h) is Some ==> forest(m, seq![left, right], h)->0 == tree(
            m,
            left.digest,
            h,
        )->0 + tree(m, right.digest, h)->0,
{
    let both = seq![left, right];
    assert(both.drop_last() =~= seq![left]);
    assert(seq![left].drop_last() =~= Seq::<CatalogChild>::empty());
    reveal_with_fuel(forest, 3);
    if tree(m, left.digest, h) is Some {
        assert(Seq::<CatalogChunkRef>::empty() + tree(m, left.digest, h)->0 =~= tree(
            m,
            left.digest,
            h,
        )->0);
    }
}

/// Puts the update of the last child in its place.
#[verifier::spinoff_prover]
#[verifier::rlimit(40)]
fn append_to_branch<F: Fn(&CatalogNode) -> Result<Digest>>(
    address: &F,
    Ghost(t): Ghost<Map<Digest, FetchedView<CatalogNodeView>>>,
    digest: &Digest,
    h: u8,
    children: &Vec<CatalogChild>,
    below: SpineUpdate,
    Ghost(chunk): Ghost<CatalogChunkRef>,
    uploads: &mut Vec<(Digest, CatalogNode)>,
) -> (r: Result<Step<SpineUpdate>>)
    requires
        forall|n: &CatalogNode| call_requires(*address, (n,)),
        addressed(*address, old(uploads)@),
        ref_ok(chunk),
        h > 0,
        load(t, *digest) == CatalogLoad::Node(
            CatalogNodeView::Branch { height: h, children: children@ },
        ),
        append_outcome(
            *address,
            t,
            old(uploads)@,
            children@.last().digest,
            (h - 1) as nat,
            chunk,
            Ok(Step::Done(below)),
        ),
        spine(t, children@.last().digest, (h - 1) as nat) is Known,
    ensures
        addressed(*address, final(uploads)@),
        append_outcome(*address, t, final(uploads)@, *digest, h as nat, chunk, r),
{
    assert(branch_ok(children@, h as int));
    let n: usize = children.len();
    let ghost init = children@.drop_last();
    let ghost before = uploads@;
    match below {
        SpineUpdate::Grown { node: c } => {
            let mut fresh: Vec<CatalogChild> = copy_children(children, n - 1);
            assert(fresh@ =~= init);
            fresh.push(c);
            let ghost all = fresh@;
            let kept: Vec<CatalogChild> = copy_children(&fresh, fresh.len());
            assert(kept@ =~= all);
            proof {
                if c.first_seq == children@.last().first_seq {
                    lemma_replace_ok(children@, c, h as int);
                }
                assert(all =~= init + update_parts(below));
                lemma_branch_growth(
                    children@,
                    h,
                    growth(t, children@.last().digest, (h - 1) as nat, chunk)->Parts_0,
                    update_parts(below),
                    *digest,
                );
            }
            match put_node(
                address,
                CatalogNode::Branch { schema: CatalogSchemaV1::V1, height: h, children: fresh },
                uploads,
            ) {
                Err(e) => Err(e),
                Ok(d) => {
                    let node: CatalogChild = child_from_branch(d, &kept, Ghost(h as int));
                    proof {
                        assert(uploads@.take(before.len() as int) =~= before);
                        assert(all =~= init + update_parts(below));
                        lemma_branch_update(
                            t,
                            before,
                            uploads@,
                            *digest,
                            h as nat,
                            children@,
                            chunk,
                            below,
                            d,
                            all,
                            node,
                        );
                    }
                    Ok(Step::Done(SpineUpdate::Grown { node }))
                },
            }
        },
        SpineUpdate::Split { left, right } => {
            if n < MAX_CATALOG_ITEMS {
                let mut fresh: Vec<CatalogChild> = copy_children(children, n - 1);
                assert(fresh@ =~= init);
                fresh.push(left);
                fresh.push(right);
                let ghost all = fresh@;
                let kept: Vec<CatalogChild> = copy_children(&fresh, fresh.len());
                assert(kept@ =~= all);
                proof {
                    if left.first_seq == children@.last().first_seq {
                        lemma_replace_ok(children@, left, h as int);
                        lemma_append_ok(init.push(left), right, h as int);
                    }
                    assert(all =~= init + update_parts(below));
                    lemma_branch_growth(
                        children@,
                        h,
                        growth(t, children@.last().digest, (h - 1) as nat, chunk)->Parts_0,
                        update_parts(below),
                        *digest,
                    );
                }
                match put_node(
                    address,
                    CatalogNode::Branch {
                        schema: CatalogSchemaV1::V1,
                        height: h,
                        children: fresh,
                    },
                    uploads,
                ) {
                    Err(e) => Err(e),
                    Ok(d) => {
                        let node: CatalogChild = child_from_branch(d, &kept, Ghost(h as int));
                        proof {
                            assert(uploads@.take(before.len() as int) =~= before);
                            assert(all =~= init + update_parts(below));
                            lemma_branch_update(
                                t,
                                before,
                                uploads@,
                                *digest,
                                h as nat,
                                children@,
                                chunk,
                                below,
                                d,
                                all,
                                node,
                            );
                        }
                        Ok(Step::Done(SpineUpdate::Grown { node }))
                    },
                }
            } else {
                if h >= MAX_CATALOG_HEIGHT {
                    return Err(rejected("catalog height exceeded"));
                }
                split_branch(
                    address,
                    Ghost(t),
                    digest,
                    h,
                    children,
                    left,
                    right,
                    Ghost(chunk),
                    uploads,
                )
            }
        },
    }
}

/// What is wrong with a branch does not depend on digests.
proof fn lemma_fault_alike(a: Seq<CatalogChild>, b: Seq<CatalogChild>, height: u8)
    requires
        all_alike(a, b),
    ensures
        ({
            let x = CatalogNodeView::Branch { height, children: a };
            let y = CatalogNodeView::Branch { height, children: b };
            &&& node_ok(x) == node_ok(y)
            &&& node_fault(x) == node_fault(y)
            &&& a.len() > 0 ==> alike(described(x, a[0].digest), described(y, b[0].digest))
        }),
{
    reveal(node_fault);
    lemma_children_fault_alike(a, b, 0);
    lemma_sum_alike(a, b);
    assert(forall|i: int| 0 <= i < a.len() ==> alike(#[trigger] a[i], b[i]));
    assert forall|i: int| 0 <= i < b.len() implies child_ok(#[trigger] b[i]) == child_ok(a[i]) by {
        assert(alike(a[i], b[i]));
    }
    let x = CatalogNodeView::Branch { height, children: a };
    let y = CatalogNodeView::Branch { height, children: b };
    if node_ok(x) {
        assert forall|i: int| 0 < i < b.len() implies (#[trigger] b[i]).first_seq == b[i
            - 1].last_seq + 1 by {
            assert(alike(a[i], b[i]) && alike(a[i - 1], b[i - 1]));
            assert(a[i].first_seq == a[i - 1].last_seq + 1);
        }
    }
    if node_ok(y) {
        assert forall|i: int| 0 < i < a.len() implies (#[trigger] a[i]).first_seq == a[i
            - 1].last_seq + 1 by {
            assert(alike(a[i], b[i]) && alike(a[i - 1], b[i - 1]));
            assert(b[i].first_seq == b[i - 1].last_seq + 1);
        }
    }
    if a.len() > 0 {
        assert(alike(a[0], b[0]) && alike(a[a.len() - 1], b[b.len() - 1]));
    }
}

proof fn lemma_children_fault_alike(a: Seq<CatalogChild>, b: Seq<CatalogChild>, i: nat)
    requires
        all_alike(a, b),
    ensures
        children_fault(a, i) == children_fault(b, i),
    decreases a.len() - i,
{
    if i < a.len() {
        assert(alike(a[i as int], b[i as int]));
        if i > 0 {
            assert(alike(a[i - 1], b[i - 1]));
        }
        lemma_children_fault_alike(a, b, i + 1);
    }
}

proof fn lemma_sum_alike(a: Seq<CatalogChild>, b: Seq<CatalogChild>)
    requires
        all_alike(a, b),
    ensures
        chunk_sum(a) == chunk_sum(b),
    decreases a.len(),
{
    if a.len() > 0 {
        assert(alike(a[a.len() - 1], b[b.len() - 1]));
        assert forall|i: int| 0 <= i < a.drop_last().len() implies alike(
            #[trigger] a.drop_last()[i],
            b.drop_last()[i],
        ) by {
            assert(alike(a[i], b[i]));
        }
        lemma_sum_alike(a.drop_last(), b.drop_last());
    }
}

/// Replacing the last child by one that begins where it began keeps a
/// branch in order.
proof fn lemma_replace_ok(children: Seq<CatalogChild>, c: CatalogChild, h: int)
    requires
        branch_ok(children, h),
        child_ok(c),
        c.first_seq == children.last().first_seq,
    ensures
        branch_ok(children.drop_last().push(c), h),
{
    let all = children.drop_last().push(c);
    assert forall|i: int| 0 <= i < all.len() implies child_ok(#[trigger] all[i]) by {
        if i < all.len() - 1 {
            assert(all[i] == children[i]);
        }
    }
    assert forall|i: int| 0 < i < all.len() implies (#[trigger] all[i]).first_seq == all[i
        - 1].last_seq + 1 by {
        assert(children[i].first_seq == children[i - 1].last_seq + 1);
    }
}

proof fn lemma_append_ok(children: Seq<CatalogChild>, c: CatalogChild, h: int)
    requires
        branch_ok(children, h),
        children.len() < MAX_CATALOG_ITEMS,
        child_ok(c),
        c.first_seq == children.last().last_seq + 1,
    ensures
        branch_ok(children.push(c), h),
{
    let all = children.push(c);
    assert forall|i: int| 0 <= i < all.len() implies child_ok(#[trigger] all[i]) by {
        if i < children.len() {
            assert(all[i] == children[i]);
        }
    }
    assert forall|i: int| 0 < i < all.len() implies (#[trigger] all[i]).first_seq == all[i
        - 1].last_seq + 1 by {
        if i < children.len() {
            assert(all[i] == children[i] && all[i - 1] == children[i - 1]);
        }
    }
}

/// The parts of an update in a row.
spec fn update_parts(u: SpineUpdate) -> Seq<CatalogChild> {
    match u {
        SpineUpdate::Grown { node } => seq![node],
        SpineUpdate::Split { left, right } => seq![left, right],
    }
}

/// A branch whose last child was replaced by its update has the chunk.
#[verifier::spinoff_prover]
#[verifier::rlimit(40)]
proof fn lemma_branch_update(
    t: Map<Digest, FetchedView<CatalogNodeView>>,
    before: Seq<(Digest, CatalogNode)>,
    after: Seq<(Digest, CatalogNode)>,
    digest: Digest,
    h: nat,
    children: Seq<CatalogChild>,
    chunk: CatalogChunkRef,
    below: SpineUpdate,
    d: Digest,
    all: Seq<CatalogChild>,
    node: CatalogChild,
)
    requires
        0 < h <= u8::MAX,
        load(t, digest) == CatalogLoad::Node(
            CatalogNodeView::Branch { height: h as u8, children },
        ),
        appended(
            t,
            uploads_view(before),
            children.last().digest,
            (h - 1) as nat,
            chunk,
            below,
        ),
        after.len() == before.len() + 1,
        after.take(before.len() as int) == before,
        after.last().0 == d,
        after.last().1@ == (CatalogNodeView::Branch { height: h as u8, children: all }),
        all == children.drop_last() + update_parts(below),
        branch_ok(all, h as int),
        children.len() > 0,
        node.digest == d,
        node.first_seq == all[0].first_seq,
        node.last_seq == all.last().last_seq,
        node.chunk_count == chunk_sum(all),
    ensures
        appended(t, uploads_view(after), digest, h, chunk, (SpineUpdate::Grown { node })),
{
    let ups = uploads_view(after);
    let u = SpineUpdate::Grown { node };
    let max = MAX_CATALOG_NODE_OBJECT_BYTES as nat;
    let hc = (h - 1) as nat;
    assert forall|
        m: Map<Digest, FetchedView<CatalogNodeView>>,
        m2: Map<Digest, FetchedView<CatalogNodeView>>,
    |
        extends(m, t) && extends(m2, m) && stored(m2, ups, max) && tree(m, digest, h) is Some implies update_holds(
        m2,
        u,
        h,
        tree(m, digest, h)->0.push(chunk),
    ) by {
        assert(t.contains_key(digest));
        lemma_stored_prefix(m2, before, after, max);
        assert(m2.contains_key(after.last().0));
        assert(load(m2, d) == CatalogLoad::Node(
            CatalogNodeView::Branch { height: h as u8, children: all },
        ));
        assert(tree(m, digest, h) == forest(m, children, hc));
        lemma_forest_more_known(m, m2, children.drop_last(), hc);
        assert(stored(m2, uploads_view(before), max));
        assert(update_holds(
            m2,
            below,
            hc,
            tree(m, children.last().digest, hc)->0.push(chunk),
        ));
        let a = forest(m, children.drop_last(), hc)->0;
        let b = tree(m, children.last().digest, hc)->0;
        match below {
            SpineUpdate::Grown { node: c } => {
                assert(all =~= children.drop_last().push(c));
                lemma_forest_push(m2, children.drop_last(), c, hc);
            },
            SpineUpdate::Split { left, right } => {
                lemma_forest_pair(m2, left, right, hc);
                let init = children.drop_last();
                assert(all =~= init.push(left).push(right));
                lemma_forest_push(m2, init, left, hc);
                lemma_forest_push(m2, init.push(left), right, hc);
                assert(a + tree(m2, left.digest, hc)->0 + tree(m2, right.digest, hc)->0 =~= a + (
                tree(m2, left.digest, hc)->0 + tree(m2, right.digest, hc)->0));
            },
        }
        assert(a + b.push(chunk) =~= (a + b).push(chunk));
        lemma_forest_span(m2, all, hc);
    }
}

/// A branch that was split behind the left half of its last child has the
/// chunk in its two parts.
proof fn lemma_branch_split(
    t: Map<Digest, FetchedView<CatalogNodeView>>,
    before: Seq<(Digest, CatalogNode)>,
    after: Seq<(Digest, CatalogNode)>,
    digest: Digest,
    h: nat,
    children: Seq<CatalogChild>,
    chunk: CatalogChunkRef,
    left: CatalogChild,
    right: CatalogChild,
    l: CatalogChild,
    r: CatalogChild,
)
    requires
        0 < h <= u8::MAX,
        children.len() > 0,
        load(t, digest) == CatalogLoad::Node(
            CatalogNodeView::Branch { height: h as u8, children },
        ),
        appended(
            t,
            uploads_view(before),
            children.last().digest,
            (h - 1) as nat,
            chunk,
            (SpineUpdate::Split { left, right }),
        ),
        after.len() == before.len() + 2,
        after.take(before.len() as int) == before,
        after[before.len() as int].0 == l.digest,
        after[before.len() as int].1@ == (CatalogNodeView::Branch {
            height: h as u8,
            children: children.drop_last().push(left),
        }),
        after[before.len() as int + 1].0 == r.digest,
        after[before.len() as int + 1].1@ == (CatalogNodeView::Branch {
            height: h as u8,
            children: Seq::<CatalogChild>::empty().push(right),
        }),
        branch_ok(children.drop_last().push(left), h as int),
        branch_ok(Seq::<CatalogChild>::empty().push(right), h as int),
        l.first_seq == children.drop_last().push(left)[0].first_seq,
        l.last_seq == left.last_seq,
        l.chunk_count == chunk_sum(children.drop_last().push(left)),
        r.first_seq == right.first_seq,
        r.last_seq == right.last_seq,
        r.chunk_count == chunk_sum(Seq::<CatalogChild>::empty().push(right)),
    ensures
        appended(
            t,
            uploads_view(after),
            digest,
            h,
            chunk,
            (SpineUpdate::Split { left: l, right: r }),
        ),
{
    let u = SpineUpdate::Split { left: l, right: r };
    let ups = uploads_view(after);
    let max = MAX_CATALOG_NODE_OBJECT_BYTES as nat;
    let hc = (h - 1) as nat;
    let init = children.drop_last();
    let lall = init.push(left);
    let rall = Seq::<CatalogChild>::empty().push(right);
    assert forall|
        m: Map<Digest, FetchedView<CatalogNodeView>>,
        m2: Map<Digest, FetchedView<CatalogNodeView>>,
    |
        extends(m, t) && extends(m2, m) && stored(m2, ups, max) && tree(m, digest, h) is Some implies update_holds(
        m2,
        u,
        h,
        tree(m, digest, h)->0.push(chunk),
    ) by {
        assert(t.contains_key(digest));
        lemma_stored_prefix(m2, before, after, max);
        let k = before.len() as int;
        assert(m2.contains_key(after[k].0));
        assert(m2.contains_key(after[k + 1].0));
        assert(load(m2, l.digest) == CatalogLoad::Node(
            CatalogNodeView::Branch { height: h as u8, children: lall },
        ));
        assert(load(m2, r.digest) == CatalogLoad::Node(
            CatalogNodeView::Branch { height: h as u8, children: rall },
        ));
        assert(tree(m, digest, h) == forest(m, children, hc));
        lemma_forest_more_known(m, m2, init, hc);
        assert(stored(m2, uploads_view(before), max));
        assert(update_holds(
            m2,
            SpineUpdate::Split { left, right },
            hc,
            tree(m, children.last().digest, hc)->0.push(chunk),
        ));
        lemma_forest_pair(m2, left, right, hc);
        let a = forest(m, init, hc)->0;
        let b = tree(m, children.last().digest, hc)->0;
        let x = tree(m2, left.digest, hc)->0;
        let y = tree(m2, right.digest, hc)->0;
        lemma_forest_push(m2, init, left, hc);
        lemma_forest_push(m2, Seq::empty(), right, hc);
        assert(Seq::<CatalogChunkRef>::empty() + y =~= y);
        lemma_forest_span(m2, lall, hc);
        lemma_forest_span(m2, rall, hc);
        lemma_forest_pair(m2, l, r, h);
        assert((a + x) + y =~= a + (x + y));
        assert(a + b.push(chunk) =~= (a + b).push(chunk));
    }
}

proof fn lemma_made_alike(a: Seq<CatalogChild>, b: Seq<CatalogChild>, height: u8, d: Digest)
    requires
        all_alike(a, b),
        a.len() > 0,
    ensures
        ({
            let x = CatalogNodeView::Branch { height, children: a };
            let y = CatalogNodeView::Branch { height, children: b };
            &&& node_ok(x) <==> made(y, d) is Parts
            &&& made(y, d) matches Growth::Parts(p) ==> p.len() == 1 && alike(described(x, d), p[0])
            &&& made(y, d) matches Growth::Fail(c) ==> c == ErrorView::IntegrityError(
                node_fault(x)->0,
            )
        }),
{
    reveal(made);
    lemma_fault_alike(a, b, height);
}

proof fn lemma_branch_writes(
    children: Seq<CatalogChild>,
    h: u8,
    parts: Seq<CatalogChild>,
    fresh: Seq<CatalogChild>,
)
    requires
        node_ok(CatalogNodeView::Branch { height: h, children: fresh }),
        if parts.len() == 1 || children.len() < MAX_CATALOG_ITEMS {
            carries(fresh, children.drop_last(), parts)
        } else {
            carries(fresh, children.drop_last(), seq![parts[0]]) || carries(
                fresh,
                Seq::empty(),
                seq![parts[1]],
            )
        },
    ensures
        branch_writes(
            children,
            h as nat,
            parts,
            (CatalogNodeView::Branch { height: h, children: fresh }),
        ),
{
    reveal(branch_writes);
}

/// What becomes of a branch that has room for what its last child became.
#[verifier::spinoff_prover]
proof fn lemma_branch_growth(
    children: Seq<CatalogChild>,
    h: u8,
    parts: Seq<CatalogChild>,
    fresh: Seq<CatalogChild>,
    d: Digest,
)
    requires
        children.len() > 0,
        fresh.len() > 0,
        all_alike(fresh, parts),
        parts.len() == 1 || children.len() < MAX_CATALOG_ITEMS,
    ensures
        ({
            let n = CatalogNodeView::Branch { height: h, children: children.drop_last() + fresh };
            &&& node_ok(n) ==> branch_writes(children, h as nat, parts, n)
            &&& match branch_growth(children, h as nat, parts, d) {
                Growth::Parts(p) => node_ok(n) && p.len() == 1 && alike(described(n, d), p[0]),
                Growth::Fail(c) => !node_ok(n) && c == ErrorView::IntegrityError(node_fault(n)->0),
            }
        }),
{
    let init = children.drop_last();
    let all = init + fresh;
    let n = CatalogNodeView::Branch { height: h, children: all };
    assert(carries(all, init, parts)) by {
        assert(all.take(init.len() as int) =~= init);
        assert(all.skip(init.len() as int) =~= fresh);
    }
    assert(all_alike(all, init + parts)) by {
        assert forall|i: int| 0 <= i < all.len() implies alike(
            #[trigger] all[i],
            (init + parts)[i],
        ) by {
            if i >= init.len() {
                assert(alike(fresh[i - init.len()], parts[i - init.len()]));
            }
        }
    }
    lemma_made_alike(all, init + parts, h, d);
    assert(node_ok(n) ==> branch_writes(children, h as nat, parts, n)) by {
        if node_ok(n) {
            lemma_branch_writes(children, h, parts, all);
        }
    }
}

/// What becomes of a full branch whose last child was split, and what is
/// written for it.
#[verifier::spinoff_prover]
proof fn lemma_split_growth(
    children: Seq<CatalogChild>,
    h: u8,
    parts: Seq<CatalogChild>,
    left: CatalogChild,
    right: CatalogChild,
    d: Digest,
)
    requires
        0 < h < MAX_CATALOG_HEIGHT,
        children.len() == MAX_CATALOG_ITEMS,
        all_alike(seq![left, right], parts),
    ensures
        ({
            let ln = CatalogNodeView::Branch { height: h, children: children.drop_last().push(left) };
            let rn = CatalogNodeView::Branch { height: h, children: seq![right] };
            &&& node_ok(ln) ==> branch_writes(children, h as nat, parts, ln)
            &&& node_ok(rn) ==> branch_writes(children, h as nat, parts, rn)
            &&& match branch_growth(children, h as nat, parts, d) {
                Growth::Parts(p) => {
                    &&& node_ok(ln)
                    &&& p.len() == 2
                    &&& alike(described(ln, d), p[0])
                    &&& alike(described(rn, d), p[1])
                },
                Growth::Fail(c) => !node_ok(ln) && c == ErrorView::IntegrityError(node_fault(ln)->0),
            }
        }),
{
    let both = seq![left, right];
    assert(alike(both[0], parts[0]) && alike(both[1], parts[1]));
    let init = children.drop_last();
    let lall = init.push(left);
    let rall = seq![right];
    let lpart = init.push(parts[0]);
    let ln = CatalogNodeView::Branch { height: h, children: lall };
    let rn = CatalogNodeView::Branch { height: h, children: rall };
    assert(carries(lall, init, seq![parts[0]])) by {
        assert(lall.take(init.len() as int) =~= init);
        assert(lall.skip(init.len() as int) =~= seq![left]);
    }
    assert(carries(rall, Seq::empty(), seq![parts[1]])) by {
        assert(rall.take(0) =~= Seq::<CatalogChild>::empty());
        assert(rall.skip(0) =~= seq![right]);
    }
    assert(all_alike(lall, lpart));
    assert(all_alike(rall, seq![parts[1]]));
    lemma_made_alike(lall, lpart, h, d);
    lemma_fault_alike(rall, seq![parts[1]], h);
    assert(node_ok(ln) ==> branch_writes(children, h as nat, parts, ln)) by {
        if node_ok(ln) {
            lemma_branch_writes(children, h, parts, lall);
        }
    }
    assert(node_ok(rn) ==> branch_writes(children, h as nat, parts, rn)) by {
        if node_ok(rn) {
            lemma_branch_writes(children, h, parts, rall);
        }
    }
}

/// Splits a full branch in two behind its last child.
#[verifier::spinoff_prover]
#[verifier::rlimit(40)]
fn split_branch<F: Fn(&CatalogNode) -> Result<Digest>>(
    address: &F,
    Ghost(t): Ghost<Map<Digest, FetchedView<CatalogNodeView>>>,
    digest: &Digest,
    h: u8,
    children: &Vec<CatalogChild>,
    left: CatalogChild,
    right: CatalogChild,
    Ghost(chunk): Ghost<CatalogChunkRef>,
    uploads: &mut Vec<(Digest, CatalogNode)>,
) -> (r: Result<Step<SpineUpdate>>)
    requires
        forall|n: &CatalogNode| call_requires(*address, (n,)),
        addressed(*address, old(uploads)@),
        ref_ok(chunk),
        0 < h < MAX_CATALOG_HEIGHT,
        children@.len() == MAX_CATALOG_ITEMS,
        load(t, *digest) == CatalogLoad::Node(
            CatalogNodeView::Branch { height: h, children: children@ },
        ),
        append_outcome(
            *address,
            t,
            old(uploads)@,
            children@.last().digest,
            (h - 1) as nat,
            chunk,
            Ok(Step::Done(SpineUpdate::Split { left, right })),
        ),
        spine(t, children@.last().digest, (h - 1) as nat) is Known,
    ensures
        addressed(*address, final(uploads)@),
        append_outcome(*address, t, final(uploads)@, *digest, h as nat, chunk, r),
{
    let ghost init = children@.drop_last();
    let ghost before = uploads@;
    let mut lefts: Vec<CatalogChild> = copy_children(children, children.len() - 1);
    assert(lefts@ =~= init);
    lefts.push(left);
    let ghost lall = lefts@;
    let lkept: Vec<CatalogChild> = copy_children(&lefts, lefts.len());
    assert(lkept@ =~= lall);
    let mut rights: Vec<CatalogChild> = Vec::new();
    rights.push(right);
    let ghost rall = rights@;
    let rkept: Vec<CatalogChild> = copy_children(&rights, rights.len());
    assert(rkept@ =~= rall);
    proof {
        if left.first_seq == children@.last().first_seq {
            lemma_replace_ok(children@, left, h as int);
        }
        assert(branch_ok(rall, h as int));
        assert(rall =~= seq![right]);
        lemma_split_growth(
            children@,
            h,
            growth(t, children@.last().digest, (h - 1) as nat, chunk)->Parts_0,
            left,
            right,
            *digest,
        );
    }
    let ld: Digest = match put_node(
        address,
        CatalogNode::Branch { schema: CatalogSchemaV1::V1, height: h, children: lefts },
        uploads,
    ) {
        Err(e) => {
            return Err(e);
        },
        Ok(d) => d,
    };
    let ghost mid = uploads@;
    let rd: Digest = match put_node(
        address,
        CatalogNode::Branch { schema: CatalogSchemaV1::V1, height: h, children: rights },
        uploads,
    ) {
        Err(e) => {
            return Err(e);
        },
        Ok(d) => d,
    };
    let l: CatalogChild = child_from_branch(ld, &lkept, Ghost(h as int));
    let r: CatalogChild = child_from_branch(rd, &rkept, Ghost(h as int));
    proof {
        assert(uploads@.take(before.len() as int) =~= before);
        assert(uploads@[before.len() as int] == mid[before.len() as int]);
        lemma_branch_split(
            t,
            before,
            uploads@,
            *digest,
            h as nat,
            children@,
            chunk,
            left,
            right,
            l,
            r,
        );
        assert(lall.last() == left);
        let parts = growth(t, *digest, h as nat, chunk)->Parts_0;
        assert(alike(l, parts[0]) && alike(r, parts[1]));
    }
    Ok(Step::Done(SpineUpdate::Split { left: l, right: r }))
}

/// A new version of a catalog, with the nodes to store for it. Each node
/// stands behind those that it refers to.
#[derive(Debug)]
pub struct CatalogAppend {
    pub state: CatalogState,
    pub uploads: Vec<(Digest, CatalogNode)>,
}

/// Whether `now` is the catalog `was`, read in `t`, with `chunk` behind it,
/// once `ups` is stored.
pub open spec fn extended(
    t: Map<Digest, FetchedView<CatalogNodeView>>,
    ups: Seq<(Digest, CatalogNodeView)>,
    was: CatalogState,
    now: CatalogState,
    chunk: CatalogChunkRef,
) -> bool {
    forall|
        m: Map<Digest, FetchedView<CatalogNodeView>>,
        m2: Map<Digest, FetchedView<CatalogNodeView>>,
    |
        #![trigger extends(m, t), stored(m2, ups, MAX_CATALOG_NODE_OBJECT_BYTES as nat)]
        extends(m, t) && extends(m2, m) && stored(m2, ups, MAX_CATALOG_NODE_OBJECT_BYTES as nat) && (
        contents(m, was) is Some) ==> contents(m2, now) == Some(contents(m, was)->0.push(chunk))
}

/// Where the next chunk of a catalog begins.
pub open spec fn next_seq(state: CatalogState) -> int {
    match state {
        CatalogState::Empty => 1,
        CatalogState::Root { root } => root.last_seq + 1,
    }
}

/// What is said of a chunk that does not start where a catalog ends.
pub open spec fn misplaced(state: CatalogState, first_seq: u64) -> Seq<char> {
    match state {
        CatalogState::Empty => "first catalog chunk must start at sequence 1"@,
        CatalogState::Root { root } => if root.last_seq == u64::MAX {
            "catalog sequence overflow"@
        } else {
            "catalog append "@ + decimal(first_seq as nat) + " is not contiguous after "@ + decimal(
                root.last_seq as nat,
            )
        },
    }
}

/// Why a chunk cannot follow what a catalog holds.
pub open spec fn append_refusal(state: CatalogState, chunk: CatalogChunkRef) -> Seq<char> {
    if ref_fault(chunk) is Some {
        ref_fault(chunk)->0
    } else {
        misplaced(state, chunk.first_seq)
    }
}

/// Appends one chunk. The right edge of the tree is copied; a full node
/// gets a sibling on its right, at most one on each level. Nothing is
/// stored; the new nodes come back with the new state.
pub fn append<F: Fn(&CatalogNode) -> Result<Digest>>(
    address: &F,
    table: &Table<CatalogNode>,
    state: &CatalogState,
    chunk: CatalogChunkRef,
) -> (r: Result<Step<CatalogAppend>>)
    requires
        forall|n: &CatalogNode| call_requires(*address, (n,)),
    ensures
        if !ref_ok(chunk) || chunk.first_seq != next_seq(*state) {
            r matches Err(e) && e@ == ErrorView::IntegrityError(append_refusal(*state, chunk))
        } else {
            let edge = match *state {
                CatalogState::Empty => Spine::Known,
                CatalogState::Root { root } => spine(table@, root.digest, root.height as nat),
            };
            match edge {
                Spine::Fetch(d) => r matches Ok(Step::Fetch(x)) && x == d,
                Spine::Fail(c) => r matches Err(e) && e@ == c,
                Spine::Known => match r {
                    Ok(Step::Fetch(_)) => false,
                    Ok(Step::Done(a)) => {
                        &&& addressed(*address, a.uploads@)
                        &&& extended(table@, uploads_view(a.uploads@), *state, a.state, chunk)
                        &&& a.state matches CatalogState::Root { root: now }
                        &&& catalog_growth(table@, *state, chunk) matches Growth::Parts(parts)
                            && all_alike(seq![root_child(now)], parts)
                        &&& now.last_seq == chunk.last_seq
                        &&& match *state {
                            CatalogState::Empty => now.height == 0,
                            CatalogState::Root { root } => now.height == root.height + if edge_full(
                                table@,
                                root.digest,
                                root.height as nat,
                            ) {
                                1int
                            } else {
                                0
                            },
                        }
                    },
                    Err(e) => append_failed(*address, table@, *state, chunk, e),
                },
            }
        },
{
    match validate_ref(&chunk) {
        Err(e) => {
            return Err(e);
        },
        Ok(_) => {},
    }
    let mut uploads: Vec<(Digest, CatalogNode)> = Vec::new();
    match state {
        CatalogState::Empty => {
            if chunk.first_seq != 1 {
                return Err(integrity("first catalog chunk must start at sequence 1"));
            }
            let mut refs: Vec<CatalogChunkRef> = Vec::new();
            refs.push(chunk);
            let ghost all = refs@;
            assert(leaf_ok(all));
            let d: Digest = match put_node(
                address,
                CatalogNode::Leaf { schema: CatalogSchemaV1::V1, refs },
                &mut uploads,
            ) {
                Err(e) => {
                    return Err(e);
                },
                Ok(d) => d,
            };
            let root: ChunkCatalogRoot = ChunkCatalogRoot {
                schema: CatalogSchemaV1::V1,
                digest: d,
                height: 0,
                first_seq: chunk.first_seq,
                last_seq: chunk.last_seq,
                chunk_count: 1,
            };
            proof {
                let ups = uploads_view(uploads@);
                let max = MAX_CATALOG_NODE_OBJECT_BYTES as nat;
                assert forall|
                    m: Map<Digest, FetchedView<CatalogNodeView>>,
                    m2: Map<Digest, FetchedView<CatalogNodeView>>,
                |
                    extends(m, table@) && extends(m2, m) && stored(m2, ups, max) && contents(
                        m,
                        *state,
                    ) is Some implies contents(m2, CatalogState::Root { root }) == Some(
                    contents(m, *state)->0.push(chunk),
                ) by {
                    assert(uploads@.take(uploads@.len() as int) =~= uploads@);
                    lemma_stored_prefix(m2, uploads@, uploads@, max);
                    assert(m2.contains_key(uploads@[0].0));
                    assert(load(m2, d) == CatalogLoad::Node(CatalogNodeView::Leaf { refs: all }));
                    assert(all =~= Seq::<CatalogChunkRef>::empty().push(chunk));
                }
            }
            Ok(Step::Done(CatalogAppend { state: CatalogState::Root { root }, uploads }))
        },
        CatalogState::Root { root } => {
            if root.last_seq == u64::MAX {
                return Err(integrity("catalog sequence overflow"));
            }
            if chunk.first_seq != root.last_seq + 1 {
                let m: String = join4(
                    "catalog append ",
                    &decimal_text(chunk.first_seq),
                    " is not contiguous after ",
                    &decimal_text(root.last_seq),
                );
                return Err(CoreError::IntegrityError(m));
            }
            let u: SpineUpdate = match append_at(
                address,
                table,
                &root.digest,
                root.height,
                chunk,
                &mut uploads,
            ) {
                Err(e) => {
                    return Err(e);
                },
                Ok(Step::Fetch(d)) => {
                    return Ok(Step::Fetch(d));
                },
                Ok(Step::Done(u)) => u,
            };
            match u {
                SpineUpdate::Grown { node } => {
                    let now: ChunkCatalogRoot = ChunkCatalogRoot {
                        schema: CatalogSchemaV1::V1,
                        digest: node.digest,
                        height: root.height,
                        first_seq: node.first_seq,
                        last_seq: node.last_seq,
                        chunk_count: node.chunk_count,
                    };
                    proof {
                        let ups = uploads_view(uploads@);
                        assert forall|
                            m: Map<Digest, FetchedView<CatalogNodeView>>,
                            m2: Map<Digest, FetchedView<CatalogNodeView>>,
                        |
                            extends(m, table@) && extends(m2, m) && stored(
                                m2,
                                ups,
                                MAX_CATALOG_NODE_OBJECT_BYTES as nat,
                            ) && contents(m, *state) is Some implies contents(
                            m2,
                            CatalogState::Root { root: now },
                        ) == Some(contents(m, *state)->0.push(chunk)) by {
                            assert(update_holds(
                                m2,
                                u,
                                root.height as nat,
                                tree(m, root.digest, root.height as nat)->0.push(chunk),
                            ));
                            assert(root_child(now) == node);
                        }
                    }
                    Ok(
                        Step::Done(
                            CatalogAppend { state: CatalogState::Root { root: now }, uploads },
                        ),
                    )
                },
                SpineUpdate::Split { left, right } => new_root(
                    address,
                    Ghost(table@),
                    root,
                    left,
                    right,
                    Ghost(chunk),
                    uploads,
                ),
            }
        },
    }
}

/// A branch over the two halves of the old root.
#[verifier::spinoff_prover]
#[verifier::rlimit(40)]
fn new_root<F: Fn(&CatalogNode) -> Result<Digest>>(
    address: &F,
    Ghost(t): Ghost<Map<Digest, FetchedView<CatalogNodeView>>>,
    root: &ChunkCatalogRoot,
    left: CatalogChild,
    right: CatalogChild,
    Ghost(chunk): Ghost<CatalogChunkRef>,
    uploads: Vec<(Digest, CatalogNode)>,
) -> (r: Result<Step<CatalogAppend>>)
    requires
        forall|n: &CatalogNode| call_requires(*address, (n,)),
        addressed(*address, uploads@),
        spine(t, root.digest, root.height as nat) is Known,
        append_outcome(
            *address,
            t,
            uploads@,
            root.digest,
            root.height as nat,
            chunk,
            Ok(Step::Done(SpineUpdate::Split { left, right })),
        ),
    ensures
        match r {
            Ok(Step::Fetch(_)) => false,
            Ok(Step::Done(a)) => {
                &&& addressed(*address, a.uploads@)
                &&& extended(
                    t,
                    uploads_view(a.uploads@),
                    CatalogState::Root { root: *root },
                    a.state,
                    chunk,
                )
                &&& a.state matches CatalogState::Root { root: now }
                &&& catalog_growth(t, CatalogState::Root { root: *root }, chunk) matches Growth::Parts(
                    parts,
                ) && all_alike(seq![root_child(now)], parts)
                &&& now.last_seq == chunk.last_seq
                &&& now.height == root.height + 1
            },
            Err(e) => {
                ||| exists|n: &CatalogNode|
                    append_writes(t, CatalogState::Root { root: *root }, chunk, n@)
                        && #[trigger] call_ensures(*address, (n,), Err(e))
                ||| catalog_growth(t, CatalogState::Root { root: *root }, chunk) == Growth::Fail(e@)
            },
        },
{
    let mut uploads: Vec<(Digest, CatalogNode)> = uploads;
    let ghost before = uploads@;
    if root.height >= MAX_CATALOG_HEIGHT {
        return Err(rejected("catalog height exceeded"));
    }
    let height: u8 = root.height + 1;
    let mut children: Vec<CatalogChild> = Vec::new();
    children.push(left);
    children.push(right);
    let ghost all = children@;
    assert(all =~= seq![left, right]);
    assert(branch_ok(all, height as int));
    proof {
        let parts = growth(t, root.digest, root.height as nat, chunk)->Parts_0;
        assert(all_alike(all, parts)) by {
            assert(all =~= update_parts(SpineUpdate::Split { left, right }));
        }
        lemma_made_alike(all, parts, height, root.digest);
        assert(tops(root.height, parts, CatalogNodeView::Branch { height, children: all }));
    }
    let kept: Vec<CatalogChild> = copy_children(&children, children.len());
    assert(kept@ =~= all);
    let d: Digest = match put_node(
        address,
        CatalogNode::Branch { schema: CatalogSchemaV1::V1, height, children },
        &mut uploads,
    ) {
        Err(e) => {
            return Err(e);
        },
        Ok(d) => d,
    };
    let node: CatalogChild = child_from_branch(d, &kept, Ghost(height as int));
    let now: ChunkCatalogRoot = ChunkCatalogRoot {
        schema: CatalogSchemaV1::V1,
        digest: d,
        height,
        first_seq: node.first_seq,
        last_seq: node.last_seq,
        chunk_count: node.chunk_count,
    };
    proof {
        let ups = uploads_view(uploads@);
        let max = MAX_CATALOG_NODE_OBJECT_BYTES as nat;
        let was = CatalogState::Root { root: *root };
        let h = root.height as nat;
        assert forall|
            m: Map<Digest, FetchedView<CatalogNodeView>>,
            m2: Map<Digest, FetchedView<CatalogNodeView>>,
        |
            extends(m, t) && extends(m2, m) && stored(m2, ups, max) && contents(m, was) is Some implies contents(
            m2,
            CatalogState::Root { root: now },
        ) == Some(contents(m, was)->0.push(chunk)) by {
            assert(uploads@.take(before.len() as int) =~= before);
            lemma_stored_prefix(m2, before, uploads@, max);
            assert(m2.contains_key(uploads@[before.len() as int].0));
            assert(stored(m2, uploads_view(before), max));
            assert(update_holds(
                m2,
                SpineUpdate::Split { left, right },
                h,
                tree(m, root.digest, h)->0.push(chunk),
            ));
            assert(load(m2, d) == CatalogLoad::Node(
                CatalogNodeView::Branch { height, children: all },
            ));
            lemma_forest_span(m2, all, h);
            assert(root_child(now) == node);
        }
    }
    Ok(Step::Done(CatalogAppend { state: CatalogState::Root { root: now }, uploads }))
}

// ------------------------------------------------------------------- seek
/// Where the way down to a sequence ends.
pub enum SeekView {
    Fetch(Digest),
    Fail(ErrorView),
    Leaf(Seq<CatalogChunkRef>),
}

/// The first of `children` that covers `seq`.
pub open spec fn covering(children: Seq<CatalogChild>, seq: u64) -> Option<CatalogChild>
    decreases children.len(),
{
    if children.len() == 0 {
        None
    } else if children[0].first_seq <= seq <= children[0].last_seq {
        Some(children[0])
    } else {
        covering(children.drop_first(), seq)
    }
}

/// The way down from `d` to the leaf that covers `seq`.
pub open spec fn seek(
    m: Map<Digest, FetchedView<CatalogNodeView>>,
    d: Digest,
    seq: u64,
    depth: nat,
) -> SeekView
    decreases 9 - depth,
{
    if depth > MAX_CATALOG_HEIGHT {
        SeekView::Fail(ErrorView::IntegrityError("catalog seek exceeded height bound"@))
    } else {
        match load(m, d) {
            CatalogLoad::Need => SeekView::Fetch(d),
            CatalogLoad::Fail(c) => SeekView::Fail(c),
            CatalogLoad::Node(CatalogNodeView::Leaf { refs }) => if refs[0].first_seq <= seq
                <= refs.last().last_seq {
                SeekView::Leaf(refs)
            } else {
                SeekView::Fail(ErrorView::IntegrityError("catalog leaf does not cover the seek"@))
            },
            CatalogLoad::Node(CatalogNodeView::Branch { children, .. }) => match covering(
                children,
                seq,
            ) {
                None => SeekView::Fail(
                    ErrorView::IntegrityError("catalog branch has no child covering the seek"@),
                ),
                Some(c) => seek(m, c.digest, seq, depth + 1),
            },
        }
    }
}

fn find_covering(children: &Vec<CatalogChild>, seq: u64) -> (r: Option<CatalogChild>)
    ensures
        r == covering(children@, seq),
{
    let mut i: usize = 0;
    assert(children@.skip(0) =~= children@);
    while i < children.len()
        invariant
            i <= children@.len(),
            covering(children@, seq) == covering(children@.skip(i as int), seq),
        decreases children@.len() - i,
    {
        let c: CatalogChild = children[i];
        if seq >= c.first_seq && seq <= c.last_seq {
            return Some(c);
        }
        assert(children@.skip(i as int).drop_first() =~= children@.skip(i + 1));
        i = i + 1;
    }
    None
}

/// The chunks of the leaf that covers `seq`, if the catalog reaches it.
pub fn seek_leaf(table: &Table<CatalogNode>, state: &CatalogState, seq: u64) -> (r: Result<
    Step<Option<Vec<CatalogChunkRef>>>,
>)
    ensures
        match *state {
            CatalogState::Empty => r matches Ok(Step::Done(None)),
            CatalogState::Root { root } => if seq < root.first_seq || seq > root.last_seq {
                r matches Ok(Step::Done(None))
            } else {
                match seek(table@, root.digest, seq, 0) {
                    SeekView::Fetch(d) => r matches Ok(Step::Fetch(n)) && n == d,
                    SeekView::Fail(c) => r matches Err(e) && e@ == c,
                    SeekView::Leaf(refs) => r matches Ok(Step::Done(Some(v))) && v@ == refs,
                }
            },
        },
{
    let root: ChunkCatalogRoot = match state {
        CatalogState::Empty => {
            return Ok(Step::Done(None));
        },
        CatalogState::Root { root } => *root,
    };
    if seq < root.first_seq || seq > root.last_seq {
        return Ok(Step::Done(None));
    }
    let mut digest: Digest = root.digest;
    let mut depth: u8 = 0;
    loop
        invariant
            depth <= 9,
            seek(table@, root.digest, seq, 0) == seek(table@, digest, seq, depth as nat),
            *state == (CatalogState::Root { root }),
            root.first_seq <= seq <= root.last_seq,
        decreases 10 - depth,
    {
        if depth > MAX_CATALOG_HEIGHT {
            return Err(integrity("catalog seek exceeded height bound"));
        }
        let node: &CatalogNode = match load_node(table, &digest) {
            Err(e) => {
                return Err(e);
            },
            Ok(None) => {
                return Ok(Step::Fetch(digest));
            },
            Ok(Some(n)) => n,
        };
        match node {
            CatalogNode::Leaf { refs, .. } => {
                assert(leaf_ok(refs@));
                if refs[0].first_seq <= seq && seq <= refs[refs.len() - 1].last_seq {
                    return Ok(Step::Done(Some(copy_refs(refs))));
                }
                return Err(integrity("catalog leaf does not cover the seek"));
            },
            CatalogNode::Branch { children, .. } => {
                match find_covering(children, seq) {
                    None => {
                        return Err(integrity("catalog branch has no child covering the seek"));
                    },
                    Some(c) => {
                        digest = c.digest;
                        depth = depth + 1;
                    },
                }
            },
        }
    }
}

/// The first of `refs` that covers `seq`.
pub open spec fn chunk_at(refs: Seq<CatalogChunkRef>, seq: u64) -> Option<CatalogChunkRef>
    decreases refs.len(),
{
    if refs.len() == 0 {
        None
    } else if refs[0].first_seq <= seq <= refs[0].last_seq {
        Some(refs[0])
    } else {
        chunk_at(refs.drop_first(), seq)
    }
}

/// The chunk that covers `seq`.
pub fn chunk_covering(refs: &Vec<CatalogChunkRef>, seq: u64) -> (r: Option<CatalogChunkRef>)
    ensures
        r == chunk_at(refs@, seq),
{
    let mut i: usize = 0;
    assert(refs@.skip(0) =~= refs@);
    while i < refs.len()
        invariant
            i <= refs@.len(),
            chunk_at(refs@, seq) == chunk_at(refs@.skip(i as int), seq),
        decreases refs@.len() - i,
    {
        if seq >= refs[i].first_seq && seq <= refs[i].last_seq {
            return Some(refs[i]);
        }
        assert(refs@.skip(i as int).drop_first() =~= refs@.skip(i + 1));
        i = i + 1;
    }
    None
}

/// Whether `part` stands in `refs` in one piece.
pub open spec fn is_part(part: Seq<CatalogChunkRef>, refs: Seq<CatalogChunkRef>) -> bool {
    exists|a: int|
        0 <= a && a + part.len() <= refs.len() && #[trigger] refs.subrange(
            a,
            a + part.len() as int,
        ) == part
}

proof fn lemma_part_of_part(
    x: Seq<CatalogChunkRef>,
    y: Seq<CatalogChunkRef>,
    z: Seq<CatalogChunkRef>,
)
    requires
        is_part(x, y),
        is_part(y, z),
    ensures
        is_part(x, z),
{
    let a = choose|a: int|
        0 <= a && a + x.len() <= y.len() && #[trigger] y.subrange(a, a + x.len() as int) == x;
    let b = choose|b: int|
        0 <= b && b + y.len() <= z.len() && #[trigger] z.subrange(b, b + y.len() as int) == y;
    assert(z.subrange(b + a, b + a + x.len() as int) =~= x) by {
        assert forall|i: int| 0 <= i < x.len() implies z.subrange(
            b + a,
            b + a + x.len() as int,
        )[i] == x[i] by {
            assert(y.subrange(a, a + x.len() as int)[i] == y[a + i]);
            assert(z.subrange(b, b + y.len() as int)[a + i] == z[b + a + i]);
        }
    }
}

/// Every subtree's chunks are a piece of the whole.
proof fn lemma_forest_part(
    m: Map<Digest, FetchedView<CatalogNodeView>>,
    children: Seq<CatalogChild>,
    h: nat,
    i: int,
)
    requires
        forest(m, children, h) is Some,
        0 <= i < children.len(),
    ensures
        tree(m, children[i].digest, h) is Some,
        covers(children[i], tree(m, children[i].digest, h)->0),
        is_part(tree(m, children[i].digest, h)->0, forest(m, children, h)->0),
    decreases children.len(),
{
    let init = children.drop_last();
    let a = forest(m, init, h)->0;
    let b = tree(m, children.last().digest, h)->0;
    let all = forest(m, children, h)->0;
    assert(all == a + b);
    if i == children.len() - 1 {
        assert(all.subrange(a.len() as int, a.len() as int + b.len() as int) =~= b);
    } else {
        lemma_forest_part(m, init, h, i);
        assert(init[i] == children[i]);
        assert(all.subrange(0, 0 + a.len() as int) =~= a);
        lemma_part_of_part(tree(m, children[i].digest, h)->0, a, all);
    }
}

/// A row of subtrees without gaps has one that covers any sequence between
/// its ends.
proof fn lemma_some_covers(children: Seq<CatalogChild>, seq: u64) -> (i: int)
    requires
        children.len() > 0,
        forall|i: int| 0 <= i < children.len() ==> child_ok(#[trigger] children[i]),
        forall|i: int|
            0 < i < children.len() ==> (#[trigger] children[i]).first_seq == children[i
                - 1].last_seq + 1,
        children[0].first_seq <= seq <= children.last().last_seq,
    ensures
        0 <= i < children.len(),
        covering(children, seq) == Some(children[i]),
        children[i].first_seq <= seq <= children[i].last_seq,
    decreases children.len(),
{
    assert(child_ok(children[0]));
    if seq <= children[0].last_seq {
        0
    } else {
        let rest = children.drop_first();
        assert(rest.len() > 0);
        assert(children[1].first_seq == children[0].last_seq + 1);
        assert forall|i: int| 0 <= i < rest.len() implies child_ok(#[trigger] rest[i]) by {
            assert(rest[i] == children[i + 1]);
        }
        assert forall|i: int| 0 < i < rest.len() implies (#[trigger] rest[i]).first_seq == rest[i
            - 1].last_seq + 1 by {
            assert(children[i + 1].first_seq == children[i].last_seq + 1);
        }
        assert(rest.last() == children.last());
        let j = lemma_some_covers(rest, seq);
        j + 1
    }
}

proof fn lemma_seek_tree(
    m: Map<Digest, FetchedView<CatalogNodeView>>,
    d: Digest,
    h: nat,
    seq: u64,
    depth: nat,
)
    requires
        tree(m, d, h) is Some,
        tree(m, d, h)->0.len() > 0,
        tree(m, d, h)->0[0].first_seq <= seq <= tree(m, d, h)->0.last().last_seq,
        depth + h <= MAX_CATALOG_HEIGHT,
    ensures
        seek(m, d, seq, depth) matches SeekView::Leaf(leaf) && leaf_ok(leaf) && leaf[0].first_seq
            <= seq <= leaf.last().last_seq && is_part(leaf, tree(m, d, h)->0),
    decreases h,
{
    match load(m, d) {
        CatalogLoad::Node(CatalogNodeView::Leaf { refs }) => {
            assert(refs.subrange(0, 0 + refs.len() as int) =~= refs);
        },
        CatalogLoad::Node(CatalogNodeView::Branch { height, children }) => {
            let hc = (h - 1) as nat;
            lemma_forest_span(m, children, hc);
            let i = lemma_some_covers(children, seq);
            lemma_forest_part(m, children, hc, i);
            lemma_seek_tree(m, children[i].digest, hc, seq, depth + 1);
            match seek(m, children[i].digest, seq, depth + 1) {
                SeekView::Leaf(leaf) => {
                    lemma_part_of_part(
                        leaf,
                        tree(m, children[i].digest, hc)->0,
                        forest(m, children, hc)->0,
                    );
                },
                _ => {},
            }
        },
        _ => {},
    }
}

/// In contiguous chunks some chunk covers any sequence between the ends.
pub proof fn lemma_chunk_covers(refs: Seq<CatalogChunkRef>, seq: u64) -> (i: int)
    requires
        refs.len() > 0,
        refs_contiguous(refs),
        refs[0].first_seq <= seq <= refs.last().last_seq,
    ensures
        0 <= i < refs.len(),
        refs[i].first_seq <= seq <= refs[i].last_seq,
    decreases refs.len(),
{
    assert(ref_ok(refs[0]));
    if seq <= refs[0].last_seq {
        0
    } else {
        let rest = refs.drop_first();
        assert(rest.len() > 0);
        assert(refs[1].first_seq == refs[0].last_seq + 1);
        assert forall|i: int| 0 <= i < rest.len() implies ref_ok(#[trigger] rest[i]) by {
            assert(rest[i] == refs[i + 1]);
        }
        assert forall|i: int| 0 < i < rest.len() implies (#[trigger] rest[i]).first_seq == rest[i
            - 1].last_seq + 1 by {
            assert(refs[i + 1].first_seq == refs[i].last_seq + 1);
        }
        assert(rest.last() == refs.last());
        let j = lemma_chunk_covers(rest, seq);
        j + 1
    }
}

/// In a sound catalog the way down to any sequence that it covers ends at
/// a leaf that covers the sequence and is a piece of the catalog.
pub proof fn law_seek_finds_the_leaf(
    m: Map<Digest, FetchedView<CatalogNodeView>>,
    root: ChunkCatalogRoot,
    seq: u64,
)
    requires
        contents(m, CatalogState::Root { root }) is Some,
        root.first_seq <= seq <= root.last_seq,
    ensures
        seek(m, root.digest, seq, 0) matches SeekView::Leaf(leaf) && leaf_ok(leaf) && is_part(
            leaf,
            contents(m, CatalogState::Root { root })->0,
        ) && (exists|i: int|
            0 <= i < leaf.len() && (#[trigger] leaf[i]).first_seq <= seq <= leaf[i].last_seq),
{
    assert(root.height <= MAX_CATALOG_HEIGHT);
    lemma_seek_tree(m, root.digest, root.height as nat, seq, 0);
    match seek(m, root.digest, seq, 0) {
        SeekView::Leaf(leaf) => {
            let i = lemma_chunk_covers(leaf, seq);
            assert(leaf[i].first_seq <= seq <= leaf[i].last_seq);
        },
        _ => {},
    }
}

proof fn lemma_before(refs: Seq<CatalogChunkRef>, i: int, j: int)
    requires
        refs_contiguous(refs),
        0 <= i < j < refs.len(),
    ensures
        refs[i].last_seq < refs[j].first_seq,
    decreases j - i,
{
    assert(ref_ok(refs[j]));
    assert(refs[j].first_seq == refs[j - 1].last_seq + 1);
    if i < j - 1 {
        lemma_before(refs, i, j - 1);
        assert(ref_ok(refs[j - 1]));
    }
}

proof fn lemma_chunk_at_is_one(refs: Seq<CatalogChunkRef>, seq: u64)
    ensures
        match chunk_at(refs, seq) {
            Some(c) => exists|i: int|
                0 <= i < refs.len() && #[trigger] refs[i] == c && c.first_seq <= seq <= c.last_seq,
            None => forall|i: int|
                0 <= i < refs.len() ==> !((#[trigger] refs[i]).first_seq <= seq
                    <= refs[i].last_seq),
        },
    decreases refs.len(),
{
    if refs.len() > 0 && !(refs[0].first_seq <= seq <= refs[0].last_seq) {
        let rest = refs.drop_first();
        lemma_chunk_at_is_one(rest, seq);
        match chunk_at(rest, seq) {
            Some(c) => {
                let i = choose|i: int|
                    0 <= i < rest.len() && #[trigger] rest[i] == c && c.first_seq <= seq
                        <= c.last_seq;
                assert(refs[i + 1] == c);
            },
            None => {
                assert forall|i: int| 0 <= i < refs.len() implies !((#[trigger] refs[i]).first_seq
                    <= seq <= refs[i].last_seq) by {
                    if i > 0 {
                        assert(rest[i - 1] == refs[i]);
                    }
                }
            },
        }
    } else if refs.len() > 0 {
        assert(refs[0] == chunk_at(refs, seq)->0);
    }
}

/// In a sound catalog the way down to a sequence ends at the one chunk that
/// covers it.
pub proof fn law_seek_finds_the_chunk(
    m: Map<Digest, FetchedView<CatalogNodeView>>,
    root: ChunkCatalogRoot,
    k: int,
    seq: u64,
)
    requires
        contents(m, CatalogState::Root { root }) matches Some(refs) && 0 <= k < refs.len()
            && refs[k].first_seq <= seq <= refs[k].last_seq,
    ensures
        seek(m, root.digest, seq, 0) matches SeekView::Leaf(leaf) && chunk_at(leaf, seq) == Some(
            (contents(m, CatalogState::Root { root })->0)[k],
        ),
        root.first_seq <= seq <= root.last_seq,
{
    let refs = contents(m, CatalogState::Root { root })->0;
    law_catalog_is_contiguous(m, root.digest, root.height as nat);
    let n = refs.len() as int;
    if k > 0 {
        lemma_before(refs, 0, k);
        assert(ref_ok(refs[0]));
    }
    if k < n - 1 {
        lemma_before(refs, k, n - 1);
        assert(ref_ok(refs[n - 1]));
    }
    law_seek_finds_the_leaf(m, root, seq);
    match seek(m, root.digest, seq, 0) {
        SeekView::Leaf(leaf) => {
            lemma_chunk_at_is_one(leaf, seq);
            let c = chunk_at(leaf, seq)->0;
            let i = choose|i: int|
                0 <= i < leaf.len() && #[trigger] leaf[i] == c && c.first_seq <= seq <= c.last_seq;
            let a = choose|a: int|
                0 <= a && a + leaf.len() <= refs.len() && #[trigger] refs.subrange(
                    a,
                    a + leaf.len() as int,
                ) == leaf;
            assert(refs.subrange(a, a + leaf.len() as int)[i] == refs[a + i]);
            assert(refs[a + i] == c);
            if a + i < k {
                lemma_before(refs, a + i, k);
            } else if k < a + i {
                lemma_before(refs, k, a + i);
            }
        },
        _ => {},
    }
}

proof fn lemma_chunk_at_unique(refs: Seq<CatalogChunkRef>, k: int, seq: u64)
    requires
        refs_contiguous(refs),
        0 <= k < refs.len(),
        refs[k].first_seq <= seq <= refs[k].last_seq,
    ensures
        chunk_at(refs, seq) == Some(refs[k]),
{
    lemma_chunk_at_is_one(refs, seq);
    let c = chunk_at(refs, seq)->0;
    let i = choose|i: int|
        0 <= i < refs.len() && #[trigger] refs[i] == c && c.first_seq <= seq <= c.last_seq;
    if i < k {
        lemma_before(refs, i, k);
    } else if k < i {
        lemma_before(refs, k, i);
    }
}

/// The way down to a sequence of a sound catalog ends at the chunk that the
/// whole list of chunks has for it, and for every sequence of that chunk.
pub proof fn lemma_seek_agrees(
    m: Map<Digest, FetchedView<CatalogNodeView>>,
    root: ChunkCatalogRoot,
    seq: u64,
)
    requires
        contents(m, CatalogState::Root { root }) is Some,
        root.first_seq <= seq <= root.last_seq,
    ensures
        ({
            let refs = contents(m, CatalogState::Root { root })->0;
            &&& seek(m, root.digest, seq, 0) matches SeekView::Leaf(leaf) && chunk_at(leaf, seq)
                == chunk_at(refs, seq)
            &&& chunk_at(refs, seq) matches Some(c) && c.first_seq <= seq <= c.last_seq && forall|
                s: u64,
            |
                c.first_seq <= s <= c.last_seq ==> #[trigger] chunk_at(refs, s) == Some(c)
        }),
{
    let refs = contents(m, CatalogState::Root { root })->0;
    law_catalog_is_contiguous(m, root.digest, root.height as nat);
    let k = lemma_chunk_covers(refs, seq);
    law_seek_finds_the_chunk(m, root, k, seq);
    lemma_chunk_at_unique(refs, k, seq);
    assert forall|s: u64| refs[k].first_seq <= s <= refs[k].last_seq implies #[trigger] chunk_at(
        refs,
        s,
    ) == Some(refs[k]) by {
        lemma_chunk_at_unique(refs, k, s);
    }
}

/// An append moves no chunk: every sequence that the catalog covered is
/// found in the same chunk as before.
pub proof fn law_append_keeps_earlier_chunks(
    t: Map<Digest, FetchedView<CatalogNodeView>>,
    ups: Seq<(Digest, CatalogNodeView)>,
    m: Map<Digest, FetchedView<CatalogNodeView>>,
    m2: Map<Digest, FetchedView<CatalogNodeView>>,
    was: ChunkCatalogRoot,
    now: ChunkCatalogRoot,
    chunk: CatalogChunkRef,
    k: int,
    seq: u64,
)
    requires
        extended(t, ups, CatalogState::Root { root: was }, CatalogState::Root { root: now }, chunk),
        extends(m, t),
        extends(m2, m),
        stored(m2, ups, MAX_CATALOG_NODE_OBJECT_BYTES as nat),
        contents(m, CatalogState::Root { root: was }) matches Some(refs) && 0 <= k < refs.len()
            && refs[k].first_seq <= seq <= refs[k].last_seq,
    ensures
        ({
            let c = (contents(m, CatalogState::Root { root: was })->0)[k];
            &&& seek(m, was.digest, seq, 0) matches SeekView::Leaf(a) && chunk_at(a, seq) == Some(c)
            &&& seek(m2, now.digest, seq, 0) matches SeekView::Leaf(b) && chunk_at(b, seq) == Some(
                c,
            )
        }),
{
    let refs = contents(m, CatalogState::Root { root: was })->0;
    assert(contents(m2, CatalogState::Root { root: now }) == Some(refs.push(chunk)));
    assert(refs.push(chunk)[k] == refs[k]);
    law_seek_finds_the_chunk(m, was, k, seq);
    law_seek_finds_the_chunk(m2, now, k, seq);
}

/// Every subtree of a sound tree stands one level below its parent.
pub proof fn law_children_are_one_lower(
    m: Map<Digest, FetchedView<CatalogNodeView>>,
    d: Digest,
    h: nat,
    i: int,
)
    requires
        tree(m, d, h) is Some,
        load(m, d) matches CatalogLoad::Node(CatalogNodeView::Branch { children, .. }) && 0 <= i
            < children.len(),
    ensures
        h > 0,
        load(m, d) matches CatalogLoad::Node(CatalogNodeView::Branch { height, children })
            && height == h && tree(m, children[i].digest, (h - 1) as nat) is Some,
{
    match load(m, d) {
        CatalogLoad::Node(CatalogNodeView::Branch { height, children }) => {
            lemma_forest_part(m, children, (h - 1) as nat, i);
        },
        _ => {},
    }
}

/// Once the new nodes of an append are stored, the catalog has the chunks
/// that it had and the new one behind them.
pub proof fn law_append_extends_the_catalog(
    t: Map<Digest, FetchedView<CatalogNodeView>>,
    ups: Seq<(Digest, CatalogNodeView)>,
    m: Map<Digest, FetchedView<CatalogNodeView>>,
    m2: Map<Digest, FetchedView<CatalogNodeView>>,
    was: CatalogState,
    now: CatalogState,
    chunk: CatalogChunkRef,
)
    requires
        extended(t, ups, was, now, chunk),
        extends(m, t),
        extends(m2, m),
        stored(m2, ups, MAX_CATALOG_NODE_OBJECT_BYTES as nat),
        contents(m, was) is Some,
    ensures
        contents(m2, now) == Some(contents(m, was)->0.push(chunk)),
{
}

proof fn lemma_sum_room(children: Seq<CatalogChild>, h: int)
    requires
        branch_ok(children, h),
    ensures
        1 <= chunk_sum(children) <= children.last().last_seq - children[0].first_seq + 1,
        children[0].first_seq <= children.last().last_seq,
        child_ok(children[0]),
    decreases children.len(),
{
    let init = children.drop_last();
    assert(child_ok(children[0]));
    assert(child_ok(children[children.len() - 1]));
    if init.len() > 0 {
        assert(branch_ok(init, h)) by {
            assert forall|i: int| 0 <= i < init.len() implies child_ok(#[trigger] init[i]) by {
                assert(child_ok(children[i]));
            }
            assert forall|i: int| 0 < i < init.len() implies (#[trigger] init[i]).first_seq == init[i
                - 1].last_seq + 1 by {
                assert(children[i].first_seq == children[i - 1].last_seq + 1);
            }
        }
        lemma_sum_room(init, h);
        assert(children[children.len() - 1].first_seq == children[children.len() - 2].last_seq + 1);
        assert(init.last() == children[children.len() - 2]);
    } else {
        assert(chunk_sum(init) == 0);
    }
}

/// A branch that is in order can stand in another.
proof fn lemma_described_ok(height: u8, children: Seq<CatalogChild>, d: Digest)
    requires
        branch_ok(children, height as int),
    ensures
        child_ok(described(CatalogNodeView::Branch { height, children }, d)),
{
    lemma_sum_room(children, height as int);
}

/// Whether `parts` can take the place of a subtree that begins at `first`.
pub open spec fn in_order(parts: Seq<CatalogChild>, first: u64) -> bool {
    &&& parts.len() == 1 || parts.len() == 2
    &&& parts[0].first_seq == first
    &&& child_ok(parts[0])
    &&& child_ok(parts.last())
    &&& parts.len() == 2 ==> parts[1].first_seq == parts[0].last_seq + 1
}

#[verifier::spinoff_prover]
proof fn lemma_leaf_in_order(refs: Seq<CatalogChunkRef>, chunk: CatalogChunkRef, d: Digest)
    requires
        leaf_ok(refs),
        ref_ok(chunk),
        chunk.first_seq == refs.last().last_seq + 1,
    ensures
        refs.len() < MAX_CATALOG_ITEMS ==> (made(
            CatalogNodeView::Leaf { refs: refs.push(chunk) },
            d,
        ) matches Growth::Parts(p) && p.len() == 1 && in_order(p, refs[0].first_seq)
            && p[0].last_seq == chunk.last_seq),
        in_order(
            seq![
                described(CatalogNodeView::Leaf { refs }, d),
                described(CatalogNodeView::Leaf { refs: seq![chunk] }, d),
            ],
            refs[0].first_seq,
        ),
{
    reveal(made);
    lemma_leaf_room(refs, refs.len() as int);
    lemma_push_contiguous(refs, chunk);
    let all = refs.push(chunk);
    lemma_leaf_room(all, all.len() as int);
    assert(all[0] == refs[0]);
}

#[verifier::spinoff_prover]
proof fn lemma_branch_in_order(
    children: Seq<CatalogChild>,
    h: u8,
    parts: Seq<CatalogChild>,
    d: Digest,
)
    requires
        branch_ok(children, h as int),
        in_order(parts, children.last().first_seq),
    ensures
        ({
            let full = parts.len() == 2 && children.len() >= MAX_CATALOG_ITEMS;
            match branch_growth(children, h as nat, parts, d) {
                Growth::Fail(c) => c == too_high() && full && h >= MAX_CATALOG_HEIGHT,
                Growth::Parts(p) => {
                    &&& !(full && h >= MAX_CATALOG_HEIGHT)
                    &&& in_order(p, children[0].first_seq)
                    &&& (p.len() == 2 <==> full)
                    &&& p.last().last_seq == parts.last().last_seq
                },
            }
        }),
{
    let kept = children.drop_last();
    let one = kept.push(parts[0]);
    assert(branch_ok(one, h as int)) by {
        lemma_replace_ok(children, parts[0], h as int);
    }
    lemma_described_ok(h, one, d);
    lemma_made_ok(h, one, d);
    assert(one[0].first_seq == children[0].first_seq);
    if parts.len() == 1 {
        assert(kept + parts =~= one);
    } else if children.len() < MAX_CATALOG_ITEMS {
        let two = one.push(parts[1]);
        assert(branch_ok(two, h as int)) by {
            lemma_append_ok(one, parts[1], h as int);
        }
        assert(kept + parts =~= two);
        lemma_described_ok(h, two, d);
        lemma_made_ok(h, two, d);
        assert(two[0] == one[0]);
    } else {
        let right = seq![parts[1]];
        assert(branch_ok(right, h as int));
        lemma_described_ok(h, right, d);
    }
}

proof fn lemma_made_ok(height: u8, children: Seq<CatalogChild>, d: Digest)
    requires
        branch_ok(children, height as int),
    ensures
        made(CatalogNodeView::Branch { height, children }, d) == Growth::Parts(
            seq![described(CatalogNodeView::Branch { height, children }, d)],
        ),
{
    reveal(made);
}

/// A chunk that begins where a catalog ends can be put behind it, as long as
/// the nodes on the right edge agree with one another and there is room for
/// it: in some node of the edge, or above the root.
pub proof fn law_agreeing_edge_takes_the_chunk(
    m: Map<Digest, FetchedView<CatalogNodeView>>,
    d: Digest,
    h: nat,
    chunk: CatalogChunkRef,
)
    requires
        ref_ok(chunk),
        spine(m, d, h) is Known,
        edge_agrees(m, d, h, (chunk.first_seq - 1) as u64),
    ensures
        growth(m, d, h, chunk) is Parts <==> !(edge_full(m, d, h) && h >= MAX_CATALOG_HEIGHT),
        match growth(m, d, h, chunk) {
            Growth::Fail(c) => c == too_high(),
            Growth::Parts(parts) => {
                &&& parts.len() == if edge_full(m, d, h) {
                    2int
                } else {
                    1
                }
                &&& load(m, d) matches CatalogLoad::Node(n) && in_order(parts, own_first(n))
                &&& parts.last().last_seq == chunk.last_seq
            },
        },
    decreases h,
{
    match load(m, d) {
        CatalogLoad::Node(CatalogNodeView::Leaf { refs }) => {
            lemma_leaf_in_order(refs, chunk, d);
        },
        CatalogLoad::Node(CatalogNodeView::Branch { height, children }) => {
            let last = children.last();
            law_agreeing_edge_takes_the_chunk(m, last.digest, (h - 1) as nat, chunk);
            let parts = growth(m, last.digest, (h - 1) as nat, chunk)->Parts_0;
            lemma_branch_in_order(children, height, parts, d);
        },
        _ => {},
    }
}

/// The node that is reached from `d` by taking the given child at each step.
pub open spec fn reached(
    m: Map<Digest, FetchedView<CatalogNodeView>>,
    d: Digest,
    way: Seq<nat>,
) -> Option<Digest>
    decreases way.len(),
{
    if way.len() == 0 {
        Some(d)
    } else {
        match load(m, d) {
            CatalogLoad::Node(CatalogNodeView::Branch { children, .. }) => if way[0]
                < children.len() {
                reached(m, children[way[0] as int].digest, way.drop_first())
            } else {
                None
            },
            _ => None,
        }
    }
}

/// How many chunks or children a node has.
pub open spec fn width(n: CatalogNodeView) -> nat {
    match n {
        CatalogNodeView::Leaf { refs } => refs.len(),
        CatalogNodeView::Branch { children, .. } => children.len(),
    }
}

/// In a sound tree every leaf is as many steps below the root as the tree is
/// high, and no node is wider than a node may be.
pub proof fn law_leaves_are_level(
    m: Map<Digest, FetchedView<CatalogNodeView>>,
    d: Digest,
    h: nat,
    way: Seq<nat>,
)
    requires
        tree(m, d, h) is Some,
        reached(m, d, way) is Some,
    ensures
        way.len() <= h,
        load(m, reached(m, d, way)->0) matches CatalogLoad::Node(n) && (n is Leaf <==> way.len()
            == h) && 1 <= width(n) <= MAX_CATALOG_ITEMS,
    decreases way.len(),
{
    if way.len() > 0 {
        match load(m, d) {
            CatalogLoad::Node(CatalogNodeView::Branch { children, .. }) => {
                let i = way[0] as int;
                law_children_are_one_lower(m, d, h, i);
                law_leaves_are_level(m, children[i].digest, (h - 1) as nat, way.drop_first());
            },
            _ => {},
        }
    }
}

/// Once the new nodes of an append are stored, the root says what the catalog
/// covers: from the first sequence to the end of the new chunk, in one chunk
/// more. The leaves are still level and no node is too wide.
pub proof fn law_append_keeps_the_catalog_in_shape(
    t: Map<Digest, FetchedView<CatalogNodeView>>,
    ups: Seq<(Digest, CatalogNodeView)>,
    m: Map<Digest, FetchedView<CatalogNodeView>>,
    m2: Map<Digest, FetchedView<CatalogNodeView>>,
    was: CatalogState,
    now: ChunkCatalogRoot,
    chunk: CatalogChunkRef,
    way: Seq<nat>,
)
    requires
        extended(t, ups, was, CatalogState::Root { root: now }, chunk),
        extends(m, t),
        extends(m2, m),
        stored(m2, ups, MAX_CATALOG_NODE_OBJECT_BYTES as nat),
        contents(m, was) is Some,
        chunk.first_seq == next_seq(was),
        was matches CatalogState::Root { root } ==> root.first_seq == 1,
    ensures
        now.first_seq == 1,
        now.last_seq == chunk.last_seq,
        now.chunk_count == match was {
            CatalogState::Empty => 1,
            CatalogState::Root { root } => root.chunk_count + 1,
        },
        reached(m2, now.digest, way) matches Some(x) ==> way.len() <= now.height && (load(
            m2,
            x,
        ) matches CatalogLoad::Node(n) && (n is Leaf <==> way.len() == now.height) && 1 <= width(n)
            <= MAX_CATALOG_ITEMS),
{
    let refs = contents(m, was)->0;
    assert(contents(m2, CatalogState::Root { root: now }) == Some(refs.push(chunk)));
    if refs.len() > 0 {
        assert(refs.push(chunk)[0] == refs[0]);
    }
    if reached(m2, now.digest, way) is Some {
        law_leaves_are_level(m2, now.digest, now.height as nat, way);
    }
}

// ------------------------------------------------------------ right spine
/// The digests of the nodes on the right edge below `d`, or what stands in
/// the way of knowing them.
pub enum EdgeView {
    Fetch(Digest),
    Fail(ErrorView),
    Edge(Seq<Digest>),
}

pub open spec fn right_edge(
    m: Map<Digest, FetchedView<CatalogNodeView>>,
    d: Digest,
    depth: nat,
) -> EdgeView
    decreases 9 - depth,
{
    if depth > MAX_CATALOG_HEIGHT {
        EdgeView::Fail(ErrorView::IntegrityError("catalog spine exceeded height bound"@))
    } else {
        match load(m, d) {
            CatalogLoad::Need => EdgeView::Fetch(d),
            CatalogLoad::Fail(c) => EdgeView::Fail(c),
            CatalogLoad::Node(CatalogNodeView::Leaf { .. }) => EdgeView::Edge(seq![d]),
            CatalogLoad::Node(CatalogNodeView::Branch { children, .. }) => match right_edge(
                m,
                children.last().digest,
                depth + 1,
            ) {
                EdgeView::Edge(below) => EdgeView::Edge(seq![d] + below),
                other => other,
            },
        }
    }
}

/// The digests on the right edge of a catalog, from the root down.
pub fn walk_right_spine_digests(table: &Table<CatalogNode>, state: &CatalogState) -> (r: Result<
    Step<Vec<Digest>>,
>)
    ensures
        match *state {
            CatalogState::Empty => r matches Ok(Step::Done(v)) && v@ == Seq::<Digest>::empty(),
            CatalogState::Root { root } => match right_edge(table@, root.digest, 0) {
                EdgeView::Fetch(d) => r matches Ok(Step::Fetch(n)) && n == d,
                EdgeView::Fail(c) => r matches Err(e) && e@ == c,
                EdgeView::Edge(ds) => r matches Ok(Step::Done(v)) && v@ == ds,
            },
        },
{
    let root: ChunkCatalogRoot = match state {
        CatalogState::Empty => {
            return Ok(Step::Done(Vec::new()));
        },
        CatalogState::Root { root } => *root,
    };
    let mut out: Vec<Digest> = Vec::new();
    let mut digest: Digest = root.digest;
    let mut depth: u8 = 0;
    assert(out@ =~= Seq::<Digest>::empty());
    proof {
        match right_edge(table@, digest, 0) {
            EdgeView::Edge(ds) => {
                assert(out@ + ds =~= ds);
            },
            _ => {},
        }
    }
    loop
        invariant
            depth <= 9,
            right_edge(table@, root.digest, 0) == match right_edge(
                table@,
                digest,
                depth as nat,
            ) {
                EdgeView::Edge(below) => EdgeView::Edge(out@ + below),
                other => other,
            },
            *state == (CatalogState::Root { root }),
        decreases 10 - depth,
    {
        if depth > MAX_CATALOG_HEIGHT {
            return Err(integrity("catalog spine exceeded height bound"));
        }
        let node: &CatalogNode = match load_node(table, &digest) {
            Err(e) => {
                return Err(e);
            },
            Ok(None) => {
                return Ok(Step::Fetch(digest));
            },
            Ok(Some(n)) => n,
        };
        let ghost before = out@;
        out.push(digest);
        assert(out@ =~= before + seq![digest]);
        match node {
            CatalogNode::Leaf { .. } => {
                return Ok(Step::Done(out));
            },
            CatalogNode::Branch { children, .. } => {
                assert(branch_ok(children@, 1) || children@.len() >= 1);
                let ghost d0 = digest;
                digest = children[children.len() - 1].digest;
                depth = depth + 1;
                proof {
                    match right_edge(table@, digest, depth as nat) {
                        EdgeView::Edge(below) => {
                            assert(before + (seq![d0] + below) =~= out@ + below);
                        },
                        _ => {},
                    }
                }
            },
        }
    }
}

/// A node is taken exactly if it has from 1 to 32 parts, each of which spans
/// what it says, one right behind the other, and if a branch stands no higher
/// than 8 levels.
pub proof fn law_sound_nodes_are_taken(
    refs: Seq<CatalogChunkRef>,
    children: Seq<CatalogChild>,
    height: u8,
)
    ensures
        node_ok(CatalogNodeView::Leaf { refs }) <==> 1 <= refs.len() <= 32 && (forall|i: int|
            0 <= i < refs.len() ==> 1 <= (#[trigger] refs[i]).first_seq <= refs[i].last_seq
                && refs[i].event_count == refs[i].last_seq - refs[i].first_seq + 1) && (forall|
            i: int,
        |
            0 < i < refs.len() ==> (#[trigger] refs[i]).first_seq == refs[i - 1].last_seq + 1),
        node_ok(CatalogNodeView::Branch { height, children }) <==> 1 <= children.len() <= 32 && 1
            <= height <= 8 && (forall|i: int|
            0 <= i < children.len() ==> 1 <= (#[trigger] children[i]).first_seq
                <= children[i].last_seq && 1 <= children[i].chunk_count <= children[i].last_seq
                - children[i].first_seq + 1) && (forall|i: int|
            0 < i < children.len() ==> (#[trigger] children[i]).first_seq == children[i
                - 1].last_seq + 1),
{
    if node_ok(CatalogNodeView::Leaf { refs }) {
        assert forall|i: int| 0 <= i < refs.len() implies 1 <= (#[trigger] refs[i]).first_seq
            <= refs[i].last_seq && refs[i].event_count == refs[i].last_seq - refs[i].first_seq
            + 1 by {
            assert(ref_ok(refs[i]));
        }
    }
    if node_ok(CatalogNodeView::Branch { height, children }) {
        assert forall|i: int| 0 <= i < children.len() implies 1 <= (
        #[trigger] children[i]).first_seq <= children[i].last_seq && 1 <= children[i].chunk_count
            <= children[i].last_seq - children[i].first_seq + 1 by {
            assert(child_ok(children[i]));
        }
    }
}

proof fn lemma_tree_edge(m: Map<Digest, FetchedView<CatalogNodeView>>, d: Digest, h: nat)
    requires
        tree(m, d, h) is Some,
    ensures
        spine(m, d, h) is Known,
        load(m, d) is Node,
        own_first(load(m, d)->Node_0) == tree(m, d, h)->0[0].first_seq,
        own_last(load(m, d)->Node_0) == tree(m, d, h)->0.last().last_seq,
        edge_agrees(m, d, h, tree(m, d, h)->0.last().last_seq),
    decreases h,
{
    match load(m, d) {
        CatalogLoad::Node(CatalogNodeView::Branch { height, children }) => {
            let n = children.len() - 1;
            let g = (h - 1) as nat;
            lemma_forest_part(m, children, g, n);
            lemma_forest_part(m, children, g, 0);
            lemma_tree_edge(m, children[n].digest, g);
            lemma_forest_ends(m, children, g);
        },
        _ => {},
    }
}

proof fn lemma_forest_ends(
    m: Map<Digest, FetchedView<CatalogNodeView>>,
    children: Seq<CatalogChild>,
    h: nat,
)
    requires
        forest(m, children, h) is Some,
        children.len() > 0,
    ensures
        forest(m, children, h)->0.len() > 0,
        forest(m, children, h)->0[0].first_seq == children[0].first_seq,
        forest(m, children, h)->0.last().last_seq == children.last().last_seq,
    decreases children.len(),
{
    let init = children.drop_last();
    if init.len() > 0 {
        lemma_forest_ends(m, init, h);
    } else {
        assert(forest(m, init, h) == Some(Seq::<CatalogChunkRef>::empty()));
    }
}

/// The next chunk can be put behind a sound catalog, unless the catalog is as
/// high as it may be and has no room left.
pub proof fn law_sound_catalog_takes_the_next_chunk(
    m: Map<Digest, FetchedView<CatalogNodeView>>,
    root: ChunkCatalogRoot,
    chunk: CatalogChunkRef,
)
    requires
        contents(m, CatalogState::Root { root }) is Some,
        1 <= chunk.first_seq <= chunk.last_seq,
        chunk.event_count == chunk.last_seq - chunk.first_seq + 1,
        chunk.first_seq == root.last_seq + 1,
    ensures
        spine(m, root.digest, root.height as nat) is Known,
        catalog_growth(m, CatalogState::Root { root }, chunk) is Fail <==> edge_full(
            m,
            root.digest,
            root.height as nat,
        ) && root.height >= 8,
        catalog_growth(m, CatalogState::Empty, chunk) is Parts,
{
    let h = root.height as nat;
    lemma_tree_edge(m, root.digest, h);
    law_agreeing_edge_takes_the_chunk(m, root.digest, h, chunk);
    let g = growth(m, root.digest, h, chunk);
    if g is Parts && edge_full(m, root.digest, h) {
        let parts = g->Parts_0;
        let n = CatalogNodeView::Branch { height: (root.height + 1) as u8, children: parts };
        assert(root.height < 8);
        assert(node_ok(n)) by {
            assert(child_ok(parts[0]) && child_ok(parts[1]));
            assert(parts[1].first_seq == parts[0].last_seq + 1);
        }
        reveal(made);
    }
}

} // verus!
