//! The catalog of chunks.
use std::collections::HashMap;

use comb::catalog::{
    append, chunk_covering, put_node, seek_leaf, validate_children, validate_leaf_refs,
    walk_right_spine_digests, CatalogChild, CatalogChunkRef, CatalogNode, CatalogSchemaV1,
    CatalogState, ChunkCatalogRoot, MAX_CATALOG_HEIGHT,
};
use comb::digest::{Digest, DigestKey};
use comb::error::{CoreError, Result};
use comb::table::{Fetched, Step, Table};

struct Nodes {
    key: DigestKey,
    nodes: HashMap<Digest, CatalogNode>,
}

fn copy(node: &CatalogNode) -> CatalogNode {
    match node {
        CatalogNode::Leaf { refs, .. } => {
            CatalogNode::Leaf { schema: CatalogSchemaV1::V1, refs: refs.clone() }
        }
        CatalogNode::Branch { height, children, .. } => CatalogNode::Branch {
            schema: CatalogSchemaV1::V1,
            height: *height,
            children: children.clone(),
        },
    }
}

impl Nodes {
    fn new() -> Self {
        Nodes { key: DigestKey::from_bytes([4u8; 32]), nodes: HashMap::new() }
    }

    fn address(&self) -> impl Fn(&CatalogNode) -> Result<Digest> {
        let key = self.key;
        move |n: &CatalogNode| Ok(key.digest(format!("{n:?}").as_bytes()))
    }

    fn put(&mut self, node: CatalogNode) -> Result<Digest> {
        let mut uploads = Vec::new();
        let d = put_node(&self.address(), node, &mut uploads)?;
        self.nodes.extend(uploads);
        Ok(d)
    }

    fn load(&self, d: &Digest) -> &CatalogNode {
        &self.nodes[d]
    }

    fn drive<T>(&self, mut step: impl FnMut(&Table<CatalogNode>) -> Result<Step<T>>) -> Result<T> {
        let mut table = Table::new();
        loop {
            match step(&table)? {
                Step::Done(t) => return Ok(t),
                Step::Fetch(d) => {
                    let fetched = match self.nodes.get(&d) {
                        Some(n) => Fetched::Object { len: 100, object: copy(n) },
                        None => Fetched::Failed(CoreError::NotFound(d.to_string())),
                    };
                    table.insert(d, fetched);
                }
            }
        }
    }

    fn append(&mut self, state: &CatalogState, chunk: CatalogChunkRef) -> Result<CatalogState> {
        let address = self.address();
        let done = self.drive(|t| append(&address, t, state, chunk))?;
        self.nodes.extend(done.uploads);
        Ok(done.state)
    }

    fn seek(&self, state: &CatalogState, seq: u64) -> Result<Option<Vec<CatalogChunkRef>>> {
        self.drive(|t| seek_leaf(t, state, seq))
    }

    fn filled(&mut self, n: u64) -> CatalogState {
        let d = self.key.digest(b"chunk");
        let mut state = CatalogState::Empty;
        for seq in 1..=n {
            state = self.append(&state, tiny(seq, &d)).unwrap();
        }
        state
    }
}

fn tiny(seq: u64, digest: &Digest) -> CatalogChunkRef {
    CatalogChunkRef {
        digest: *digest,
        first_seq: seq,
        last_seq: seq,
        event_count: 1,
        raw_payload_bytes: 1,
        plaintext_bytes: 8,
    }
}

fn leaf(refs: Vec<CatalogChunkRef>) -> CatalogNode {
    CatalogNode::Leaf { schema: CatalogSchemaV1::V1, refs }
}

fn branch(height: u8, children: Vec<CatalogChild>) -> CatalogNode {
    CatalogNode::Branch { schema: CatalogSchemaV1::V1, height, children }
}

fn child(first_seq: u64, last_seq: u64, chunk_count: u64, digest: Digest) -> CatalogChild {
    CatalogChild { first_seq, last_seq, chunk_count, digest }
}

fn rooted(digest: Digest, height: u8, last_seq: u64) -> CatalogState {
    CatalogState::Root {
        root: ChunkCatalogRoot {
            schema: CatalogSchemaV1::V1,
            digest,
            height,
            first_seq: 1,
            last_seq,
            chunk_count: 1,
        },
    }
}

fn root_of(state: &CatalogState) -> ChunkCatalogRoot {
    match state {
        CatalogState::Root { root } => *root,
        CatalogState::Empty => panic!("expected root"),
    }
}

#[test]
fn catalog_rejects_sequence_wrap_without_panicking() {
    let digest = Nodes::new().key.digest(b"chunk");
    let refs = vec![tiny(u64::MAX, &digest), tiny(1, &digest)];
    assert!(matches!(validate_leaf_refs(&refs), Err(CoreError::IntegrityError(_))));
    let children: Vec<_> =
        refs.iter().map(|r| child(r.first_seq, r.last_seq, 1, r.digest)).collect();
    assert!(matches!(validate_children(&children, 1), Err(CoreError::IntegrityError(_))));
}

#[test]
fn catalog_rejects_more_chunks_than_events() {
    let digest = Nodes::new().key.digest(b"chunk");
    let children = vec![child(1, 1, u64::MAX, digest)];
    assert!(matches!(validate_children(&children, 1), Err(CoreError::IntegrityError(_))));
}

fn assert_height_invariant(nodes: &Nodes, state: &CatalogState) {
    let root = root_of(state);
    let mut digest = root.digest;
    let mut expected_height = root.height;
    let mut depth = 0u8;
    loop {
        match nodes.load(&digest) {
            CatalogNode::Leaf { .. } => {
                assert_eq!(expected_height, 0, "leaf at claimed height {expected_height}");
                assert_eq!(depth, root.height, "root.height must equal descent depth");
                return;
            }
            CatalogNode::Branch { height, children, .. } => {
                assert_eq!(*height, expected_height);
                for c in children {
                    match nodes.load(&c.digest) {
                        CatalogNode::Leaf { .. } => {
                            assert_eq!(*height, 1, "leaf child under height {height}");
                        }
                        CatalogNode::Branch { height: ch, .. } => {
                            assert_eq!(*ch, height - 1,
                                "child height {ch} must be parent {height} minus one");
                        }
                    }
                }
                digest = children[0].digest;
                expected_height = height - 1;
                depth += 1;
                assert!(depth <= MAX_CATALOG_HEIGHT);
            }
        }
    }
}

#[test]
fn seventy_chunks_split_leaves_and_create_root() {
    let mut nodes = Nodes::new();
    let state = nodes.filled(70);
    let root = root_of(&state);
    assert_eq!(root.first_seq, 1);
    assert_eq!(root.last_seq, 70);
    assert_eq!(root.chunk_count, 70);
    assert!(root.height >= 1, "root must be a branch after leaf splits");
    for seq in [1, 32, 33, 64, 65, 70] {
        let leaf = nodes.seek(&state, seq).unwrap().unwrap();
        assert!(leaf.iter().any(|r| r.first_seq <= seq && seq <= r.last_seq));
        assert_eq!(chunk_covering(&leaf, seq).unwrap().first_seq, seq);
    }
    assert_height_invariant(&nodes, &state);
}

#[test]
fn one_thousand_twenty_five_chunks_split_an_internal_branch() {
    let mut nodes = Nodes::new();
    let state = nodes.filled(1025);
    let root = root_of(&state);
    assert_eq!(root.chunk_count, 1025);
    assert!(root.height >= 2,
        "1025 refs exceed 32*32 and must split an internal branch, height={}", root.height);
    let leaf = nodes.seek(&state, 1025).unwrap().unwrap();
    assert_eq!(leaf.last().unwrap().last_seq, 1025);
    assert_height_invariant(&nodes, &state);
}

#[test]
fn twenty_one_hundred_chunks_keep_parent_child_height() {
    let mut nodes = Nodes::new();
    let state = nodes.filled(2100);
    let root = root_of(&state);
    assert_eq!(root.chunk_count, 2100);
    assert_eq!(root.first_seq, 1);
    assert_eq!(root.last_seq, 2100);
    assert_height_invariant(&nodes, &state);
    for seq in [1, 32, 1024, 1025, 2048, 2050, 2100] {
        let leaf = nodes.seek(&state, seq).unwrap().unwrap();
        assert!(leaf.first().unwrap().first_seq <= seq && seq <= leaf.last().unwrap().last_seq);
    }
}

#[test]
fn seek_leaf_rejects_child_last_seq_off_by_one() {
    let mut nodes = Nodes::new();
    let d = nodes.key.digest(b"chunk");
    let leaf_digest = nodes.put(leaf(vec![tiny(1, &d)])).unwrap();
    let root_digest = nodes.put(branch(1, vec![child(1, 2, 1, leaf_digest)])).unwrap();
    match nodes.seek(&rooted(root_digest, 1, 2), 2).unwrap_err() {
        CoreError::IntegrityError(m) => assert!(m.contains("does not cover"), "{m}"),
        other => panic!("expected IntegrityError, got {other:?}"),
    }
}

#[test]
fn seek_leaf_rejects_unbounded_spine() {
    let mut nodes = Nodes::new();
    let d = nodes.key.digest(b"chunk");
    let mut node = nodes.put(leaf(vec![tiny(1, &d)])).unwrap();
    let mut height = 0u8;
    for h in 1..=MAX_CATALOG_HEIGHT + 2 {
        height = h.min(MAX_CATALOG_HEIGHT);
        node = nodes.put(branch(height, vec![child(1, 1, 1, node)])).unwrap();
    }
    match nodes.seek(&rooted(node, height, 1), 1).unwrap_err() {
        CoreError::IntegrityError(m) => assert!(m.contains("height bound"), "{m}"),
        other => panic!("expected height-bound IntegrityError, got {other:?}"),
    }
}

#[test]
fn put_node_rejects_structurally_invalid_leaf() {
    assert!(matches!(Nodes::new().put(leaf(Vec::new())), Err(CoreError::IntegrityError(_))));
}

#[test]
fn review_2100_refs_preserve_every_child_height() {
    let mut nodes = Nodes::new();
    let root = root_of(&nodes.filled(2100));
    let mut pending = vec![(root.digest, root.height)];
    while let Some((d, expected)) = pending.pop() {
        match nodes.load(&d) {
            CatalogNode::Leaf { .. } => {
                assert_eq!(expected, 0, "leaf depth differs from declared root/parent height");
            }
            CatalogNode::Branch { height, children, .. } => {
                assert_eq!(*height, expected, "branch child did not decrease height");
                assert!(*height > 0);
                for c in children {
                    pending.push((c.digest, height - 1));
                }
            }
        }
    }
}

#[test]
fn review_seek_rejects_noncovering_leaf() {
    let mut nodes = Nodes::new();
    let d = nodes.key.digest(b"chunk");
    let leaf_digest = nodes.put(leaf(vec![tiny(1, &d)])).unwrap();
    let root_digest = nodes.put(branch(1, vec![child(1, 2, 1, leaf_digest)])).unwrap();
    assert!(nodes.seek(&rooted(root_digest, 1, 2), 2).is_err(),
        "noncovering leaf is integrity failure");
}

#[test]
fn review_seek_rejects_depth_beyond_bound() {
    let mut nodes = Nodes::new();
    let d = nodes.key.digest(b"chunk");
    let mut node = nodes.put(leaf(vec![tiny(1, &d)])).unwrap();
    for _ in 0..10 {
        node = nodes.put(branch(1, vec![child(1, 1, 1, node)])).unwrap();
    }
    assert!(nodes.seek(&rooted(node, 1, 1), 1).is_err(), "ten branch hops exceed height bound");
}

#[test]
fn earlier_chunks_stay_where_they_were() {
    let mut nodes = Nodes::new();
    let state = nodes.filled(40);
    let before = nodes.seek(&state, 7).unwrap().unwrap();
    let d = nodes.key.digest(b"later");
    let next = nodes.append(&state, tiny(41, &d)).unwrap();
    let after = nodes.seek(&next, 7).unwrap().unwrap();
    assert_eq!(chunk_covering(&before, 7), chunk_covering(&after, 7));
    assert_eq!(chunk_covering(&nodes.seek(&next, 41).unwrap().unwrap(), 41).unwrap().digest, d);
    assert!(nodes.seek(&next, 42).unwrap().is_none());
    assert!(matches!(nodes.append(&state, tiny(43, &d)), Err(CoreError::IntegrityError(_))));
}

#[test]
fn the_right_edge_is_walked() {
    let mut nodes = Nodes::new();
    let state = nodes.filled(70);
    let edge = nodes.drive(|t| walk_right_spine_digests(t, &state)).unwrap();
    assert_eq!(edge.len(), root_of(&state).height as usize + 1);
    assert_eq!(edge[0], root_of(&state).digest);
    assert!(matches!(nodes.load(edge.last().unwrap()), CatalogNode::Leaf { .. }));
}

#[test]
fn a_missing_node_is_an_integrity_error() {
    let nodes = Nodes::new();
    let gone = nodes.key.digest(b"gone");
    assert!(matches!(nodes.seek(&rooted(gone, 1, 1), 1), Err(CoreError::IntegrityError(_))));
}

#[test]
fn a_node_without_a_digest_stops_the_append() {
    let mut nodes = Nodes::new();
    let state = nodes.filled(40);
    let d = nodes.key.digest(b"chunk");
    let key = nodes.key;
    let leafless = move |n: &CatalogNode| match n {
        CatalogNode::Leaf { refs, .. } => Err(CoreError::Rejected(format!("{} refs", refs.len()))),
        CatalogNode::Branch { .. } => Ok(key.digest(format!("{n:?}").as_bytes())),
    };
    match nodes.drive(|t| append(&leafless, t, &state, tiny(41, &d))) {
        Err(CoreError::Rejected(m)) => assert_eq!(m, "9 refs"),
        other => panic!("{other:?}"),
    }
    let branchless = move |n: &CatalogNode| match n {
        CatalogNode::Leaf { .. } => Ok(key.digest(format!("{n:?}").as_bytes())),
        CatalogNode::Branch { height, children, .. } => {
            Err(CoreError::Rejected(format!("{} at {height}", children.len())))
        }
    };
    match nodes.drive(|t| append(&branchless, t, &state, tiny(41, &d))) {
        Err(CoreError::Rejected(m)) => assert_eq!(m, "2 at 1"),
        other => panic!("{other:?}"),
    }
}

#[test]
fn an_edge_that_disagrees_takes_no_chunk() {
    let mut nodes = Nodes::new();
    let d = nodes.key.digest(b"chunk");
    let text = |r: Result<CatalogState>| match r {
        Err(CoreError::IntegrityError(m)) => m,
        other => panic!("{other:?}"),
    };
    let short = nodes.put(leaf((1..=5).map(|n| tiny(n, &d)).collect())).unwrap();
    let state = rooted(short, 0, 10);
    assert_eq!(text(nodes.append(&state, tiny(11, &d))), "catalog leaf ranges are gapped or overlapping");
    let full = nodes.put(leaf((1..=32).map(|n| tiny(n, &d)).collect())).unwrap();
    let state = rooted(full, 0, 40);
    assert_eq!(text(nodes.append(&state, tiny(41, &d))), "catalog child ranges are gapped or overlapping");
    let early = nodes.put(leaf((3..=5).map(|n| tiny(n, &d)).collect())).unwrap();
    let above = nodes.put(branch(1, vec![child(1, 1, 1, d), child(2, 5, 3, early)])).unwrap();
    let state = rooted(above, 1, 5);
    assert_eq!(text(nodes.append(&state, tiny(6, &d))), "catalog child ranges are gapped or overlapping");
}
