//! The index of stable keys.
use std::collections::HashMap;

use comb::digest::{Digest, DigestKey};
use comb::error::{CoreError, Result};
use comb::hamt::{
    branch_node, child, empty_root, insert, leaf_node, lookup, map_node_load_err, masked_path,
    nibble, path_prefix_matches, slot_mask, upsert_child, HamtChild, HamtNode, IndexHead, LogScope,
    Lookup, StableIndexEntry, StableIndexRoot, MAX_BRANCH_DEPTH, NODE_SCHEMA,
};
use comb::operation::StableKey;
use comb::table::{Fetched, Step, Table};

struct Index {
    scope: LogScope,
    nodes: HashMap<Digest, HamtNode>,
}

fn copy(node: &HamtNode) -> HamtNode {
    match node {
        HamtNode::Branch { schema, depth, prefix, children } => HamtNode::Branch {
            schema: schema.clone(),
            depth: *depth,
            prefix: *prefix,
            children: children.clone(),
        },
        HamtNode::Leaf { schema, entry } => {
            HamtNode::Leaf { schema: schema.clone(), entry: entry.clone() }
        }
    }
}

impl Index {
    fn new() -> Self {
        Index {
            scope: LogScope {
                key: DigestKey::from_bytes([9u8; 32]),
                tenant: "org_t".to_owned(),
                log: "feed".to_owned(),
            },
            nodes: HashMap::new(),
        }
    }

    fn address(&self) -> impl Fn(&HamtNode) -> Result<Digest> {
        let key = self.scope.key;
        move |n: &HamtNode| Ok(key.digest(format!("{n:?}").as_bytes()))
    }

    fn put(&mut self, node: HamtNode) -> Digest {
        let d = (self.address())(&node).unwrap();
        self.nodes.insert(d, node);
        d
    }

    fn drive<T>(&self, mut step: impl FnMut(&Table<HamtNode>) -> Result<Step<T>>) -> Result<T> {
        let mut table = Table::new();
        loop {
            match step(&table)? {
                Step::Done(t) => return Ok(t),
                Step::Fetch(d) => {
                    let fetched = match self.nodes.get(&d) {
                        Some(n) => Fetched::Object { len: 100, object: copy(n) },
                        None => Fetched::Failed(CoreError::NotFound(d.to_string())),
                    };
                    table.insert(d, fetched);
                }
            }
        }
    }

    fn empty(&mut self) -> StableIndexRoot {
        let made = empty_root(&self.address()).unwrap();
        self.nodes.extend(made.uploads);
        made.root
    }

    fn insert(&mut self, root: &StableIndexRoot, e: &StableIndexEntry, head: IndexHead) -> Result<StableIndexRoot> {
        let address = self.address();
        let done = self.drive(|t| insert(&address, t, &self.scope, root, e, head))?;
        self.nodes.extend(done.uploads);
        Ok(done.root)
    }

    fn lookup(&self, root: &StableIndexRoot, k: &StableKey, head: IndexHead) -> Result<Lookup> {
        self.drive(|t| lookup(t, &self.scope, root, k, head))
    }

    fn path(&self, k: &StableKey) -> Digest {
        k.path_digest(&self.scope.key, &self.scope.tenant, "feed")
    }

    fn hash(&self) -> Digest {
        self.scope.key.digest(b"payload")
    }

    fn entry(&self, label: &str, first: u64, last: u64, generation: u64) -> StableIndexEntry {
        StableIndexEntry { key: key(label), payload_hash: self.hash(), first, last, generation }
    }
}

fn key(label: &str) -> StableKey {
    StableKey::try_from_canonical(label.as_bytes().to_vec()).unwrap()
}

fn head(generation: u64, head_seq: u64) -> IndexHead {
    IndexHead { generation, head_seq }
}

fn is_integrity<T>(r: Result<T>) -> bool {
    matches!(r, Err(CoreError::IntegrityError(_)))
}

#[test]
fn depth_boundary_is_51() {
    let d = DigestKey::from_bytes([1u8; 32]).digest(b"path");
    assert!(nibble(&d, MAX_BRANCH_DEPTH).is_ok());
    assert!(nibble(&d, MAX_BRANCH_DEPTH + 1).is_err());
    assert_eq!(slot_mask(MAX_BRANCH_DEPTH), 0b10000);
    assert_eq!(slot_mask(0), 0b11111);
}

#[test]
fn missing_child_on_verified_path_is_absent() {
    let mut index = Index::new();
    let root = index.empty();
    assert!(matches!(index.lookup(&root, &key("a"), head(0, 0)).unwrap(), Lookup::Absent));
}

#[test]
fn missing_required_node_is_integrity_not_absent() {
    let mut index = Index::new();
    let missing = Digest::parse(&format!("b3k:{}", "ab".repeat(32))).unwrap();
    let k = key("a");
    let path = index.path(&k);
    let slot = nibble(&path, 0).unwrap();
    let digest = index.put(branch_node(0, &path, vec![HamtChild { slot, digest: missing }]));
    let root = StableIndexRoot::new(digest, 1);
    assert!(is_integrity(index.lookup(&root, &k, head(1, 1))));
}

#[test]
fn wrong_path_leaf_is_integrity_not_absent() {
    let mut index = Index::new();
    let mut a = index.entry("alpha", 1, 1, 1);
    let mut b = index.entry("beta", 1, 1, 1);
    let mut slot_a = 0u8;
    let mut slot_b = 0u8;
    for i in 0..256u16 {
        a = index.entry(&format!("a{i}"), 1, 1, 1);
        b = index.entry(&format!("b{i}"), 1, 1, 1);
        slot_a = nibble(&index.path(&a.key), 0).unwrap();
        slot_b = nibble(&index.path(&b.key), 0).unwrap();
        if slot_a != slot_b {
            break;
        }
    }
    assert_ne!(slot_a, slot_b, "test needs distinct first nibbles");
    let leaf_b = index.put(leaf_node(&b));
    let path_a = index.path(&a.key);
    let digest = index.put(branch_node(0, &path_a, vec![HamtChild { slot: slot_a, digest: leaf_b }]));
    let root = StableIndexRoot::new(digest, 1);
    assert!(is_integrity(index.lookup(&root, &a.key, head(1, 1))));
}

#[test]
fn invalid_slots_unknown_schema_and_bad_range_fail_closed() {
    let mut index = Index::new();
    let k = key("a");
    let path = index.path(&k);
    let slot = nibble(&path, 0).unwrap();
    let hash = index.hash();
    let leaf = index.put(HamtNode::Leaf {
        schema: NODE_SCHEMA.to_owned(),
        entry: StableIndexEntry { key: k.clone(), payload_hash: hash, first: 5, last: 3, generation: 1 },
    });
    let digest = index.put(branch_node(0, &path, vec![HamtChild { slot, digest: leaf }]));
    let root = StableIndexRoot::new(digest, 1);
    assert!(is_integrity(index.lookup(&root, &k, head(10, 10))));

    let unsorted = index.put(branch_node(
        0,
        &path,
        vec![HamtChild { slot: 3, digest: hash }, HamtChild { slot: 1, digest: hash }],
    ));
    let root = StableIndexRoot::new(unsorted, 1);
    assert!(is_integrity(index.lookup(&root, &k, head(1, 1))));

    let wide = index.put(branch_node(0, &path, vec![HamtChild { slot: 32, digest: hash }]));
    let root = StableIndexRoot::new(wide, 1);
    assert!(is_integrity(index.lookup(&root, &k, head(1, 1))));

    let unknown = index.put(HamtNode::Branch {
        schema: "comb.log.stable-index-node/v0".to_owned(),
        depth: 0,
        prefix: masked_path(&path, 0),
        children: Vec::new(),
    });
    let mut root = StableIndexRoot::new(unknown, 0);
    assert!(is_integrity(index.lookup(&root, &k, head(0, 0))));
    root.schema = "nope".to_owned();
    assert!(is_integrity(index.lookup(&root, &k, head(0, 0))));
}

#[test]
fn receipt_ahead_of_head_is_integrity() {
    let mut index = Index::new();
    let root = index.empty();
    let e = index.entry("a", 1, 4, 2);
    let root = index.insert(&root, &e, head(2, 4)).unwrap();
    assert!(is_integrity(index.lookup(&root, &key("a"), head(1, 2))));
}

#[test]
fn roundtrip_lookup_finds_inserted_key() {
    let mut index = Index::new();
    let root = index.empty();
    let e = index.entry("doc", 1, 1, 1);
    let root = index.insert(&root, &e, head(1, 1)).unwrap();
    match index.lookup(&root, &e.key, head(1, 1)).unwrap() {
        Lookup::Found(got) => {
            assert_eq!(got.first, 1);
            assert_eq!(got.generation, 1);
        }
        Lookup::Absent => panic!("expected found"),
    }
    assert!(matches!(index.lookup(&root, &key("other"), head(1, 1)).unwrap(), Lookup::Absent));
}

#[test]
fn io_is_unavailable_not_integrity() {
    let d = Digest::from_raw([0; 32]);
    let out = map_node_load_err(&d, &CoreError::Io("eio".to_owned()));
    assert!(matches!(out, CoreError::BackendUnavailable(_)), "{out:?}");
    let gone = map_node_load_err(&d, &CoreError::NotFound("x".to_owned()));
    assert!(matches!(gone, CoreError::IntegrityError(_)), "{gone:?}");
}

#[test]
fn grafted_branch_is_integrity_not_absent() {
    let mut index = Index::new();
    let mut a = index.entry("alpha", 1, 1, 1);
    let mut b = index.entry("beta", 1, 1, 1);
    let mut path_a = index.path(&a.key);
    let mut path_b = index.path(&b.key);
    for i in 0..256u16 {
        path_a = index.path(&a.key);
        path_b = index.path(&b.key);
        if nibble(&path_a, 0).unwrap() != nibble(&path_b, 0).unwrap() {
            break;
        }
        a = index.entry(&format!("ga{i}"), 1, 1, 1);
        b = index.entry(&format!("gb{i}"), 1, 1, 1);
    }
    let grafted = index.put(branch_node(1, &path_b, Vec::new()));
    let digest = index.put(branch_node(
        0,
        &path_a,
        vec![HamtChild { slot: nibble(&path_a, 0).unwrap(), digest: grafted }],
    ));
    let root = StableIndexRoot::new(digest, 1);
    assert!(is_integrity(index.lookup(&root, &a.key, head(1, 1))));
}

#[test]
fn path_copy_validates_existing_leaf_range() {
    let mut index = Index::new();
    let mut a = index.entry("share-a", 1, 1, 1);
    let mut b = index.entry("share-b", 1, 9, 1);
    for i in 0..64u16 {
        a = index.entry(&format!("sa{i}"), 1, 1, 1);
        b = index.entry(&format!("sb{i}"), 1, 9, 1);
        if nibble(&index.path(&a.key), 0).unwrap() == nibble(&index.path(&b.key), 0).unwrap() {
            break;
        }
    }
    let bad = index.put(leaf_node(&b));
    let pa = index.path(&a.key);
    let slot = nibble(&pa, 0).unwrap();
    let digest = index.put(branch_node(0, &pa, vec![HamtChild { slot, digest: bad }]));
    let root = StableIndexRoot::new(digest, 1);
    assert!(is_integrity(index.insert(&root, &a, head(1, 1))));
}

#[test]
fn constructed_path_leaf_at_depth_52() {
    let mut index = Index::new();
    let e = index.entry("deep", 1, 1, 1);
    let path = index.path(&e.key);
    let mut child = index.put(leaf_node(&e));
    for d in (0..=MAX_BRANCH_DEPTH).rev() {
        let slot = nibble(&path, d).unwrap();
        child = index.put(branch_node(d, &path, vec![HamtChild { slot, digest: child }]));
    }
    let root = StableIndexRoot::new(child, 1);
    match index.lookup(&root, &e.key, head(1, 1)).unwrap() {
        Lookup::Found(got) => assert_eq!(got.generation, 1),
        Lookup::Absent => panic!("depth-52 leaf must be reachable"),
    }
}

#[test]
fn many_keys_are_found_again() {
    let mut index = Index::new();
    let mut root = index.empty();
    let h = head(400, 400);
    for i in 1..=400u64 {
        let e = index.entry(&format!("k{i}"), i, i, i);
        root = index.insert(&root, &e, h).unwrap();
    }
    assert_eq!(root.entries, 400);
    for i in 1..=400u64 {
        match index.lookup(&root, &key(&format!("k{i}")), h).unwrap() {
            Lookup::Found(got) => assert_eq!((got.first, got.generation), (i, i)),
            Lookup::Absent => panic!("k{i} is lost"),
        }
    }
    assert!(matches!(index.lookup(&root, &key("k401"), h).unwrap(), Lookup::Absent));
}

#[test]
fn a_node_without_a_digest_stops_the_insertion() {
    let mut index = Index::new();
    let e = index.entry("doc", 1, 1, 1);
    let none = |n: &HamtNode| match n {
        HamtNode::Branch { depth: 0, children, .. } => Err(CoreError::Rejected(format!("root of {}", children.len()))),
        other => panic!("{other:?}"),
    };
    match empty_root(&none) {
        Err(CoreError::Rejected(m)) => assert_eq!(m, "root of 0"),
        other => panic!("{other:?}"),
    }
    let root = index.empty();
    let hash = index.scope.key;
    let leaf = move |n: &HamtNode| match n {
        HamtNode::Leaf { entry, .. } => Err(CoreError::Rejected(format!("leaf {}", entry.first))),
        HamtNode::Branch { .. } => Ok(hash.digest(format!("{n:?}").as_bytes())),
    };
    match index.drive(|t| insert(&leaf, t, &index.scope, &root, &e, head(1, 1))) {
        Err(CoreError::Rejected(m)) => assert_eq!(m, "leaf 1"),
        other => panic!("{other:?}"),
    }
    let branch = move |n: &HamtNode| match n {
        HamtNode::Leaf { .. } => Ok(hash.digest(format!("{n:?}").as_bytes())),
        HamtNode::Branch { depth, children, .. } => {
            Err(CoreError::Rejected(format!("{} at {depth}", children.len())))
        }
    };
    match index.drive(|t| insert(&branch, t, &index.scope, &root, &e, head(1, 1))) {
        Err(CoreError::Rejected(m)) => assert_eq!(m, "1 at 0"),
        other => panic!("{other:?}"),
    }
}

#[test]
fn an_insertion_adds_one_key_for_good() {
    let mut index = Index::new();
    let root = index.empty();
    let a = index.entry("a", 1, 1, 1);
    let b = index.entry("b", 2, 3, 2);
    let one = index.insert(&root, &a, head(1, 1)).unwrap();
    let two = index.insert(&one, &b, head(2, 3)).unwrap();
    assert_eq!((one.entries, two.entries), (1, 2));
    for at in [head(2, 3), head(9, 30)] {
        match index.lookup(&two, &a.key, at).unwrap() {
            Lookup::Found(got) => assert_eq!((got.first, got.last, got.generation), (1, 1, 1)),
            Lookup::Absent => panic!("a is lost"),
        }
        match index.lookup(&two, &b.key, at).unwrap() {
            Lookup::Found(got) => assert_eq!((got.first, got.last, got.generation), (2, 3, 2)),
            Lookup::Absent => panic!("b is lost"),
        }
        assert!(matches!(index.lookup(&two, &key("c"), at).unwrap(), Lookup::Absent));
    }
    assert!(is_integrity(index.lookup(&two, &b.key, head(1, 3))));
    assert!(is_integrity(index.lookup(&two, &b.key, head(2, 2))));
}

#[test]
fn an_entry_ahead_of_its_head_is_found_later() {
    let mut index = Index::new();
    let root = index.empty();
    let known = index.entry("known", 1, 1, 1);
    let root = index.insert(&root, &known, head(1, 1)).unwrap();
    let ahead = index.entry("ahead", 3, 4, 2);
    let root = index.insert(&root, &ahead, head(1, 1)).unwrap();
    assert!(is_integrity(index.lookup(&root, &ahead.key, head(1, 1))));
    for at in [head(2, 4), head(7, 9)] {
        match index.lookup(&root, &ahead.key, at).unwrap() {
            Lookup::Found(got) => assert_eq!((got.first, got.last, got.generation), (3, 4, 2)),
            Lookup::Absent => panic!("the entry is lost"),
        }
    }
    match index.lookup(&root, &known.key, head(1, 1)).unwrap() {
        Lookup::Found(got) => assert_eq!((got.first, got.generation), (1, 1)),
        Lookup::Absent => panic!("the other entry is lost"),
    }
}

#[test]
fn children_are_replaced_or_put_in_order() {
    let mut index = Index::new();
    let mut digest = |label: &[u8]| index.put(leaf_node(&StableIndexEntry {
        key: StableKey::try_from_canonical(label.to_vec()).unwrap(),
        payload_hash: Digest::from_raw([0; 32]),
        first: 1,
        last: 1,
        generation: 1,
    }));
    let (a, b, c, d) = (digest(b"a"), digest(b"b"), digest(b"c"), digest(b"d"));
    let mut children = Vec::new();
    upsert_child(&mut children, 9, a);
    upsert_child(&mut children, 2, b);
    upsert_child(&mut children, 31, c);
    upsert_child(&mut children, 9, d);
    assert_eq!(children.iter().map(|c| c.slot).collect::<Vec<_>>(), vec![2, 9, 31]);
    assert_eq!(child(&children, 2), Some(b));
    assert_eq!(child(&children, 9), Some(d));
    assert_eq!(child(&children, 31), Some(c));
    assert_eq!(child(&children, 3), None);
}

#[test]
fn paths_share_the_bits_above_a_level() {
    let mut raw = [0xa5u8; 32];
    let a = Digest::from_raw(raw);
    raw[2] ^= 1;
    let b = Digest::from_raw(raw);
    for depth in 0..=4 {
        assert_eq!(masked_path(&a, depth), masked_path(&b, depth));
        assert!(path_prefix_matches(&a, &b, depth).unwrap());
    }
    for depth in 5..=52 {
        assert_ne!(masked_path(&a, depth), masked_path(&b, depth));
        assert!(!path_prefix_matches(&a, &b, depth).unwrap());
    }
    assert!(path_prefix_matches(&a, &a, 52).unwrap());
    assert!(matches!(path_prefix_matches(&a, &a, 53), Err(CoreError::Rejected(_))));
    assert!(!path_prefix_matches(&a, &b, 53).unwrap());
}
