//! The stages on a small archive.

use std::collections::HashSet;

use sux::dict::EliasFanoBuilder;

use swh_resolver::ntf::common::{
    DirMap, NodeBitset, RequestedFid, Seeds, Status, FID_MISSING, ROOT_MISSING,
};
use swh_resolver::ntf::entries::{collect_entries, index_row};
use swh_resolver::ntf::graph::{BackwardGraph, EdgeLabel, Graph, NodeType};
use swh_resolver::ntf::hydrate::{
    after_prefetch, hydrate, merge_shards, plan_scan, prefetch_step, scan_band, PrefetchStep,
    WorkerShard, PREFETCH_CHUNK, PREFETCH_WINDOW,
};
use swh_resolver::ntf::maps::RootMemo;
use swh_resolver::ntf::names::{
    add_chunk, add_components, byte_set, collect_distinct_components, empty_names, scan_labels,
};
use swh_resolver::ntf::offsets::{band_bounds, byte_position, first_node_at_bit, LabelOffsets};
use swh_resolver::ntf::pipeline::resolve_rows;
use swh_resolver::ntf::prefix::{build_rev_prefix_index, hash_prefix_hex, shard_of, PrefixIndex};
use swh_resolver::ntf::provenance::{
    build_snapshot_set, is_branch_head, reaches_origin_snapshot, root_dir_of_rev, select_winner,
};
use swh_resolver::ntf::reach::mark_reachable_dirs;
use swh_resolver::ntf::scratch::{
    all_full_hashes, group_rows, prefix_key, resolve_candidates, resolve_group, resolve_in_origin,
    Input, InputBatch,
};
use swh_resolver::ntf::seeds::{
    append_seeds, build_seeds, count_conflicts, count_missing_roots, empty_seeds, parse_bin,
    parse_u16, path_ids, push_seed, resolve_root, SeedBatch, SeedStats,
};
use swh_resolver::ntf::text::{canonical_github_url, origin_swhid_from_url};
use swh_resolver::ntf::bins::{
    bin_dir, part_file, BinWriter, BinWriters, OUTPUT_BATCH_SIZE,
};
use swh_resolver::ntf::traverse::{
    emit, emit_batch, traverse, walk_row, BinnedRow, Misaligned, OutputRow, PassThrough,
};
use swh_resolver::ntf::verify::{
    check_sample, direct_resolve, OutputBatch, Row, Sample,
};

struct Node {
    ty: NodeType,
    swhid: String,
    hash: [u8; 20],
    arcs: Vec<(usize, Vec<EdgeLabel>)>,
}

struct Archive {
    nodes: Vec<Node>,
    names: Vec<&'static str>,
}

impl Graph for Archive {
    fn num_nodes(&self) -> usize {
        self.nodes.len()
    }
    fn node_type(&self, node: usize) -> NodeType {
        self.nodes[node].ty
    }
    fn successors(&self, node: usize) -> Vec<usize> {
        self.nodes[node].arcs.iter().map(|a| a.0).collect()
    }
    fn labeled_successors(&self, node: usize) -> Vec<(usize, Vec<EdgeLabel>)> {
        self.nodes[node].arcs.clone()
    }
    fn label_name(&self, id: u64) -> Vec<u8> {
        self.names[id as usize].as_bytes().to_vec()
    }
    fn node_id(&self, swhid: &str) -> Option<usize> {
        self.nodes.iter().position(|n| n.swhid == swhid)
    }
    fn swhid(&self, node: usize) -> String {
        self.nodes[node].swhid.clone()
    }
    fn hash(&self, node: usize) -> [u8; 20] {
        self.nodes[node].hash
    }
}

impl BackwardGraph for Archive {
    fn predecessors(&self, node: usize) -> Vec<usize> {
        let mut out = Vec::new();
        for (i, n) in self.nodes.iter().enumerate() {
            if n.arcs.iter().any(|a| a.0 == node) {
                out.push(i);
            }
        }
        out
    }
}

const README: u64 = 0;
const SRC: u64 = 1;
const MAIN: u64 = 2;
const SUB: u64 = 3;
const DEEP: u64 = 4;
const LIB: u64 = 5;

const ORIGIN: usize = 0;
const SNAP: usize = 1;
const HEAD: usize = 2;
const PARENT: usize = 3;
const STRAY: usize = 4;
const ROOT: usize = 5;
const SRC_DIR: usize = 6;
const README_CNT: usize = 7;
const MAIN_CNT: usize = 8;
const DEEP_DIR: usize = 9;
const LIB_CNT: usize = 10;
const SUB_REV: usize = 11;
const RELEASE: usize = 12;
const BARE_REV: usize = 13;
const OLD_ROOT: usize = 14;
const BARE_SNAP: usize = 15;
const BARE_ORIGIN: usize = 16;
const TAGGED: usize = 17;

fn entry(name: u64) -> Vec<EdgeLabel> {
    vec![EdgeLabel::DirEntry { name }]
}

fn hash_of(first: u8, second: u8) -> [u8; 20] {
    let mut h = [0x11u8; 20];
    h[0] = first;
    h[1] = second;
    h
}

fn hex(h: &[u8; 20]) -> String {
    h.iter().map(|b| format!("{b:02x}")).collect()
}

/// An origin with one snapshot. The snapshot has the branch head `HEAD`, whose parent is
/// `PARENT`, and a release of `TAGGED`. `STRAY` belongs to no origin.
fn archive() -> Archive {
    let rev = |h: [u8; 20], arcs: Vec<usize>| Node {
        ty: NodeType::Revision,
        swhid: format!("swh:1:rev:{}", hex(&h)),
        hash: h,
        arcs: arcs.into_iter().map(|a| (a, vec![])).collect(),
    };
    let other = |ty: NodeType, swhid: &str, arcs: Vec<(usize, Vec<EdgeLabel>)>| Node {
        ty,
        swhid: swhid.to_string(),
        hash: [0; 20],
        arcs,
    };
    let ori = |name: &str| origin_swhid_from_url(&canonical_github_url(name));
    let plain = |list: &[usize]| -> Vec<(usize, Vec<EdgeLabel>)> {
        list.iter().map(|&a| (a, vec![EdgeLabel::Branch])).collect()
    };
    Archive {
        nodes: vec![
            other(NodeType::Origin, &ori("o/r"), vec![(SNAP, vec![EdgeLabel::Visit])]),
            other(NodeType::Snapshot, "swh:1:snp:1", plain(&[HEAD, RELEASE])),
            rev(hash_of(0xab, 0xcd), vec![PARENT, ROOT]),
            rev(hash_of(0xab, 0xce), vec![OLD_ROOT]),
            rev(hash_of(0xab, 0xff), vec![ROOT]),
            other(
                NodeType::Directory,
                "swh:1:dir:root",
                vec![
                    (README_CNT, entry(README)),
                    (SRC_DIR, entry(SRC)),
                    (SUB_REV, entry(SUB)),
                ],
            ),
            other(
                NodeType::Directory,
                "swh:1:dir:src",
                vec![(DEEP_DIR, entry(DEEP)), (MAIN_CNT, entry(MAIN))],
            ),
            other(NodeType::Content, "swh:1:cnt:readme", vec![]),
            other(NodeType::Content, "swh:1:cnt:main", vec![]),
            other(NodeType::Directory, "swh:1:dir:deep", vec![(LIB_CNT, entry(LIB))]),
            other(NodeType::Content, "swh:1:cnt:lib", vec![]),
            rev(hash_of(0x01, 0x02), vec![]),
            other(NodeType::Release, "swh:1:rel:1", plain(&[TAGGED])),
            rev(hash_of(0xee, 0xee), vec![]),
            other(NodeType::Directory, "swh:1:dir:old", vec![(README_CNT, entry(README))]),
            other(NodeType::Snapshot, "swh:1:snp:2", plain(&[BARE_REV])),
            other(NodeType::Origin, &ori("o/bare"), plain(&[BARE_SNAP])),
            rev(hash_of(0xab, 0xcf), vec![ROOT]),
        ],
        names: vec!["README.md", "src", "main.rs", "sub", "deep", "lib.rs"],
    }
}

/// The offset of each node is ten bits behind that of the node before.
fn offsets(num_nodes: usize) -> LabelOffsets {
    let mut ef = EliasFanoBuilder::new(num_nodes + 1, num_nodes * 10);
    for n in 0..=num_nodes {
        ef.push(n * 10);
    }
    LabelOffsets { seq: Box::new(ef.build_with_seq()) }
}

fn strings(list: &[&str]) -> Vec<String> {
    list.iter().map(|s| s.to_string()).collect()
}

// ---------------------------------------------------------------- revisions by prefix

#[test]
fn digits_of_a_hash() {
    let h = hash_of(0xab, 0xcd);
    assert_eq!(hash_prefix_hex(&h, 0), b"".to_vec());
    assert_eq!(hash_prefix_hex(&h, 3), b"abc".to_vec());
    assert_eq!(hash_prefix_hex(&h, 5), b"abcd1".to_vec());
    assert_eq!(hash_prefix_hex(&h, 40), hex(&h).into_bytes());
    assert_eq!(hash_prefix_hex(&h, 99), hex(&h).into_bytes());
}

#[test]
fn shards_by_fnv() {
    assert_eq!(shard_of(b""), 0x25);
    assert_eq!(shard_of(b"a"), 0x8c);
    assert_eq!(shard_of(b"foobar"), 0xe8);
}

#[test]
fn revisions_by_prefix() {
    let index = build_rev_prefix_index(&archive(), 3);
    let nodes = |p: &str| index.lookup_prefix(p.as_bytes()).cloned();
    assert_eq!(nodes("abc"), Some(vec![HEAD, PARENT, TAGGED]));
    assert_eq!(nodes("abf"), Some(vec![STRAY]));
    assert_eq!(nodes("010"), Some(vec![SUB_REV]));
    assert_eq!(nodes("fff"), None);
    assert_eq!(nodes("ab"), None);
    assert!(PrefixIndex::new().lookup_prefix(b"abc").is_none());
}

#[test]
fn commits_as_keys() {
    assert_eq!(prefix_key("ABcdEF01", 7), b"abcdef0".to_vec());
    assert_eq!(prefix_key("abc", 7), b"abc".to_vec());
    assert_eq!(prefix_key("", 7), b"".to_vec());
    assert_eq!(prefix_key("\u{c9}z", 2), vec![0xc3, 0x89]);
}

#[test]
fn full_hashes() {
    let full = hex(&hash_of(1, 2));
    assert!(all_full_hashes(&vec![full.clone(), full.to_uppercase()]));
    assert!(!all_full_hashes(&vec![]));
    assert!(!all_full_hashes(&vec![full.clone(), "abc".to_string()]));
    assert!(!all_full_hashes(&vec![full.replace('1', "g")]));
    assert!(!all_full_hashes(&vec![format!("{full}0")]));
}

// ---------------------------------------------------------------- provenance

#[test]
fn snapshots_of_an_origin() {
    let (list, set) = build_snapshot_set(&archive(), ORIGIN);
    assert_eq!(list, vec![SNAP]);
    assert_eq!(set, HashSet::from([SNAP]));
    let (list, set) = build_snapshot_set(&archive(), SNAP);
    assert!(list.is_empty() && set.is_empty());
    // The list has the order of the arcs, and what is no snapshot is left out.
    let mut g = archive();
    let plain = |n: usize| (n, vec![]);
    g.nodes[ORIGIN].arcs = vec![plain(BARE_SNAP), plain(HEAD), plain(SNAP), plain(BARE_SNAP)];
    let (list, set) = build_snapshot_set(&g, ORIGIN);
    assert_eq!(list, vec![BARE_SNAP, SNAP, BARE_SNAP]);
    assert_eq!(set, HashSet::from([SNAP, BARE_SNAP]));
}

#[test]
fn walks_backwards_to_a_snapshot() {
    let g = archive();
    let set = HashSet::from([SNAP]);
    assert!(reaches_origin_snapshot(&g, HEAD, &set));
    assert!(reaches_origin_snapshot(&g, PARENT, &set));
    assert!(reaches_origin_snapshot(&g, TAGGED, &set));
    assert!(!reaches_origin_snapshot(&g, STRAY, &set));
    assert!(!reaches_origin_snapshot(&g, BARE_REV, &set));
    assert!(!reaches_origin_snapshot(&g, HEAD, &HashSet::from([BARE_SNAP])));
    // The walk starts with a step: a snapshot does not reach itself.
    assert!(!reaches_origin_snapshot(&g, SNAP, &set));
}

#[test]
fn branch_heads() {
    let g = archive();
    assert!(is_branch_head(&g, SNAP, HEAD));
    assert!(is_branch_head(&g, SNAP, TAGGED));
    assert!(!is_branch_head(&g, SNAP, PARENT));
    assert!(!is_branch_head(&g, SNAP, RELEASE));
    assert!(!is_branch_head(&g, BARE_SNAP, HEAD));
}

#[test]
fn roots_of_revisions() {
    let g = archive();
    assert_eq!(root_dir_of_rev(&g, HEAD), Some(ROOT));
    assert_eq!(root_dir_of_rev(&g, PARENT), Some(OLD_ROOT));
    assert_eq!(root_dir_of_rev(&g, BARE_REV), None);
}

#[test]
fn the_winner_is_a_head_and_the_greatest() {
    let g = archive();
    let (list, set) = build_snapshot_set(&g, ORIGIN);
    let win = |cands: Vec<usize>| select_winner(&g, &list, &set, &cands);
    // Both heads are preferred to their parent; of the heads, the greater hash wins.
    assert_eq!(win(vec![HEAD, PARENT, TAGGED]), Some(TAGGED));
    assert_eq!(win(vec![HEAD, PARENT]), Some(HEAD));
    assert_eq!(win(vec![PARENT]), Some(PARENT));
    // The stray has the greatest hash, but comes from no snapshot of the origin.
    assert_eq!(win(vec![HEAD, STRAY]), Some(HEAD));
    assert_eq!(win(vec![STRAY]), None);
    assert_eq!(win(vec![]), None);
}

#[test]
fn equal_swhids_give_the_greater_node() {
    let mut g = archive();
    g.nodes[TAGGED].swhid = g.nodes[HEAD].swhid.clone();
    let (list, set) = build_snapshot_set(&g, ORIGIN);
    assert_eq!(select_winner(&g, &list, &set, &vec![HEAD, TAGGED]), Some(TAGGED));
}

// ---------------------------------------------------------------- candidates

fn input(rows: &[(&str, &str, &str)]) -> Input {
    Input {
        repo: rows.iter().map(|r| r.0.to_string()).collect(),
        commit_id: rows.iter().map(|r| r.1.to_string()).collect(),
        rel_path: rows.iter().map(|r| r.2.to_string()).collect(),
        bin: rows.iter().map(|_| "48".to_string()).collect(),
    }
}

#[test]
fn batches_of_the_input() {
    let mut inp = Input::new();
    inp.append(InputBatch {
        repo: strings(&["a"]),
        commit_id: strings(&["1"]),
        rel_path: strings(&["x"]),
        bin: Some(strings(&["50"])),
    });
    inp.append(InputBatch {
        repo: strings(&["b", "c"]),
        commit_id: strings(&["2", "3"]),
        rel_path: strings(&["y", "z"]),
        bin: None,
    });
    assert_eq!(inp.repo, strings(&["a", "b", "c"]));
    assert_eq!(inp.commit_id, strings(&["1", "2", "3"]));
    assert_eq!(inp.rel_path, strings(&["x", "y", "z"]));
    assert_eq!(inp.bin, strings(&["50", "", ""]));
}

#[test]
fn rows_by_repository_and_commit() {
    let inp = input(&[("a", "1", "x"), ("b", "1", "y"), ("a", "1", "z"), ("a", "2", "w")]);
    let mut groups: Vec<(String, String, Vec<usize>)> =
        group_rows(&inp).into_iter().map(|g| (g.repo, g.commit_id, g.rows)).collect();
    groups.sort();
    assert_eq!(
        groups,
        vec![
            ("a".to_string(), "1".to_string(), vec![0, 2]),
            ("a".to_string(), "2".to_string(), vec![3]),
            ("b".to_string(), "1".to_string(), vec![1]),
        ]
    );
}

#[test]
fn a_group_is_resolved_by_its_prefix() {
    let g = archive();
    let inp = input(&[("o/r", "ABC", "README.md"), ("o/r", "ABC", "src/main.rs")]);
    let index = build_rev_prefix_index(&g, 3);
    let rows = resolve_group(&g, Some(&index), 3, "o/r", "ABC", &vec![1, 0], &inp).unwrap();
    assert_eq!(rows.len(), 2);
    assert_eq!(rows[0].rel_path, "src/main.rs");
    assert_eq!(rows[1].rel_path, "README.md");
    for r in &rows {
        assert_eq!(r.repo, "o/r");
        assert_eq!(r.commit_id, "ABC");
        assert_eq!(r.rev_swhid, g.nodes[TAGGED].swhid);
        assert_eq!(r.origin_url, "https://github.com/o/r");
        assert_eq!(r.bin, "48");
    }
}

#[test]
fn groups_that_are_dropped() {
    let g = archive();
    let index = build_rev_prefix_index(&g, 3);
    let inp = input(&[("o/r", "abc", "x")]);
    let none = |repo: &str, commit: &str| {
        resolve_group(&g, Some(&index), 3, repo, commit, &vec![0], &inp).is_none()
    };
    assert!(none("o/unknown", "abc"));
    assert!(none("o/r", "fff"));
    // The stray does not come from the origin.
    assert!(none("o/r", "abf"));
    // The winner has no root directory.
    assert!(none("o/bare", "eee"));
    assert!(!none("o/r", "abc"));
    // An origin without snapshots.
    assert!(
        resolve_in_origin(&g, Some(&index), 3, Some(SNAP), "u", "abc", &vec![0], &inp).is_none()
    );
    assert!(resolve_in_origin(&g, Some(&index), 3, None, "u", "abc", &vec![0], &inp).is_none());
}

#[test]
fn a_group_is_resolved_by_its_full_hash() {
    let g = archive();
    let inp = input(&[("o/r", "", "x")]);
    let full = hex(&g.nodes[PARENT].hash);
    let rows = resolve_in_origin(&g, None, 7, Some(ORIGIN), "u", &full, &vec![0], &inp).unwrap();
    assert_eq!(rows[0].rev_swhid, g.nodes[PARENT].swhid);
    assert_eq!(rows[0].origin_url, "u");
    let short = &full[..39];
    assert!(resolve_in_origin(&g, None, 7, Some(ORIGIN), "u", short, &vec![0], &inp).is_none());
}

#[test]
fn all_rows_of_resolved_groups() {
    let g = archive();
    let inp = input(&[
        ("o/r", "abcd", "README.md"),
        ("o/none", "abcd", "x"),
        ("o/r", "abce", "y"),
        ("o/r", "abcd", "src/main.rs"),
    ]);
    let mut out: Vec<(String, String)> = resolve_candidates(&g, &inp, 4)
        .into_iter()
        .flatten()
        .map(|r| (r.rel_path, r.rev_swhid))
        .collect();
    out.sort();
    assert_eq!(
        out,
        vec![
            ("README.md".to_string(), g.nodes[HEAD].swhid.clone()),
            ("src/main.rs".to_string(), g.nodes[HEAD].swhid.clone()),
            ("y".to_string(), g.nodes[PARENT].swhid.clone()),
        ]
    );
}

#[test]
fn the_revision_of_a_resolved_row_has_a_root() {
    let g = archive();
    let inp = input(&[("o/r", "abc", "x"), ("o/bare", "eee", "y"), ("o/r", "abf", "z")]);
    let mut memo = RootMemo::new();
    let mut n = 0;
    for row in resolve_candidates(&g, &inp, 3).into_iter().flatten() {
        assert_ne!(resolve_root(&g, &row.rev_swhid, &mut memo), ROOT_MISSING);
        n += 1;
    }
    assert_eq!(n, 1);
}

#[test]
fn all_rows_of_full_hashes() {
    let g = archive();
    let head = hex(&g.nodes[HEAD].hash);
    let stray = hex(&g.nodes[STRAY].hash);
    let inp = input(&[("o/r", &head, "a"), ("o/r", &stray, "b")]);
    let out = resolve_candidates(&g, &inp, 7);
    assert_eq!(out.len(), 1);
    assert_eq!(out[0].len(), 1);
    assert_eq!(out[0][0].rel_path, "a");
    assert_eq!(out[0][0].rev_swhid, g.nodes[HEAD].swhid);
}

#[test]
fn a_full_hash_beside_a_prefix_is_cut_to_one() {
    let g = archive();
    let parent = hex(&g.nodes[PARENT].hash);
    let alone = resolve_candidates(&g, &input(&[("o/r", &parent, "a")]), 3);
    assert_eq!(alone[0][0].rev_swhid, g.nodes[PARENT].swhid);
    let mixed = resolve_candidates(&g, &input(&[("o/r", &parent, "a"), ("o/r", "abf", "b")]), 3);
    assert_eq!(mixed.len(), 1);
    assert_eq!(mixed[0][0].rel_path, "a");
    // Of the revisions that start with `abc`, the branch head with the greatest SWHID.
    assert_eq!(mixed[0][0].rev_swhid, g.nodes[TAGGED].swhid);
}

// ---------------------------------------------------------------- names

fn paths(list: &[Option<&str>]) -> Vec<Option<String>> {
    list.iter().map(|p| p.map(|s| s.to_string())).collect()
}

#[test]
fn ids_of_the_names_on_the_paths() {
    let g = archive();
    let mut distinct = collect_distinct_components(&paths(&[Some("src/main.rs"), None]));
    add_components(&mut distinct, &paths(&[Some("./src\\nowhere"), Some("")]));
    let found = scan_labels(&g, &distinct, 0, 6);
    let pairs: Vec<(Vec<u8>, u64)> = found.iter().map(|m| (m.name.clone(), m.id)).collect();
    assert_eq!(pairs, vec![(b"src".to_vec(), SRC), (b"main.rs".to_vec(), MAIN)]);
    let late = scan_labels(&g, &distinct, 2, 6);
    assert_eq!(late.len(), 1);

    let mut names = empty_names();
    add_chunk(&g, &distinct, 0, 6, &found, &mut names);
    assert!(names.requested.get(SRC) && names.requested.get(MAIN));
    assert!(!names.requested.get(README) && !names.requested.get(DEEP));
    assert_eq!(
        path_ids(&names.component_fid, "/src/nowhere/main.rs"),
        vec![SRC, FID_MISSING, MAIN]
    );
    assert_eq!(names.id_of(&b"main.rs".to_vec()), Some(MAIN));
    assert_eq!(names.id_of(&b"nowhere".to_vec()), None);
    assert!(scan_labels(&g, &byte_set(), 0, 6).is_empty());
}

#[test]
fn the_greater_id_of_a_name_counts() {
    let mut g = archive();
    g.names[5] = "src";
    let distinct = collect_distinct_components(&paths(&[Some("src")]));
    let found = scan_labels(&g, &distinct, 0, 6);
    let mut names = empty_names();
    add_chunk(&g, &distinct, 0, 6, &found, &mut names);
    assert_eq!(path_ids(&names.component_fid, "src"), vec![5]);
    assert!(names.requested.get(SRC) && names.requested.get(5));
}

// ---------------------------------------------------------------- seeds

#[test]
fn numbers_of_bins() {
    assert_eq!(parse_u16("48"), Some(48));
    assert_eq!(parse_u16(" +0127\n"), Some(127));
    assert_eq!(parse_u16("65535"), Some(65535));
    assert_eq!(parse_u16("65536"), None);
    assert_eq!(parse_u16("99999999999999999999"), None);
    assert_eq!(parse_u16("00000000000000000000007"), Some(7));
    for s in ["", " ", "+", "-1", "4 8", "0x30", "4.0", "++1", "\u{661}"] {
        assert_eq!(parse_u16(s), None, "{s:?}");
        assert_eq!(s.trim().parse::<u16>().ok(), None, "{s:?}");
    }
}

#[test]
fn bins_are_counted() {
    let (mut strays, mut bad) = (0u64, 0u64);
    for (s, v) in [("48", 48), ("127", 127), ("47", 47), ("128", 128), ("2", 2), ("x", 0)] {
        assert_eq!(parse_bin(s, &mut strays, &mut bad), v);
    }
    assert_eq!((strays, bad), (3, 1));
    let mut full = u64::MAX;
    parse_bin("", &mut strays, &mut full);
    assert_eq!(full, 0);
}

#[test]
fn roots_are_remembered() {
    let g = archive();
    let mut memo = RootMemo::new();
    let full = g.nodes[HEAD].swhid.clone();
    assert_eq!(memo.get(&full), None);
    assert_eq!(resolve_root(&g, &hex(&g.nodes[HEAD].hash), &mut memo), ROOT as u64);
    assert_eq!(memo.get(&full), Some(ROOT as u64));
    assert_eq!(resolve_root(&g, &full, &mut memo), ROOT as u64);
    assert_eq!(memo.len(), 1);
    // Neither a revision without a root directory nor an unknown one has a root.
    assert_eq!(resolve_root(&g, &g.nodes[BARE_REV].swhid, &mut memo), ROOT_MISSING);
    assert_eq!(resolve_root(&g, "nonsense", &mut memo), ROOT_MISSING);
    assert_eq!(memo.len(), 3);
    // What is remembered is not looked up again.
    let mut gone = archive();
    gone.nodes.truncate(1);
    assert_eq!(resolve_root(&gone, &full, &mut memo), ROOT as u64);
}

fn batch(rows: &[(&str, &str, &str)]) -> SeedBatch {
    SeedBatch {
        repo: rows.iter().map(|_| "o/r".to_string()).collect(),
        commit_id: rows.iter().map(|_| "abc".to_string()).collect(),
        rel_path: rows.iter().map(|r| r.1.to_string()).collect(),
        rev: rows.iter().map(|r| r.0.to_string()).collect(),
        bin: rows.iter().map(|r| r.2.to_string()).collect(),
    }
}

fn names_for(g: &Archive, list: &[&str]) -> swh_resolver::ntf::common::Names {
    let some: Vec<Option<&str>> = list.iter().map(|s| Some(*s)).collect();
    let distinct = collect_distinct_components(&paths(&some));
    let found = scan_labels(g, &distinct, 0, g.names.len() as u64);
    let mut names = empty_names();
    add_chunk(g, &distinct, 0, g.names.len() as u64, &found, &mut names);
    names
}

#[test]
fn seeds_of_a_batch() {
    let g = archive();
    let head = g.nodes[HEAD].swhid.clone();
    let names = names_for(&g, &["src/main.rs", "README.md"]);
    let (seeds, stats) = build_seeds(
        &g,
        &names,
        &batch(&[(&head, "src/main.rs", "50"), ("bad", "README.md", "x"), (&head, "", "3")]),
    );
    assert_eq!(seeds.n_rows, 3);
    assert_eq!(seeds.root, vec![ROOT as u64, ROOT_MISSING, ROOT as u64]);
    assert_eq!(seeds.path_off, vec![0, 2, 3, 3]);
    assert_eq!(seeds.path_of(0), &[SRC, MAIN]);
    assert_eq!(seeds.path_of(1), &[README]);
    assert_eq!(seeds.path_of(2), &[] as &[u64]);
    assert_eq!(seeds.bin, vec![50, 0, 3]);
    assert_eq!(seeds.distinct_roots(), vec![ROOT]);
    assert_eq!((stats.strays, stats.bad, stats.conflicts), (1, 1, 0));
    assert_eq!(count_missing_roots(&seeds), 1);
}

#[test]
fn seeds_of_batches_stand_behind_one_another() {
    let g = archive();
    let head = g.nodes[HEAD].swhid.clone();
    let parent = g.nodes[PARENT].swhid.clone();
    let names = names_for(&g, &["src/main.rs", "README.md"]);
    let mut memo = RootMemo::new();
    let mut seeds = empty_seeds();
    let mut stats = SeedStats { conflicts: 0, strays: 0, bad: 0 };
    for (rev, path) in [(&head, "src/main.rs"), (&parent, "README.md")] {
        append_seeds(&g, &names, &batch(&[(rev, path, "48")]), &mut memo, &mut seeds, &mut stats);
    }
    assert_eq!(seeds.root, vec![ROOT as u64, OLD_ROOT as u64]);
    assert_eq!(seeds.path_of(1), &[README]);
    assert_eq!(seeds.distinct_roots(), vec![ROOT, OLD_ROOT]);
    assert_eq!(memo.len(), 2);
    // What was looked up stays, and a revision counts once, found or not.
    let more = batch(&[(&head, "src", "48"), ("nonsense", "src", "48"), ("nonsense", "a", "48")]);
    append_seeds(&g, &names, &more, &mut memo, &mut seeds, &mut stats);
    assert_eq!(memo.len(), 3);
    assert_eq!(memo.get(&parent), Some(OLD_ROOT as u64));
    assert_eq!(memo.get("swh:1:rev:nonsense"), Some(u64::MAX));
}

#[test]
fn revisions_that_differ_are_counted() {
    let b = batch(&[("r1", "a", ""), ("r1", "b", ""), ("r2", "a", ""), ("r1", "a", ""), ("r3", "a", "")]);
    assert_eq!(count_conflicts(&b), 2);
    assert_eq!(count_conflicts(&batch(&[])), 0);
}

// ---------------------------------------------------------------- reachable directories

#[test]
fn directories_are_reached_over_directories() {
    let g = archive();
    let mut reached = NodeBitset::new(g.num_nodes());
    mark_reachable_dirs(&g, &[ROOT], &mut reached);
    let set: Vec<usize> = (0..g.num_nodes()).filter(|&n| reached.is_set(n)).collect();
    assert_eq!(set, vec![ROOT, SRC_DIR, DEEP_DIR]);
    // A second time, from more roots, only what is new is walked.
    mark_reachable_dirs(&g, &[SRC_DIR, OLD_ROOT], &mut reached);
    assert_eq!(reached.count_set(), 4);
    assert!(reached.is_set(OLD_ROOT));
}

#[test]
fn what_is_marked_is_not_walked() {
    let g = archive();
    let mut reached = NodeBitset::new(g.num_nodes());
    reached.test_and_set(SRC_DIR);
    mark_reachable_dirs(&g, &[ROOT], &mut reached);
    assert!(reached.is_set(ROOT));
    assert!(!reached.is_set(DEEP_DIR));
}

#[test]
fn marking_in_parts_is_marking_at_once() {
    let g = archive();
    let mut parts = NodeBitset::new(g.num_nodes());
    mark_reachable_dirs(&g, &[DEEP_DIR], &mut parts);
    mark_reachable_dirs(&g, &[OLD_ROOT], &mut parts);
    mark_reachable_dirs(&g, &[ROOT], &mut parts);
    let mut once = NodeBitset::new(g.num_nodes());
    mark_reachable_dirs(&g, &[ROOT, OLD_ROOT, DEEP_DIR], &mut once);
    for n in 0..g.num_nodes() {
        assert_eq!(parts.is_set(n), once.is_set(n));
    }
}

// ---------------------------------------------------------------- the directory map

fn all_requested() -> RequestedFid {
    let mut r = RequestedFid::new();
    for id in 0..6 {
        r.set(id);
    }
    r
}

fn reached_from_root(g: &Archive) -> NodeBitset {
    let mut reached = NodeBitset::new(g.num_nodes());
    mark_reachable_dirs(g, &[ROOT], &mut reached);
    reached
}

/// The rows stand one behind the other, in the order of the directories.
fn check_layout(map: &DirMap) {
    assert_eq!(map.rank_of(ROOT as u64), Some(0));
    assert_eq!(map.rank_of(SRC_DIR as u64), Some(1));
    assert_eq!(map.rank_of(DEEP_DIR as u64), Some(2));
    assert_eq!(map.rank_of(OLD_ROOT as u64), None);
    assert_eq!(map.offsets, vec![0, 3, 5, 6]);
    assert_eq!(map.ent_fid, vec![README, SRC, SUB, MAIN, DEEP, LIB]);
    let child = [README_CNT, SRC_DIR, SUB_REV, MAIN_CNT, DEEP_DIR, LIB_CNT];
    assert_eq!(map.ent_child, child.map(|n| n as u64).to_vec());
    assert_eq!(map.ent_ty, vec![0, 1, 4, 0, 1, 0]);
}

fn check_map(map: &DirMap) {
    assert_eq!(map.lookup(ROOT as u64, README), Some((README_CNT as u64, 0)));
    assert_eq!(map.lookup(ROOT as u64, SRC), Some((SRC_DIR as u64, 1)));
    assert_eq!(map.lookup(ROOT as u64, SUB), Some((SUB_REV as u64, 4)));
    assert_eq!(map.lookup(ROOT as u64, MAIN), None);
    assert_eq!(map.lookup(SRC_DIR as u64, MAIN), Some((MAIN_CNT as u64, 0)));
    assert_eq!(map.lookup(SRC_DIR as u64, DEEP), Some((DEEP_DIR as u64, 1)));
    assert_eq!(map.lookup(DEEP_DIR as u64, LIB), Some((LIB_CNT as u64, 0)));
    assert_eq!(map.lookup(OLD_ROOT as u64, README), None);
    assert_eq!(map.num_dirs(), 3);
    assert_eq!(map.num_entries(), 6);
    check_layout(map);
}

#[test]
fn the_map_does_not_depend_on_the_bands() {
    let g = archive();
    let reached = reached_from_root(&g);
    let requested = all_requested();
    for k in [0usize, 1, 2, 3, 16, 40] {
        let map = hydrate(&g, &offsets(g.num_nodes()), &reached, &requested, k).ok().unwrap();
        check_map(&map);
    }
}

#[test]
fn only_requested_names_are_kept() {
    let g = archive();
    let reached = reached_from_root(&g);
    let mut requested = RequestedFid::new();
    requested.set(SRC);
    let map = hydrate(&g, &offsets(g.num_nodes()), &reached, &requested, 2).ok().unwrap();
    assert_eq!(map.lookup(ROOT as u64, SRC), Some((SRC_DIR as u64, 1)));
    assert_eq!(map.lookup(ROOT as u64, README), None);
    assert_eq!((map.num_dirs(), map.num_entries()), (1, 1));
    // A directory without a requested entry has no rank.
    assert_eq!(map.rank_of(ROOT as u64), Some(0));
    assert_eq!(map.rank_of(SRC_DIR as u64), None);
    assert_eq!(map.offsets, vec![0, 1]);
}

#[test]
fn both_ways_to_scan_agree() {
    let g = archive();
    let n = g.num_nodes();
    let reached = reached_from_root(&g);
    let requested = all_requested();
    let seek = scan_band(&g, &reached, &requested, 0, n, false);
    let read = scan_band(&g, &reached, &requested, 0, n, true);
    assert_eq!((seek.num_dirs(), seek.num_entries()), (3, 6));
    assert_eq!((read.num_dirs(), read.num_entries()), (3, 6));
    check_map(&merge_shards(vec![seek]).ok().unwrap());
    check_map(&merge_shards(vec![read]).ok().unwrap());
}

#[test]
fn scans_of_adjoining_bands_add_up() {
    let g = archive();
    let n = g.num_nodes();
    let reached = reached_from_root(&g);
    let requested = all_requested();
    let shards: Vec<WorkerShard> =
        [(0usize, 6usize), (6, 6), (6, 9), (9, n), (4, 2)]
            .iter()
            .map(|&(lo, hi)| scan_band(&g, &reached, &requested, lo, hi, false))
            .collect();
    check_map(&merge_shards(shards).ok().unwrap());
    let none = merge_shards(vec![]).ok().unwrap();
    assert_eq!((none.num_dirs(), none.num_entries()), (0, 0));
    assert_eq!(none.lookup(0, 0), None);
    assert_eq!(none.offsets, vec![0]);
}

#[test]
fn a_node_that_is_no_directory_is_scanned_only_by_seeking() {
    let g = archive();
    let n = g.num_nodes();
    let mut reached = NodeBitset::new(n);
    reached.test_and_set(SNAP);
    reached.test_and_set(DEEP_DIR);
    let requested = all_requested();
    // A snapshot carries no directory entries, so nothing is found in it either way.
    assert_eq!(scan_band(&g, &reached, &requested, 0, n, false).num_dirs(), 1);
    assert_eq!(scan_band(&g, &reached, &requested, 0, n, true).num_dirs(), 1);
}

#[test]
fn the_first_entry_of_a_name_counts() {
    let row = index_row(vec![(7, 1, 0), (3, 2, 1), (7, 3, 4), (3, 4, 0), (5, 5, 0)]);
    assert_eq!(row, vec![(3, 2, 1), (5, 5, 0), (7, 1, 0)]);
    assert!(index_row(vec![]).is_empty());
}

#[test]
fn entries_in_the_order_of_the_graph() {
    let mut g = archive();
    g.nodes[ROOT].arcs[0].1 = vec![
        EdgeLabel::DirEntry { name: LIB },
        EdgeLabel::Branch,
        EdgeLabel::DirEntry { name: README },
    ];
    let mut requested = RequestedFid::new();
    requested.set(README);
    requested.set(SRC);
    requested.set(LIB);
    assert_eq!(
        collect_entries(&g, &requested, ROOT),
        vec![(LIB, README_CNT as u64, 0), (README, README_CNT as u64, 0), (SRC, SRC_DIR as u64, 1)]
    );
}

#[test]
fn bands_of_equally_many_bits() {
    let o = offsets(100);
    assert_eq!(band_bounds(&o, 100, 4), vec![0, 25, 50, 75, 100]);
    assert_eq!(band_bounds(&o, 100, 3), vec![0, 34, 67, 100]);
    assert_eq!(band_bounds(&o, 100, 1), vec![0, 100]);
    assert_eq!(band_bounds(&offsets(0), 0, 3), vec![0, 0, 0, 0]);
    assert_eq!(first_node_at_bit(&o, 100, 0), 0);
    assert_eq!(first_node_at_bit(&o, 100, 11), 2);
    assert_eq!(first_node_at_bit(&o, 100, 10_000), 100);
    assert_eq!(byte_position(&o, 100), 125);
    let plan = plan_scan(&o, &NodeBitset::new(100), 0);
    assert_eq!(plan.bounds, vec![0, 100]);
    assert!(!plan.sequential);
}

#[test]
fn many_directories_are_read_front_to_back() {
    let n = 2_400_001usize;
    let mut reached = NodeBitset::new(n);
    for i in 0..n - 1 {
        reached.test_and_set(i);
    }
    assert!(!plan_scan(&offsets(n), &reached, 2).sequential);
    reached.test_and_set(n - 1);
    assert!(plan_scan(&offsets(n), &reached, 2).sequential);
}

#[test]
fn reading_ahead() {
    let hi = 3 * PREFETCH_CHUNK + 5;
    assert_eq!(prefetch_step(0, hi, 0, false), PrefetchStep::Read { len: PREFETCH_CHUNK });
    assert_eq!(prefetch_step(3 * PREFETCH_CHUNK, hi, 0, false), PrefetchStep::Read { len: 5 });
    assert_eq!(prefetch_step(hi, hi, 0, false), PrefetchStep::Stop);
    assert_eq!(prefetch_step(0, hi, 0, true), PrefetchStep::Stop);
    let far = PREFETCH_WINDOW + 11;
    assert_eq!(prefetch_step(far, u64::MAX, 10, false), PrefetchStep::Wait);
    assert_eq!(
        prefetch_step(far, u64::MAX, 11, false),
        PrefetchStep::Read { len: PREFETCH_CHUNK }
    );
    assert_eq!(
        prefetch_step(u64::MAX - 1, u64::MAX, u64::MAX - 2, false),
        PrefetchStep::Read { len: 1 }
    );
    assert_eq!(after_prefetch(7, Some(5)), Some(12));
    assert_eq!(after_prefetch(7, Some(0)), None);
    assert_eq!(after_prefetch(7, None), None);
}

// ---------------------------------------------------------------- walks

fn seeds_of(rows: &[(u64, &[u64])]) -> Seeds {
    let mut seeds = empty_seeds();
    for (root, path) in rows {
        push_seed(&mut seeds, *root, &path.to_vec(), 48);
    }
    seeds
}

#[test]
fn walks_and_how_they_end() {
    let g = archive();
    let reached = reached_from_root(&g);
    let map = hydrate(&g, &offsets(g.num_nodes()), &reached, &all_requested(), 2).ok().unwrap();
    let root = ROOT as u64;
    let seeds = seeds_of(&[
        (root, &[README]),
        (root, &[SRC, DEEP, LIB]),
        (root, &[SRC]),
        (root, &[SUB]),
        (root, &[SUB, LIB]),
        (root, &[README, LIB]),
        (root, &[LIB]),
        (root, &[SRC, FID_MISSING]),
        (root, &[]),
        (ROOT_MISSING, &[README]),
        (OLD_ROOT as u64, &[README]),
    ]);
    let want = [
        (README_CNT as u64, Status::Resolved),
        (LIB_CNT as u64, Status::Resolved),
        (0, Status::DirTarget),
        (0, Status::Submodule),
        (0, Status::Submodule),
        (0, Status::NotFound),
        (0, Status::NotFound),
        (0, Status::NotFound),
        (0, Status::NotFound),
        (0, Status::NoRoot),
        (0, Status::NotFound),
    ];
    for (i, w) in want.iter().enumerate() {
        assert_eq!(walk_row(&map, &seeds, i), *w, "row {i}");
    }
    let (leaf, status) = traverse(&map, &seeds);
    assert_eq!(leaf, want.iter().map(|w| w.0).collect::<Vec<_>>());
    assert_eq!(status, want.iter().map(|w| w.1.as_u8()).collect::<Vec<_>>());
}

// ---------------------------------------------------------------- the output

fn pass_through(rows: &[(&str, &str)]) -> PassThrough {
    let col = |s: &str| -> Vec<String> { rows.iter().map(|_| s.to_string()).collect() };
    PassThrough {
        repo: col("o/r"),
        commit_id: col("abc"),
        rel_path: rows.iter().map(|r| r.1.to_string()).collect(),
        id: rows.iter().map(|r| r.0.to_string()).collect(),
        origin_url: col("https://github.com/o/r"),
        rev_swhid: rows.iter().map(|r| format!("swh:1:rev:{}", r.0)).collect(),
    }
}

#[test]
fn rows_of_the_output() {
    let g = archive();
    let mut seeds = empty_seeds();
    for bin in [48u16, 50, 48] {
        push_seed(&mut seeds, 0, &vec![], bin);
    }
    let leaf = vec![MAIN_CNT as u64, 0, 0];
    let status = vec![0u8, 1, 5];
    let first = pass_through(&[("aa", "./src\\main.rs")]);
    let second = pass_through(&[("bb", "x"), ("cc", "y")]);
    let rows = emit(&g, &vec![first, second], &seeds, &leaf, &status).ok().unwrap();
    let bins: Vec<u16> = rows.iter().map(|r| r.bin).collect();
    assert_eq!(bins, vec![48, 50, 48]);
    let r = &rows[0].row;
    assert_eq!(r.repo, "o/r");
    assert_eq!(r.commit_id, "abc");
    assert_eq!(r.rel_path, "./src\\main.rs");
    assert_eq!(r.id, "swh:1:rev:aa");
    assert_eq!(r.origin_url, "https://github.com/o/r");
    assert_eq!(r.snapshot_swhid, "");
    assert_eq!(r.rev_swhid, "swh:1:rev:aa");
    assert_eq!(r.cnt_swhid, "swh:1:cnt:main");
    assert_eq!(
        r.qualified,
        "swh:1:cnt:main;origin=https://github.com/o/r;visit=;anchor=swh:1:rev:aa;path=/src/main.rs"
    );
    assert_eq!(r.status, "ok");
    for i in [1usize, 2] {
        let r = &rows[i].row;
        assert_eq!((r.cnt_swhid.as_str(), r.qualified.as_str()), ("", ""));
        assert_eq!(r.status, "path_not_found");
    }
    assert_eq!(rows[2].row.id, "swh:1:rev:cc");
}

#[test]
fn rows_that_are_not_aligned() {
    let g = archive();
    let mut seeds = empty_seeds();
    push_seed(&mut seeds, 0, &vec![], 48);
    push_seed(&mut seeds, 0, &vec![], 48);
    let (leaf, status) = (vec![0u64, 0], vec![1u8, 1]);
    let one = || pass_through(&[("aa", "x")]);
    assert_eq!(
        emit(&g, &vec![one()], &seeds, &leaf, &status).err(),
        Some(Misaligned::TooFewRows)
    );
    assert_eq!(
        emit(&g, &vec![one(), one(), one()], &seeds, &leaf, &status).err(),
        Some(Misaligned::TooManyRows)
    );
    assert!(emit(&g, &vec![one(), one()], &seeds, &leaf, &status).is_ok());
    assert_eq!(
        emit_batch(&g, &one(), &seeds, &leaf, &status, 2).err(),
        Some(Misaligned::TooManyRows)
    );
    assert_eq!(
        emit_batch(&g, &one(), &seeds, &leaf, &status, usize::MAX).err(),
        Some(Misaligned::TooManyRows)
    );
    assert_eq!(emit_batch(&g, &one(), &seeds, &leaf, &status, 1).ok().unwrap().len(), 1);
}

fn output_row(tag: usize) -> OutputRow {
    OutputRow {
        repo: tag.to_string(),
        commit_id: String::new(),
        rel_path: String::new(),
        id: String::new(),
        origin_url: String::new(),
        snapshot_swhid: String::new(),
        rev_swhid: String::new(),
        cnt_swhid: String::new(),
        qualified: String::new(),
        status: String::new(),
    }
}

#[test]
fn a_bin_is_written_in_batches() {
    let total = 2 * OUTPUT_BATCH_SIZE + 3;
    let mut w = BinWriter::new();
    let mut written: Vec<String> = Vec::new();
    let mut opened = Vec::new();
    for i in 0..total {
        if let Some(f) = w.push(output_row(i)) {
            assert_eq!(f.rows.len(), OUTPUT_BATCH_SIZE);
            opened.extend(f.open_part);
            written.extend(f.rows.into_iter().map(|r| r.repo));
        }
    }
    assert_eq!(written.len(), 2 * OUTPUT_BATCH_SIZE);
    let (last, close) = w.finish();
    let last = last.unwrap();
    assert!(close);
    assert_eq!(last.open_part, None);
    written.extend(last.rows.into_iter().map(|r| r.repo));
    assert_eq!(opened, vec![1]);
    assert!(written.iter().enumerate().all(|(i, s)| *s == i.to_string()));
    assert_eq!(written.len(), total);
}

#[test]
fn a_small_bin_is_opened_when_it_is_finished() {
    let mut w = BinWriter::new();
    assert!(w.push(output_row(0)).is_none());
    let (flush, close) = w.finish();
    assert_eq!(flush.unwrap().open_part, Some(1));
    assert!(close);
    let (flush, close) = BinWriter::new().finish();
    assert!(flush.is_none() && !close);
    // Rows that follow go to another part.
    assert!(w.push(output_row(1)).is_none());
    assert_eq!(w.finish().0.unwrap().open_part, Some(2));
}

#[test]
fn a_run_writes_the_rows_of_every_bin_in_order() {
    let total = 3 * OUTPUT_BATCH_SIZE;
    let bin_of = |i: usize| if i % 3 == 2 { 9u16 } else { 4 };
    let mut ws = BinWriters::new();
    let mut flushes: Vec<(u16, Option<u64>, Vec<String>)> = Vec::new();
    let repos = |rows: Vec<OutputRow>| rows.into_iter().map(|r| r.repo).collect::<Vec<_>>();
    for i in 0..total {
        let bin = bin_of(i);
        if let Some(f) = ws.push(BinnedRow { bin, row: output_row(i) }) {
            flushes.push((bin, f.open_part, repos(f.rows)));
        }
    }
    for end in ws.finish() {
        assert!(end.close);
        if let Some(f) = end.flush {
            flushes.push((end.bin, f.open_part, repos(f.rows)));
        }
    }
    for bin in [4u16, 9, 11] {
        let mine: Vec<_> = flushes.iter().filter(|f| f.0 == bin).collect();
        let written: Vec<String> = mine.iter().flat_map(|f| f.2.clone()).collect();
        let pushed: Vec<String> =
            (0..total).filter(|&i| bin_of(i) == bin).map(|i| i.to_string()).collect();
        assert_eq!(written, pushed);
        let opened: Vec<u64> = mine.iter().filter_map(|f| f.1).collect();
        assert_eq!(opened, if bin == 11 { vec![] } else { vec![1] });
        assert!(mine.first().map_or(true, |f| f.1 == Some(1)));
    }
}

#[test]
fn each_bin_has_its_own_rows() {
    let mut ws = BinWriters::new();
    for i in 0..OUTPUT_BATCH_SIZE {
        let b = BinnedRow { bin: 50, row: output_row(i) };
        let flush = ws.push(b);
        assert_eq!(flush.is_some(), i + 1 == OUTPUT_BATCH_SIZE);
        if let Some(f) = flush {
            assert_eq!(f.open_part, Some(1));
            assert_eq!(f.rows[3].repo, "3");
        }
        if i < 2 {
            assert!(ws.push(BinnedRow { bin: 7, row: output_row(100 + i) }).is_none());
        }
    }
    let ends = ws.finish();
    assert_eq!(ends.len(), 2);
    assert_eq!((ends[0].bin, ends[0].close), (50, true));
    assert!(ends[0].flush.is_none());
    assert_eq!((ends[1].bin, ends[1].close), (7, true));
    let f = ends[1].flush.as_ref().unwrap();
    assert_eq!(f.open_part, Some(1));
    let repos: Vec<&str> = f.rows.iter().map(|r| r.repo.as_str()).collect();
    assert_eq!(repos, vec!["100", "101"]);
    assert!(BinWriters::new().finish().is_empty());
}

#[test]
fn names_of_bins_and_parts() {
    assert_eq!(bin_dir(0), "bin=0");
    assert_eq!(bin_dir(127), "bin=127");
    assert_eq!(bin_dir(65535), "bin=65535");
    assert_eq!(part_file(1), "part-00001.parquet");
    assert_eq!(part_file(90210), "part-90210.parquet");
    assert_eq!(part_file(1234567), "part-1234567.parquet");
    assert_eq!(part_file(u64::MAX), format!("part-{}.parquet", u64::MAX));
}

// ---------------------------------------------------------------- the direct walk

#[test]
fn direct_walks() {
    let g = archive();
    let head = g.nodes[HEAD].swhid.clone();
    let go = |rev: &str, path: &str| direct_resolve(&g, rev, path);
    assert_eq!(go(&head, "README.md").as_deref(), Some("swh:1:cnt:readme"));
    assert_eq!(go(&head, "/src//deep\\lib.rs").as_deref(), Some("swh:1:cnt:lib"));
    assert_eq!(go(&head, "src"), None);
    assert_eq!(go(&head, "sub"), None);
    assert_eq!(go(&head, "README.md/x"), None);
    assert_eq!(go(&head, "nowhere"), None);
    assert_eq!(go(&head, ""), None);
    assert_eq!(go("swh:1:rev:none", "README.md"), None);
    assert_eq!(go(&g.nodes[BARE_REV].swhid, "README.md"), None);
    // The SWHID is taken as it stands.
    assert_eq!(go(&hex(&g.nodes[HEAD].hash), "README.md"), None);
}

#[test]
fn the_stages_agree_with_the_direct_walk() {
    let g = archive();
    let revs = [HEAD, PARENT, BARE_REV, SUB_REV, STRAY];
    let files = [
        "README.md", "src/main.rs", "src/deep/lib.rs", "src", "src/deep", "sub", "sub/x",
        "README.md/x", "lib.rs", "src/README.md", "", "./src\\main.rs", "no/such",
    ];
    let mut rows: Vec<(String, String)> = Vec::new();
    for r in revs {
        for f in files {
            rows.push((g.nodes[r].swhid.clone(), f.to_string()));
        }
    }
    rows.push(("swh:1:rev:none".to_string(), "README.md".to_string()));
    let b = SeedBatch {
        repo: rows.iter().map(|_| String::new()).collect(),
        commit_id: rows.iter().map(|_| String::new()).collect(),
        rel_path: rows.iter().map(|r| r.1.clone()).collect(),
        rev: rows.iter().map(|r| r.0.clone()).collect(),
        bin: rows.iter().map(|_| "48".to_string()).collect(),
    };
    let distinct = collect_distinct_components(&paths(&files.map(Some)));
    let names = names_for(&g, &files);
    for k in [1usize, 3, 16] {
        let o = offsets(g.num_nodes());
        let v = resolve_rows(&g, &o, &distinct, &names, &b, k).ok().unwrap();
        let mut found = 0;
        for (i, (rev, path)) in rows.iter().enumerate() {
            match direct_resolve(&g, rev, path) {
                Some(swhid) => {
                    assert_eq!(v.status[i], 0, "{rev} {path}");
                    assert_eq!(g.swhid(v.leaf[i] as usize), swhid);
                    found += 1;
                }
                None => {
                    assert_ne!(v.status[i], 0, "{rev} {path}");
                    assert_eq!(v.leaf[i], 0);
                }
            }
        }
        assert_eq!(found, 9);
    }
}

#[test]
fn the_check_of_a_sample() {
    let g = archive();
    let head = g.nodes[HEAD].swhid.clone();
    let row = |path: &str, cnt: &str| Row {
        rev_swhid: head.clone(),
        rel_path: path.to_string(),
        cnt_swhid: cnt.to_string(),
    };
    let rep = check_sample(&g, &vec![row("README.md", "swh:1:cnt:readme")]);
    assert!(rep.passed());
    assert_eq!((rep.matched, rep.mismatched, rep.unresolved), (1, 0, 0));
    assert!(rep.examples.is_empty());

    let rep = check_sample(&g, &vec![row("README.md", "swh:1:cnt:main"), row("src", "c")]);
    assert!(!rep.passed());
    assert_eq!((rep.matched, rep.mismatched, rep.unresolved), (0, 1, 1));
    assert_eq!(
        rep.examples,
        vec![
            format!(
                "MISMATCH rev={head} path=README.md pipeline=swh:1:cnt:main direct=swh:1:cnt:readme"
            ),
            format!("DIRECT-UNRESOLVED rev={head} path=src pipeline=c"),
        ]
    );

    let many: Vec<Row> = (0..15).map(|_| row("src", "c")).collect();
    let rep = check_sample(&g, &many);
    assert_eq!((rep.unresolved, rep.examples.len()), (15, 10));
}

#[test]
fn a_sample_of_the_output() {
    let b = |n: usize| OutputBatch {
        rev_swhid: (0..n).map(|i| format!("rev{i}")).collect(),
        rel_path: (0..n).map(|i| format!("path{i}")).collect(),
        cnt_swhid: (0..n).map(|i| format!("cnt{i}")).collect(),
        status: (0..n)
            .map(|i| if i % 2 == 0 { "ok" } else { "path_not_found" }.to_string())
            .collect(),
    };
    let mut s = Sample::new();
    assert!(!s.take_batch(&b(3), 4));
    assert!(s.take_batch(&b(10), 4));
    assert_eq!((s.n_total, s.n_ok), (13, 7));
    let revs: Vec<&str> = s.rows.iter().map(|r| r.rev_swhid.as_str()).collect();
    assert_eq!(revs, vec!["rev0", "rev2", "rev0", "rev2"]);
    assert_eq!((s.rows[1].rel_path.as_str(), s.rows[1].cnt_swhid.as_str()), ("path2", "cnt2"));
    let hist: Vec<(&str, u64)> = s.hist.iter().map(|h| (h.status.as_str(), h.count)).collect();
    assert_eq!(hist, vec![("ok", 7), ("path_not_found", 6)]);
    assert!(Sample::new().take_batch(&b(0), 0));
}
