//! Hash collections of the outside crates, and what the library trusts of them.
//!
//! Each type holds one collection and gives its contents a name. The functions beside it
//! make one call each, and their contracts say over that name what the call does. Nothing
//! is said about the order in which a collection keeps its items.

use vstd::prelude::*;

verus! {

/// A `hashbrown::HashMap` from node ids to ranks, hashed by `ahash`.
#[verifier::external_body]
pub struct NodeRanks {
    map: hashbrown::HashMap<u64, u32, ahash::RandomState>,
}

/// What a [`NodeRanks`] holds.
pub uninterp spec fn node_ranks(m: NodeRanks) -> Map<u64, u32>;

impl View for NodeRanks {
    type V = Map<u64, u32>;

    open spec fn view(&self) -> Map<u64, u32> {
        node_ranks(*self)
    }
}

impl NodeRanks {
    /// `hashbrown::HashMap::with_hasher` makes an empty map.
    #[verifier::external_body]
    pub(crate) fn new() -> (r: NodeRanks)
        ensures
            (node_ranks(r) == Map::<u64, u32>::empty()),
    {
        NodeRanks { map: hashbrown::HashMap::with_hasher(ahash::RandomState::new()) }
    }

    /// `hashbrown::HashMap::insert` maps the key to the value, whatever the key had before.
    #[verifier::external_body]
    pub(crate) fn insert(&mut self, node: u64, rank: u32)
        ensures
            node_ranks(*final(self)) == node_ranks(*old(self)).insert(node, rank),
    {
        self.map.insert(node, rank);
    }

    /// `hashbrown::HashMap::get` returns the value of the key, if it has one.
    #[verifier::external_body]
    pub(crate) fn get(&self, node: u64) -> (r: Option<u32>)
        ensures
            r == (if node_ranks(*self).contains_key(node) {
                Some(node_ranks(*self)[node])
            } else {
                None
            }),
    {
        self.map.get(&node).copied()
    }
}

/// A `hashbrown::HashMap` from hash prefixes to revision nodes, hashed by `ahash`.
#[verifier::external_body]
pub struct PrefixShard {
    map: hashbrown::HashMap<Box<[u8]>, Vec<usize>, ahash::RandomState>,
}

/// What a [`PrefixShard`] holds.
pub uninterp spec fn prefix_nodes(m: PrefixShard) -> Map<Seq<u8>, Seq<usize>>;

impl View for PrefixShard {
    type V = Map<Seq<u8>, Seq<usize>>;

    open spec fn view(&self) -> Map<Seq<u8>, Seq<usize>> {
        prefix_nodes(*self)
    }
}

/// The list of `key`, empty where it has none.
pub open spec fn list_of<K>(m: Map<K, Seq<usize>>, key: K) -> Seq<usize> {
    if m.contains_key(key) {
        m[key]
    } else {
        Seq::empty()
    }
}

impl PrefixShard {
    /// `hashbrown::HashMap::with_hasher` makes an empty map.
    #[verifier::external_body]
    pub(crate) fn new() -> (r: PrefixShard)
        ensures
            (prefix_nodes(r) == Map::<Seq<u8>, Seq<usize>>::empty()),
    {
        PrefixShard { map: hashbrown::HashMap::with_hasher(ahash::RandomState::new()) }
    }

    /// `hashbrown::HashMap::entry` with `or_default` gives the list of the key, an empty
    /// one where it had none; the node is pushed to it.
    #[verifier::external_body]
    pub(crate) fn push(&mut self, key: Vec<u8>, node: usize)
        ensures
            prefix_nodes(*final(self)) == prefix_nodes(*old(self)).insert(
                key@,
                list_of(prefix_nodes(*old(self)), key@).push(node),
            ),
    {
        self.map.entry(key.into_boxed_slice()).or_default().push(node);
    }

    /// `hashbrown::HashMap::get` returns the list of the key, if it has one.
    #[verifier::external_body]
    pub(crate) fn get(&self, key: &[u8]) -> (r: Option<&Vec<usize>>)
        ensures
            match r {
                Some(v) => prefix_nodes(*self).contains_key(key@) && v@ == prefix_nodes(
                    *self,
                )[key@],
                None => !prefix_nodes(*self).contains_key(key@),
            },
    {
        self.map.get(key)
    }
}

/// A repository and a commit, as they stand in the input.
pub type GroupKey = (Seq<char>, Seq<char>);

/// The rows of one repository and commit.
pub struct RowGroup {
    pub repo: String,
    pub commit_id: String,
    pub rows: Vec<usize>,
}

impl RowGroup {
    /// The repository and the commit.
    pub open spec fn key(&self) -> GroupKey {
        (self.repo@, self.commit_id@)
    }
}

/// A `hashbrown::HashMap` from repositories and commits to the rows that have them, hashed by
/// `ahash`.
#[verifier::external_body]
pub struct RowGroups {
    map: hashbrown::HashMap<(String, String), Vec<usize>, ahash::RandomState>,
}

/// What a [`RowGroups`] holds.
pub uninterp spec fn row_groups(m: RowGroups) -> Map<GroupKey, Seq<usize>>;

impl View for RowGroups {
    type V = Map<GroupKey, Seq<usize>>;

    open spec fn view(&self) -> Map<GroupKey, Seq<usize>> {
        row_groups(*self)
    }
}

impl RowGroups {
    /// `hashbrown::HashMap::with_hasher` makes an empty map.
    #[verifier::external_body]
    pub(crate) fn new() -> (r: RowGroups)
        ensures
            (row_groups(r) == Map::<GroupKey, Seq<usize>>::empty()),
    {
        RowGroups { map: hashbrown::HashMap::with_hasher(ahash::RandomState::new()) }
    }

    /// `hashbrown::HashMap::entry` with `or_default` gives the list of the key, an empty
    /// one where it had none; the row is pushed to it.
    #[verifier::external_body]
    pub(crate) fn push(&mut self, repo: &str, commit_id: &str, row: usize)
        ensures
            row_groups(*final(self)) == row_groups(*old(self)).insert(
                (repo@, commit_id@),
                list_of(row_groups(*old(self)), (repo@, commit_id@)).push(row),
            ),
    {
        self.map.entry((repo.to_owned(), commit_id.to_owned())).or_default().push(row);
    }

    /// `hashbrown::HashMap::into_iter` hands out each key with its list, once each, in no
    /// particular order.
    #[verifier::external_body]
    pub(crate) fn into_groups(self) -> (r: Vec<RowGroup>)
        ensures
            forall|i: int|
                0 <= i < r@.len() ==> row_groups(self).contains_key((#[trigger] r@[i]).key())
                    && r@[i].rows@ == row_groups(self)[r@[i].key()],
            forall|i: int, j: int| 0 <= i < j < r@.len() ==> r@[i].key() != r@[j].key(),
            forall|key: GroupKey| #[trigger]
                row_groups(self).contains_key(key) ==> exists|i: int|
                    0 <= i < r@.len() && (#[trigger] r@[i]).key() == key,
    {
        self.map.into_iter().map(|(k, rows)| RowGroup { repo: k.0, commit_id: k.1, rows }).collect()
    }
}

/// A `hashbrown::HashSet` of byte strings, hashed by `ahash`.
#[verifier::external_body]
pub struct ByteSet {
    set: hashbrown::HashSet<Vec<u8>, ahash::RandomState>,
}

/// What a [`ByteSet`] holds.
pub uninterp spec fn byte_strings(s: ByteSet) -> Set<Seq<u8>>;

impl View for ByteSet {
    type V = Set<Seq<u8>>;

    open spec fn view(&self) -> Set<Seq<u8>> {
        byte_strings(*self)
    }
}

impl ByteSet {
    /// `hashbrown::HashSet::with_hasher` makes an empty set.
    #[verifier::external_body]
    pub(crate) fn new() -> (r: ByteSet)
        ensures
            byte_strings(r) == Set::<Seq<u8>>::empty(),
    {
        ByteSet { set: hashbrown::HashSet::with_hasher(ahash::RandomState::new()) }
    }

    /// `hashbrown::HashSet::insert` adds the byte string.
    #[verifier::external_body]
    pub(crate) fn insert(&mut self, bytes: Vec<u8>)
        ensures
            byte_strings(*final(self)) == byte_strings(*old(self)).insert(bytes@),
    {
        self.set.insert(bytes);
    }

    /// `hashbrown::HashSet::contains` tells whether the byte string is in the set.
    #[verifier::external_body]
    pub(crate) fn contains(&self, bytes: &Vec<u8>) -> (r: bool)
        ensures
            r == byte_strings(*self).contains(bytes@),
    {
        self.set.contains(bytes)
    }
}

/// A `hashbrown::HashMap` from names to their ids, hashed by `ahash`.
#[verifier::external_body]
pub struct NameIds {
    map: hashbrown::HashMap<Vec<u8>, u64, ahash::RandomState>,
}

/// What a [`NameIds`] holds.
pub uninterp spec fn name_ids(m: NameIds) -> Map<Seq<u8>, u64>;

impl View for NameIds {
    type V = Map<Seq<u8>, u64>;

    open spec fn view(&self) -> Map<Seq<u8>, u64> {
        name_ids(*self)
    }
}

impl NameIds {
    /// `hashbrown::HashMap::with_hasher` makes an empty map.
    #[verifier::external_body]
    pub(crate) fn new() -> (r: NameIds)
        ensures
            (name_ids(r) == Map::<Seq<u8>, u64>::empty()),
    {
        NameIds { map: hashbrown::HashMap::with_hasher(ahash::RandomState::new()) }
    }

    /// `hashbrown::HashMap::insert` maps the key to the value, whatever the key had before.
    #[verifier::external_body]
    pub(crate) fn insert(&mut self, name: Vec<u8>, id: u64)
        ensures
            name_ids(*final(self)) == name_ids(*old(self)).insert(name@, id),
    {
        self.map.insert(name, id);
    }

    /// `hashbrown::HashMap::get` returns the value of the key, if it has one.
    #[verifier::external_body]
    pub(crate) fn get(&self, name: &Vec<u8>) -> (r: Option<u64>)
        ensures
            r == (if name_ids(*self).contains_key(name@) {
                Some(name_ids(*self)[name@])
            } else {
                None
            }),
    {
        self.map.get(name).copied()
    }
}

/// The hasher of `ahash`.
#[verifier::external_type_specification]
#[verifier::external_body]
pub struct ExRandomState(ahash::RandomState);

/// The concurrent map of `dashmap`.
#[verifier::external_type_specification]
#[verifier::external_body]
#[verifier::reject_recursive_types(K)]
#[verifier::reject_recursive_types(V)]
#[verifier::reject_recursive_types(S)]
pub struct ExDashMap<K, V, S>(dashmap::DashMap<K, V, S>);

/// The roots of the revisions that were looked up, by the SWHID of the revision.
pub struct RootMemo {
    map: dashmap::DashMap<String, u64, ahash::RandomState>,
}

/// What the map of a [`RootMemo`] holds.
pub uninterp spec fn memo_roots(
    m: dashmap::DashMap<String, u64, ahash::RandomState>,
) -> Map<Seq<char>, u64>;

/// `dashmap::DashMap::with_hasher` makes an empty map.
#[verifier::external_body]
fn memo_new() -> (r: dashmap::DashMap<String, u64, ahash::RandomState>)
    ensures
        (memo_roots(r) == Map::<Seq<char>, u64>::empty()),
{
    dashmap::DashMap::with_hasher(ahash::RandomState::new())
}

/// `dashmap::DashMap::insert` maps the key to the value, whatever the key had before. It
/// waits for no one: there is only one reference to the map.
#[verifier::external_body]
fn memo_insert(m: &mut dashmap::DashMap<String, u64, ahash::RandomState>, key: String, root: u64)
    ensures
        memo_roots(*final(m)) == memo_roots(*old(m)).insert(key@, root),
{
    m.insert(key, root);
}

/// `dashmap::DashMap::get` returns the value of the key, if it has one. The value is copied
/// out, so that no lock is kept.
#[verifier::external_body]
fn memo_get(m: &dashmap::DashMap<String, u64, ahash::RandomState>, key: &str) -> (r: Option<u64>)
    ensures
        r == (if memo_roots(*m).contains_key(key@) {
            Some(memo_roots(*m)[key@])
        } else {
            None
        }),
{
    m.get(key).map(|v| *v.value())
}

/// `dashmap::DashMap::len` returns the number of keys.
#[verifier::external_body]
fn memo_len(m: &dashmap::DashMap<String, u64, ahash::RandomState>) -> (r: usize)
    ensures
        r == memo_roots(*m).dom().len(),
{
    m.len()
}

impl View for RootMemo {
    type V = Map<Seq<char>, u64>;

    closed spec fn view(&self) -> Map<Seq<char>, u64> {
        memo_roots(self.map)
    }
}

impl RootMemo {
    /// Nothing was looked up yet.
    pub fn new() -> (r: RootMemo)
        ensures
            r@ == Map::<Seq<char>, u64>::empty(),
    {
        RootMemo { map: memo_new() }
    }

    /// Keeps the root of a revision.
    pub fn insert(&mut self, key: String, root: u64)
        ensures
            final(self)@ == old(self)@.insert(key@, root),
    {
        memo_insert(&mut self.map, key, root);
    }

    /// The root of a revision, if it was looked up before.
    pub fn get(&self, key: &str) -> (r: Option<u64>)
        ensures
            r == (if self@.contains_key(key@) {
                Some(self@[key@])
            } else {
                None
            }),
    {
        memo_get(&self.map, key)
    }

    /// The number of revisions that were looked up.
    pub fn len(&self) -> (r: usize)
        ensures
            r == self@.dom().len(),
    {
        memo_len(&self.map)
    }
}

/// A repository, a commit and a path, as they stand in a row.
pub type TripleKey = (Seq<char>, Seq<char>, Seq<char>);

/// A `hashbrown::HashMap` from repositories, commits and paths to the first revision that
/// they came with, hashed by `ahash`.
#[verifier::external_body]
pub struct TripleRevs {
    map: hashbrown::HashMap<(String, String, String), String, ahash::RandomState>,
}

/// What a [`TripleRevs`] holds.
pub uninterp spec fn triple_revs(m: TripleRevs) -> Map<TripleKey, Seq<char>>;

impl View for TripleRevs {
    type V = Map<TripleKey, Seq<char>>;

    open spec fn view(&self) -> Map<TripleKey, Seq<char>> {
        triple_revs(*self)
    }
}

/// The value of `key`, or `other` where it has none.
pub open spec fn value_or<K, V>(m: Map<K, V>, key: K, other: V) -> V {
    if m.contains_key(key) {
        m[key]
    } else {
        other
    }
}

impl TripleRevs {
    /// `hashbrown::HashMap::with_hasher` makes an empty map.
    #[verifier::external_body]
    pub(crate) fn new() -> (r: TripleRevs)
        ensures
            (triple_revs(r) == Map::<TripleKey, Seq<char>>::empty()),
    {
        TripleRevs { map: hashbrown::HashMap::with_hasher(ahash::RandomState::new()) }
    }

    /// `hashbrown::HashMap::entry` with `or_insert` returns the value of the key, which is
    /// the given one where it had none.
    #[verifier::external_body]
    pub(crate) fn first_rev(&mut self, repo: &str, commit_id: &str, rel_path: &str, rev: &str) -> (r:
        String)
        ensures
            r@ == value_or(triple_revs(*old(self)), (repo@, commit_id@, rel_path@), rev@),
            triple_revs(*final(self)) == triple_revs(*old(self)).insert(
                (repo@, commit_id@, rel_path@),
                value_or(triple_revs(*old(self)), (repo@, commit_id@, rel_path@), rev@),
            ),
    {
        let key = (repo.to_owned(), commit_id.to_owned(), rel_path.to_owned());
        self.map.entry(key).or_insert(rev.to_owned()).clone()
    }
}

} // verus!
