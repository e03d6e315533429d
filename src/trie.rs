//! The persistent trie: lookup over stored nodes, and path-copying insertion that leaves
//! every earlier version intact.
use vstd::prelude::*;
use crate::codec::{
    is_reference, key_shard, lemma_shard_lt, lemma_shards_cover_key, u32_from_key,
    u32_from_stash_index, u32_is_stash_index, u32_key_byte, u32_to_key, KEY_FLAG, MAX_KEY,
};
use crate::element_map::{
    bit_set, lemma_pop_include, lemma_pop_le, lemma_rank_bounds, pop_below, pop_count, ElementMap,
};
use crate::error::StoreError;
use crate::stash::{ElementStash, ElementStoreIndex, Record};

verus! {

/// Where the elements of a node are: in an unsaved node of a draft, or in a run of records
/// of the stash that starts at the given index.
#[derive(Debug, Clone, Copy, PartialEq, Eq, Structural)]
pub enum ElementData {
    Direct(usize),
    Indirect(ElementStoreIndex),
}

/// One node of a trie: which shards are present, and where its elements are.
#[derive(Debug, Clone, Copy, PartialEq, Eq, Structural)]
pub struct Trie {
    pub map: ElementMap,
    pub elements: ElementData,
}

/// One slot of a node: a key with its value, or a child node one level deeper.
#[derive(Debug, Clone, Copy, PartialEq, Eq, Structural)]
pub enum Element {
    KeyValue { key: u32, value: u32 },
    SubTrie(Trie),
}

/// The elements of an unsaved node, in ascending order of shard.
#[derive(Debug)]
pub struct DirectElementList(pub Vec<Element>);

/// A new trie version before it is saved: its unsaved nodes, each of which refers only to
/// nodes before it or to stored nodes, and its root.
#[derive(Debug)]
pub struct Draft {
    pub nodes: Vec<DirectElementList>,
    pub root: Trie,
}

/// What a lookup finds: a value, nothing, or stored bytes that do not decode.
pub type Found = Result<Option<u32>, StoreError>;

/// The number of records that the first `i` unsaved nodes take.
pub open spec fn records_upto(nodes: Seq<DirectElementList>, i: int) -> int
    decreases i,
{
    if i <= 0 {
        0
    } else {
        records_upto(nodes, i - 1) + elems(nodes[i - 1]).len()
    }
}

pub proof fn lemma_records_mono(nodes: Seq<DirectElementList>, a: int, b: int)
    requires
        0 <= a <= b,
    ensures
        records_upto(nodes, a) <= records_upto(nodes, b),
    decreases b - a,
{
    if a < b {
        lemma_records_mono(nodes, a, b - 1);
    }
}

/// Adding nodes leaves the count of records of the earlier nodes unchanged.
proof fn lemma_records_prefix(n1: Seq<DirectElementList>, n2: Seq<DirectElementList>, k: int)
    requires
        0 <= k <= n1.len() <= n2.len(),
        forall|i: int| 0 <= i < n1.len() ==> n1[i] == n2[i],
    ensures
        records_upto(n1, k) == records_upto(n2, k),
    decreases k,
{
    if k > 0 {
        lemma_records_prefix(n1, n2, k - 1);
    }
}

#[via_fn]
proof fn path_len_decreases(log: Seq<Record>, top: int, map: u32, depth: nat, key: u32) {
    lemma_shard_lt(key, depth);
    let s = key_shard(key, depth);
    if bit_set(map, s) {
        lemma_rank_bounds(map, s, 0);
    }
}

/// The number of stored nodes on the path of `key` from the stored node `(top, map)`.
pub open spec fn path_len(log: Seq<Record>, top: int, map: u32, depth: nat, key: u32) -> nat
    decreases run_end(top, map),
    via path_len_decreases
{
    let s = key_shard(key, depth);
    let p = top + pop_below(map, s as nat);
    1 + if bit_set(map, s) && 0 <= p < log.len() && is_reference(log[p].left) && reference_ok(log[p], p) {
        path_len(log, log[p].left as int, log[p].right, depth + 1, key)
    } else {
        0nat
    }
}

/// A lookup that finds `v`.
pub open spec fn found(v: u32) -> Found {
    Ok(Some(v))
}

/// A lookup that finds nothing.
pub open spec fn absent() -> Found {
    Ok(None)
}

/// The end of the run of records of a stored node.
pub open spec fn run_end(top: int, map: u32) -> int {
    top + pop_count(map)
}

/// The key of a leaf record.
pub open spec fn record_key(r: Record) -> u32 {
    (r.left % 0x8000_0000) as u32
}

/// Whether the record at `p` is a reference whose node lies wholly before it.
pub open spec fn reference_ok(r: Record, p: int) -> bool {
    run_end(r.left as int, r.right) <= p
}

#[via_fn]
proof fn stored_find_decreases(log: Seq<Record>, top: int, map: u32, depth: nat, key: u32) {
    lemma_shard_lt(key, depth);
    let s = key_shard(key, depth);
    if bit_set(map, s) {
        lemma_rank_bounds(map, s, 0);
    }
}

/// What the stored node of the run at `top` with bitmap `map`, at `depth`, holds for `key`.
pub open spec fn stored_find(log: Seq<Record>, top: int, map: u32, depth: nat, key: u32) -> Found
    decreases run_end(top, map),
    via stored_find_decreases
{
    let s = key_shard(key, depth);
    if !bit_set(map, s) {
        Ok(None)
    } else {
        let p = top + pop_below(map, s as nat);
        if !(0 <= p < log.len()) {
            Err(StoreError::Corrupt)
        } else {
            let r = log[p];
            if !is_reference(r.left) {
                if record_key(r) == key {
                    Ok(Some(r.right))
                } else {
                    Ok(None)
                }
            } else if reference_ok(r, p) {
                stored_find(log, r.left as int, r.right, depth + 1, key)
            } else {
                Err(StoreError::Corrupt)
            }
        }
    }
}

/// Whether the record at `index` names a trie version: a reference whose node lies before it.
pub open spec fn root_ok(log: Seq<Record>, index: int) -> bool {
    0 <= index < log.len() && is_reference(log[index].left) && reference_ok(log[index], index)
}

/// What the version named by the record at `index` holds for `key`.
pub open spec fn root_find(log: Seq<Record>, index: int, key: u32) -> Found {
    if root_ok(log, index) {
        stored_find(log, log[index].left as int, log[index].right, 0, key)
    } else {
        Err(StoreError::Corrupt)
    }
}

/// The element a record decodes to.
pub open spec fn parse_spec(r: Record) -> Element {
    if is_reference(r.left) {
        Element::SubTrie(
            Trie { map: ElementMap(r.right), elements: ElementData::Indirect(ElementStoreIndex(r.left)) },
        )
    } else {
        Element::KeyValue { key: record_key(r), value: r.right }
    }
}

/// Lookups in a stored node read only records before the end of its run, so appending
/// records leaves them unchanged.
pub proof fn lemma_stored_find_frame(
    log1: Seq<Record>,
    log2: Seq<Record>,
    top: int,
    map: u32,
    depth: nat,
    key: u32,
)
    requires
        log1.len() <= log2.len(),
        forall|i: int| 0 <= i < log1.len() ==> log1[i] == log2[i],
        run_end(top, map) <= log1.len(),
    ensures
        stored_find(log1, top, map, depth, key) == stored_find(log2, top, map, depth, key),
    decreases run_end(top, map),
{
    lemma_shard_lt(key, depth);
    let s = key_shard(key, depth);
    if bit_set(map, s) {
        lemma_rank_bounds(map, s, 0);
        let p = top + pop_below(map, s as nat);
        if 0 <= p < log1.len() {
            let r = log1[p];
            if is_reference(r.left) && reference_ok(r, p) {
                lemma_stored_find_frame(log1, log2, r.left as int, r.right, depth + 1, key);
            }
        }
    }
}

/// Appending records leaves every version named before unchanged.
pub proof fn lemma_root_find_frame(log1: Seq<Record>, log2: Seq<Record>, index: int, key: u32)
    requires
        log1.len() <= log2.len(),
        forall|i: int| 0 <= i < log1.len() ==> log1[i] == log2[i],
        0 <= index < log1.len(),
    ensures
        root_find(log1, index, key) == root_find(log2, index, key),
        root_ok(log1, index) == root_ok(log2, index),
{
    if root_ok(log1, index) {
        lemma_stored_find_frame(log1, log2, log1[index].left as int, log1[index].right, 0, key);
    }
}

/// The element that a stash record encodes.
pub fn parse(r: &Record) -> (e: Element)
    ensures
        e == parse_spec(*r),
{
    if u32_is_stash_index(r.left) {
        Element::SubTrie(
            Trie { map: ElementMap(r.right), elements: ElementData::Indirect(ElementStoreIndex(r.left)) },
        )
    } else {
        Element::KeyValue { key: u32_to_key(r.left), value: r.right }
    }
}

/// The stored node that the record at `index` names as a trie version.
pub fn root_trie(stash: &ElementStash, index: ElementStoreIndex) -> (r: Result<Trie, StoreError>)
    ensures
        match r {
            Ok(t) => root_ok(stash@, index.0 as int) && t == (Trie {
                map: ElementMap(stash@[index.0 as int].right),
                elements: ElementData::Indirect(ElementStoreIndex(stash@[index.0 as int].left)),
            }),
            Err(e) => e == StoreError::Corrupt && !root_ok(stash@, index.0 as int),
        },
{
    let r = stash.read(index)?;
    if !u32_is_stash_index(r.left) {
        return Err(StoreError::Corrupt);
    }
    let m = ElementMap(r.right);
    let n = m.len();
    if r.left as u64 + n as u64 > index.0 as u64 {
        return Err(StoreError::Corrupt);
    }
    Ok(Trie { map: m, elements: ElementData::Indirect(ElementStoreIndex(r.left)) })
}

/// What the stored node `(top, map)` at depth 0 holds for `key`.
pub fn find_stored(stash: &ElementStash, root_top: ElementStoreIndex, root_map: ElementMap, key: u32) -> (r: Found)
    requires
        stash.wf(),
    ensures
        r == stored_find(stash@, root_top.0 as int, root_map.0, 0, key),
{
    let ghost top0 = root_top.0 as int;
    let ghost map0 = root_map.0;
    let mut top = root_top;
    let mut map = root_map;
    let mut depth: usize = 0;
    loop
        invariant
            stored_find(stash@, top.0 as int, map.0, depth as nat, key) == stored_find(
                stash@,
                top0,
                map0,
                0,
                key,
            ),
            depth > 0 ==> run_end(top.0 as int, map.0) + depth <= stash@.len(),
            top0 == root_top.0,
            map0 == root_map.0,
            stash.wf(),
        decreases run_end(top.0 as int, map.0),
    {
        proof {
            lemma_shard_lt(key, depth as nat);
        }
        let s = u32_key_byte(&key, depth);
        match map.to_viewing_index(s) {
            None => {
                return Ok(None);
            },
            Some(rank) => {
                proof {
                    lemma_rank_bounds(map.0, s as u32, 0);
                    lemma_pop_le(map.0, 32);
                }
                let p = top.0 as u64 + rank as u64;
                if p >= stash.len() as u64 {
                    return Err(StoreError::Corrupt);
                }
                assert(p < 0x8000_0000);
                let rec = stash.read(ElementStoreIndex(p as u32))?;
                if !u32_is_stash_index(rec.left) {
                    if u32_to_key(rec.left) == key {
                        return Ok(Some(rec.right));
                    } else {
                        return Ok(None);
                    }
                }
                let child_map = ElementMap(rec.right);
                let n = child_map.len();
                if rec.left as u64 + n as u64 > p {
                    return Err(StoreError::Corrupt);
                }
                top = ElementStoreIndex(rec.left);
                map = child_map;
                depth = depth + 1;
            },
        }
    }
}

/// The elements of an unsaved node.
pub open spec fn elems(d: DirectElementList) -> Seq<Element> {
    d.0@
}

/// One more than the position of a node in its draft; zero for a stored node.
pub open spec fn direct_index(t: Trie) -> int {
    match t.elements {
        ElementData::Direct(i) => i as int + 1,
        ElementData::Indirect(_) => 0,
    }
}

/// What node `t` of a draft with unsaved nodes `nodes`, at `depth`, holds for `key`.
pub open spec fn direct_find(
    log: Seq<Record>,
    nodes: Seq<DirectElementList>,
    t: Trie,
    depth: nat,
    key: u32,
) -> Found
    decreases direct_index(t),
{
    match t.elements {
        ElementData::Indirect(top) => {
            if run_end(top.0 as int, t.map.0) <= log.len() {
                stored_find(log, top.0 as int, t.map.0, depth, key)
            } else {
                Err(StoreError::Corrupt)
            }
        },
        ElementData::Direct(i) => {
            if i >= nodes.len() || pop_count(t.map.0) != elems(nodes[i as int]).len() {
                Err(StoreError::Corrupt)
            } else {
                let s = key_shard(key, depth);
                if !bit_set(t.map.0, s) {
                    Ok(None)
                } else {
                    match elems(nodes[i as int])[pop_below(t.map.0, s as nat) as int] {
                        Element::KeyValue { key: k, value } => {
                            if k == key {
                                Ok(Some(value))
                            } else {
                                Ok(None)
                            }
                        },
                        Element::SubTrie(c) => {
                            if direct_index(c) <= i {
                                direct_find(log, nodes, c, depth + 1, key)
                            } else {
                                Err(StoreError::Corrupt)
                            }
                        },
                    }
                }
            }
        },
    }
}

/// Node `t` at `depth` holds `value` for `key` and, for every other key, what the stored
/// node `(top, map)` holds.
pub open spec fn replaces(
    log: Seq<Record>,
    nodes: Seq<DirectElementList>,
    t: Trie,
    depth: nat,
    key: u32,
    value: u32,
    top: int,
    map: u32,
) -> bool {
    forall|k: u32| #[trigger]
        direct_find(log, nodes, t, depth, k) == if k == key {
            found(value)
        } else {
            stored_find(log, top, map, depth, k)
        }
}

/// Node `t` at `depth` holds exactly the two given pairs.
pub open spec fn holds_pair(
    log: Seq<Record>,
    nodes: Seq<DirectElementList>,
    t: Trie,
    depth: nat,
    k1: u32,
    v1: u32,
    k2: u32,
    v2: u32,
) -> bool {
    forall|k: u32| #[trigger]
        direct_find(log, nodes, t, depth, k) == if k == k1 {
            found(v1)
        } else if k == k2 {
            found(v2)
        } else {
            absent()
        }
}

/// A node that a node at position `i` of the draft may refer to: an earlier unsaved node whose
/// length matches the bitmap, or a stored node that the log holds and a reference can name.
pub open spec fn trie_wf(log_len: int, nodes: Seq<DirectElementList>, c: Trie, i: int) -> bool {
    match c.elements {
        ElementData::Direct(j) => j < i && j < nodes.len() && pop_count(c.map.0) == elems(
            nodes[j as int],
        ).len(),
        ElementData::Indirect(top) => top.0 <= MAX_KEY && run_end(top.0 as int, c.map.0) <= log_len,
    }
}

pub open spec fn element_wf(log_len: int, nodes: Seq<DirectElementList>, e: Element, i: int) -> bool {
    match e {
        Element::KeyValue { key, .. } => key <= MAX_KEY,
        Element::SubTrie(c) => trie_wf(log_len, nodes, c, i),
    }
}

/// Every element of every unsaved node can be encoded.
pub open spec fn draft_wf(log_len: int, nodes: Seq<DirectElementList>) -> bool {
    forall|i: int, r: int|
        0 <= i < nodes.len() && 0 <= r < elems(nodes[i]).len() ==> #[trigger] element_wf(
            log_len,
            nodes,
            elems(nodes[i])[r],
            i,
        )
}

/// Lookups in a draft read only the nodes up to the one looked in, so adding nodes leaves
/// them unchanged.
pub proof fn lemma_direct_find_frame(
    log: Seq<Record>,
    n1: Seq<DirectElementList>,
    n2: Seq<DirectElementList>,
    t: Trie,
    depth: nat,
    key: u32,
)
    requires
        n1.len() <= n2.len(),
        forall|i: int| 0 <= i < n1.len() ==> n1[i] == n2[i],
        direct_index(t) <= n1.len(),
    ensures
        direct_find(log, n1, t, depth, key) == direct_find(log, n2, t, depth, key),
    decreases direct_index(t),
{
    match t.elements {
        ElementData::Direct(i) => {
            let s = key_shard(key, depth);
            if bit_set(t.map.0, s) && pop_count(t.map.0) == elems(n1[i as int]).len() {
                match elems(n1[i as int])[pop_below(t.map.0, s as nat) as int] {
                    Element::SubTrie(c) => {
                        if direct_index(c) <= i {
                            lemma_direct_find_frame(log, n1, n2, c, depth + 1, key);
                        }
                    },
                    _ => {},
                }
            }
        },
        _ => {},
    }
}

/// Adding a node whose elements can be encoded keeps a draft encodable.
proof fn lemma_draft_wf_push(log_len: int, nodes: Seq<DirectElementList>, n: DirectElementList)
    requires
        draft_wf(log_len, nodes),
        forall|r: int|
            0 <= r < elems(n).len() ==> #[trigger] element_wf(log_len, nodes, elems(n)[r], nodes.len() as int),
    ensures
        draft_wf(log_len, nodes.push(n)),
{
    let n2 = nodes.push(n);
    assert forall|i: int, r: int| 0 <= i < n2.len() && 0 <= r < elems(n2[i]).len() implies #[trigger] element_wf(
        log_len,
        n2,
        elems(n2[i])[r],
        i,
    ) by {
        if i < nodes.len() {
            assert(element_wf(log_len, nodes, elems(nodes[i])[r], i));
        } else {
            assert(element_wf(log_len, nodes, elems(n)[r], nodes.len() as int));
        }
    }
}

/// Every record of the run of a stored node is in the log, and every reference among them
/// names a node that lies before it.
pub open spec fn node_ok(log: Seq<Record>, top: int, map: u32) -> bool {
    0 <= top && run_end(top, map) <= log.len() && forall|q: int|
        top <= q < run_end(top, map) && is_reference(#[trigger] log[q].left) ==> reference_ok(log[q], q)
}

#[via_fn]
proof fn push_ok_decreases(log: Seq<Record>, top: int, map: u32, depth: nat, key: u32) {
    lemma_shard_lt(key, depth);
    let s = key_shard(key, depth);
    if bit_set(map, s) {
        lemma_rank_bounds(map, s, 0);
    }
}

/// Whether every node on the path of `key` from the stored node `(top, map)` decodes: what an
/// insertion of `key` has to read and copy.
pub open spec fn push_ok(log: Seq<Record>, top: int, map: u32, depth: nat, key: u32) -> bool
    decreases run_end(top, map),
    via push_ok_decreases
{
    node_ok(log, top, map) && {
        let s = key_shard(key, depth);
        let p = top + pop_below(map, s as nat);
        if bit_set(map, s) && 0 <= p < log.len() && is_reference(log[p].left) && reference_ok(
            log[p],
            p,
        ) {
            push_ok(log, log[p].left as int, log[p].right, depth + 1, key)
        } else {
            true
        }
    }
}

/// The elements of the run of a stored node.
pub open spec fn run_elements(log: Seq<Record>, top: int, map: u32) -> Seq<Element> {
    Seq::new(pop_count(map), |r: int| parse_spec(log[top + r]))
}

/// The elements of the stored node `(top, map)`, when its run decodes.
pub fn read_node(stash: &ElementStash, top: ElementStoreIndex, map: ElementMap) -> (r: Result<
    Vec<Element>,
    StoreError,
>)
    requires
        stash.wf(),
    ensures
        match r {
            Ok(v) => node_ok(stash@, top.0 as int, map.0) && v@ == run_elements(stash@, top.0 as int, map.0),
            Err(e) => e == StoreError::Corrupt && !node_ok(stash@, top.0 as int, map.0),
        },
{
    let n = map.len();
    if top.0 as u64 + n as u64 > stash.len() as u64 {
        return Err(StoreError::Corrupt);
    }
    let mut v: Vec<Element> = Vec::new();
    let mut i: usize = 0;
    while i < n
        invariant
            n == pop_count(map.0),
            top.0 + n <= stash@.len(),
            stash.wf(),
            i <= n,
            v@ == run_elements(stash@, top.0 as int, map.0).subrange(0, i as int),
            forall|q: int|
                top.0 <= q < top.0 + i && is_reference(#[trigger] stash@[q].left) ==> reference_ok(
                    stash@[q],
                    q,
                ),
        decreases n - i,
    {
        let q = top.0 + i as u32;
        let rec = stash.read(ElementStoreIndex(q))?;
        if u32_is_stash_index(rec.left) {
            let m = ElementMap(rec.right);
            if rec.left as u64 + m.len() as u64 > q as u64 {
                return Err(StoreError::Corrupt);
            }
        }
        v.push(parse(&rec));
        i = i + 1;
        assert(v@ =~= run_elements(stash@, top.0 as int, map.0).subrange(0, i as int));
    }
    assert(v@ =~= run_elements(stash@, top.0 as int, map.0));
    Ok(v)
}

/// What element `e` of node `i` of a draft, at `depth`, holds for `key`.
pub open spec fn element_result(
    log: Seq<Record>,
    nodes: Seq<DirectElementList>,
    e: Element,
    i: int,
    depth: nat,
    key: u32,
) -> Found {
    match e {
        Element::KeyValue { key: k, value } => {
            if k == key {
                Ok(Some(value))
            } else {
                Ok(None)
            }
        },
        Element::SubTrie(c) => {
            if direct_index(c) <= i {
                direct_find(log, nodes, c, depth + 1, key)
            } else {
                Err(StoreError::Corrupt)
            }
        },
    }
}

/// An element copied from a stored node holds in a draft what its record holds in the log.
proof fn lemma_copied(
    log: Seq<Record>,
    nodes: Seq<DirectElementList>,
    i: int,
    top: int,
    map: u32,
    depth: nat,
    k: u32,
)
    requires
        node_ok(log, top, map),
        0 <= i,
        bit_set(map, key_shard(k, depth)),
    ensures
        element_result(
            log,
            nodes,
            run_elements(log, top, map)[pop_below(map, key_shard(k, depth) as nat) as int],
            i,
            depth,
            k,
        ) == stored_find(log, top, map, depth, k),
{
    let s = key_shard(k, depth);
    lemma_shard_lt(k, depth);
    lemma_rank_bounds(map, s, 0);
    let q = top + pop_below(map, s as nat);
    assert(top <= q < run_end(top, map));
    let r = log[q];
    if is_reference(r.left) {
        assert(reference_ok(r, q));
    }
}

/// The bitmap of the node that zipping two keys builds at depth `d`, where their shards first
/// differ at depth `split`: the shared shard above the split, both shards at it.
pub open spec fn zip_node_map(k1: u32, k2: u32, d: nat, split: nat) -> u32 {
    if d < split {
        1u32 << key_shard(k1, d)
    } else {
        (1u32 << key_shard(k1, d)) | (1u32 << key_shard(k2, d))
    }
}

/// The elements of the node that zipping builds where the shards differ: both pairs, in
/// ascending order of shard.
pub open spec fn zip_leaves(k1: u32, v1: u32, k2: u32, v2: u32, split: nat) -> Seq<Element> {
    let e1 = Element::KeyValue { key: k1, value: v1 };
    let e2 = Element::KeyValue { key: k2, value: v2 };
    if key_shard(k1, split) < key_shard(k2, split) {
        seq![e1, e2]
    } else {
        seq![e2, e1]
    }
}

/// Builds the nodes that hold two keys which met in one slot above `start`: single-child
/// nodes for each depth at which their shards agree, down to a node that holds both.
fn zip_values(
    nodes: &mut Vec<DirectElementList>,
    start: usize,
    k1: u32,
    v1: u32,
    k2: u32,
    v2: u32,
    Ghost(log): Ghost<Seq<Record>>,
) -> (t: Trie)
    requires
        k1 != k2,
        k1 <= MAX_KEY,
        k2 <= MAX_KEY,
        start <= 0x8000_0000,
        draft_wf(log.len() as int, old(nodes)@),
    ensures
        old(nodes)@.len() < final(nodes)@.len(),
        forall|i: int| 0 <= i < old(nodes)@.len() ==> final(nodes)@[i] == old(nodes)@[i],
        draft_wf(log.len() as int, final(nodes)@),
        trie_wf(log.len() as int, final(nodes)@, t, final(nodes)@.len() as int),
        direct_index(t) == final(nodes)@.len(),
        holds_pair(log, final(nodes)@, t, start as nat, k1, v1, k2, v2),
        draft_size(log, final(nodes)@, t) == Some(2nat),
        records_upto(final(nodes)@, final(nodes)@.len() as int) <= records_upto(
            final(nodes)@,
            old(nodes)@.len() as int,
        ) + 8,
        ({
            let n0 = old(nodes)@.len() as int;
            let split = (start + final(nodes)@.len() - n0 - 1) as nat;
            &&& final(nodes)@.len() - n0 - 1 <= 6
            &&& forall|d: nat| start <= d < split ==> #[trigger] key_shard(k1, d) == key_shard(k2, d)
            &&& key_shard(k1, split) != key_shard(k2, split)
            &&& t == Trie {
                map: ElementMap(zip_node_map(k1, k2, start as nat, split)),
                elements: ElementData::Direct((final(nodes)@.len() - 1) as usize),
            }
            &&& elems(final(nodes)@[n0]) == zip_leaves(k1, v1, k2, v2, split)
            &&& forall|d: nat|
                start <= d < split ==> #[trigger] elems(final(nodes)@[n0 + split - d]) == seq![
                    Element::SubTrie(
                        Trie {
                            map: ElementMap(zip_node_map(k1, k2, d + 1, split)),
                            elements: ElementData::Direct((n0 + split - d - 1) as usize),
                        },
                    ),
                ]
        }),
{
    let ghost log_len = log.len() as int;
    let ghost n0 = nodes@;
    let mut depth: usize = start;
    while u32_key_byte(&k1, depth) == u32_key_byte(&k2, depth)
        invariant
            start <= depth <= start + 6,
            start <= 0x8000_0000,
            k1 != k2,
            forall|j: nat| start <= j < depth ==> #[trigger] key_shard(k1, j) == key_shard(k2, j),
        decreases start + 7 - depth,
    {
        proof {
            if depth + 1 == start + 7 {
                assert forall|j: nat| start <= j < start + 7 implies #[trigger] key_shard(k1, j) == key_shard(k2, j) by {
                    if j < depth {
                    } else {
                        assert(j == depth);
                    }
                }
                lemma_shards_cover_key(k1, k2, start as nat);
            }
        }
        depth = depth + 1;
    }
    let s1 = u32_key_byte(&k1, depth);
    let s2 = u32_key_byte(&k2, depth);
    let just = ElementMap::just_key(s1);
    let map = just.include_key(s2);
    let e1 = Element::KeyValue { key: k1, value: v1 };
    let e2 = Element::KeyValue { key: k2, value: v2 };
    let mut list: Vec<Element> = Vec::new();
    if s1 < s2 {
        list.push(e1);
        list.push(e2);
    } else {
        list.push(e2);
        list.push(e1);
    }
    proof {
        assert(!just.has(s2 as u32));
        lemma_pop_include(just.0, s2 as u32, 32);
        lemma_pop_include(just.0, s2 as u32, s1 as nat);
        lemma_pop_include(just.0, s2 as u32, s2 as nat);
        crate::element_map::lemma_pop_flag(s1 as u32, s2 as nat);
        crate::element_map::lemma_pop_flag(s1 as u32, s1 as nat);
        lemma_draft_wf_push(log_len, nodes@, DirectElementList(list));
    }
    let ghost leaf_list = list@;
    let ghost before_leaf = nodes@;
    let ghost e = depth;
    nodes.push(DirectElementList(list));
    proof {
        lemma_records_prefix(before_leaf, nodes@, before_leaf.len() as int);
        lemma_records_prefix(before_leaf, nodes@, n0.len() as int);
        lemma_records_mono(before_leaf, n0.len() as int, before_leaf.len() as int);
    }
    let mut t = Trie { map, elements: ElementData::Direct(nodes.len() - 1) };
    proof {
        assert(leaf_list =~= zip_leaves(k1, v1, k2, v2, e as nat));
        assert(map.0 == zip_node_map(k1, k2, e as nat, e as nat));
        assert forall|k: u32| #[trigger]
            direct_find(log, nodes@, t, depth as nat, k) == if k == k1 {
                found(v1)
            } else if k == k2 {
                found(v2)
            } else {
                absent()
            } by {
            lemma_shard_lt(k, depth as nat);
            let sk = key_shard(k, depth as nat);
            assert(elems(nodes@[nodes@.len() - 1]) == leaf_list);
            assert(just.has(sk) == (sk == s1 as u32));
            assert(map.has(sk) == (sk == s1 as u32 || sk == s2 as u32));
            if k == k1 {
                assert(sk == s1 as u32);
            }
            if k == k2 {
                assert(sk == s2 as u32);
            }
        }
        let i = nodes@.len() - 1;
        assert(elems(nodes@[i]) == leaf_list);
        lemma_list_size_step(log, nodes@, leaf_list, i, 2);
        lemma_list_size_step(log, nodes@, leaf_list, i, 1);
    }
    while depth > start
        invariant
            start <= depth <= start + 6,
            start <= 0x8000_0000,
            k1 != k2,
            forall|j: nat| start <= j < depth ==> #[trigger] key_shard(k1, j) == key_shard(k2, j),
            n0.len() < nodes@.len(),
            n0 == old(nodes)@,
            log_len == log.len(),
            forall|i: int| 0 <= i < n0.len() ==> nodes@[i] == n0[i],
            draft_wf(log_len, nodes@),
            trie_wf(log_len, nodes@, t, nodes@.len() as int),
            direct_index(t) == nodes@.len(),
            holds_pair(log, nodes@, t, depth as nat, k1, v1, k2, v2),
            draft_size(log, nodes@, t) == Some(2nat),
            depth <= e <= start + 6,
            records_upto(nodes@, nodes@.len() as int) <= records_upto(nodes@, n0.len() as int) + 2 + (e
                - depth),
            key_shard(k1, e as nat) != key_shard(k2, e as nat),
            forall|d: nat| start <= d < e ==> #[trigger] key_shard(k1, d) == key_shard(k2, d),
            nodes@.len() == n0.len() + 1 + (e - depth),
            t == (Trie {
                map: ElementMap(zip_node_map(k1, k2, depth as nat, e as nat)),
                elements: ElementData::Direct((nodes@.len() - 1) as usize),
            }),
            elems(nodes@[n0.len() as int]) == zip_leaves(k1, v1, k2, v2, e as nat),
            forall|d: nat|
                depth <= d < e ==> #[trigger] elems(nodes@[n0.len() + e - d]) == seq![
                    Element::SubTrie(
                        Trie {
                            map: ElementMap(zip_node_map(k1, k2, d + 1, e as nat)),
                            elements: ElementData::Direct((n0.len() + e - d - 1) as usize),
                        },
                    ),
                ],
        decreases depth,
    {
        depth = depth - 1;
        let c = u32_key_byte(&k1, depth);
        let m = ElementMap::just_key(c);
        let mut list: Vec<Element> = Vec::new();
        list.push(Element::SubTrie(t));
        proof {
            lemma_draft_wf_push(log_len, nodes@, DirectElementList(list));
        }
        let ghost prev = nodes@;
        let ghost child = t;
        let ghost one = list@;
        let ghost old_t = t;
        nodes.push(DirectElementList(list));
        proof {
            lemma_records_prefix(prev, nodes@, prev.len() as int);
            lemma_records_prefix(prev, nodes@, n0.len() as int);
        }
        t = Trie { map: m, elements: ElementData::Direct(nodes.len() - 1) };
        proof {
            assert forall|k: u32| #[trigger]
                direct_find(log, nodes@, t, depth as nat, k) == if k == k1 {
                    found(v1)
                } else if k == k2 {
                    found(v2)
                } else {
                    absent()
                } by {
                lemma_shard_lt(k, depth as nat);
                let sk = key_shard(k, depth as nat);
                assert(m.has(sk) == (sk == c as u32));
                assert(elems(nodes@[nodes@.len() - 1]) == one);
                lemma_direct_find_frame(log, prev, nodes@, child, depth as nat + 1, k);
                assert(direct_find(log, prev, child, depth as nat + 1, k) == if k == k1 {
                    found(v1)
                } else if k == k2 {
                    found(v2)
                } else {
                    absent()
                });
                assert(key_shard(k1, depth as nat) == key_shard(k2, depth as nat));
            }
            let i = nodes@.len() - 1;
            lemma_draft_size_frame(log, prev, nodes@, child);
            lemma_list_size_step(log, nodes@, one, i, 1);
            assert(one =~= seq![Element::SubTrie(old_t)]);
            assert(m.0 == zip_node_map(k1, k2, depth as nat, e as nat));
            assert forall|d: nat|
                depth <= d < e implies #[trigger] elems(nodes@[n0.len() + e - d]) == seq![
                    Element::SubTrie(
                        Trie {
                            map: ElementMap(zip_node_map(k1, k2, d + 1, e as nat)),
                            elements: ElementData::Direct((n0.len() + e - d - 1) as usize),
                        },
                    ),
                ] by {
                if d > depth {
                    assert(nodes@[n0.len() + e - d] == prev[n0.len() + e - d]);
                }
            }
            assert(nodes@[n0.len() as int] == prev[n0.len() as int]);
        }
    }
    t
}

/// Every element of a stored node whose run decodes can be placed in a draft.
proof fn lemma_run_wf(log: Seq<Record>, nodes: Seq<DirectElementList>, top: int, map: u32, i: int)
    requires
        node_ok(log, top, map),
    ensures
        forall|r: int|
            0 <= r < pop_count(map) ==> #[trigger] element_wf(
                log.len() as int,
                nodes,
                run_elements(log, top, map)[r],
                i,
            ),
{
    assert forall|r: int| 0 <= r < pop_count(map) implies #[trigger] element_wf(
        log.len() as int,
        nodes,
        run_elements(log, top, map)[r],
        i,
    ) by {
        let q = top + r;
        assert(top <= q < run_end(top, map));
        if is_reference(log[q].left) {
            assert(reference_ok(log[q], q));
        }
    }
}

/// A copy of a stored node in which only the slot of shard `s` changed holds, for keys of
/// other shards, what the stored node holds; so it replaces the stored node when the slot of
/// `s` does.
proof fn lemma_node_replaced(
    log: Seq<Record>,
    nodes: Seq<DirectElementList>,
    top: int,
    map: u32,
    new_map: u32,
    i: usize,
    depth: nat,
    key: u32,
    value: u32,
)
    requires
        node_ok(log, top, map),
        i < nodes.len(),
        pop_count(new_map) == elems(nodes[i as int]).len(),
        forall|j: u32|
            j < 32 ==> (#[trigger] bit_set(new_map, j) <==> (j == key_shard(key, depth) || bit_set(
                map,
                j,
            ))),
        forall|j: u32|
            j < 32 && j != key_shard(key, depth) && bit_set(map, j) ==> elems(nodes[i as int])[pop_below(
                new_map,
                j as nat,
            ) as int] == run_elements(log, top, map)[#[trigger] pop_below(map, j as nat) as int],
        forall|k: u32|
            key_shard(k, depth) == key_shard(key, depth) ==> #[trigger] element_result(
                log,
                nodes,
                elems(nodes[i as int])[pop_below(new_map, key_shard(key, depth) as nat) as int],
                i as int,
                depth,
                k,
            ) == if k == key {
                found(value)
            } else {
                stored_find(log, top, map, depth, k)
            },
    ensures
        replaces(
            log,
            nodes,
            Trie { map: ElementMap(new_map), elements: ElementData::Direct(i) },
            depth,
            key,
            value,
            top,
            map,
        ),
{
    let t = Trie { map: ElementMap(new_map), elements: ElementData::Direct(i) };
    let s = key_shard(key, depth);
    assert forall|k: u32| #[trigger]
        direct_find(log, nodes, t, depth, k) == if k == key {
            found(value)
        } else {
            stored_find(log, top, map, depth, k)
        } by {
        lemma_shard_lt(k, depth);
        lemma_shard_lt(key, depth);
        let sk = key_shard(k, depth);
        assert(bit_set(new_map, sk) <==> (sk == s || bit_set(map, sk)));
        if sk == s {
            assert(element_result(
                log,
                nodes,
                elems(nodes[i as int])[pop_below(new_map, s as nat) as int],
                i as int,
                depth,
                k,
            ) == if k == key {
                found(value)
            } else {
                stored_find(log, top, map, depth, k)
            });
        } else if bit_set(map, sk) {
            assert(elems(nodes[i as int])[pop_below(new_map, sk as nat) as int] == run_elements(
                log,
                top,
                map,
            )[pop_below(map, sk as nat) as int]);
            lemma_copied(log, nodes, i as int, top, map, depth, k);
        }
    }
}

/// The elements `es` of a copy with bitmap `new_map` of the stored node `(top, map)` hold, in
/// the slot of every shard but `s`, the very element of the stored node.
pub open spec fn shares_slots(log: Seq<Record>, es: Seq<Element>, new_map: u32, s: u32, top: int, map: u32) -> bool {
    forall|j: u32|
        j < 32 && j != s && bit_set(map, j) ==> bit_set(new_map, j) && es[pop_below(new_map, j as nat) as int]
            == run_elements(log, top, map)[#[trigger] pop_below(map, j as nat) as int]
}

/// Node `t` of a draft shares with the stored node `(top, map)` everything off the path of
/// `key`: at each depth along the path, every slot of another shard holds the very element of
/// the stored node (the same pair, or a reference to the same stored child), and where the
/// path continues into a stored child, the copy of that child shares with it in turn.
pub open spec fn shares_off_path(
    log: Seq<Record>,
    nodes: Seq<DirectElementList>,
    t: Trie,
    depth: nat,
    key: u32,
    top: int,
    map: u32,
) -> bool
    decreases direct_index(t),
{
    match t.elements {
        ElementData::Indirect(_) => false,
        ElementData::Direct(i) => {
            if i >= nodes.len() {
                false
            } else {
                let s = key_shard(key, depth);
                let es = elems(nodes[i as int]);
                shares_slots(log, es, t.map.0, s, top, map) && (bit_set(map, s) && bit_set(t.map.0, s)
                    ==> match (
                    run_elements(log, top, map)[pop_below(map, s as nat) as int],
                    es[pop_below(t.map.0, s as nat) as int],
                ) {
                    (Element::SubTrie(old_c), Element::SubTrie(new_c)) => {
                        if direct_index(new_c) <= i {
                            shares_off_path(log, nodes, new_c, depth + 1, key, stored_top(old_c), old_c.map.0)
                        } else {
                            false
                        }
                    },
                    _ => true,
                })
            }
        },
    }
}

/// Adding nodes to a draft keeps what its nodes share.
proof fn lemma_shares_frame(
    log: Seq<Record>,
    n1: Seq<DirectElementList>,
    n2: Seq<DirectElementList>,
    t: Trie,
    depth: nat,
    key: u32,
    top: int,
    map: u32,
)
    requires
        n1.len() <= n2.len(),
        forall|i: int| 0 <= i < n1.len() ==> n1[i] == n2[i],
        direct_index(t) <= n1.len(),
        shares_off_path(log, n1, t, depth, key, top, map),
    ensures
        shares_off_path(log, n2, t, depth, key, top, map),
    decreases direct_index(t),
{
    match t.elements {
        ElementData::Direct(i) => {
            let s = key_shard(key, depth);
            let es = elems(n1[i as int]);
            assert(elems(n2[i as int]) == es);
            if bit_set(map, s) && bit_set(t.map.0, s) {
                match (
                    run_elements(log, top, map)[pop_below(map, s as nat) as int],
                    es[pop_below(t.map.0, s as nat) as int],
                ) {
                    (Element::SubTrie(old_c), Element::SubTrie(new_c)) => {
                        if direct_index(new_c) <= i {
                            lemma_shares_frame(log, n1, n2, new_c, depth + 1, key, stored_top(old_c), old_c.map.0);
                        }
                    },
                    _ => {},
                }
            }
        },
        _ => {},
    }
}

/// Node `t` of a draft counts one pair more than the stored node `(top, map)` where that held
/// nothing for `key`, and as many where it held a value; wherever the stored node counts.
pub open spec fn grows_by_new_key(
    log: Seq<Record>,
    nodes: Seq<DirectElementList>,
    t: Trie,
    depth: nat,
    key: u32,
    top: int,
    map: u32,
) -> bool {
    stored_size(log, top, map) is Some ==> draft_size(log, nodes, t) == Some(
        stored_size(log, top, map).unwrap() + if stored_find(log, top, map, depth, key) == absent() {
            1nat
        } else {
            0nat
        },
    )
}

/// The elements `es` with bitmap `new_map` are what inserting `key` with `value` makes of the
/// stored node `(top, map)` at `depth`: where its shard is absent, the bit is added and the pair
/// is inserted at the shard's insertion index; where it is present, the bitmap stays and only
/// the element at the shard's index changes: to the new pair for the same key, and to a new
/// unsaved child otherwise.
pub open spec fn node_built(
    log: Seq<Record>,
    es: Seq<Element>,
    new_map: u32,
    top: int,
    map: u32,
    depth: nat,
    key: u32,
    value: u32,
) -> bool {
    let s = key_shard(key, depth);
    let run = run_elements(log, top, map);
    let rank = pop_below(map, s as nat) as int;
    if !bit_set(map, s) {
        new_map == map | (1u32 << s) && es == run.insert(rank, Element::KeyValue { key, value })
    } else {
        &&& new_map == map
        &&& es == run.update(rank, es[rank])
        &&& match run[rank] {
            Element::KeyValue { key: k, .. } => {
                if k == key {
                    es[rank] == Element::KeyValue { key, value }
                } else {
                    match es[rank] {
                        Element::SubTrie(c) => c.elements is Direct,
                        _ => false,
                    }
                }
            },
            Element::SubTrie(_) => match es[rank] {
                Element::SubTrie(c) => c.elements is Direct,
                _ => false,
            },
        }
    }
}

/// Inserts `key` with `value` below the stored node `(top, map)` at `depth`. The nodes on the
/// path to the key are copied into `nodes`; every other node is shared with the stored trie.
#[verifier::rlimit(100)]
fn push_node(
    stash: &ElementStash,
    nodes: &mut Vec<DirectElementList>,
    top: ElementStoreIndex,
    map: ElementMap,
    depth: usize,
    key: u32,
    value: u32,
) -> (r: Result<Trie, StoreError>)
    requires
        stash.wf(),
        key <= MAX_KEY,
        depth + run_end(top.0 as int, map.0) <= stash@.len(),
        draft_wf(stash@.len() as int, old(nodes)@),
    ensures
        old(nodes)@.len() <= final(nodes)@.len(),
        forall|i: int| 0 <= i < old(nodes)@.len() ==> final(nodes)@[i] == old(nodes)@[i],
        match r {
            Ok(t) => draft_wf(stash@.len() as int, final(nodes)@) && trie_wf(
                stash@.len() as int,
                final(nodes)@,
                t,
                final(nodes)@.len() as int,
            ) && direct_index(t) == final(nodes)@.len() && replaces(
                stash@,
                final(nodes)@,
                t,
                depth as nat,
                key,
                value,
                top.0 as int,
                map.0,
            ) && grows_by_new_key(
                stash@,
                final(nodes)@,
                t,
                depth as nat,
                key,
                top.0 as int,
                map.0,
            ) && shares_off_path(stash@, final(nodes)@, t, depth as nat, key, top.0 as int, map.0)
                && push_ok(stash@, top.0 as int, map.0, depth as nat, key) && records_upto(
                final(nodes)@,
                final(nodes)@.len() as int,
            ) <= records_upto(final(nodes)@, old(nodes)@.len() as int) + 32 * path_len(
                stash@,
                top.0 as int,
                map.0,
                depth as nat,
                key,
            ) + 8 && t.elements == ElementData::Direct((final(nodes)@.len() - 1) as usize) && node_built(
                stash@,
                elems(final(nodes)@[final(nodes)@.len() - 1]),
                t.map.0,
                top.0 as int,
                map.0,
                depth as nat,
                key,
                value,
            ),
            Err(e) => e == StoreError::Corrupt && !push_ok(
                stash@,
                top.0 as int,
                map.0,
                depth as nat,
                key,
            ),
        },
    decreases run_end(top.0 as int, map.0),
{
    let ghost log = stash@;
    let ghost len = stash@.len() as int;
    let ghost t0 = top.0 as int;
    let mut elements = read_node(stash, top, map)?;
    let ghost run = elements@;
    proof {
        lemma_shard_lt(key, depth as nat);
        lemma_pop_le(map.0, 32);
    }
    let s = u32_key_byte(&key, depth);
    let ghost sk = s as u32;
    match map.to_viewing_index(s) {
        None => {
            let rank = map.to_insertion_index(s);
            proof {
                crate::element_map::lemma_pop_mono(map.0, sk as nat, 32);
            }
            elements.insert(rank, Element::KeyValue { key, value });
            let new_map = map.include_key(s);
            let ghost n_before = nodes@;
            proof {
                lemma_pop_include(map.0, sk, 32);
                lemma_pop_include(map.0, sk, sk as nat);
                lemma_run_wf(log, n_before, t0, map.0, n_before.len() as int);
                assert forall|r: int| 0 <= r < elements@.len() implies #[trigger] element_wf(
                    len,
                    n_before,
                    elements@[r],
                    n_before.len() as int,
                ) by {
                    if r < rank {
                        assert(elements@[r] == run[r]);
                    } else if r > rank {
                        assert(elements@[r] == run[r - 1]);
                    }
                }
                lemma_draft_wf_push(len, n_before, DirectElementList(elements));
            }
            let ghost ev = elements@;
            nodes.push(DirectElementList(elements));
            proof {
                lemma_records_prefix(n_before, nodes@, n_before.len() as int);
                assert(ev.len() == pop_count(new_map.0));
                lemma_pop_le(new_map.0, 32);
            }
            let t = Trie { map: new_map, elements: ElementData::Direct(nodes.len() - 1) };
            proof {
                let i = n_before.len() as int;
                assert(elems(nodes@[i]) == ev);
                assert forall|j: u32|
                    j < 32 && j != sk && bit_set(map.0, j) implies ev[pop_below(
                    new_map.0,
                    j as nat,
                ) as int] == run[#[trigger] pop_below(map.0, j as nat) as int] by {
                    lemma_pop_include(map.0, sk, j as nat);
                    lemma_rank_bounds(map.0, j, sk);
                    if sk < j {
                        crate::element_map::lemma_pop_mono(map.0, sk as nat, j as nat);
                    }
                }
                assert forall|k: u32| key_shard(k, depth as nat) == sk implies #[trigger] element_result(
                    log,
                    nodes@,
                    ev[pop_below(new_map.0, sk as nat) as int],
                    i,
                    depth as nat,
                    k,
                ) == if k == key {
                    found(value)
                } else {
                    stored_find(log, t0, map.0, depth as nat, k)
                } by {}
                assert forall|j: u32| j < 32 implies (#[trigger] bit_set(new_map.0, j) <==> (j == sk || bit_set(
                    map.0,
                    j,
                ))) by {
                    assert(new_map.has(j) == (j == s as u32 || map.has(j)));
                }
                lemma_node_replaced(log, nodes@, t0, map.0, new_map.0, (nodes@.len() - 1) as usize, depth as nat, key, value);
                lemma_copied_size(log, nodes@, i, t0, map.0, pop_count(map.0) as int);
                if stored_size(log, t0, map.0) is Some {
                    lemma_list_size_insert(log, nodes@, run, i, rank as int, Element::KeyValue { key, value });
                    assert(ev == run.insert(rank as int, Element::KeyValue { key, value }));
                }
                assert forall|j: u32| j < 32 && j != sk && bit_set(map.0, j) implies bit_set(new_map.0, j) && ev[pop_below(
                    new_map.0,
                    j as nat,
                ) as int] == run[#[trigger] pop_below(map.0, j as nat) as int] by {
                    assert(new_map.has(j) == (j == s as u32 || map.has(j)));
                }
                assert(shares_slots(log, ev, new_map.0, sk, t0, map.0));
                assert(ev == run.insert(rank as int, Element::KeyValue { key, value }));
                assert(node_built(log, ev, new_map.0, t0, map.0, depth as nat, key, value));
            }
            Ok(t)
        },
        Some(rank) => {
            proof {
                lemma_rank_bounds(map.0, sk, 0);
            }
            let ghost q = t0 + rank;
            let ghost n_entry = nodes@;
            let ghost mut child_top: int = 0;
            let ghost mut child_map: u32 = 0;
            let replacement: Element;
            match elements[rank] {
                Element::KeyValue { key: old_key, value: old_value } => {
                    if old_key == key {
                        replacement = Element::KeyValue { key, value };
                    } else {
                        let z = zip_values(nodes, depth + 1, old_key, old_value, key, value, Ghost(log));
                        replacement = Element::SubTrie(z);
                    }
                },
                Element::SubTrie(child) => {
                    let ct = match child.elements {
                        ElementData::Indirect(ct) => ct,
                        ElementData::Direct(_) => {
                            proof {
                                assert(false);
                            }
                            return Err(StoreError::Corrupt);
                        },
                    };
                    proof {
                        assert(top.0 <= q < run_end(t0, map.0));
                        assert(reference_ok(log[q], q));
                    }
                    let sub = push_node(stash, nodes, ct, child.map, depth + 1, key, value);
                    proof {
                        child_top = ct.0 as int;
                        child_map = child.map.0;
                    }
                    match sub {
                        Ok(sub) => {
                            replacement = Element::SubTrie(sub);
                        },
                        Err(e) => {
                            return Err(e);
                        },
                    }
                },
            }
            let ghost n_before = nodes@;
            let ghost old_elem = run[rank as int];
            elements.remove(rank);
            elements.insert(rank, replacement);
            let ghost ev = elements@;
            proof {
                assert(ev =~= run.update(rank as int, replacement));
                lemma_run_wf(log, n_before, t0, map.0, n_before.len() as int);
                assert forall|r: int| 0 <= r < ev.len() implies #[trigger] element_wf(
                    len,
                    n_before,
                    ev[r],
                    n_before.len() as int,
                ) by {
                    if r != rank {
                        assert(ev[r] == run[r]);
                    }
                }
                lemma_draft_wf_push(len, n_before, DirectElementList(elements));
            }
            nodes.push(DirectElementList(elements));
            proof {
                lemma_records_prefix(n_before, nodes@, n_before.len() as int);
                lemma_records_prefix(n_before, nodes@, n_entry.len() as int);
                lemma_records_prefix(n_entry, n_before, n_entry.len() as int);
                lemma_pop_le(map.0, 32);
                match old_elem {
                    Element::SubTrie(oc) => {
                        assert(child_top == stored_top(oc) && child_map == oc.map.0);
                        assert(path_len(log, t0, map.0, depth as nat, key) == 1 + path_len(
                            log,
                            child_top,
                            child_map,
                            depth as nat + 1,
                            key,
                        ));
                    },
                    _ => {
                        lemma_records_mono(n_before, n_entry.len() as int, n_before.len() as int);
                    },
                }
            }
            let t = Trie { map: map, elements: ElementData::Direct(nodes.len() - 1) };
            proof {
                let i = n_before.len() as int;
                assert(elems(nodes@[i]) == ev);
                assert forall|j: u32|
                    j < 32 && j != sk && bit_set(map.0, j) implies ev[pop_below(
                    map.0,
                    j as nat,
                ) as int] == run[#[trigger] pop_below(map.0, j as nat) as int] by {
                    lemma_rank_bounds(map.0, sk, j);
                    lemma_rank_bounds(map.0, j, 0);
                }
                assert forall|k: u32| key_shard(k, depth as nat) == sk implies #[trigger] element_result(
                    log,
                    nodes@,
                    ev[pop_below(map.0, sk as nat) as int],
                    i,
                    depth as nat,
                    k,
                ) == if k == key {
                    found(value)
                } else {
                    stored_find(log, t0, map.0, depth as nat, k)
                } by {
                    match replacement {
                        Element::SubTrie(c) => {
                            lemma_direct_find_frame(log, n_before, nodes@, c, depth as nat + 1, k);
                        },
                        _ => {},
                    }
                }
                lemma_node_replaced(log, nodes@, t0, map.0, map.0, (nodes@.len() - 1) as usize, depth as nat, key, value);
                let n = pop_count(map.0) as int;
                lemma_copied_size(log, nodes@, i, t0, map.0, n);
                if stored_size(log, t0, map.0) is Some {
                    lemma_list_size_part(log, nodes@, run, i, n, rank as int);
                    match replacement {
                        Element::SubTrie(c) => {
                            lemma_draft_size_frame(log, n_before, nodes@, c);
                            match old_elem {
                                Element::SubTrie(oc) => {
                                    assert(child_top == stored_top(oc) && child_map == oc.map.0);
                                    assert(stored_find(log, t0, map.0, depth as nat, key) == stored_find(
                                        log,
                                        child_top,
                                        child_map,
                                        depth as nat + 1,
                                        key,
                                    ));
                                },
                                _ => {},
                            }
                        },
                        _ => {},
                    }
                    lemma_list_size_update(log, nodes@, run, i, n, rank as int, replacement);
                }
                match (old_elem, replacement) {
                    (Element::SubTrie(oc), Element::SubTrie(c)) => {
                        assert(child_top == stored_top(oc) && child_map == oc.map.0);
                        lemma_shares_frame(log, n_before, nodes@, c, depth as nat + 1, key, child_top, child_map);
                    },
                    _ => {},
                }
                assert(ev[pop_below(map.0, sk as nat) as int] == replacement);
                assert(shares_slots(log, ev, map.0, sk, t0, map.0));
                assert(ev[rank as int] == replacement);
                assert(ev == run.update(rank as int, ev[rank as int]));
                assert(node_built(log, ev, map.0, t0, map.0, depth as nat, key, value));
            }
            Ok(t)
        },
    }
}

/// The first record of the run of a stored node.
pub open spec fn stored_top(t: Trie) -> int {
    match t.elements {
        ElementData::Indirect(top) => top.0 as int,
        ElementData::Direct(_) => 0,
    }
}

impl Trie {
    /// The empty trie: a stored node without elements.
    pub fn new() -> (r: Self)
        ensures
            r.map.0 == 0,
            r.elements == ElementData::Indirect(ElementStoreIndex(0)),
    {
        Trie { map: ElementMap::empty(), elements: ElementData::Indirect(ElementStoreIndex(0)) }
    }

    /// Whether the elements of this node are unsaved.
    pub fn is_data_direct(&self) -> (r: bool)
        ensures
            r == (self.elements is Direct),
    {
        match self.elements {
            ElementData::Direct(_) => true,
            ElementData::Indirect(_) => false,
        }
    }

    /// What this stored trie holds for `search_key`. An unsaved node cannot be read without
    /// its draft.
    pub fn find(&self, stash: &ElementStash, search_key: &u32) -> (r: Found)
        requires
            stash.wf(),
        ensures
            r == direct_find(stash@, Seq::empty(), *self, 0, *search_key),
    {
        match self.elements {
            ElementData::Direct(_) => Err(StoreError::Corrupt),
            ElementData::Indirect(top) => {
                if top.0 as u64 + self.map.len() as u64 > stash.len() as u64 {
                    return Err(StoreError::Corrupt);
                }
                find_stored(stash, top, self.map, *search_key)
            },
        }
    }

    /// The draft of the version of this stored trie in which `insert_key` maps to
    /// `insert_value`. Only the nodes on the path to the key are copied; all others are shared.
    pub fn push(&self, stash: &ElementStash, insert_key: u32, insert_value: u32) -> (r: Result<
        Draft,
        StoreError,
    >)
        requires
            stash.wf(),
            insert_key <= MAX_KEY,
            self.elements is Indirect,
            trie_wf(stash@.len() as int, Seq::empty(), *self, 0),
        ensures
            match r {
                Ok(d) => draft_wf(stash@.len() as int, d.nodes@) && trie_wf(
                    stash@.len() as int,
                    d.nodes@,
                    d.root,
                    d.nodes@.len() as int,
                ) && replaces(
                    stash@,
                    d.nodes@,
                    d.root,
                    0,
                    insert_key,
                    insert_value,
                    stored_top(*self),
                    self.map.0,
                ) && grows_by_new_key(
                    stash@,
                    d.nodes@,
                    d.root,
                    0,
                    insert_key,
                    stored_top(*self),
                    self.map.0,
                ) && shares_off_path(
                    stash@,
                    d.nodes@,
                    d.root,
                    0,
                    insert_key,
                    stored_top(*self),
                    self.map.0,
                ) && push_ok(stash@, stored_top(*self), self.map.0, 0, insert_key) && d.root.elements
                    == ElementData::Direct((d.nodes@.len() - 1) as usize) && node_built(
                    stash@,
                    elems(d.nodes@[d.nodes@.len() - 1]),
                    d.root.map.0,
                    stored_top(*self),
                    self.map.0,
                    0,
                    insert_key,
                    insert_value,
                ) && records_upto(
                    d.nodes@,
                    d.nodes@.len() as int,
                ) <= 32 * path_len(stash@, stored_top(*self), self.map.0, 0, insert_key) + 8,
                Err(e) => e == StoreError::Corrupt && !push_ok(
                    stash@,
                    stored_top(*self),
                    self.map.0,
                    0,
                    insert_key,
                ),
            },
    {
        let top = match self.elements {
            ElementData::Indirect(top) => top,
            ElementData::Direct(_) => ElementStoreIndex(0),
        };
        let mut nodes: Vec<DirectElementList> = Vec::new();
        proof {
            assert(draft_wf(stash@.len() as int, nodes@));
        }
        let root = push_node(stash, &mut nodes, top, self.map, 0, insert_key, insert_value)?;
        Ok(Draft { nodes, root })
    }
}

/// The number of key-value pairs in the first `len` elements of the run at `top`, counting
/// through child nodes; nothing where a record does not decode.
pub open spec fn run_size(log: Seq<Record>, top: int, len: nat) -> Option<nat>
    decreases top + len,
{
    if len == 0 {
        Some(0)
    } else if top < 0 {
        None
    } else {
        let p = top + len - 1;
        match run_size(log, top, (len - 1) as nat) {
            None => None,
            Some(a) => {
                if !(p < log.len()) {
                    None
                } else if !is_reference(log[p].left) {
                    Some(a + 1)
                } else if reference_ok(log[p], p) {
                    match run_size(log, log[p].left as int, pop_count(log[p].right)) {
                        None => None,
                        Some(b) => Some(a + b),
                    }
                } else {
                    None
                }
            },
        }
    }
}

/// The number of key-value pairs of the run of `len` records at `top`. A count beyond
/// `usize` is reported only once the whole run has decoded.
fn size_of_run(stash: &ElementStash, top: u32, len: usize) -> (r: Result<usize, StoreError>)
    requires
        stash.wf(),
    ensures
        match r {
            Ok(n) => run_size(stash@, top as int, len as nat) == Some(n as nat),
            Err(e) => e == StoreError::Corrupt && run_size(stash@, top as int, len as nat) is None
                || e == StoreError::Full && run_size(stash@, top as int, len as nat) is Some && run_size(
                stash@,
                top as int,
                len as nat,
            ).unwrap() > usize::MAX,
        },
    decreases top + len,
{
    let mut count: usize = 0;
    let mut over = false;
    let mut i: usize = 0;
    while i < len
        invariant
            stash.wf(),
            i <= len,
            run_size(stash@, top as int, i as nat) is Some,
            over ==> run_size(stash@, top as int, i as nat).unwrap() > usize::MAX,
            !over ==> run_size(stash@, top as int, i as nat).unwrap() == count,
        decreases len - i,
    {
        let p = top as u64 + i as u64;
        if p >= stash.len() as u64 {
            proof {
                lemma_run_size_none_from(stash@, top as int, (i + 1) as nat, len as nat);
            }
            return Err(StoreError::Corrupt);
        }
        let rec = stash.read(ElementStoreIndex(p as u32))?;
        let mut add: usize = 1;
        let mut add_over = false;
        if u32_is_stash_index(rec.left) {
            let child_len = ElementMap(rec.right).len();
            if rec.left as u64 + child_len as u64 > p {
                proof {
                    lemma_run_size_none_from(stash@, top as int, (i + 1) as nat, len as nat);
                }
                return Err(StoreError::Corrupt);
            }
            match size_of_run(stash, rec.left, child_len) {
                Ok(b) => {
                    add = b;
                },
                Err(e) => {
                    if e == StoreError::Corrupt {
                        proof {
                            lemma_run_size_none_from(stash@, top as int, (i + 1) as nat, len as nat);
                        }
                        return Err(e);
                    }
                    add_over = true;
                },
            }
        }
        if over || add_over {
            over = true;
        } else {
            match count.checked_add(add) {
                Some(c) => {
                    count = c;
                },
                None => {
                    over = true;
                },
            }
        }
        i = i + 1;
    }
    if over {
        Err(StoreError::Full)
    } else {
        Ok(count)
    }
}

/// Where a prefix of a run does not decode, neither does the run.
proof fn lemma_run_size_none_from(log: Seq<Record>, top: int, a: nat, b: nat)
    requires
        a <= b,
        run_size(log, top, a) is None,
    ensures
        run_size(log, top, b) is None,
    decreases b - a,
{
    if a < b {
        lemma_run_size_none_from(log, top, a, (b - 1) as nat);
    }
}

/// The number of key-value pairs of the stored node `(top, map)`.
pub open spec fn stored_size(log: Seq<Record>, top: int, map: u32) -> Option<nat> {
    run_size(log, top, pop_count(map))
}

/// The number of key-value pairs of the version named by the record at `index`.
pub open spec fn root_size(log: Seq<Record>, index: int) -> Option<nat> {
    if root_ok(log, index) {
        stored_size(log, log[index].left as int, log[index].right)
    } else {
        None
    }
}

impl Trie {
    /// The number of key-value pairs of this stored trie. Stored bytes that do not decode
    /// give `Corrupt`; a count beyond `usize` gives `Full`.
    pub fn size(&self, stash: &ElementStash) -> (r: Result<usize, StoreError>)
        requires
            stash.wf(),
            self.elements is Indirect,
        ensures
            match r {
                Ok(n) => stored_size(stash@, stored_top(*self), self.map.0) == Some(n as nat),
                Err(e) => e == StoreError::Corrupt && stored_size(stash@, stored_top(*self), self.map.0) is None
                    || e == StoreError::Full && stored_size(stash@, stored_top(*self), self.map.0) is Some
                    && stored_size(stash@, stored_top(*self), self.map.0).unwrap() > usize::MAX,
            },
    {
        let top = match self.elements {
            ElementData::Indirect(top) => top.0,
            ElementData::Direct(_) => 0,
        };
        size_of_run(stash, top, self.map.len())
    }
}

/// The number of key-value pairs of node `t` of a draft; nothing where a node does not decode.
pub open spec fn draft_size(log: Seq<Record>, nodes: Seq<DirectElementList>, t: Trie) -> Option<nat>
    decreases direct_index(t), 1int, 0int,
{
    match t.elements {
        ElementData::Indirect(top) => {
            if run_end(top.0 as int, t.map.0) <= log.len() {
                stored_size(log, top.0 as int, t.map.0)
            } else {
                None
            }
        },
        ElementData::Direct(i) => {
            if i >= nodes.len() || pop_count(t.map.0) != elems(nodes[i as int]).len() {
                None
            } else {
                list_size(log, nodes, elems(nodes[i as int]), i as int, elems(nodes[i as int]).len() as int)
            }
        },
    }
}

/// The number of key-value pairs of the first `n` of `es`, taken as the elements of node `i`
/// of a draft.
pub open spec fn list_size(
    log: Seq<Record>,
    nodes: Seq<DirectElementList>,
    es: Seq<Element>,
    i: int,
    n: int,
) -> Option<nat>
    decreases i + 1, 0int, n,
{
    if n <= 0 || i < 0 {
        Some(0)
    } else {
        match list_size(log, nodes, es, i, n - 1) {
            None => None,
            Some(a) => match es[n - 1] {
                Element::KeyValue { .. } => Some(a + 1),
                Element::SubTrie(c) => {
                    if direct_index(c) <= i {
                        match draft_size(log, nodes, c) {
                            None => None,
                            Some(b) => Some(a + b),
                        }
                    } else {
                        None
                    }
                },
            },
        }
    }
}

/// The number of key-value pairs that element `e` of node `i` of a draft holds.
pub open spec fn element_size(log: Seq<Record>, nodes: Seq<DirectElementList>, e: Element, i: int) -> Option<nat> {
    match e {
        Element::KeyValue { .. } => Some(1),
        Element::SubTrie(c) => {
            if direct_index(c) <= i {
                draft_size(log, nodes, c)
            } else {
                None
            }
        },
    }
}

/// Option addition: nothing where either side is nothing.
pub open spec fn add_size(a: Option<nat>, b: Option<nat>) -> Option<nat> {
    match (a, b) {
        (Some(x), Some(y)) => Some(x + y),
        _ => None,
    }
}

proof fn lemma_list_size_step(
    log: Seq<Record>,
    nodes: Seq<DirectElementList>,
    es: Seq<Element>,
    i: int,
    n: int,
)
    requires
        0 <= i,
        0 < n,
    ensures
        list_size(log, nodes, es, i, n) == add_size(
            list_size(log, nodes, es, i, n - 1),
            element_size(log, nodes, es[n - 1], i),
        ),
{
}

/// Only the first `n` elements count.
proof fn lemma_list_size_prefix(
    log: Seq<Record>,
    nodes: Seq<DirectElementList>,
    es1: Seq<Element>,
    es2: Seq<Element>,
    i: int,
    n: int,
)
    requires
        0 <= i,
        0 <= n <= es1.len(),
        n <= es2.len(),
        forall|x: int| 0 <= x < n ==> es1[x] == es2[x],
    ensures
        list_size(log, nodes, es1, i, n) == list_size(log, nodes, es2, i, n),
    decreases n,
{
    if n > 0 {
        lemma_list_size_prefix(log, nodes, es1, es2, i, n - 1);
        lemma_list_size_step(log, nodes, es1, i, n);
        lemma_list_size_step(log, nodes, es2, i, n);
    }
}

/// Replacing one element changes the count by the difference of the two elements.
proof fn lemma_list_size_update(
    log: Seq<Record>,
    nodes: Seq<DirectElementList>,
    es: Seq<Element>,
    i: int,
    n: int,
    x: int,
    e: Element,
)
    requires
        0 <= i,
        0 <= x < n <= es.len(),
        list_size(log, nodes, es, i, n) is Some,
        element_size(log, nodes, e, i) is Some,
    ensures
        element_size(log, nodes, es[x], i) is Some,
        list_size(log, nodes, es.update(x, e), i, n) == Some(
            (list_size(log, nodes, es, i, n).unwrap() - element_size(log, nodes, es[x], i).unwrap()
                + element_size(log, nodes, e, i).unwrap()) as nat,
        ),
        list_size(log, nodes, es, i, n).unwrap() >= element_size(log, nodes, es[x], i).unwrap(),
    decreases n,
{
    let es2 = es.update(x, e);
    lemma_list_size_step(log, nodes, es, i, n);
    lemma_list_size_step(log, nodes, es2, i, n);
    if x == n - 1 {
        lemma_list_size_prefix(log, nodes, es, es2, i, n - 1);
    } else {
        lemma_list_size_update(log, nodes, es, i, n - 1, x, e);
    }
}

/// Where a list counts, each of its elements counts, and no more than the list.
proof fn lemma_list_size_part(
    log: Seq<Record>,
    nodes: Seq<DirectElementList>,
    es: Seq<Element>,
    i: int,
    n: int,
    x: int,
)
    requires
        0 <= i,
        0 <= x < n,
        list_size(log, nodes, es, i, n) is Some,
    ensures
        element_size(log, nodes, es[x], i) is Some,
    decreases n,
{
    lemma_list_size_step(log, nodes, es, i, n);
    if x < n - 1 {
        lemma_list_size_part(log, nodes, es, i, n - 1, x);
    }
}

/// Inserting an element adds what it holds.
proof fn lemma_list_size_insert(
    log: Seq<Record>,
    nodes: Seq<DirectElementList>,
    es: Seq<Element>,
    i: int,
    x: int,
    e: Element,
)
    requires
        0 <= i,
        0 <= x <= es.len(),
        list_size(log, nodes, es, i, es.len() as int) is Some,
        element_size(log, nodes, e, i) is Some,
    ensures
        list_size(log, nodes, es.insert(x, e), i, es.len() + 1int) == Some(
            list_size(log, nodes, es, i, es.len() as int).unwrap() + element_size(log, nodes, e, i).unwrap(),
        ),
    decreases es.len(),
{
    let es2 = es.insert(x, e);
    lemma_list_size_step(log, nodes, es2, i, es.len() + 1int);
    if x == es.len() {
        lemma_list_size_prefix(log, nodes, es, es2, i, es.len() as int);
    } else {
        let es1 = es.drop_last();
        assert(es1.len() == es.len() - 1);
        lemma_list_size_prefix(log, nodes, es, es1, i, es.len() - 1);
        lemma_list_size_step(log, nodes, es, i, es.len() as int);
        lemma_list_size_insert(log, nodes, es1, i, x, e);
        lemma_list_size_prefix(log, nodes, es1.insert(x, e), es2, i, es.len() as int);
    }
}

/// Counts in a draft read only the nodes up to the one counted, so adding nodes leaves them
/// unchanged.
proof fn lemma_draft_size_frame(
    log: Seq<Record>,
    n1: Seq<DirectElementList>,
    n2: Seq<DirectElementList>,
    t: Trie,
)
    requires
        n1.len() <= n2.len(),
        forall|i: int| 0 <= i < n1.len() ==> n1[i] == n2[i],
        direct_index(t) <= n1.len(),
    ensures
        draft_size(log, n1, t) == draft_size(log, n2, t),
    decreases direct_index(t), 1int, 0int,
{
    match t.elements {
        ElementData::Direct(i) => {
            lemma_list_size_frame(log, n1, n2, elems(n1[i as int]), i as int, elems(n1[i as int]).len() as int);
        },
        _ => {},
    }
}

proof fn lemma_list_size_frame(
    log: Seq<Record>,
    n1: Seq<DirectElementList>,
    n2: Seq<DirectElementList>,
    es: Seq<Element>,
    i: int,
    n: int,
)
    requires
        n1.len() <= n2.len(),
        forall|j: int| 0 <= j < n1.len() ==> n1[j] == n2[j],
        i < n1.len(),
    ensures
        list_size(log, n1, es, i, n) == list_size(log, n2, es, i, n),
    decreases i + 1, 0int, n,
{
    if n > 0 && i >= 0 {
        lemma_list_size_frame(log, n1, n2, es, i, n - 1);
        match es[n - 1] {
            Element::SubTrie(c) => {
                if direct_index(c) <= i {
                    lemma_draft_size_frame(log, n1, n2, c);
                }
            },
            _ => {},
        }
    }
}

/// Appending records leaves the counts of stored runs unchanged.
pub proof fn lemma_run_size_frame(log1: Seq<Record>, log2: Seq<Record>, top: int, len: nat)
    requires
        log1.len() <= log2.len(),
        forall|i: int| 0 <= i < log1.len() ==> log1[i] == log2[i],
        top + len <= log1.len(),
    ensures
        run_size(log1, top, len) == run_size(log2, top, len),
    decreases top + len,
{
    if len > 0 && top >= 0 {
        lemma_run_size_frame(log1, log2, top, (len - 1) as nat);
        let p = top + len - 1;
        if is_reference(log1[p].left) && reference_ok(log1[p], p) {
            lemma_run_size_frame(log1, log2, log1[p].left as int, pop_count(log1[p].right));
        }
    }
}

/// The elements copied from a stored node count in a draft what its records count in the log.
proof fn lemma_copied_size(
    log: Seq<Record>,
    nodes: Seq<DirectElementList>,
    i: int,
    top: int,
    map: u32,
    n: int,
)
    requires
        node_ok(log, top, map),
        0 <= i,
        0 <= n <= pop_count(map),
    ensures
        list_size(log, nodes, run_elements(log, top, map), i, n) == run_size(log, top, n as nat),
    decreases n,
{
    if n > 0 {
        lemma_copied_size(log, nodes, i, top, map, n - 1);
        let q = top + n - 1;
        assert(top <= q < run_end(top, map));
        lemma_list_size_step(log, nodes, run_elements(log, top, map), i, n);
        assert(run_elements(log, top, map)[n - 1] == parse_spec(log[q]));
        if is_reference(log[q].left) {
            assert(reference_ok(log[q], q));
            assert(run_end(log[q].left as int, log[q].right) <= log.len());
        }
    }
}

} // verus!
