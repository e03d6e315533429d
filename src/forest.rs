//! The forest: trie versions kept in one element stash, each named by the index of a root
//! record. Saving a new version writes only its unsaved nodes, children before parents, and
//! writes a node that is identical to one already written in the same save only once.
use vstd::prelude::*;
use crate::codec::{is_reference, u32_from_key, u32_from_stash_index, u32_is_stash_index, KEY_FLAG, MAX_KEY};
use crate::element_map::{lemma_rank_bounds, pop_below, pop_count, bit_set, ElementMap};
use crate::error::StoreError;
use crate::stash::{decode_records, encode_records, lemma_records_round_trip, ElementStash, ElementStoreIndex, Record, MAX_RECORDS};
use crate::trie::{
    absent, draft_size, records_upto, lemma_records_mono, path_len, lemma_run_size_frame, list_size, run_size, stored_size, direct_find, draft_wf, elems, found, lemma_root_find_frame, lemma_stored_find_frame,
    push_ok, reference_ok, replaces, root_find, root_ok, root_size, root_trie, run_end, stored_find,
    stored_top, trie_wf, Draft, DirectElementList, Element, ElementData, Found, Trie,
};

verus! {

/// The name of one saved trie version: the index of its root record in the stash.
#[derive(Debug, Clone, Copy, PartialEq, Eq, Structural)]
pub struct RootIndex(pub ElementStoreIndex);

impl RootIndex {
    /// The index of the root record.
    pub fn to_u32(&self) -> (r: u32)
        ensures
            r == self.0.0,
    {
        self.0.0
    }
}

impl From<u32> for RootIndex {
    fn from(value: u32) -> (r: Self) {
        RootIndex(ElementStoreIndex(value))
    }
}

impl vstd::std_specs::convert::FromSpecImpl<u32> for RootIndex {
    open spec fn obeys_from_spec() -> bool {
        true
    }

    open spec fn from_spec(v: u32) -> Self {
        RootIndex(ElementStoreIndex(v))
    }
}

/// The record that encodes element `e` of an unsaved node, given where the earlier unsaved
/// nodes were placed.
pub open spec fn encode_element(e: Element, placed: Seq<u32>) -> Record {
    match e {
        Element::KeyValue { key, value } => Record { left: (key + KEY_FLAG) as u32, right: value },
        Element::SubTrie(c) => Record {
            left: match c.elements {
                ElementData::Direct(j) => placed[j as int],
                ElementData::Indirect(t) => t.0,
            },
            right: c.map.0,
        },
    }
}

/// Node `j` of a draft, placed at `top`, holds in `log` what it held in the draft, and counts
/// as many pairs.
pub open spec fn placed_as(
    log0: Seq<Record>,
    log: Seq<Record>,
    nodes: Seq<DirectElementList>,
    j: usize,
    top: int,
) -> bool {
    &&& forall|m: u32, d: nat, k: u32|
        pop_count(m) == elems(nodes[j as int]).len() ==> #[trigger] stored_find(log, top, m, d, k)
            == direct_find(
            log0,
            nodes,
            Trie { map: ElementMap(m), elements: ElementData::Direct(j) },
            d,
            k,
        )
    &&& forall|m: u32|
        pop_count(m) == elems(nodes[j as int]).len() ==> #[trigger] stored_size(log, top, m)
            == draft_size(log0, nodes, Trie { map: ElementMap(m), elements: ElementData::Direct(j) })
}

/// The first `r` records of a placed run count what the first `r` elements of its node count.
proof fn lemma_place_size(
    log0: Seq<Record>,
    log: Seq<Record>,
    nodes: Seq<DirectElementList>,
    placed: Seq<u32>,
    i: usize,
    top: int,
    run: Seq<Record>,
    r: int,
)
    requires
        draft_wf(log0.len() as int, nodes),
        i < nodes.len(),
        extends(log0, log),
        run.len() == elems(nodes[i as int]).len(),
        forall|x: int|
            0 <= x < run.len() ==> #[trigger] run[x] == encode_element(elems(nodes[i as int])[x], placed),
        log0.len() <= top,
        top + run.len() <= log.len(),
        forall|x: int| 0 <= x < run.len() ==> #[trigger] log[top + x] == run[x],
        placed.len() == i,
        forall|j: int|
            0 <= j < i ==> #[trigger] placed[j] < MAX_RECORDS && log0.len() <= placed[j] && placed[j]
                + elems(nodes[j]).len() <= log.len() && placed_as(log0, log, nodes, j as usize, placed[j] as int),
        references_ok_from(log, log0.len() as int),
        0 <= r <= run.len(),
    ensures
        run_size(log, top, r as nat) == list_size(log0, nodes, elems(nodes[i as int]), i as int, r),
    decreases r,
{
    if r > 0 {
        lemma_place_size(log0, log, nodes, placed, i, top, run, r - 1);
        let p = top + r - 1;
        let e = elems(nodes[i as int])[r - 1];
        assert(log[p] == run[r - 1]);
        assert(crate::trie::element_wf(log0.len() as int, nodes, e, i as int));
        match e {
            Element::KeyValue { key, value } => {},
            Element::SubTrie(c) => {
                assert(is_reference(log[p].left));
                assert(reference_ok(log[p], p));
                match c.elements {
                    ElementData::Direct(j) => {
                        assert(placed_as(log0, log, nodes, j, placed[j as int] as int));
                        assert(c == Trie { map: ElementMap(c.map.0), elements: ElementData::Direct(j) });
                        assert(stored_size(log, placed[j as int] as int, c.map.0) == draft_size(log0, nodes, c));
                    },
                    ElementData::Indirect(t) => {
                        lemma_run_size_frame(log0, log, t.0 as int, pop_count(c.map.0));
                    },
                }
            },
        }
    }
}

/// `log` begins with `log0`.
pub open spec fn extends(log0: Seq<Record>, log: Seq<Record>) -> bool {
    log0.len() <= log.len() && forall|i: int| 0 <= i < log0.len() ==> #[trigger] log[i] == log0[i]
}

/// Every reference written after `start` names a node that lies before it.
pub open spec fn references_ok_from(log: Seq<Record>, start: int) -> bool {
    forall|p: int|
        start <= p < log.len() && is_reference(#[trigger] log[p].left) ==> reference_ok(log[p], p)
}

/// A node written in a save holds what its draft node held.
proof fn lemma_place_node(
    log0: Seq<Record>,
    log: Seq<Record>,
    nodes: Seq<DirectElementList>,
    placed: Seq<u32>,
    i: usize,
    top: int,
    run: Seq<Record>,
)
    requires
        draft_wf(log0.len() as int, nodes),
        i < nodes.len(),
        extends(log0, log),
        run.len() == elems(nodes[i as int]).len(),
        forall|r: int|
            0 <= r < run.len() ==> #[trigger] run[r] == encode_element(elems(nodes[i as int])[r], placed),
        log0.len() <= top,
        top + run.len() <= log.len(),
        forall|r: int| 0 <= r < run.len() ==> #[trigger] log[top + r] == run[r],
        placed.len() == i,
        forall|j: int|
            0 <= j < i ==> #[trigger] placed[j] < MAX_RECORDS && log0.len() <= placed[j] && placed[j]
                + elems(nodes[j]).len() <= log.len() && placed_as(log0, log, nodes, j as usize, placed[j] as int),
        references_ok_from(log, log0.len() as int),
    ensures
        placed_as(log0, log, nodes, i, top),
{
    assert forall|m: u32, d: nat, k: u32| pop_count(m) == elems(nodes[i as int]).len() implies #[trigger] stored_find(
        log,
        top,
        m,
        d,
        k,
    ) == direct_find(
        log0,
        nodes,
        Trie { map: ElementMap(m), elements: ElementData::Direct(i) },
        d,
        k,
    ) by {
        crate::codec::lemma_shard_lt(k, d);
        let s = crate::codec::key_shard(k, d);
        if bit_set(m, s) {
            lemma_rank_bounds(m, s, 0);
            let rank = pop_below(m, s as nat) as int;
            let p = top + rank;
            let e = elems(nodes[i as int])[rank];
            assert(log[p] == run[rank]);
            assert(crate::trie::element_wf(log0.len() as int, nodes, e, i as int));
            match e {
                Element::KeyValue { key, value } => {
                    assert(((key + KEY_FLAG) as u32) % 0x8000_0000 == key);
                },
                Element::SubTrie(c) => {
                    assert(is_reference(log[p].left));
                    assert(reference_ok(log[p], p));
                    match c.elements {
                        ElementData::Direct(j) => {
                            assert(j < i);
                            assert(placed_as(log0, log, nodes, j, placed[j as int] as int));
                            assert(c == Trie { map: ElementMap(c.map.0), elements: ElementData::Direct(j) });
                            assert(pop_count(c.map.0) == elems(nodes[j as int]).len());
                            assert(log[p].left == placed[j as int]);
                            assert(stored_find(log, placed[j as int] as int, c.map.0, d + 1, k) == direct_find(log0, nodes, c, d + 1, k));
                            assert(stored_find(log, top, m, d, k) == stored_find(log, placed[j as int] as int, c.map.0, d + 1, k));
                            assert(direct_find(log0, nodes, Trie { map: ElementMap(m), elements: ElementData::Direct(i) }, d, k) == direct_find(log0, nodes, c, d + 1, k));
                        },
                        ElementData::Indirect(t) => {
                            lemma_stored_find_frame(log0, log, t.0 as int, c.map.0, d + 1, k);
                        },
                    }
                },
            }
        }
    }
    lemma_place_size(log0, log, nodes, placed, i, top, run, run.len() as int);
}

/// The records of unsaved node `x`, given where the earlier unsaved nodes were placed.
pub open spec fn encoded(nodes: Seq<DirectElementList>, x: int, placed: Seq<u32>) -> Seq<Record> {
    Seq::new(elems(nodes[x]).len(), |r: int| encode_element(elems(nodes[x])[r], placed))
}

/// Two unsaved nodes of a draft, the later one not empty, hold the same elements.
pub open spec fn has_duplicate(nodes: Seq<DirectElementList>) -> bool {
    exists|a: int, b: int|
        0 <= a < b < nodes.len() && #[trigger] elems(nodes[a]) == #[trigger] elems(nodes[b]) && elems(
            nodes[b],
        ).len() > 0
}

/// The records of a node do not change as later nodes are placed.
proof fn lemma_encoded_stable(
    log_len: int,
    nodes: Seq<DirectElementList>,
    x: int,
    p1: Seq<u32>,
    p2: Seq<u32>,
)
    requires
        draft_wf(log_len, nodes),
        0 <= x < nodes.len(),
        x <= p1.len() <= p2.len(),
        forall|j: int| 0 <= j < p1.len() ==> p1[j] == p2[j],
    ensures
        encoded(nodes, x, p1) == encoded(nodes, x, p2),
{
    assert forall|r: int| 0 <= r < elems(nodes[x]).len() implies encode_element(elems(nodes[x])[r], p1)
        == encode_element(elems(nodes[x])[r], p2) by {
        assert(crate::trie::element_wf(log_len, nodes, elems(nodes[x])[r], x));
    }
    assert(encoded(nodes, x, p1) =~= encoded(nodes, x, p2));
}

/// The first field of the root record of a saved draft: where its root node was placed.
pub open spec fn root_field(root: Trie, placed: Seq<u32>) -> u32 {
    match root.elements {
        ElementData::Direct(j) => placed[j as int],
        ElementData::Indirect(t) => t.0,
    }
}

/// The unsaved nodes of a draft stand in `log` at `placed`, after `log0` and before `end`: the
/// records of each node are its elements encoded (a pair with its key flagged, a child as the
/// start of its run and its bitmap), and nodes with the same records share one place.
pub open spec fn saved_at(
    log0: Seq<Record>,
    log: Seq<Record>,
    nodes: Seq<DirectElementList>,
    placed: Seq<u32>,
    end: int,
) -> bool {
    &&& placed.len() == nodes.len()
    &&& forall|j: int|
        0 <= j < nodes.len() ==> log0.len() <= #[trigger] placed[j] && placed[j] + elems(nodes[j]).len()
            <= end
    &&& forall|j: int, r: int|
        0 <= j < nodes.len() && 0 <= r < elems(nodes[j]).len() ==> #[trigger] log[placed[j] + r]
            == encode_element(elems(nodes[j])[r], placed)
    &&& forall|a: int, b: int|
        0 <= a < nodes.len() && 0 <= b < nodes.len() && #[trigger] encoded(nodes, a, placed)
            == #[trigger] encoded(nodes, b, placed) ==> placed[a] == placed[b]
}

/// Record `q` lies in the run of one of the placed nodes.
pub open spec fn in_some_run(nodes: Seq<DirectElementList>, placed: Seq<u32>, q: int) -> bool {
    exists|j: int, r: int|
        0 <= j < nodes.len() && 0 <= r < elems(nodes[j]).len() && q == #[trigger] (placed[j] + r)
}

/// The log between `log0` and `end` holds nothing but the runs of the placed nodes, and two
/// runs either are one and the same or do not overlap: one run per distinct node.
pub open spec fn only_runs(
    log0: Seq<Record>,
    nodes: Seq<DirectElementList>,
    placed: Seq<u32>,
    end: int,
) -> bool {
    &&& forall|q: int| log0.len() <= q < end ==> #[trigger] in_some_run(nodes, placed, q)
    &&& forall|a: int, b: int|
        0 <= a < nodes.len() && 0 <= b < nodes.len() ==> #[trigger] placed[a] == #[trigger] placed[b]
            && elems(nodes[a]).len() == elems(nodes[b]).len() || placed[a] + elems(nodes[a]).len()
            <= placed[b] || placed[b] + elems(nodes[b]).len() <= placed[a]
}

/// Whether two runs of records are equal.
fn same_run(a: &Vec<Record>, b: &Vec<Record>) -> (r: bool)
    ensures
        r == (a@ == b@),
{
    if a.len() != b.len() {
        return false;
    }
    let mut i: usize = 0;
    while i < a.len()
        invariant
            a@.len() == b@.len(),
            i <= a@.len(),
            forall|j: int| 0 <= j < i ==> a@[j] == b@[j],
        decreases a@.len() - i,
    {
        if a[i] != b[i] {
            return false;
        }
        i = i + 1;
    }
    assert(a@ =~= b@);
    true
}

/// The position of a run equal to `run` among `runs`.
fn find_run(runs: &Vec<Vec<Record>>, run: &Vec<Record>) -> (r: Option<usize>)
    ensures
        match r {
            Some(w) => w < runs@.len() && runs@[w as int]@ == run@,
            None => forall|w: int| 0 <= w < runs@.len() ==> #[trigger] runs@[w]@ != run@,
        },
{
    let mut w: usize = 0;
    while w < runs.len()
        invariant
            w <= runs@.len(),
            forall|v: int| 0 <= v < w ==> #[trigger] runs@[v]@ != run@,
        decreases runs@.len() - w,
    {
        if same_run(&runs[w], run) {
            return Some(w);
        }
        w = w + 1;
    }
    None
}

/// A key-value forest with 32-bit keys: every version it saved stays readable by its root.
pub struct KvForest {
    element_stash: ElementStash,
}

impl View for KvForest {
    type V = Seq<Record>;

    closed spec fn view(&self) -> Seq<Record> {
        self.element_stash@
    }
}

/// `log1` and its root `r1` are what saving the version of root `r0` of `log0` in which `key`
/// maps to `value` gave: the log grew at its end, the new root maps `key` to `value` and every
/// other key as `r0` did, every root of `log0` finds what it found before, and the new root
/// counts one pair more than `r0` where `r0` held nothing for `key`, else as many.
pub open spec fn pushed(
    log0: Seq<Record>,
    r0: int,
    key: u32,
    value: u32,
    log1: Seq<Record>,
    r1: int,
) -> bool {
    &&& key <= MAX_KEY
    &&& root_ok(log0, r0)
    &&& extends(log0, log1)
    &&& log0.len() <= r1
    &&& root_ok(log1, r1)
    &&& forall|k: u32| #[trigger]
        root_find(log1, r1, k) == if k == key {
            found(value)
        } else {
            root_find(log0, r0, k)
        }
    &&& forall|i: int, k: u32|
        0 <= i < log0.len() ==> #[trigger] root_find(log1, i, k) == root_find(log0, i, k)
    &&& root_size(log0, r0) is Some ==> root_size(log1, r1) == Some(
        root_size(log0, r0).unwrap() + if root_find(log0, r0, key) == absent() {
            1nat
        } else {
            0nat
        },
    )
}

/// Of two saves of the same key, the later value wins; all other keys read as before both.
pub proof fn lemma_last_write_wins(
    log0: Seq<Record>,
    r0: int,
    log1: Seq<Record>,
    r1: int,
    log2: Seq<Record>,
    r2: int,
    key: u32,
    v1: u32,
    v2: u32,
)
    requires
        pushed(log0, r0, key, v1, log1, r1),
        pushed(log1, r1, key, v2, log2, r2),
    ensures
        root_find(log2, r2, key) == found(v2),
        forall|k: u32| k != key ==> #[trigger] root_find(log2, r2, k) == root_find(log0, r0, k),
        forall|k: u32| #[trigger] root_find(log0, r0, k) == root_find(log2, r0, k),
        root_size(log1, r1) is Some ==> root_size(log2, r2) == root_size(log1, r1),
{
    assert forall|k: u32| k != key implies #[trigger] root_find(log2, r2, k) == root_find(log0, r0, k) by {
        assert(root_find(log2, r2, k) == root_find(log1, r1, k));
        assert(root_find(log1, r1, k) == root_find(log0, r0, k));
    }
    assert forall|k: u32| #[trigger] root_find(log0, r0, k) == root_find(log2, r0, k) by {
        assert(root_find(log1, r0, k) == root_find(log0, r0, k));
        assert(root_find(log2, r0, k) == root_find(log1, r0, k));
    }
}

/// Along a chain of saves that starts at the empty root, each version counts as many pairs
/// as distinct keys were saved along the chain up to it, and finds a value exactly for those
/// keys.
pub proof fn lemma_size_counts_distinct_keys(
    logs: Seq<Seq<Record>>,
    roots: Seq<int>,
    keys: Seq<u32>,
    values: Seq<u32>,
)
    requires
        logs.len() == keys.len() + 1,
        roots.len() == keys.len() + 1,
        values.len() == keys.len(),
        root_size(logs[0], roots[0]) == Some(0nat),
        forall|k: u32| #[trigger] root_find(logs[0], roots[0], k) == absent(),
        forall|i: int|
            0 <= i < keys.len() ==> #[trigger] pushed(
                logs[i],
                roots[i],
                keys[i],
                values[i],
                logs[i + 1],
                roots[i + 1],
            ),
    ensures
        root_size(logs.last(), roots.last()) == Some(keys.to_set().len()),
        forall|k: u32| #[trigger] root_find(logs.last(), roots.last(), k) == absent() <==> !keys.contains(k),
        forall|k: u32| #[trigger]
            root_find(logs.last(), roots.last(), k) == match last_value(keys, values, k) {
                Some(v) => found(v),
                None => absent(),
            },
    decreases keys.len(),
{
    broadcast use vstd::seq_lib::seq_to_set_is_finite;
    broadcast use vstd::set::axiom_set_insert_len;

    let n = keys.len() as int;
    if n == 0 {
        assert(keys.to_set() =~= Set::<u32>::empty());
    } else {
        let ks = keys.drop_last();
        lemma_size_counts_distinct_keys(logs.drop_last(), roots.drop_last(), ks, values.drop_last());
        assert(pushed(logs[n - 1], roots[n - 1], keys[n - 1], values[n - 1], logs[n], roots[n]));
        assert(keys == ks.push(keys[n - 1]));
        ks.lemma_push_to_set_commute(keys[n - 1]);
        assert(ks.contains(keys[n - 1]) == ks.to_set().contains(keys[n - 1]));
        assert forall|k: u32| #[trigger] root_find(logs[n], roots[n], k) == absent() <==> !keys.contains(k) by {
            assert(keys.contains(k) <==> (ks.contains(k) || k == keys[n - 1])) by {
                if keys.contains(k) {
                    let x = choose|x: int| 0 <= x < keys.len() && keys[x] == k;
                    if x < n - 1 {
                        assert(ks[x] == k);
                    }
                }
                if ks.contains(k) {
                    let x = choose|x: int| 0 <= x < ks.len() && ks[x] == k;
                    assert(keys[x] == k);
                }
            }
            assert(root_find(logs.drop_last().last(), roots.drop_last().last(), k) == root_find(logs[n - 1], roots[n - 1], k));
        }
        assert forall|k: u32| #[trigger]
            root_find(logs[n], roots[n], k) == match last_value(keys, values, k) {
                Some(v) => found(v),
                None => absent(),
            } by {
            assert(root_find(logs.drop_last().last(), roots.drop_last().last(), k) == root_find(logs[n - 1], roots[n - 1], k));
            assert(keys.drop_last() == ks);
        }
        assert(root_find(logs[n - 1], roots[n - 1], keys[n - 1]) == absent() <==> !ks.contains(keys[n - 1]));
    }
}

/// The bytes of the stash of a well-formed forest pass every check of `open`, and decode to
/// the same records.
pub proof fn lemma_reopen_succeeds(log: Seq<Record>)
    requires
        1 <= log.len() <= MAX_RECORDS,
        log[0] == empty_root(),
        references_ok_from(log, 0),
    ensures
        encode_records(log).len() % 8 == 0,
        encode_records(log).len() >= 8,
        encode_records(log).len() / 8 <= MAX_RECORDS,
        decode_records(encode_records(log)) == log,
{
    let b = encode_records(log);
    assert(b.len() % 8 == 0 && b.len() / 8 == log.len() && b.len() >= 8) by (nonlinear_arith)
        requires
            b.len() == log.len() * 8,
            log.len() >= 1,
    ;
    lemma_records_round_trip(log);
}

/// The value that the last save of `k` along a chain of saves gave it.
pub open spec fn last_value(keys: Seq<u32>, values: Seq<u32>, k: u32) -> Option<u32>
    decreases keys.len(),
{
    if keys.len() == 0 {
        None
    } else if keys.last() == k {
        Some(values[keys.len() - 1])
    } else {
        last_value(keys.drop_last(), values.drop_last(), k)
    }
}

/// Reopening a forest from the bytes of its stash file gives back every version: every root
/// finds what it found before for every key, and counts the same number of pairs.
pub proof fn lemma_reopen_round_trip(log: Seq<Record>, index: int, key: u32)
    ensures
        root_find(decode_records(encode_records(log)), index, key) == root_find(log, index, key),
        root_size(decode_records(encode_records(log)), index) == root_size(log, index),
{
    lemma_records_round_trip(log);
}

/// In a log whose every reference names a node before it, every stored node whose run the
/// log holds decodes along the path of any key.
pub proof fn lemma_push_ok(log: Seq<Record>, top: int, map: u32, depth: nat, key: u32)
    requires
        references_ok_from(log, 0),
        0 <= top,
        run_end(top, map) <= log.len(),
    ensures
        push_ok(log, top, map, depth, key),
    decreases run_end(top, map),
{
    crate::codec::lemma_shard_lt(key, depth);
    let s = crate::codec::key_shard(key, depth);
    let p = top + pop_below(map, s as nat);
    if bit_set(map, s) && 0 <= p < log.len() && is_reference(log[p].left) && reference_ok(log[p], p) {
        lemma_rank_bounds(map, s, 0);
        lemma_push_ok(log, log[p].left as int, log[p].right, depth + 1, key);
    }
}

/// The sentinel that the first record of every forest holds: the root of the empty trie.
pub open spec fn empty_root() -> Record {
    Record { left: 0, right: 0 }
}

impl KvForest {
    /// The stash can address all its records, its first record is the empty root, and every
    /// reference in it names a node that lies before it.
    pub open spec fn wf(&self) -> bool {
        &&& self@.len() <= MAX_RECORDS
        &&& self@.len() >= 1
        &&& self@[0] == empty_root()
        &&& references_ok_from(self@, 0)
    }

    /// A new forest: a stash that holds only the empty root.
    pub fn create() -> (r: Self)
        ensures
            r.wf(),
            r@ == seq![empty_root()],
    {
        let mut element_stash = ElementStash::new();
        let mut first: Vec<Record> = Vec::new();
        first.push(Record { left: 0, right: 0 });
        let _ = element_stash.append(first.as_slice());
        assert(element_stash@ =~= seq![empty_root()]);
        proof {
            crate::element_map::lemma_pop_zero(32);
        }
        KvForest { element_stash }
    }

    /// The forest whose stash file holds `bytes`.
    pub fn open(bytes: &[u8]) -> (r: Result<Self, StoreError>)
        ensures
            match r {
                Ok(f) => f.wf() && bytes@.len() % 8 == 0 && f@ == decode_records(bytes@),
                Err(e) => e == StoreError::Full && bytes@.len() % 8 == 0 && bytes@.len() / 8 > MAX_RECORDS
                    || e == StoreError::Corrupt && (bytes@.len() % 8 != 0 || bytes@.len() / 8
                    <= MAX_RECORDS && (bytes@.len() < 8 || decode_records(bytes@)[0] != empty_root()
                    || !references_ok_from(decode_records(bytes@), 0))),
            },
    {
        let element_stash = ElementStash::from_bytes(bytes)?;
        if element_stash.len() == 0 {
            return Err(StoreError::Corrupt);
        }
        let first = element_stash.read(ElementStoreIndex(0))?;
        if first.left != 0 || first.right != 0 {
            return Err(StoreError::Corrupt);
        }
        let n = element_stash.len();
        let mut p: usize = 0;
        while p < n
            invariant
                n == element_stash@.len(),
                element_stash.wf(),
                element_stash@ == decode_records(bytes@),
                bytes@.len() % 8 == 0,
                n >= 1,
                element_stash@[0] == empty_root(),
                p <= n,
                forall|q: int|
                    0 <= q < p && is_reference(#[trigger] element_stash@[q].left) ==> reference_ok(
                        element_stash@[q],
                        q,
                    ),
            decreases n - p,
        {
            let rec = element_stash.read(ElementStoreIndex(p as u32))?;
            if u32_is_stash_index(rec.left) {
                let m = ElementMap(rec.right);
                if rec.left as u64 + m.len() as u64 > p as u64 {
                    assert(is_reference(element_stash@[p as int].left) && !reference_ok(
                        element_stash@[p as int],
                        p as int,
                    ));
                    return Err(StoreError::Corrupt);
                }
            }
            p = p + 1;
        }
        Ok(KvForest { element_stash })
    }

    /// The stash of this forest, to be persisted.
    pub fn stash(&self) -> (r: &ElementStash)
        ensures
            r@ == self@,
            self.wf() ==> r.wf(),
    {
        &self.element_stash
    }

    /// The root of the empty trie.
    pub fn add_root(&mut self) -> (r: Result<RootIndex, StoreError>)
        requires
            old(self).wf(),
        ensures
            final(self).wf(),
            final(self)@ == old(self)@,
            r == Ok::<RootIndex, StoreError>(RootIndex(ElementStoreIndex(0))),
            forall|k: u32| #[trigger] root_find(final(self)@, 0, k) == Ok::<Option<u32>, StoreError>(None),
    {
        proof {
            assert forall|k: u32| #[trigger] root_find(self@, 0, k) == Ok::<Option<u32>, StoreError>(None) by {
                crate::codec::lemma_shard_lt(k, 0);
                crate::element_map::lemma_empty_map(crate::codec::key_shard(k, 0));
                crate::element_map::lemma_pop_zero(32);
            }
        }
        Ok(RootIndex(ElementStoreIndex(0)))
    }

    /// The stored root node of the version named `root_index`.
    pub fn trie(&self, root_index: RootIndex) -> (r: Result<Trie, StoreError>)
        ensures
            match r {
                Ok(t) => root_ok(self@, root_index.0.0 as int) && t == (Trie {
                    map: ElementMap(self@[root_index.0.0 as int].right),
                    elements: ElementData::Indirect(ElementStoreIndex(self@[root_index.0.0 as int].left)),
                }),
                Err(e) => e == StoreError::Corrupt && !root_ok(self@, root_index.0.0 as int),
            },
    {
        root_trie(&self.element_stash, root_index.0)
    }

    /// What the version named `root_index` holds for `search_key`.
    pub fn find(&self, root_index: RootIndex, search_key: &u32) -> (r: Found)
        requires
            self.wf(),
        ensures
            r == root_find(self@, root_index.0.0 as int, *search_key),
    {
        let trie = self.trie(root_index)?;
        proof {
            crate::element_map::lemma_pop_le(trie.map.0, 32);
        }
        let top = match trie.elements {
            ElementData::Indirect(top) => top,
            ElementData::Direct(_) => ElementStoreIndex(0),
        };
        crate::trie::find_stored(&self.element_stash, top, trie.map, *search_key)
    }
    /// The number of key-value pairs of the version named `root_index`.
    pub fn size(&self, root_index: RootIndex) -> (r: Result<usize, StoreError>)
        requires
            self.wf(),
        ensures
            match r {
                Ok(n) => root_size(self@, root_index.0.0 as int) == Some(n as nat),
                Err(e) => e == StoreError::Corrupt && root_size(self@, root_index.0.0 as int) is None
                    || e == StoreError::Full && root_size(self@, root_index.0.0 as int) is Some
                    && root_size(self@, root_index.0.0 as int).unwrap() > usize::MAX,
            },
    {
        let trie = self.trie(root_index)?;
        trie.size(&self.element_stash)
    }

    /// Writes the unsaved nodes of `draft`, children before parents, then its root record;
    /// returns the index of the root record. A node whose records equal those of a node
    /// already written in this save is not written again: the earlier run is shared. Where the
    /// stash could not hold the draft without sharing, nothing is written.
    pub fn save(&mut self, draft: &Draft) -> (r: Result<ElementStoreIndex, StoreError>)
        requires
            old(self).wf(),
            draft_wf(old(self)@.len() as int, draft.nodes@),
            trie_wf(old(self)@.len() as int, draft.nodes@, draft.root, draft.nodes@.len() as int),
        ensures
            final(self).wf(),
            match r {
                Ok(idx) => extends(old(self)@, final(self)@) && old(self)@.len() <= idx.0 && root_ok(
                    final(self)@,
                    idx.0 as int,
                ) && references_ok_from(final(self)@, old(self)@.len() as int) && (forall|k: u32| #[trigger]
                    root_find(final(self)@, idx.0 as int, k) == direct_find(
                        old(self)@,
                        draft.nodes@,
                        draft.root,
                        0,
                        k,
                    )) && root_size(final(self)@, idx.0 as int) == draft_size(old(self)@, draft.nodes@, draft.root)
                    && final(self)@.len() == idx.0 + 1 && (exists|placed: Seq<u32>|
                    #[trigger] saved_at(old(self)@, final(self)@, draft.nodes@, placed, idx.0 as int)
                        && only_runs(old(self)@, draft.nodes@, placed, idx.0 as int)
                        && final(self)@[idx.0 as int] == (Record {
                        left: root_field(draft.root, placed),
                        right: draft.root.map.0,
                    })) && final(self)@.len() <= old(self)@.len() + records_upto(
                    draft.nodes@,
                    draft.nodes@.len() as int,
                ) + 1 && (has_duplicate(draft.nodes@) ==> final(self)@.len() < old(self)@.len()
                    + records_upto(draft.nodes@, draft.nodes@.len() as int) + 1),
                Err(e) => e == StoreError::Full && final(self)@ == old(self)@ && old(self)@.len()
                    + records_upto(draft.nodes@, draft.nodes@.len() as int) + 1 > MAX_RECORDS,
            },
    {
        let ghost log0 = self@;
        let ghost nodes = draft.nodes@;
        let l0 = self.element_stash.len();
        let n = draft.nodes.len();
        proof {
            lemma_records_mono(nodes, 0, n as int);
        }
        if l0 >= MAX_RECORDS {
            return Err(StoreError::Full);
        }
        let mut total: usize = 0;
        let mut i: usize = 0;
        while i < n
            invariant
                n == nodes.len(),
                nodes == draft.nodes@,
                l0 == log0.len(),
                log0 == self@,
                self.wf(),
                i <= n,
                total == records_upto(nodes, i as int),
                l0 + total + 1 <= MAX_RECORDS,
            decreases n - i,
        {
            let len = draft.nodes[i].0.len();
            if len > MAX_RECORDS - 1 - l0 - total {
                proof {
                    lemma_records_mono(nodes, i + 1, n as int);
                }
                return Err(StoreError::Full);
            }
            total = total + len;
            i = i + 1;
        }
        let mut placed: Vec<u32> = Vec::new();
        let mut runs: Vec<Vec<Record>> = Vec::new();
        let mut tops: Vec<u32> = Vec::new();
        let ghost mut saved: int = 0;
        let ghost mut slot_of: Seq<int> = Seq::empty();
        let ghost mut owner: Seq<int> = Seq::empty();
        let ghost mut cover: Seq<(int, int)> = Seq::empty();
        i = 0;
        while i < n
            invariant
                n == nodes.len(),
                nodes == draft.nodes@,
                l0 == log0.len(),
                draft_wf(l0 as int, nodes),
                self.wf(),
                i <= n,
                extends(log0, self@),
                self@.len() + saved == l0 + records_upto(nodes, i as int),
                0 <= saved,
                slot_of.len() == i,
                forall|x: int| 0 <= x < i ==> #[trigger] placed@[x] == tops@[slot_of[x]],
                owner.len() == runs@.len(),
                forall|w: int|
                    0 <= w < runs@.len() ==> 0 <= #[trigger] owner[w] < i && slot_of[owner[w]] == w,
                cover.len() == self@.len() - l0,
                forall|q: int|
                    l0 <= q < self@.len() ==> 0 <= (#[trigger] cover[q - l0]).0 < i && 0 <= cover[q - l0].1
                        < elems(nodes[cover[q - l0].0]).len() && q == placed@[cover[q - l0].0] + cover[q
                        - l0].1,
                forall|a: int, b: int|
                    0 <= a < i && 0 <= b < i ==> #[trigger] placed@[a] == #[trigger] placed@[b] && elems(
                        nodes[a],
                    ).len() == elems(nodes[b]).len() || placed@[a] + elems(nodes[a]).len() <= placed@[b]
                        || placed@[b] + elems(nodes[b]).len() <= placed@[a],
                forall|w1: int, w2: int|
                    0 <= w1 < w2 < runs@.len() ==> #[trigger] runs@[w1]@ != #[trigger] runs@[w2]@,
                forall|x: int|
                    0 <= x < i ==> 0 <= #[trigger] slot_of[x] < runs@.len() && runs@[slot_of[x]]@ == encoded(
                        nodes,
                        x,
                        placed@,
                    ),
                (exists|a: int, b: int|
                    0 <= a < b < i && #[trigger] elems(nodes[a]) == #[trigger] elems(nodes[b]) && elems(
                        nodes[b],
                    ).len() > 0) ==> saved > 0,
                l0 + records_upto(nodes, n as int) + 1 <= MAX_RECORDS,
                placed@.len() == i,
                forall|j: int|
                    0 <= j < i ==> #[trigger] placed@[j] < MAX_RECORDS && log0.len() <= placed@[j]
                        && placed@[j] + elems(nodes[j]).len() <= self@.len() && placed_as(
                        log0,
                        self@,
                        nodes,
                        j as usize,
                        placed@[j] as int,
                    ),
                references_ok_from(self@, l0 as int),
                runs@.len() == tops@.len(),
                forall|w: int|
                    0 <= w < runs@.len() ==> #[trigger] tops@[w] >= l0 && tops@[w] + runs@[w]@.len()
                        <= self@.len() && forall|r: int|
                        0 <= r < runs@[w]@.len() ==> self@[tops@[w] + r] == #[trigger] runs@[w]@[r],
            decreases n - i,
        {
            let ghost log_before = self@;
            let node = &draft.nodes[i];
            let mut run: Vec<Record> = Vec::new();
            let mut r: usize = 0;
            while r < node.0.len()
                invariant
                    i < n,
                    n == nodes.len(),
                    *node == nodes[i as int],
                    draft_wf(l0 as int, nodes),
                    placed@.len() == i,
                    r <= elems(*node).len(),
                    run@.len() == r,
                    forall|j: int|
                        0 <= j < r ==> #[trigger] run@[j] == encode_element(elems(*node)[j], placed@),
                    forall|j: int| 0 <= j < i ==> #[trigger] placed@[j] < MAX_RECORDS,
                decreases elems(*node).len() - r,
            {
                let e = node.0[r];
                assert(crate::trie::element_wf(l0 as int, nodes, e, i as int));
                let rec = match e {
                    Element::KeyValue { key, value } => Record { left: u32_from_key(key), right: value },
                    Element::SubTrie(c) => match c.elements {
                        ElementData::Direct(j) => Record { left: placed[j], right: c.map.0 },
                        ElementData::Indirect(t) => Record { left: u32_from_stash_index(t.0), right: c.map.0 },
                    },
                };
                run.push(rec);
                r = r + 1;
            }
            assert(run@ =~= encoded(nodes, i as int, placed@));
            let ghost runs_before = runs@;
            let ghost tops_before = tops@;
            let ghost cover_before = cover;
            let ghost owner_before = owner;
            let ghost log_mid = self@;
            let ghost saved_before = saved;
            let top: u32;
            let ghost mut dedup_w: int = -1;
            match find_run(&runs, &run) {
                Some(w) => {
                    top = tops[w];
                    proof {
                        dedup_w = w as int;
                        saved = saved + run@.len();
                        slot_of = slot_of.push(w as int);
                    }
                    proof {
                        assert forall|x: int| 0 <= x < run@.len() implies #[trigger] self@[top + x] == run@[x] by {
                            assert(self@[tops@[w as int] + x] == runs@[w as int]@[x]);
                        }
                        lemma_place_node(log0, self@, nodes, placed@, i, top as int, run@);
                    }
                },
                None => {
                    proof {
                        lemma_records_mono(nodes, i + 1, n as int);
                        assert forall|a: int| 0 <= a < i && #[trigger] elems(nodes[a]) == elems(nodes[i as int]) implies false by {
                            let w = slot_of[a];
                            assert(encoded(nodes, a, placed@) =~= encoded(nodes, i as int, placed@));
                            assert(runs@[w]@ != run@);
                        }
                    }
                    let appended = self.element_stash.append(run.as_slice());
                    match appended {
                        Ok(t) => {
                            top = t.0;
                        },
                        Err(_) => {
                            proof {
                                assert(false);
                            }
                            return Err(StoreError::Full);
                        },
                    }
                    proof {
                        assert forall|x: int| 0 <= x < run@.len() implies #[trigger] self@[top + x] == run@[x] by {}
                        assert forall|p: int|
                            l0 <= p < self@.len() && is_reference(#[trigger] self@[p].left) implies reference_ok(
                            self@[p],
                            p,
                        ) by {
                            if p >= log_before.len() {
                                let x = p - top;
                                assert(self@[p] == run@[x]);
                                let e = elems(nodes[i as int])[x];
                                assert(crate::trie::element_wf(l0 as int, nodes, e, i as int));
                            } else {
                                assert(self@[p] == log_before[p]);
                            }
                        }
                        assert forall|j: int| 0 <= j < i implies #[trigger] placed_as(
                            log0,
                            self@,
                            nodes,
                            j as usize,
                            placed@[j] as int,
                        ) by {
                            assert(placed_as(log0, log_before, nodes, j as usize, placed@[j] as int));
                            assert forall|m: u32, d: nat, k: u32|
                                pop_count(m) == elems(nodes[j]).len() implies #[trigger] stored_find(
                                self@,
                                placed@[j] as int,
                                m,
                                d,
                                k,
                            ) == direct_find(
                                log0,
                                nodes,
                                Trie { map: ElementMap(m), elements: ElementData::Direct(j as usize) },
                                d,
                                k,
                            ) by {
                                lemma_stored_find_frame(log_before, self@, placed@[j] as int, m, d, k);
                            }
                            assert forall|m: u32| pop_count(m) == elems(nodes[j]).len() implies #[trigger] stored_size(
                                self@,
                                placed@[j] as int,
                                m,
                            ) == draft_size(
                                log0,
                                nodes,
                                Trie { map: ElementMap(m), elements: ElementData::Direct(j as usize) },
                            ) by {
                                assert(placed@[j] + elems(nodes[j]).len() <= log_before.len());
                                lemma_run_size_frame(log_before, self@, placed@[j] as int, pop_count(m));
                                assert(stored_size(log_before, placed@[j] as int, m) == draft_size(
                                    log0,
                                    nodes,
                                    Trie { map: ElementMap(m), elements: ElementData::Direct(j as usize) },
                                ));
                            }
                        }
                        lemma_place_node(log0, self@, nodes, placed@, i, top as int, run@);
                    }
                    let ghost run_v = run@;
                    runs.push(run);
                    tops.push(top);
                    proof {
                        slot_of = slot_of.push(runs@.len() - 1);
                        owner = owner.push(i as int);
                        cover = cover + Seq::new(run_v.len(), |r: int| (i as int, r));
                    }
                    proof {
                        assert forall|w: int| 0 <= w < runs@.len() implies #[trigger] tops@[w] >= l0 && tops@[w]
                            + runs@[w]@.len() <= self@.len() && forall|r: int|
                            0 <= r < runs@[w]@.len() ==> self@[tops@[w] + r] == #[trigger] runs@[w]@[r] by {
                            if w < runs@.len() - 1 {
                                assert forall|r: int| 0 <= r < runs@[w]@.len() implies self@[tops@[w] + r]
                                    == #[trigger] runs@[w]@[r] by {
                                    assert(log_before[tops@[w] + r] == runs@[w]@[r]);
                                }
                            } else {
                                assert(runs@[w]@ == run_v);
                            }
                        }
                    }
                },
            }
            proof {
                lemma_records_mono(nodes, i + 1, n as int);
                assert(placed_as(log0, self@, nodes, i, top as int));
            }
            let ghost placed_before = placed@;
            placed.push(top);
            proof {
                assert((exists|a: int, b: int|
                    0 <= a < b < i + 1 && #[trigger] elems(nodes[a]) == #[trigger] elems(nodes[b]) && elems(
                        nodes[b],
                    ).len() > 0) ==> saved > 0) by {
                    if exists|a: int, b: int|
                        0 <= a < b < i + 1 && #[trigger] elems(nodes[a]) == #[trigger] elems(nodes[b]) && elems(
                            nodes[b],
                        ).len() > 0 {
                        let (a, b) = choose|a: int, b: int|
                            0 <= a < b < i + 1 && #[trigger] elems(nodes[a]) == #[trigger] elems(nodes[b]) && elems(
                                nodes[b],
                            ).len() > 0;
                        if b < i {
                            assert(saved_before > 0);
                        }
                    }
                }
                assert forall|j: int| 0 <= j < i + 1 implies #[trigger] placed@[j] < MAX_RECORDS && log0.len()
                    <= placed@[j] && placed@[j] + elems(nodes[j]).len() <= self@.len() && placed_as(
                    log0,
                    self@,
                    nodes,
                    j as usize,
                    placed@[j] as int,
                ) by {
                    if j < i {
                        assert(placed@[j] == placed_before[j]);
                    }
                }
            }
            let ghost i0 = i;
            i = i + 1;
            proof {
                let len_i = elems(nodes[i0 as int]).len();
                assert(run@.len() == len_i);
                if dedup_w >= 0 {
                    let x = owner_before[dedup_w];
                    assert(slot_of[x] == dedup_w);
                    assert(placed@[x] == placed_before[x]);
                    assert(placed_before[x] == tops_before[slot_of[x]]);
                    assert(runs@[dedup_w]@ == encoded(nodes, x, placed_before));
                    assert(placed@[i0 as int] == placed@[x]);
                    assert(elems(nodes[x]).len() == len_i);
                }
                assert forall|w: int| 0 <= w < runs@.len() implies 0 <= #[trigger] owner[w] < i && slot_of[owner[w]]
                    == w by {
                    if w < runs_before.len() {
                        assert(owner[w] == owner_before[w]);
                    }
                }
                assert forall|q: int|
                    l0 <= q < self@.len() implies 0 <= (#[trigger] cover[q - l0]).0 < i && 0 <= cover[q
                    - l0].1 < elems(nodes[cover[q - l0].0]).len() && q == placed@[cover[q - l0].0] + cover[q
                    - l0].1 by {
                    if q < log_before.len() {
                        assert(cover[q - l0] == cover_before[q - l0]);
                        assert(placed@[cover[q - l0].0] == placed_before[cover[q - l0].0]);
                    } else {
                        assert(cover[q - l0] == (i0 as int, q - log_before.len()));
                    }
                }
                assert forall|a: int, b: int| 0 <= a < i && 0 <= b < i implies #[trigger] placed@[a]
                    == #[trigger] placed@[b] && elems(nodes[a]).len() == elems(nodes[b]).len() || placed@[a]
                    + elems(nodes[a]).len() <= placed@[b] || placed@[b] + elems(nodes[b]).len() <= placed@[a] by {
                    if a < i0 {
                        assert(placed@[a] == placed_before[a]);
                    }
                    if b < i0 {
                        assert(placed@[b] == placed_before[b]);
                    }
                    if dedup_w >= 0 {
                        let x = owner_before[dedup_w];
                        if a == i0 && b < i0 {
                            assert(placed_before[x] == placed@[x]);
                        }
                        if b == i0 && a < i0 {
                            assert(placed_before[x] == placed@[x]);
                        }
                    }
                }
                assert forall|x: int| 0 <= x < i implies 0 <= #[trigger] slot_of[x] < runs@.len() && runs@[slot_of[x]]@
                    == encoded(nodes, x, placed@) by {
                    lemma_encoded_stable(l0 as int, nodes, x, placed_before, placed@);
                    if x < i0 {
                        assert(runs@[slot_of[x]]@ == runs_before[slot_of[x]]@);
                    }
                }
                assert forall|x: int| 0 <= x < i implies #[trigger] placed@[x] == tops@[slot_of[x]] by {
                    if x < i0 {
                        assert(placed@[x] == placed_before[x]);
                        assert(tops@[slot_of[x]] == tops_before[slot_of[x]]);
                    }
                }
                assert forall|w1: int, w2: int| 0 <= w1 < w2 < runs@.len() implies #[trigger] runs@[w1]@
                    != #[trigger] runs@[w2]@ by {
                    if w2 < runs_before.len() {
                        assert(runs@[w1]@ == runs_before[w1]@);
                        assert(runs@[w2]@ == runs_before[w2]@);
                    } else {
                        assert(runs@[w1]@ == runs_before[w1]@);
                    }
                }
            }
        }
        let root_top = match draft.root.elements {
            ElementData::Direct(j) => placed[j],
            ElementData::Indirect(t) => t.0,
        };
        proof {
            assert forall|j: int, r: int|
                0 <= j < nodes.len() && 0 <= r < elems(nodes[j]).len() implies #[trigger] self@[placed@[j]
                + r] == encode_element(elems(nodes[j])[r], placed@) by {
                let w = slot_of[j];
                assert(runs@[w]@ == encoded(nodes, j, placed@));
                assert(self@[tops@[w] + r] == runs@[w]@[r]);
            }
            assert forall|a: int, b: int|
                0 <= a < nodes.len() && 0 <= b < nodes.len() && #[trigger] encoded(nodes, a, placed@)
                    == #[trigger] encoded(nodes, b, placed@) implies placed@[a] == placed@[b] by {
                assert(runs@[slot_of[a]]@ == encoded(nodes, a, placed@));
                assert(runs@[slot_of[b]]@ == encoded(nodes, b, placed@));
                if slot_of[a] < slot_of[b] {
                    assert(runs@[slot_of[a]]@ != runs@[slot_of[b]]@);
                } else if slot_of[b] < slot_of[a] {
                    assert(runs@[slot_of[b]]@ != runs@[slot_of[a]]@);
                }
            }
            assert(saved_at(log0, self@, nodes, placed@, self@.len() as int));
        }
        let mut last: Vec<Record> = Vec::new();
        last.push(Record { left: root_top, right: draft.root.map.0 });
        let ghost log_n = self@;
        let appended = self.element_stash.append(last.as_slice());
        let idx = match appended {
            Ok(idx) => idx,
            Err(_) => {
                proof {
                    assert(false);
                }
                return Err(StoreError::Full);
            },
        };
        proof {
            let root = draft.root;
            assert(self@[idx.0 as int] == Record { left: root_top, right: root.map.0 });
            assert forall|j: int, r: int|
                0 <= j < nodes.len() && 0 <= r < elems(nodes[j]).len() implies #[trigger] self@[placed@[j]
                + r] == encode_element(elems(nodes[j])[r], placed@) by {
                assert(log_n[placed@[j] + r] == encode_element(elems(nodes[j])[r], placed@));
                assert(self@[placed@[j] + r] == log_n[placed@[j] + r]);
            }
            assert(saved_at(log0, self@, nodes, placed@, idx.0 as int));
            assert forall|q: int| log0.len() <= q < idx.0 implies #[trigger] in_some_run(nodes, placed@, q) by {
                let (j, r) = cover[q - l0];
                assert(q == placed@[j] + r);
            }
            assert(only_runs(log0, nodes, placed@, idx.0 as int));
            assert(root_top == root_field(root, placed@));
            assert forall|p: int| l0 <= p < self@.len() && is_reference(#[trigger] self@[p].left) implies reference_ok(
                self@[p],
                p,
            ) by {
                if p < log_n.len() {
                    assert(self@[p] == log_n[p]);
                }
            }
            assert forall|k: u32| #[trigger] root_find(self@, idx.0 as int, k) == direct_find(
                log0,
                nodes,
                root,
                0,
                k,
            ) by {
                match root.elements {
                    ElementData::Direct(j) => {
                        assert(placed_as(log0, log_n, nodes, j, placed@[j as int] as int));
                        lemma_stored_find_frame(log_n, self@, root_top as int, root.map.0, 0, k);
                        assert(root == Trie { map: ElementMap(root.map.0), elements: ElementData::Direct(j) });
                    },
                    ElementData::Indirect(t) => {
                        lemma_stored_find_frame(log0, self@, t.0 as int, root.map.0, 0, k);
                    },
                }
            }
            match root.elements {
                ElementData::Direct(j) => {
                    assert(placed_as(log0, log_n, nodes, j, placed@[j as int] as int));
                    lemma_run_size_frame(log_n, self@, root_top as int, pop_count(root.map.0));
                    assert(root == Trie { map: ElementMap(root.map.0), elements: ElementData::Direct(j) });
                    assert(stored_size(log_n, root_top as int, root.map.0) == draft_size(log0, nodes, root));
                    assert(root_size(self@, idx.0 as int) == stored_size(self@, root_top as int, root.map.0));
                },
                ElementData::Indirect(t) => {
                    lemma_run_size_frame(log0, self@, t.0 as int, pop_count(root.map.0));
                    assert(root_size(self@, idx.0 as int) == stored_size(self@, root_top as int, root.map.0));
                },
            }
        }
        Ok(idx)
    }

    /// Saves the version of `root_index` in which `insert_key` maps to `value`, and returns
    /// its name. Every version saved before keeps what it held.
    pub fn push(&mut self, root_index: RootIndex, insert_key: u32, value: u32) -> (r: Result<
        RootIndex,
        StoreError,
    >)
        requires
            old(self).wf(),
        ensures
            final(self).wf(),
            insert_key <= MAX_KEY && root_ok(old(self)@, root_index.0.0 as int) && old(self)@.len()
                + 32 * path_len(
                old(self)@,
                old(self)@[root_index.0.0 as int].left as int,
                old(self)@[root_index.0.0 as int].right,
                0,
                insert_key,
            ) + 9 <= MAX_RECORDS ==> r is Ok,
            match r {
                Ok(n) => pushed(
                    old(self)@,
                    root_index.0.0 as int,
                    insert_key,
                    value,
                    final(self)@,
                    n.0.0 as int,
                ),
                Err(e) => final(self)@ == old(self)@ && (e == StoreError::KeyOutOfRange
                    && insert_key > MAX_KEY || e == StoreError::Corrupt && insert_key <= MAX_KEY && (
                !root_ok(old(self)@, root_index.0.0 as int) || !push_ok(
                    old(self)@,
                    old(self)@[root_index.0.0 as int].left as int,
                    old(self)@[root_index.0.0 as int].right,
                    0,
                    insert_key,
                )) || e == StoreError::Full && insert_key <= MAX_KEY && root_ok(old(self)@, root_index.0.0 as int)
                    && push_ok(
                    old(self)@,
                    old(self)@[root_index.0.0 as int].left as int,
                    old(self)@[root_index.0.0 as int].right,
                    0,
                    insert_key,
                )),
            },
    {
        if insert_key > MAX_KEY {
            return Err(StoreError::KeyOutOfRange);
        }
        let trie = self.trie(root_index)?;
        proof {
            lemma_push_ok(self@, stored_top(trie), trie.map.0, 0, insert_key);
        }
        let draft = trie.push(&self.element_stash, insert_key, value)?;
        let ghost log0 = self@;
        let new_index = self.save(&draft)?;
        proof {
            assert forall|p: int| 0 <= p < self@.len() && is_reference(#[trigger] self@[p].left) implies reference_ok(
                self@[p],
                p,
            ) by {
                if p < log0.len() {
                    assert(self@[p] == log0[p]);
                }
            }
            let ri = root_index.0.0 as int;
            assert forall|k: u32| #[trigger] root_find(self@, new_index.0 as int, k) == if k == insert_key {
                found(value)
            } else {
                root_find(log0, ri, k)
            } by {
                assert(direct_find(log0, draft.nodes@, draft.root, 0, k) == if k == insert_key {
                    found(value)
                } else {
                    stored_find(log0, stored_top(trie), trie.map.0, 0, k)
                });
            }
            assert forall|i: int, k: u32| 0 <= i < log0.len() implies #[trigger] root_find(self@, i, k)
                == root_find(log0, i, k) by {
                lemma_root_find_frame(log0, self@, i, k);
            }
            assert(stored_find(log0, stored_top(trie), trie.map.0, 0, insert_key) == root_find(log0, ri, insert_key));
        }
        Ok(RootIndex(new_index))
    }
}

} // verus!
