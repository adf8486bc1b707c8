//! The managed one-sided Top-N state.
//!
//! It keeps one end of a totally ordered multiset of rows: the hot end lives
//! in an in-memory cache, the full set is backed by the state table, and the
//! cache is refilled from storage when it drains. `TopNType` selects which
//! end is "top". Storage keys are the forward row encoding for the smallest
//! end and the reversed encoding for the largest, so a forward scan of the
//! partition always yields the top end first; the cache is kept in the same
//! order, best entry first.

use vstd::prelude::*;

use vstd::pervasive::VecAdditionalExecFns;

use crate::assoc::{
    assoc_contains_pair, assoc_find, assoc_has, assoc_lb, assoc_remove, assoc_sorted,
    assoc_upsert, lemma_assoc_lb_props, lemma_assoc_lb_unique, lemma_assoc_mem_find,
    lemma_assoc_remove_keeps, lemma_assoc_remove_props, lemma_assoc_upsert_keeps,
    lemma_assoc_upsert_props, lemma_assoc_upsert_same,
};
use crate::codec::{
    decode, encode_forward, encode_reversed, enc_row, enc_row_rev, lemma_decode_roundtrip,
    lemma_encode_forward_preserves_order, lemma_encode_reversed_reverses_order,
    lemma_enc_row_injective, lemma_row_wf_ok,
};
use crate::order::{lemma_lex_asym, lemma_lex_irrefl, lemma_lex_total, lemma_lex_trans, lex_lt, Cmp};
use crate::row::{
    cmp_rows, copy_ordered_row, copy_row, lemma_row_total, lemma_wf_compat, row_lt, row_wf,
    DataType, DatumS, Direction, OrderedRow, Row,
};
use crate::state_table::{Keyspace, StateTable};
use crate::StateError;

verus! {

/// Which end of the row order this state keeps hot.
#[derive(Clone, Copy, PartialEq, Eq, Structural, Debug)]
pub enum TopNType {
    Min,
    Max,
}

/// The storage key of a row: forward encoding for the smallest end,
/// reversed for the largest, so that key order is best-first.
pub open spec fn key_of(kind: TopNType, dirs: Seq<Direction>, r: Seq<DatumS>) -> Seq<u8> {
    match kind {
        TopNType::Min => enc_row(dirs, r),
        TopNType::Max => enc_row_rev(dirs, r),
    }
}

/// Every key of an association image is the storage key of some
/// schema-conforming row.
pub open spec fn entries_keyed(
    s: Seq<(Seq<u8>, Seq<DatumS>)>,
    schema: Seq<DataType>,
    dirs: Seq<Direction>,
    kind: TopNType,
) -> bool {
    forall|j: int|
        0 <= j < s.len() ==> exists|r: Seq<DatumS>|
            row_wf(schema, r) && (#[trigger] s[j]).0 == key_of(kind, dirs, r)
}

/// How many entries a scan leaves in the cache: the cap if storage can fill
/// it, everything otherwise.
pub open spec fn fill_stop(cap: Option<usize>, n: nat) -> nat {
    match cap {
        Option::None => n,
        Option::Some(c) => if c as nat <= n {
            c as nat
        } else {
            n
        },
    }
}

/// What one storage scan does to the cache: merged entries are folded in,
/// best first, until the cap is reached or the scan ends.
pub open spec fn scan_fill(
    cache: Seq<(Seq<u8>, Seq<DatumS>)>,
    entries: Seq<(Seq<u8>, Seq<DatumS>)>,
    cap: Option<usize>,
) -> Seq<(Seq<u8>, Seq<DatumS>)>
    decreases entries.len(),
{
    if entries.len() == 0 {
        cache
    } else if cap matches Option::Some(c) && cache.len() >= c {
        cache
    } else {
        scan_fill(assoc_upsert(cache, entries[0].0, entries[0].1), entries.skip(1), cap)
    }
}

/// The managed one-sided Top-N state over one keyspace partition.
pub struct ManagedTopNState {
    top_n: Vec<(OrderedRow, Row)>,
    state_table: StateTable,
    total_count: usize,
    top_n_count: Option<usize>,
    order_type: Vec<Direction>,
    data_types: Vec<DataType>,
    top_n_type: TopNType,
}

impl ManagedTopNState {
    /// The storage key of a row under this state's directions and end:
    /// the forward encoding when the smallest end is kept, the reversed
    /// (bytewise complemented) encoding when the largest is. The same
    /// convention governs every write and read of the partition.
    pub open spec fn enc_key(self, r: Seq<DatumS>) -> Seq<u8> {
        key_of(self.kind(), self.dirs(), r)
    }

    /// The cache as an association image: storage key and row value,
    /// best entry first.
    pub closed spec fn cache(self) -> Seq<(Seq<u8>, Seq<DatumS>)> {
        self.top_n@.map(
            |q: int, e: (OrderedRow, Row)| (key_of(self.top_n_type, self.order_type@, e.0.row@), e.1@),
        )
    }

    /// The cache as rows: key row and value row, best entry first.
    pub closed spec fn cache_rows(self) -> Seq<(Seq<DatumS>, Seq<DatumS>)> {
        self.top_n@.map(|q: int, e: (OrderedRow, Row)| (e.0.row@, e.1@))
    }

    /// The full image this state manages: storage overlaid with pending
    /// writes, best entry first.
    pub closed spec fn merged(self) -> Seq<(Seq<u8>, Seq<DatumS>)> {
        self.state_table.merged_view()
    }

    /// The durable image, as the partition would be recovered after a crash.
    pub closed spec fn committed(self) -> Seq<(Seq<u8>, Seq<DatumS>)> {
        self.state_table.committed_view()
    }

    pub closed spec fn total(self) -> nat {
        self.total_count as nat
    }

    pub closed spec fn cap(self) -> Option<usize> {
        self.top_n_count
    }

    pub closed spec fn dirty(self) -> bool {
        self.state_table.dirty()
    }

    pub closed spec fn dirs(self) -> Seq<Direction> {
        self.order_type@
    }

    pub closed spec fn schema(self) -> Seq<DataType> {
        self.data_types@
    }

    pub closed spec fn kind(self) -> TopNType {
        self.top_n_type
    }

    /// The configuration of two states agrees.
    pub open spec fn same_config(self, other: ManagedTopNState) -> bool {
        &&& self.cap() == other.cap()
        &&& self.dirs() == other.dirs()
        &&& self.schema() == other.schema()
        &&& self.kind() == other.kind()
    }

    /// Structural well-formedness: both images sorted, cache entries
    /// schema-conforming, the cache sorted best-first and contained in the
    /// merged image, and every merged key decodable.
    pub closed spec fn inv(self) -> bool {
        &&& self.order_type@.len() == self.data_types@.len()
        &&& self.state_table.wf()
        &&& assoc_sorted(self.merged())
        &&& assoc_sorted(self.committed())
        &&& (!self.dirty() ==> self.merged() == self.committed())
        &&& forall|i: int|
            0 <= i < self.top_n@.len() ==> (#[trigger] self.top_n@[i]).0.order@
                == self.order_type@ && row_wf(self.data_types@, self.top_n@[i].0.row@)
        &&& assoc_sorted(self.cache())
        &&& forall|i: int|
            0 <= i < self.cache().len() ==> assoc_contains_pair(
                self.merged(),
                #[trigger] self.cache()[i],
            )
        &&& entries_keyed(self.merged(), self.data_types@, self.order_type@, self.top_n_type)
        &&& entries_keyed(self.committed(), self.data_types@, self.order_type@, self.top_n_type)
    }

    /// The cache holds exactly the best entries of the merged image.
    pub open spec fn aligned(self) -> bool {
        &&& self.cache().len() <= self.merged().len()
        &&& self.cache() == self.merged().take(self.cache().len() as int)
    }

    /// The running count matches the merged image.
    pub open spec fn balanced(self) -> bool {
        self.total() == self.merged().len()
    }

    /// The key is worse than the cache bottom (the last, far-from-top cache
    /// entry) while keys live only in storage: caching it could shadow a
    /// better storage key.
    pub open spec fn must_flush_only(self, kb: Seq<u8>) -> bool {
        self.total() > self.cache().len() && lex_lt(self.cache().last().0, kb)
    }

    /// Construct a state over a partition: cap, the row count persisted by
    /// the operator's checkpoint, the partition, and the row schema with its
    /// direction vector and end selector. The cache starts empty.
    pub fn new(
        top_n_count: Option<usize>,
        total_count: usize,
        keyspace: Keyspace,
        data_types: Vec<DataType>,
        order_types: Vec<Direction>,
        top_n_type: TopNType,
    ) -> (s: ManagedTopNState)
        requires
            data_types@.len() == order_types@.len(),
            assoc_sorted(keyspace@),
            entries_keyed(keyspace@, data_types@, order_types@, top_n_type),
        ensures
            s.inv(),
            s.cache() == Seq::<(Seq<u8>, Seq<DatumS>)>::empty(),
            s.cache_rows() == Seq::<(Seq<DatumS>, Seq<DatumS>)>::empty(),
            s.merged() == keyspace@,
            s.committed() == keyspace@,
            s.total() == total_count as nat,
            s.cap() == top_n_count,
            s.dirs() == order_types@,
            s.schema() == data_types@,
            s.kind() == top_n_type,
            !s.dirty(),
            s.aligned(),
    {
        let state_table = StateTable::new(keyspace);
        let s = ManagedTopNState {
            top_n: Vec::new(),
            state_table,
            total_count,
            top_n_count,
            order_type: order_types,
            data_types,
            top_n_type,
        };
        proof {
            assert(s.cache() =~= Seq::<(Seq<u8>, Seq<DatumS>)>::empty());
            assert(s.cache_rows() =~= Seq::<(Seq<DatumS>, Seq<DatumS>)>::empty());
            assert(s.merged().take(0) =~= Seq::<(Seq<u8>, Seq<DatumS>)>::empty());
        }
        s
    }

    /// The number of rows in cache and storage together.
    pub fn total_count(&self) -> (r: usize)
        ensures
            r as nat == self.total(),
    {
        self.total_count
    }

    /// Whether uncommitted writes are pending.
    pub fn is_dirty(&self) -> (r: bool)
        ensures
            r == self.dirty(),
    {
        self.state_table.is_dirty()
    }

    /// How many entries the cache holds.
    pub fn get_cache_len(&self) -> (r: usize)
        ensures
            r as nat == self.cache().len(),
    {
        self.top_n.len()
    }

    /// Give up the state; what survives is the durable image, as a crash
    /// would leave it. The result can seed a reconstruction under the same
    /// configuration.
    pub fn into_keyspace(self) -> (k: Keyspace)
        requires
            self.inv(),
        ensures
            k@ == self.committed(),
            assoc_sorted(k@),
            entries_keyed(k@, self.schema(), self.dirs(), self.kind()),
    {
        self.state_table.into_keyspace()
    }

    /// Enforce retention: evict the bottom (far-from-top) cache entry while
    /// the cache exceeds the cap. Storage is unaffected.
    pub fn retain_top_n(&mut self)
        requires
            old(self).inv(),
        ensures
            final(self).inv(),
            final(self).same_config(*old(self)),
            final(self).merged() == old(self).merged(),
            final(self).committed() == old(self).committed(),
            final(self).total() == old(self).total(),
            final(self).dirty() == old(self).dirty(),
            final(self).cache() == match old(self).cap() {
                Option::None => old(self).cache(),
                Option::Some(c) => if old(self).cache().len() <= c {
                    old(self).cache()
                } else {
                    old(self).cache().take(c as int)
                },
            },
            old(self).aligned() ==> final(self).aligned(),
            final(self).cap() matches Option::Some(c) ==> final(self).cache().len() <= c as nat,
    {
        let ghost pre = *self;
        if let Option::Some(count) = self.top_n_count {
            while self.top_n.len() > count
                invariant
                    pre.inv(),
                    self.state_table == pre.state_table,
                    self.total_count == pre.total_count,
                    self.top_n_count == pre.top_n_count,
                    self.order_type == pre.order_type,
                    self.data_types == pre.data_types,
                    self.top_n_type == pre.top_n_type,
                    count == pre.top_n_count->Some_0,
                    self.top_n@.len() <= pre.top_n@.len(),
                    self.top_n@.len() >= count || self.top_n@.len() == pre.top_n@.len(),
                    self.top_n@ == pre.top_n@.take(self.top_n@.len() as int),
                decreases self.top_n@.len(),
            {
                self.top_n.pop();
                proof {
                    assert(self.top_n@ =~= pre.top_n@.take(self.top_n@.len() as int));
                }
            }
        }
        proof {
            assert(pre.top_n@.take(pre.top_n@.len() as int) =~= pre.top_n@);
            lemma_cache_take(pre, *self);
            assert(pre.cache().take(pre.cache().len() as int) =~= pre.cache());
        }
    }

    /// The top: the best cached entry, or nothing when the state is empty.
    /// After a reconstruction the cache may still be empty while rows sit in
    /// storage; the top is visible only once the cache is filled.
    pub fn top_element(&self) -> (res: Option<(&OrderedRow, &Row)>)
        requires
            self.inv(),
        ensures
            (res is Some) == (self.total() > 0 && self.cache().len() > 0),
            res matches Some((k, v)) ==> k.row@ == self.cache_rows()[0].0 && k.order@
                == self.dirs() && v@ == self.cache_rows()[0].1,
    {
        if self.total_count == 0 {
            Option::None
        } else if self.top_n.len() == 0 {
            Option::None
        } else {
            let e = &self.top_n[0];
            Option::Some((&e.0, &e.1))
        }
    }

    /// The bottom: the worst cached entry, used by the insert decision.
    fn bottom_element(&self) -> (res: Option<(&OrderedRow, &Row)>)
        requires
            self.inv(),
        ensures
            (res is Some) == (self.total() > 0 && self.cache().len() > 0),
            res matches Some((k, v)) ==> {
                let last = self.cache_rows().len() - 1;
                k.row@ == self.cache_rows()[last].0 && k.order@ == self.dirs() && v@
                    == self.cache_rows()[last].1
            },
    {
        if self.total_count == 0 {
            Option::None
        } else if self.top_n.len() == 0 {
            Option::None
        } else {
            let e = &self.top_n[self.top_n.len() - 1];
            Option::Some((&e.0, &e.1))
        }
    }

    /// The storage key of a row under this state's configuration.
    fn encode_key(&self, r: &Row) -> (out: Vec<u8>)
        requires
            self.inv(),
            r@.len() == self.dirs().len(),
        ensures
            out@ == self.enc_key(r@),
    {
        match self.top_n_type {
            TopNType::Min => encode_forward(r, &self.order_type),
            TopNType::Max => encode_reversed(r, &self.order_type),
        }
    }

    /// Three-way comparison of two rows in storage-key order (best first).
    fn key_cmp(&self, a: &Row, b: &Row) -> (c: Cmp)
        requires
            self.inv(),
            row_wf(self.schema(), a@),
            row_wf(self.schema(), b@),
        ensures
            (c == Cmp::Less) == lex_lt(self.enc_key(a@), self.enc_key(b@)),
            (c == Cmp::Greater) == lex_lt(self.enc_key(b@), self.enc_key(a@)),
            (c == Cmp::Equal) == (a@ == b@),
            (c == Cmp::Equal) == (self.enc_key(a@) == self.enc_key(b@)),
    {
        proof {
            lemma_wf_compat(self.schema(), a@, b@);
            lemma_row_wf_ok(self.schema(), a@);
            lemma_row_wf_ok(self.schema(), b@);
            lemma_encode_forward_preserves_order(self.dirs(), a@, b@);
            lemma_encode_forward_preserves_order(self.dirs(), b@, a@);
            lemma_encode_reversed_reverses_order(self.dirs(), a@, b@);
            lemma_encode_reversed_reverses_order(self.dirs(), b@, a@);
            lemma_row_total(self.dirs(), a@, b@);
            lemma_enc_key_injective(*self, a@, b@);
            if a@ == b@ {
                lemma_lex_irrefl(self.enc_key(a@));
            }
        }
        let rc = cmp_rows(&self.order_type, a, b);
        match self.top_n_type {
            TopNType::Min => rc,
            TopNType::Max => match rc {
                Cmp::Less => Cmp::Greater,
                Cmp::Equal => Cmp::Equal,
                Cmp::Greater => Cmp::Less,
            },
        }
    }

    /// Find the cache position of a row's key: the number of better cached
    /// entries, and whether the key itself is cached.
    fn cache_pos(&self, r: &Row) -> (res: (usize, bool))
        requires
            self.inv(),
            row_wf(self.schema(), r@),
        ensures
            res.0 as int == assoc_lb(self.cache(), self.enc_key(r@)),
            res.1 == assoc_has(self.cache(), self.enc_key(r@)),
            res.0 <= self.cache().len(),
    {
        let ghost cv = self.cache();
        let ghost kb = self.enc_key(r@);
        let mut i: usize = 0;
        loop
            invariant
                self.inv(),
                row_wf(self.schema(), r@),
                cv == self.cache(),
                kb == self.enc_key(r@),
                i <= self.top_n@.len(),
                cv.len() == self.top_n@.len(),
                forall|j: int| 0 <= j < i ==> lex_lt(#[trigger] cv[j].0, kb),
            decreases self.top_n@.len() - i,
        {
            if i == self.top_n.len() {
                proof {
                    lemma_assoc_lb_unique(cv, kb, i as int);
                }
                return (i, false);
            }
            let c = self.key_cmp(&self.top_n[i].0.row, r);
            proof {
                assert(cv[i as int].0 == self.enc_key(self.top_n@[i as int].0.row@));
            }
            match c {
                Cmp::Less => {
                    i = i + 1;
                },
                Cmp::Equal => {
                    proof {
                        assert forall|j: int| i <= j < cv.len() implies !lex_lt(
                            #[trigger] cv[j].0,
                            kb,
                        ) by {
                            if j > i {
                                assert(lex_lt(cv[i as int].0, cv[j].0));
                                if lex_lt(cv[j].0, kb) {
                                    lemma_lex_asym(cv[j].0, kb);
                                }
                            } else {
                                lemma_lex_irrefl(kb);
                            }
                        }
                        lemma_assoc_lb_unique(cv, kb, i as int);
                    }
                    return (i, true);
                },
                Cmp::Greater => {
                    proof {
                        assert forall|j: int| i <= j < cv.len() implies !lex_lt(
                            #[trigger] cv[j].0,
                            kb,
                        ) by {
                            if j > i {
                                if lex_lt(cv[j].0, kb) {
                                    lemma_lex_trans(kb, cv[i as int].0, cv[j].0);
                                    lemma_lex_asym(cv[j].0, kb);
                                }
                            } else {
                                lemma_lex_asym(cv[i as int].0, kb);
                            }
                        }
                        lemma_assoc_lb_unique(cv, kb, i as int);
                    }
                    return (i, false);
                },
            }
        }
    }
}

impl ManagedTopNState {
    /// Put an entry into the cache, keeping it sorted; an entry under the
    /// same key is replaced. The pair must already stand in the merged image.
    fn cache_insert(&mut self, key: OrderedRow, value: Row)
        requires
            old(self).inv(),
            key.order@ == old(self).dirs(),
            row_wf(old(self).schema(), key.row@),
            assoc_contains_pair(
                old(self).merged(),
                (old(self).enc_key(key.row@), value@),
            ),
        ensures
            final(self).inv(),
            final(self).same_config(*old(self)),
            final(self).state_table == old(self).state_table,
            final(self).total_count == old(self).total_count,
            final(self).top_n_count == old(self).top_n_count,
            final(self).order_type == old(self).order_type,
            final(self).data_types == old(self).data_types,
            final(self).top_n_type == old(self).top_n_type,
            final(self).merged() == old(self).merged(),
            final(self).committed() == old(self).committed(),
            final(self).dirty() == old(self).dirty(),
            final(self).total() == old(self).total(),
            final(self).cache() == assoc_upsert(
                old(self).cache(),
                old(self).enc_key(key.row@),
                value@,
            ),
            final(self).cache_rows().len() == final(self).cache().len(),
    {
        let ghost kb = self.enc_key(key.row@);
        let ghost cv = self.cache();
        let ghost mv = self.merged();
        let (p, found) = self.cache_pos(&key.row);
        proof {
            lemma_assoc_upsert_props(cv, kb, value@);
            lemma_assoc_lb_props(cv, kb);
        }
        if found {
            self.top_n.set(p, (key, value));
        } else {
            self.top_n.insert(p, (key, value));
        }
        proof {
            let r = assoc_upsert(cv, kb, value@);
            assert(self.cache() =~= r);
            assert(self.cache_rows().len() == self.cache().len());
            let pi = assoc_lb(cv, kb);
            assert forall|i: int| 0 <= i < self.cache().len() implies assoc_contains_pair(
                self.merged(),
                #[trigger] self.cache()[i],
            ) by {
                if i == pi {
                    assert(self.cache()[i] == (kb, value@));
                } else if i < pi {
                    assert(self.cache()[i] == cv[i]);
                } else {
                    if assoc_has(cv, kb) {
                        assert(self.cache()[i] == cv[i]);
                    } else {
                        assert(self.cache()[i] == cv[i - 1]);
                    }
                }
            }
        }
    }
}

/// An upsert of a fresh key keeps every contained pair contained.
proof fn lemma_contained_after_upsert(
    mv: Seq<(Seq<u8>, Seq<DatumS>)>,
    cv: Seq<(Seq<u8>, Seq<DatumS>)>,
    kb: Seq<u8>,
    v: Seq<DatumS>,
)
    requires
        assoc_sorted(mv),
        !assoc_has(mv, kb),
        forall|i: int| 0 <= i < cv.len() ==> assoc_contains_pair(mv, #[trigger] cv[i]),
    ensures
        forall|i: int|
            0 <= i < cv.len() ==> assoc_contains_pair(assoc_upsert(mv, kb, v), #[trigger] cv[i]),
{
    assert forall|i: int| 0 <= i < cv.len() implies assoc_contains_pair(
        assoc_upsert(mv, kb, v),
        #[trigger] cv[i],
    ) by {
        let j = choose|j: int| 0 <= j < mv.len() && mv[j] == cv[i];
        lemma_assoc_mem_find(mv, j);
        assert(cv[i].0 != kb);
        lemma_assoc_upsert_keeps(mv, kb, v, cv[i]);
    }
}

/// An upsert whose key is the storage key of a well-formed row keeps every
/// key of the image decodable.
proof fn lemma_keyed_after_upsert(
    mv: Seq<(Seq<u8>, Seq<DatumS>)>,
    schema: Seq<DataType>,
    dirs: Seq<Direction>,
    kind: TopNType,
    kb: Seq<u8>,
    v: Seq<DatumS>,
    r0: Seq<DatumS>,
)
    requires
        assoc_sorted(mv),
        entries_keyed(mv, schema, dirs, kind),
        row_wf(schema, r0),
        kb == key_of(kind, dirs, r0),
    ensures
        entries_keyed(assoc_upsert(mv, kb, v), schema, dirs, kind),
{
    lemma_assoc_upsert_props(mv, kb, v);
    lemma_assoc_lb_props(mv, kb);
    let r = assoc_upsert(mv, kb, v);
    let p = assoc_lb(mv, kb);
    assert forall|j: int| 0 <= j < r.len() implies exists|w: Seq<DatumS>|
        row_wf(schema, w) && (#[trigger] r[j]).0 == key_of(kind, dirs, w) by {
        if j == p {
            assert(r[j].0 == kb);
            assert(row_wf(schema, r0) && r[j].0 == key_of(kind, dirs, r0));
        } else if j < p {
            assert(r[j] == mv[j]);
            let w = choose|w: Seq<DatumS>|
                row_wf(schema, w) && mv[j].0 == key_of(kind, dirs, w);
            assert(row_wf(schema, w) && r[j].0 == key_of(kind, dirs, w));
        } else {
            let off: int = if assoc_has(mv, kb) {
                0
            } else {
                1
            };
            assert(r[j] == mv[j - off]);
            let w = choose|w: Seq<DatumS>|
                row_wf(schema, w) && mv[j - off].0 == key_of(kind, dirs, w);
            assert(row_wf(schema, w) && r[j].0 == key_of(kind, dirs, w));
        }
    }
}

/// In a state whose cache is the top of a truthfully counted image, an
/// insert keeps it so: a key better than the cache bottom lands in the top
/// prefix, a worse one lands past it.
#[verifier::rlimit(100)]
proof fn lemma_insert_effect(pre: ManagedTopNState, kb: Seq<u8>, v: Seq<DatumS>)
    requires
        pre.inv(),
        !assoc_has(pre.merged(), kb),
        pre.aligned(),
        pre.balanced(),
        pre.total() > pre.cache().len() ==> pre.cache().len() > 0,
    ensures
        !assoc_has(pre.cache(), kb),
        pre.must_flush_only(kb) ==> assoc_upsert(pre.merged(), kb, v).take(
            pre.cache().len() as int,
        ) == pre.cache() && pre.cache().len() <= assoc_upsert(pre.merged(), kb, v).len(),
        !pre.must_flush_only(kb) ==> assoc_upsert(pre.cache(), kb, v) == assoc_upsert(
            pre.merged(),
            kb,
            v,
        ).take(pre.cache().len() as int + 1) && pre.cache().len() + 1 <= assoc_upsert(
            pre.merged(),
            kb,
            v,
        ).len(),
{
    let cv = pre.cache();
    let mv = pre.merged();
    let n = cv.len() as int;
    lemma_assoc_lb_props(mv, kb);
    lemma_assoc_upsert_props(mv, kb, v);
    let p = assoc_lb(mv, kb);
    let r = assoc_upsert(mv, kb, v);
    // the key is not cached: a cached pair under it would stand in the image
    assert(!assoc_has(cv, kb)) by {
        if assoc_has(cv, kb) {
            let q = assoc_lb(cv, kb);
            lemma_assoc_lb_props(cv, kb);
            assert(assoc_contains_pair(mv, cv[q]));
            let j = choose|j: int| 0 <= j < mv.len() && mv[j] == cv[q];
            lemma_assoc_mem_find(mv, j);
        }
    }
    assert forall|i: int| 0 <= i < n implies cv[i] == mv[i] by {
        assert(cv[i] == mv.take(n)[i]);
    }
    if pre.must_flush_only(kb) {
        // the new key sorts past the whole cache prefix
        assert(cv[n - 1] == cv.last());
        assert(lex_lt(mv[n - 1].0, kb));
        assert(p >= n) by {
            if p < n {
                assert(!lex_lt(mv[n - 1].0, kb));
            }
        }
        assert forall|i: int| 0 <= i < n implies r[i] == mv[i] by {}
        assert(r.take(n) =~= cv);
    } else {
        if pre.total() == pre.cache().len() {
            // no storage-only keys: cache and image coincide
            assert(cv =~= mv);
            assert(assoc_upsert(cv, kb, v) == r);
            lemma_assoc_upsert_props(cv, kb, v);
            assert(r.take(n + 1) =~= r);
        } else {
            // the new key sorts before the cache bottom
            assert(n > 0);
            assert(cv[n - 1] == cv.last());
            assert(!lex_lt(cv.last().0, kb));
            assert(kb != mv[n - 1].0) by {
                if kb == mv[n - 1].0 {
                    lemma_assoc_mem_find(mv, n - 1);
                }
            }
            lemma_lex_total(cv.last().0, kb);
            assert(lex_lt(kb, mv[n - 1].0));
            assert(p <= n - 1) by {
                if p > n - 1 {
                    assert(lex_lt(mv[n - 1].0, kb));
                    lemma_lex_asym(kb, mv[n - 1].0);
                }
            }
            lemma_assoc_lb_unique(cv, kb, p);
            lemma_assoc_upsert_props(cv, kb, v);
            let rc = assoc_upsert(cv, kb, v);
            assert forall|i: int| 0 <= i < n + 1 implies rc[i] == r[i] by {
                if i < p {
                    assert(rc[i] == cv[i]);
                    assert(r[i] == mv[i]);
                } else if i == p {
                } else {
                    assert(rc[i] == cv[i - 1]);
                    assert(r[i] == mv[i - 1]);
                }
            }
            assert(rc =~= r.take(n + 1));
        }
    }
}

impl ManagedTopNState {
    /// Insert a row. The write always reaches storage; it is cached unless
    /// the key is worse than the cache bottom while unknown keys may sit
    /// between them in storage. Retention is not enforced here.
    #[verifier::rlimit(100)]
    pub fn insert(&mut self, key: OrderedRow, value: Row, _epoch: u64) -> (res: Result<
        (),
        StateError,
    >)
        requires
            old(self).inv(),
            key.order@ == old(self).dirs(),
            row_wf(old(self).schema(), key.row@),
            !assoc_has(old(self).merged(), old(self).enc_key(key.row@)),
            old(self).total() < usize::MAX as nat,
            old(self).total() > old(self).cache().len() ==> old(self).cache().len() > 0,
        ensures
            res is Ok,
            final(self).inv(),
            final(self).same_config(*old(self)),
            final(self).merged() == assoc_upsert(
                old(self).merged(),
                old(self).enc_key(key.row@),
                value@,
            ),
            final(self).committed() == old(self).committed(),
            final(self).total() == old(self).total() + 1,
            final(self).dirty(),
            final(self).cache() == if old(self).must_flush_only(old(self).enc_key(key.row@)) {
                old(self).cache()
            } else {
                assoc_upsert(old(self).cache(), old(self).enc_key(key.row@), value@)
            },
            old(self).aligned() && old(self).balanced() ==> final(self).aligned()
                && final(self).balanced() && final(self).cache().len() > 0,
    {
        let ghost pre = *self;
        let ghost kb = self.enc_key(key.row@);
        // the insert decision: compare against the cache bottom
        let have_storage = self.total_count > self.top_n.len();
        let need_flush = if have_storage {
            let bottom = self.bottom_element();
            match bottom {
                Option::Some((b, _)) => {
                    let ghost last = self.top_n@.len() - 1;
                    proof {
                        assert(b.row@ == self.cache_rows()[last].0);
                        assert(self.cache_rows()[last].0 == self.top_n@[last].0.row@);
                        assert(self.cache()[last].0 == self.enc_key(self.top_n@[last].0.row@));
                        assert(self.cache().last() == self.cache()[last]);
                    }
                    let c = self.key_cmp(&b.row, &key.row);
                    match c {
                        Cmp::Less => true,
                        _ => false,
                    }
                },
                Option::None => {
                    proof {
                        assert(false);
                    }
                    false
                },
            }
        } else {
            false
        };
        proof {
            assert(need_flush == pre.must_flush_only(kb));
        }
        // encode the key as storage sees it, and decode it back
        let pk_bytes = self.encode_key(&key.row);
        let rev = match self.top_n_type {
            TopNType::Min => false,
            TopNType::Max => true,
        };
        let pk = match decode(&pk_bytes, &self.data_types, &self.order_type, rev) {
            Result::Ok(r) => r,
            Result::Err(e) => {
                proof {
                    lemma_decode_roundtrip(pre.schema(), pre.dirs(), key.row@, rev);
                    assert(false);
                }
                return Result::Err(e);
            },
        };
        proof {
            lemma_decode_roundtrip(pre.schema(), pre.dirs(), key.row@, rev);
            assert(pk@ == key.row@);
        }
        let pk_or = OrderedRow::new(pk, &self.order_type);
        let vcopy = copy_row(&value);
        match self.state_table.insert(pk_bytes, vcopy) {
            Result::Ok(()) => {},
            Result::Err(e) => {
                return Result::Err(e);
            },
        }
        proof {
            lemma_assoc_upsert_props(pre.merged(), kb, value@);
            assert(self.merged() == assoc_upsert(pre.merged(), kb, value@));
            assert(self.cache() == pre.cache());
            // the cache still sits inside the grown image
            lemma_contained_after_upsert(pre.merged(), pre.cache(), kb, value@);
            // every key of the grown image still decodes
            lemma_keyed_after_upsert(
                pre.merged(),
                pre.schema(),
                pre.dirs(),
                pre.kind(),
                kb,
                value@,
                key.row@,
            );
        }
        if !need_flush {
            proof {
                lemma_assoc_upsert_props(pre.merged(), kb, value@);
                lemma_assoc_lb_props(pre.merged(), kb);
                let p = assoc_lb(pre.merged(), kb);
                assert(assoc_upsert(pre.merged(), kb, value@)[p] == (kb, value@));
                assert(0 <= p < self.merged().len());
                assert(self.merged()[p] == (kb, value@));
                assert(assoc_contains_pair(self.merged(), (kb, value@)));
            }
            self.cache_insert(pk_or, value);
        }
        self.total_count = self.total_count + 1;
        proof {
            if pre.aligned() && pre.balanced() {
                lemma_insert_effect(pre, kb, value@);
                lemma_assoc_upsert_props(pre.cache(), kb, value@);
            }
        }
        Result::Ok(())
    }
}

/// How many entries the cache holds after a scan that started with the best
/// `m` of `n` image entries already cached.
pub open spec fn scan_target(cap: Option<usize>, m: int, n: int) -> int {
    match cap {
        Option::None => n,
        Option::Some(c) => if m >= c {
            m
        } else if c <= n {
            c as int
        } else {
            n
        },
    }
}

/// Scanning an image into a cache that already holds its best `m` entries
/// extends that prefix until the cap or the image is exhausted.
proof fn lemma_scan_fill_take(
    s: Seq<(Seq<u8>, Seq<DatumS>)>,
    m: int,
    j: int,
    cap: Option<usize>,
)
    requires
        assoc_sorted(s),
        0 <= j <= m <= s.len(),
    ensures
        scan_fill(s.take(m), s.skip(j), cap) == s.take(scan_target(cap, m, s.len() as int)),
    decreases s.len() - j,
{
    let n = s.len() as int;
    assert(s.take(m).len() == m);
    if j == s.len() {
        assert(m == n);
        assert(s.skip(j).len() == 0);
    } else {
        if cap matches Option::Some(c) && m >= c {
            assert(s.skip(j).len() > 0);
            assert(scan_fill(s.take(m), s.skip(j), cap) == s.take(m));
        } else {
            assert(s.skip(j)[0] == s[j]);
            assert(s.skip(j).skip(1) =~= s.skip(j + 1));
            assert(assoc_sorted(s.take(m))) by {
                assert(forall|a: int, b: int|
                    0 <= a < b < m ==> s.take(m)[a] == s[a] && s.take(m)[b] == s[b]);
            }
            if j < m {
                assert(s.take(m)[j] == s[j]);
                lemma_assoc_upsert_same(s.take(m), j);
                lemma_scan_fill_take(s, m, j + 1, cap);
            } else {
                // j == m: the scanned entry extends the prefix
                assert forall|i: int| 0 <= i < m implies lex_lt(
                    #[trigger] s.take(m)[i].0,
                    s[m].0,
                ) by {
                    assert(s.take(m)[i] == s[i]);
                }
                assert forall|i: int| m <= i < m implies !lex_lt(
                    #[trigger] s.take(m)[i].0,
                    s[m].0,
                ) by {}
                lemma_assoc_lb_unique(s.take(m), s[m].0, m);
                assert(!assoc_has(s.take(m), s[m].0));
                lemma_assoc_upsert_props(s.take(m), s[m].0, s[m].1);
                assert(assoc_upsert(s.take(m), s[m].0, s[m].1) =~= s.take(m + 1)) by {
                    lemma_assoc_upsert_props(s.take(m), s[m].0, s[m].1);
                }
                lemma_scan_fill_take(s, m + 1, j + 1, cap);
                assert(scan_target(cap, m + 1, n) == scan_target(cap, m, n));
            }
        }
    }
}

impl ManagedTopNState {
    /// Walk the merged image best-first and pull entries into the cache
    /// until the cap is reached or the image ends.
    fn scan_inner(&mut self, epoch: u64) -> (res: Result<(), StateError>)
        requires
            old(self).inv(),
        ensures
            res is Ok,
            final(self).inv(),
            final(self).same_config(*old(self)),
            final(self).merged() == old(self).merged(),
            final(self).committed() == old(self).committed(),
            final(self).dirty() == old(self).dirty(),
            final(self).total() == old(self).total(),
            final(self).cache() == scan_fill(old(self).cache(), old(self).merged(), old(self).cap()),
    {
        let ghost pre = *self;
        let entries = match self.state_table.iter(epoch) {
            Result::Ok(v) => v,
            Result::Err(e) => {
                return Result::Err(e);
            },
        };
        let mut idx: usize = 0;
        proof {
            assert(pre.merged().skip(0) =~= pre.merged());
            assert(crate::state_table::kv_view(entries@).len() == entries@.len());
        }
        loop
            invariant
                self.inv(),
                idx <= entries@.len(),
                crate::state_table::kv_view(entries@) == pre.merged(),
                entries@.len() == pre.merged().len(),
                self.state_table == pre.state_table,
                self.total_count == pre.total_count,
                self.top_n_count == pre.top_n_count,
                self.order_type == pre.order_type,
                self.data_types == pre.data_types,
                self.top_n_type == pre.top_n_type,
                scan_fill(pre.cache(), pre.merged(), pre.cap()) == scan_fill(
                    self.cache(),
                    pre.merged().skip(idx as int),
                    pre.cap(),
                ),
            ensures
                self.inv(),
                self.state_table == pre.state_table,
                self.total_count == pre.total_count,
                self.top_n_count == pre.top_n_count,
                self.order_type == pre.order_type,
                self.data_types == pre.data_types,
                self.top_n_type == pre.top_n_type,
                self.cache() == scan_fill(pre.cache(), pre.merged(), pre.cap()),
            decreases entries@.len() - idx,
        {
            let ghost rem = pre.merged().skip(idx as int);
            if idx == entries.len() {
                proof {
                    assert(rem.len() == 0);
                    assert(scan_fill(self.cache(), rem, pre.cap()) == self.cache());
                }
                break;
            }
            if let Option::Some(c) = self.top_n_count {
                if self.top_n.len() >= c {
                    proof {
                        assert(self.cache().len() >= c);
                        assert(scan_fill(self.cache(), rem, pre.cap()) == self.cache());
                    }
                    break;
                }
            }
            proof {
                assert(pre.merged()[idx as int] == (entries@[idx as int].0@, entries@[
                    idx as int].1@));
            }
            let rev = match self.top_n_type {
                TopNType::Min => false,
                TopNType::Max => true,
            };
            let pk = match decode(&entries[idx].0, &self.data_types, &self.order_type, rev) {
                Result::Ok(r) => r,
                Result::Err(e) => {
                    proof {
                        let r0 = choose|r0: Seq<DatumS>|
                            row_wf(self.schema(), r0) && pre.merged()[idx as int].0 == key_of(
                                self.kind(),
                                self.dirs(),
                                r0,
                            );
                        lemma_decode_roundtrip(self.schema(), self.dirs(), r0, rev);
                        assert(false);
                    }
                    return Result::Err(e);
                },
            };
            proof {
                assert(entries@[idx as int].0@ == self.enc_key(pk@));
            }
            let pk_or = OrderedRow::new(pk, &self.order_type);
            let val = copy_row(&entries[idx].1);
            proof {
                assert(self.merged()[idx as int] == (self.enc_key(pk_or.row@), val@));
                assert(assoc_contains_pair(self.merged(), (self.enc_key(pk_or.row@), val@)));
            }
            let ghost cache_before = self.cache();
            self.cache_insert(pk_or, val);
            proof {
                assert(rem[0] == pre.merged()[idx as int]);
                assert(rem.skip(1) =~= pre.merged().skip(idx as int + 1));
                assert(self.cache() == assoc_upsert(cache_before, rem[0].0, rem[0].1));
                assert(scan_fill(cache_before, rem, pre.cap()) == scan_fill(
                    self.cache(),
                    pre.merged().skip(idx as int + 1),
                    pre.cap(),
                ));
            }
            idx = idx + 1;
        }
        Result::Ok(())
    }

    /// Refill the cache from the merged image, tolerating pending writes:
    /// entries are pulled best-first until the cap is reached or the image
    /// ends. Used after deletions drain the cache.
    pub fn scan_and_merge(&mut self, epoch: u64) -> (res: Result<(), StateError>)
        requires
            old(self).inv(),
        ensures
            res is Ok,
            final(self).inv(),
            final(self).same_config(*old(self)),
            final(self).merged() == old(self).merged(),
            final(self).committed() == old(self).committed(),
            final(self).dirty() == old(self).dirty(),
            final(self).total() == old(self).total(),
            final(self).cache() == scan_fill(old(self).cache(), old(self).merged(), old(self).cap()),
            old(self).aligned() ==> final(self).aligned() && final(self).cache() == old(
                self,
            ).merged().take(
                scan_target(
                    old(self).cap(),
                    old(self).cache().len() as int,
                    old(self).merged().len() as int,
                ),
            ),
    {
        let ghost pre = *self;
        let res = self.scan_inner(epoch);
        proof {
            if pre.aligned() {
                lemma_scan_fill_take(pre.merged(), pre.cache().len() as int, 0, pre.cap());
                assert(pre.merged().skip(0) =~= pre.merged());
                assert(pre.merged().take(pre.cache().len() as int) == pre.cache());
                let t = scan_target(
                    pre.cap(),
                    pre.cache().len() as int,
                    pre.merged().len() as int,
                );
                assert(0 <= t <= pre.merged().len());
                assert(self.cache().len() == t);
            }
        }
        res
    }

    /// Fill the cache from a clean state, right after a commit or a
    /// reconstruction: the same best-first walk as `scan_and_merge`, but
    /// meaningful only when no writes are pending.
    pub fn fill_in_cache(&mut self, epoch: u64) -> (res: Result<(), StateError>)
        requires
            old(self).inv(),
            !old(self).dirty(),
        ensures
            res is Ok,
            final(self).inv(),
            final(self).same_config(*old(self)),
            final(self).merged() == old(self).merged(),
            final(self).committed() == old(self).committed(),
            !final(self).dirty(),
            final(self).total() == old(self).total(),
            final(self).cache() == scan_fill(old(self).cache(), old(self).merged(), old(self).cap()),
            old(self).aligned() ==> final(self).aligned() && final(self).cache() == old(
                self,
            ).merged().take(
                scan_target(
                    old(self).cap(),
                    old(self).cache().len() as int,
                    old(self).merged().len() as int,
                ),
            ),
    {
        self.scan_and_merge(epoch)
    }
}

/// A removal keeps every contained pair under another key contained.
proof fn lemma_contained_after_remove(
    mv: Seq<(Seq<u8>, Seq<DatumS>)>,
    cv: Seq<(Seq<u8>, Seq<DatumS>)>,
    kb: Seq<u8>,
)
    requires
        assoc_sorted(mv),
        assoc_sorted(cv),
        forall|i: int| 0 <= i < cv.len() ==> assoc_contains_pair(mv, #[trigger] cv[i]),
    ensures
        forall|i: int|
            0 <= i < assoc_remove(cv, kb).len() ==> assoc_contains_pair(
                assoc_remove(mv, kb),
                #[trigger] assoc_remove(cv, kb)[i],
            ),
{
    lemma_assoc_remove_props(cv, kb);
    let r = assoc_remove(cv, kb);
    let p = assoc_lb(cv, kb);
    assert forall|i: int| 0 <= i < r.len() implies assoc_contains_pair(
        assoc_remove(mv, kb),
        #[trigger] r[i],
    ) by {
        let src: int = if assoc_has(cv, kb) && i >= p {
            i + 1
        } else {
            i
        };
        assert(r[i] == cv[src]);
        assert(cv[src].0 != kb) by {
            if cv[src].0 == kb {
                lemma_assoc_mem_find(cv, src);
            }
        }
        lemma_assoc_remove_keeps(mv, kb, cv[src]);
    }
}

/// A removal keeps every key of the image decodable.
proof fn lemma_keyed_after_remove(
    mv: Seq<(Seq<u8>, Seq<DatumS>)>,
    schema: Seq<DataType>,
    dirs: Seq<Direction>,
    kind: TopNType,
    kb: Seq<u8>,
)
    requires
        assoc_sorted(mv),
        entries_keyed(mv, schema, dirs, kind),
    ensures
        entries_keyed(assoc_remove(mv, kb), schema, dirs, kind),
{
    lemma_assoc_remove_props(mv, kb);
    let r = assoc_remove(mv, kb);
    let p = assoc_lb(mv, kb);
    assert forall|j: int| 0 <= j < r.len() implies exists|w: Seq<DatumS>|
        row_wf(schema, w) && (#[trigger] r[j]).0 == key_of(kind, dirs, w) by {
        let src: int = if assoc_has(mv, kb) && j >= p {
            j + 1
        } else {
            j
        };
        assert(r[j] == mv[src]);
        let w = choose|w: Seq<DatumS>| row_wf(schema, w) && mv[src].0 == key_of(kind, dirs, w);
        assert(row_wf(schema, w) && r[j].0 == key_of(kind, dirs, w));
    }
}

/// Removing a key from an aligned state removes it from both prefix and
/// image in step: the cache stays the top of the image.
proof fn lemma_remove_aligned(pre: ManagedTopNState, kb: Seq<u8>)
    requires
        pre.inv(),
        pre.aligned(),
    ensures
        assoc_remove(pre.cache(), kb).len() <= assoc_remove(pre.merged(), kb).len(),
        assoc_remove(pre.cache(), kb) == assoc_remove(pre.merged(), kb).take(
            assoc_remove(pre.cache(), kb).len() as int,
        ),
{
    let cv = pre.cache();
    let mv = pre.merged();
    let n = cv.len() as int;
    lemma_assoc_remove_props(cv, kb);
    lemma_assoc_remove_props(mv, kb);
    lemma_assoc_lb_props(cv, kb);
    lemma_assoc_lb_props(mv, kb);
    assert forall|i: int| 0 <= i < n implies cv[i] == mv[i] by {
        assert(cv[i] == mv.take(n)[i]);
    }
    if assoc_has(cv, kb) {
        let p = assoc_lb(cv, kb);
        assert(mv[p].0 == kb);
        lemma_assoc_mem_find(mv, p);
        assert(assoc_lb(mv, kb) == p);
        assert(assoc_remove(cv, kb) =~= assoc_remove(mv, kb).take(n - 1));
    } else {
        if assoc_has(mv, kb) {
            let q = assoc_lb(mv, kb);
            assert(q >= n) by {
                if q < n {
                    assert(cv[q].0 == kb);
                    lemma_assoc_mem_find(cv, q);
                }
            }
            assert(assoc_remove(cv, kb) == cv);
            assert(cv =~= assoc_remove(mv, kb).take(n));
        } else {
            assert(assoc_remove(cv, kb) == cv);
            assert(assoc_remove(mv, kb) == mv);
        }
    }
}

impl ManagedTopNState {
    /// Delete a row by key: the tombstone always reaches storage; the cached
    /// entry, if any, is returned. When the cache drains while rows remain,
    /// it is refilled from storage and retention is enforced.
    #[verifier::rlimit(100)]
    pub fn delete(&mut self, key: &OrderedRow, value: Row, epoch: u64) -> (res: Result<
        Option<Row>,
        StateError,
    >)
        requires
            old(self).inv(),
            key.order@ == old(self).dirs(),
            row_wf(old(self).schema(), key.row@),
            old(self).total() > 0,
        ensures
            res is Ok,
            final(self).inv(),
            final(self).same_config(*old(self)),
            final(self).merged() == assoc_remove(
                old(self).merged(),
                old(self).enc_key(key.row@),
            ),
            final(self).committed() == old(self).committed(),
            final(self).total() == old(self).total() - 1,
            final(self).dirty(),
            ({
                let prev = res->Ok_0;
                &&& (prev is Some) == assoc_has(old(self).cache(), old(self).enc_key(key.row@))
                &&& prev matches Some(v) ==> Option::Some(v@) == assoc_find(
                    old(self).cache(),
                    old(self).enc_key(key.row@),
                )
            }),
            ({
                let mid = assoc_remove(old(self).cache(), old(self).enc_key(key.row@));
                let mm = assoc_remove(old(self).merged(), old(self).enc_key(key.row@));
                if mid.len() == 0 && old(self).total() - 1 > 0 {
                    final(self).cache() == mm.take(fill_stop(old(self).cap(), mm.len()) as int)
                } else {
                    final(self).cache() == mid
                }
            }),
            old(self).aligned() ==> final(self).aligned(),
            old(self).aligned() && old(self).balanced() && assoc_has(
                old(self).merged(),
                old(self).enc_key(key.row@),
            ) ==> final(self).balanced() && (final(self).total() > 0 && (final(self).cap()
                matches Option::Some(c) ==> c >= 1) ==> final(self).cache().len() > 0),
            final(self).cap() matches Option::Some(c) ==> final(self).cache().len() <= c as nat
                || final(self).cache().len() <= old(self).cache().len(),
    {
        let ghost pre = *self;
        let ghost kb = self.enc_key(key.row@);
        let kb_vec = self.encode_key(&key.row);
        let (p, found) = self.cache_pos(&key.row);
        proof {
            lemma_assoc_remove_props(pre.cache(), kb);
            lemma_assoc_lb_props(pre.cache(), kb);
        }
        let prev: Option<Row> = if found {
            let e = self.top_n.remove(p);
            Option::Some(e.1)
        } else {
            Option::None
        };
        proof {
            assert(self.cache() =~= assoc_remove(pre.cache(), kb));
            assert(self.cache_rows().len() == self.cache().len());
        }
        match self.state_table.delete(kb_vec, value) {
            Result::Ok(()) => {},
            Result::Err(e) => {
                return Result::Err(e);
            },
        }
        self.total_count = self.total_count - 1;
        let ghost mid = *self;
        proof {
            lemma_assoc_remove_props(pre.merged(), kb);
            lemma_contained_after_remove(pre.merged(), pre.cache(), kb);
            lemma_keyed_after_remove(pre.merged(), pre.schema(), pre.dirs(), pre.kind(), kb);
            assert(mid.inv());
            if pre.aligned() {
                lemma_remove_aligned(pre, kb);
            }
        }
        if self.top_n.len() == 0 && self.total_count > 0 {
            match self.scan_and_merge(epoch) {
                Result::Ok(()) => {},
                Result::Err(e) => {
                    return Result::Err(e);
                },
            }
            self.retain_top_n();
            proof {
                // scanning an empty cache yields the top of the image, which
                // already respects the cap; retention leaves it unchanged
                assert(mid.cache().len() == 0);
                assert(mid.cache() =~= mid.merged().take(0));
                lemma_scan_fill_take(mid.merged(), 0, 0, mid.cap());
                assert(mid.merged().skip(0) =~= mid.merged());
                let t = scan_target(mid.cap(), 0, mid.merged().len() as int);
                assert(t == fill_stop(mid.cap(), mid.merged().len()) as int);
            }
        }
        Result::Ok(prev)
    }

    /// Take the top element out: the best cached entry is removed and
    /// returned, refilling the cache from storage when it drains. Nothing
    /// comes back from an empty state.
    pub fn pop_top_element(&mut self, epoch: u64) -> (res: Result<
        Option<(OrderedRow, Row)>,
        StateError,
    >)
        requires
            old(self).inv(),
            old(self).total() > 0 ==> old(self).cache().len() > 0,
        ensures
            res is Ok,
            final(self).inv(),
            final(self).same_config(*old(self)),
            old(self).total() == 0 ==> *final(self) == *old(self) && res->Ok_0 is None,
            old(self).total() > 0 ==> ({
                let kb = old(self).cache()[0].0;
                let mid = assoc_remove(old(self).cache(), kb);
                let mm = assoc_remove(old(self).merged(), kb);
                &&& res->Ok_0 matches Some((k, v)) && k.row@ == old(self).cache_rows()[0].0
                    && v@ == old(self).cache_rows()[0].1
                &&& final(self).merged() == mm
                &&& final(self).committed() == old(self).committed()
                &&& final(self).total() == old(self).total() - 1
                &&& final(self).dirty()
                &&& if mid.len() == 0 && old(self).total() - 1 > 0 {
                    final(self).cache() == mm.take(fill_stop(old(self).cap(), mm.len()) as int)
                } else {
                    final(self).cache() == mid
                }
                &&& old(self).aligned() ==> final(self).aligned()
            }),
    {
        if self.total_count == 0 {
            return Result::Ok(Option::None);
        }
        let ghost pre = *self;
        let key = copy_ordered_row(&self.top_n[0].0);
        let value = copy_row(&self.top_n[0].1);
        proof {
            assert(pre.cache()[0] == (pre.enc_key(pre.top_n@[0].0.row@), pre.top_n@[0].1@));
            assert(pre.enc_key(key.row@) == pre.cache()[0].0);
            lemma_assoc_mem_find(pre.cache(), 0);
        }
        let prev = match self.delete(&key, value, epoch) {
            Result::Ok(p) => p,
            Result::Err(e) => {
                return Result::Err(e);
            },
        };
        match prev {
            Option::Some(v) => Result::Ok(Option::Some((key, v))),
            Option::None => {
                proof {
                    assert(false);
                }
                Result::Ok(Option::None)
            },
        }
    }

    /// Make the pending writes durable (a no-op when clean) and enforce
    /// retention on the cache.
    pub fn flush(&mut self, epoch: u64) -> (res: Result<(), StateError>)
        requires
            old(self).inv(),
        ensures
            res is Ok,
            final(self).inv(),
            final(self).same_config(*old(self)),
            final(self).merged() == old(self).merged(),
            final(self).committed() == old(self).merged(),
            !final(self).dirty(),
            final(self).total() == old(self).total(),
            final(self).cache() == match old(self).cap() {
                Option::None => old(self).cache(),
                Option::Some(c) => if old(self).cache().len() <= c {
                    old(self).cache()
                } else {
                    old(self).cache().take(c as int)
                },
            },
            old(self).aligned() ==> final(self).aligned(),
            old(self).balanced() ==> final(self).balanced(),
            final(self).cap() matches Option::Some(c) ==> final(self).cache().len() <= c as nat,
    {
        if !self.state_table.is_dirty() {
            self.retain_top_n();
            return Result::Ok(());
        }
        match self.state_table.commit(epoch) {
            Result::Ok(()) => {},
            Result::Err(e) => {
                return Result::Err(e);
            },
        }
        self.retain_top_n();
        Result::Ok(())
    }
}

/// Storage keys are injective on schema-conforming rows: two distinct rows
/// never share a key, so a caller can discharge the no-duplicate insert
/// precondition after earlier inserts of other rows.
pub proof fn lemma_enc_key_injective(s: ManagedTopNState, a: Seq<DatumS>, b: Seq<DatumS>)
    requires
        s.inv(),
        row_wf(s.schema(), a),
        row_wf(s.schema(), b),
    ensures
        s.enc_key(a) == s.enc_key(b) ==> a == b,
{
    if s.enc_key(a) == s.enc_key(b) {
        lemma_wf_compat(s.schema(), a, b);
        lemma_row_wf_ok(s.schema(), a);
        lemma_row_wf_ok(s.schema(), b);
        match s.kind() {
            TopNType::Min => {
                lemma_enc_row_injective(s.dirs(), a, b);
            },
            TopNType::Max => {
                crate::order::lemma_inv_injective(enc_row(s.dirs(), a), enc_row(s.dirs(), b));
                lemma_enc_row_injective(s.dirs(), a, b);
            },
        }
    }
}

/// The two cache views describe one sequence of entries: the byte-keyed
/// view holds, entry by entry, the storage key of the row the row view
/// holds, with the same value.
pub proof fn lemma_cache_views_agree(s: ManagedTopNState)
    ensures
        s.cache().len() == s.cache_rows().len(),
        forall|i: int|
            0 <= i < s.cache().len() ==> #[trigger] s.cache()[i] == (
                s.enc_key(s.cache_rows()[i].0),
                s.cache_rows()[i].1,
            ),
{
    assert forall|i: int| 0 <= i < s.cache().len() implies #[trigger] s.cache()[i] == (
        s.enc_key(s.cache_rows()[i].0),
        s.cache_rows()[i].1,
    ) by {
        assert(s.cache()[i] == (key_of(s.kind(), s.dirs(), s.top_n@[i].0.row@), s.top_n@[i].1@));
        assert(s.cache_rows()[i] == (s.top_n@[i].0.row@, s.top_n@[i].1@));
    }
}

/// Every cached row conforms to the state's schema.
pub proof fn lemma_cache_rows_wf(s: ManagedTopNState)
    requires
        s.inv(),
    ensures
        forall|i: int|
            0 <= i < s.cache_rows().len() ==> row_wf(s.schema(), (#[trigger] s.cache_rows()[i]).0),
{
    assert forall|i: int| 0 <= i < s.cache_rows().len() implies row_wf(
        s.schema(),
        (#[trigger] s.cache_rows()[i]).0,
    ) by {
        assert(s.cache_rows()[i].0 == s.top_n@[i].0.row@);
    }
}

/// Storage-key order is row order oriented towards the kept end: a smaller
/// key means a better row (smaller for the smallest end, greater for the
/// largest). This is how the section of the codec that storage sees orders
/// the partition.
pub proof fn lemma_key_order(s: ManagedTopNState, a: Seq<DatumS>, b: Seq<DatumS>)
    requires
        s.inv(),
        row_wf(s.schema(), a),
        row_wf(s.schema(), b),
    ensures
        lex_lt(s.enc_key(a), s.enc_key(b)) <==> match s.kind() {
            TopNType::Min => row_lt(s.dirs(), a, b),
            TopNType::Max => row_lt(s.dirs(), b, a),
        },
{
    lemma_wf_compat(s.schema(), a, b);
    lemma_row_wf_ok(s.schema(), a);
    lemma_row_wf_ok(s.schema(), b);
    match s.kind() {
        TopNType::Min => {
            lemma_encode_forward_preserves_order(s.dirs(), a, b);
        },
        TopNType::Max => {
            lemma_encode_reversed_reverses_order(s.dirs(), b, a);
        },
    }
}

/// The cache is ordered best entry first: under the smallest end ascending
/// in row order, under the largest end descending. In particular its first
/// entry is the extreme of the cached rows.
pub proof fn lemma_cache_best_first(s: ManagedTopNState)
    requires
        s.inv(),
    ensures
        forall|i: int, j: int|
            0 <= i < j < s.cache_rows().len() ==> match s.kind() {
                TopNType::Min => row_lt(
                    s.dirs(),
                    (#[trigger] s.cache_rows()[i]).0,
                    (#[trigger] s.cache_rows()[j]).0,
                ),
                TopNType::Max => row_lt(
                    s.dirs(),
                    (#[trigger] s.cache_rows()[j]).0,
                    (#[trigger] s.cache_rows()[i]).0,
                ),
            },
{
    lemma_cache_views_agree(s);
    lemma_cache_rows_wf(s);
    assert forall|i: int, j: int| 0 <= i < j < s.cache_rows().len() implies match s.kind() {
        TopNType::Min => row_lt(
            s.dirs(),
            (#[trigger] s.cache_rows()[i]).0,
            (#[trigger] s.cache_rows()[j]).0,
        ),
        TopNType::Max => row_lt(
            s.dirs(),
            (#[trigger] s.cache_rows()[j]).0,
            (#[trigger] s.cache_rows()[i]).0,
        ),
    } by {
        assert(lex_lt(s.cache()[i].0, s.cache()[j].0));
        lemma_key_order(s, s.cache_rows()[i].0, s.cache_rows()[j].0);
    }
}

/// A clean state's two images agree: flushing and handing the partition
/// over loses nothing.
pub proof fn lemma_clean_images_agree(s: ManagedTopNState)
    requires
        s.inv(),
        !s.dirty(),
    ensures
        s.merged() == s.committed(),
{
}

/// The cache never outgrows the running count: in a state whose cache is
/// the top of a truthfully counted image, at most `total` entries are
/// cached. Every operation's contract preserves the hypotheses.
pub proof fn lemma_cache_within_count(s: ManagedTopNState)
    requires
        s.aligned(),
        s.balanced(),
    ensures
        s.cache().len() <= s.total(),
{
}

/// Crash-recovery fidelity: a state that has just been flushed and a state
/// rebuilt over the same partition with the same configuration and then
/// filled from it show the same top element, whenever both have one to show
/// (the law is empty of content while either cache is empty).
pub proof fn lemma_crash_recovery(a: ManagedTopNState, b: ManagedTopNState)
    requires
        a.inv(),
        b.inv(),
        !a.dirty(),
        b.merged() == a.merged(),
        a.dirs() == b.dirs(),
        a.schema() == b.schema(),
        a.kind() == b.kind(),
        a.aligned(),
        b.aligned(),
        a.cache().len() > 0,
        b.cache().len() > 0,
    ensures
        a.cache()[0] == b.cache()[0],
        a.cache_rows()[0] == b.cache_rows()[0],
{
    assert(a.cache()[0] == a.merged().take(a.cache().len() as int)[0]);
    assert(b.cache()[0] == b.merged().take(b.cache().len() as int)[0]);
    assert(a.cache()[0] == a.merged()[0]);
    assert(b.cache()[0] == b.merged()[0]);
    assert(a.cache()[0] == (a.enc_key(a.cache_rows()[0].0), a.cache_rows()[0].1));
    assert(b.cache()[0] == (b.enc_key(b.cache_rows()[0].0), b.cache_rows()[0].1));
    lemma_enc_key_injective_pair(a, b, a.cache_rows()[0].0, b.cache_rows()[0].0);
}

/// Keys computed under one configuration are injective across two states
/// that share it.
proof fn lemma_enc_key_injective_pair(
    a: ManagedTopNState,
    b: ManagedTopNState,
    x: Seq<DatumS>,
    y: Seq<DatumS>,
)
    requires
        a.inv(),
        a.dirs() == b.dirs(),
        a.schema() == b.schema(),
        a.kind() == b.kind(),
        row_wf(a.schema(), x),
        row_wf(b.schema(), y),
    ensures
        a.enc_key(x) == b.enc_key(y) ==> x == y,
{
    assert(a.enc_key(x) == key_of(a.kind(), a.dirs(), x));
    assert(b.enc_key(y) == key_of(a.kind(), a.dirs(), y));
    lemma_enc_key_injective(a, x, y);
    assert(b.enc_key(y) == a.enc_key(y));
}

/// Idempotent re-scan: on a state whose cache is the top of the image (as a
/// clean, freshly filled state is), scanning leaves a cache that a second
/// identical scan maps to itself.
pub proof fn lemma_rescan_idempotent(
    s: Seq<(Seq<u8>, Seq<DatumS>)>,
    m: int,
    cap: Option<usize>,
)
    requires
        assoc_sorted(s),
        0 <= m <= s.len(),
    ensures
        scan_fill(scan_fill(s.take(m), s, cap), s, cap) == scan_fill(s.take(m), s, cap),
{
    assert(s.skip(0) =~= s);
    lemma_scan_fill_take(s, m, 0, cap);
    let t = scan_target(cap, m, s.len() as int);
    assert(0 <= t <= s.len());
    lemma_scan_fill_take(s, t, 0, cap);
    assert(scan_target(cap, t, s.len() as int) == t);
}

/// The state-level reading of `lemma_rescan_idempotent`: if `b` is the
/// post-state of one `scan_and_merge` on an aligned state `a`, a second
/// scan of `b` gives back `b`'s cache.
pub proof fn lemma_scan_and_merge_idempotent(a: ManagedTopNState, b: ManagedTopNState)
    requires
        a.inv(),
        a.aligned(),
        b.cache() == scan_fill(a.cache(), a.merged(), a.cap()),
        b.merged() == a.merged(),
        b.cap() == a.cap(),
    ensures
        scan_fill(b.cache(), b.merged(), b.cap()) == b.cache(),
{
    let s = a.merged();
    let m = a.cache().len() as int;
    assert(s.skip(0) =~= s);
    assert(s.take(m) == a.cache());
    lemma_rescan_idempotent(s, m, a.cap());
}

/// Truncating the cache keeps the invariant and alignment.
proof fn lemma_cache_take(pre: ManagedTopNState, post: ManagedTopNState)
    requires
        pre.inv(),
        post.state_table == pre.state_table,
        post.total_count == pre.total_count,
        post.top_n_count == pre.top_n_count,
        post.order_type == pre.order_type,
        post.data_types == pre.data_types,
        post.top_n_type == pre.top_n_type,
        post.top_n@.len() <= pre.top_n@.len(),
        post.top_n@ == pre.top_n@.take(post.top_n@.len() as int),
    ensures
        post.inv(),
        post.cache() == pre.cache().take(post.top_n@.len() as int),
        post.cache_rows() == pre.cache_rows().take(post.top_n@.len() as int),
        pre.aligned() ==> post.aligned(),
{
    let n = post.top_n@.len() as int;
    assert(post.cache() =~= pre.cache().take(n));
    assert(post.cache_rows() =~= pre.cache_rows().take(n));
    assert forall|i: int| 0 <= i < post.cache().len() implies assoc_contains_pair(
        post.merged(),
        #[trigger] post.cache()[i],
    ) by {
        assert(post.cache()[i] == pre.cache()[i]);
        assert(assoc_contains_pair(pre.merged(), pre.cache()[i]));
    }
    if pre.aligned() {
        assert(pre.cache() == pre.merged().take(pre.cache().len() as int));
        assert forall|i: int| 0 <= i < n implies post.cache()[i] == post.merged()[i] by {
            assert(post.cache()[i] == pre.cache()[i]);
            assert(pre.cache()[i] == pre.merged().take(pre.cache().len() as int)[i]);
        }
        assert(post.cache() =~= post.merged().take(n));
    }
}

} // verus!
