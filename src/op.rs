//! Operations: the changes a block makes to the directory.
use vstd::prelude::*;

use crate::block::Id;
use crate::encoding::{spec_len_field, spec_varint_field, write_len_field, write_varint_field};
use crate::error::Error;
use crate::hashing::{
    hash_str, hash_struct, member, push_member, spec_hash_str, spec_hash_struct, spec_member, utf8, utf8_bytes,
    DIGEST_SIZE,
};
use crate::object::{spec_encode_object, spec_hash_object, spec_type_id, Object};
use crate::path::{
    chars_eq, lemma_parent_valid, parent_seq, root_seq, spec_components, spec_entry_name, spec_parent,
    valid_path, Path, PathBuf,
};
use crate::store::{
    find_child, has_id, resolve, EntryId, EntryView, Entry, MemoryAdapter, Metadata, StoreView,
    Transaction, ROOT_ENTRY_ID,
};

verus! {

/// The kinds of operation; `Add` is the only one.
#[derive(Debug, Eq, PartialEq, Structural, Copy, Clone)]
pub enum Type {
    Add,
}

/// One operation: what to do, where, and with which object.
#[derive(Debug, Eq, PartialEq, Clone)]
pub struct Op {
    pub optype: Type,
    pub path: PathBuf,
    pub objectclass: Object,
}

/// What the application of one block has done so far.
#[derive(Debug)]
pub struct State {
    pub next_entry_id: EntryId,
    /// The entries made so far in this block, by path, oldest first.
    pub new_entries: Vec<(Path, EntryId)>,
}

/// The mathematical value of a `State`.
pub struct StateView {
    pub next_id: u64,
    pub new_entries: Seq<(Seq<char>, u64)>,
}

impl View for State {
    type V = StateView;

    open spec fn view(&self) -> StateView {
        StateView {
            next_id: self.next_entry_id.0,
            new_entries: self.new_entries@.map_values(|e: (Path, EntryId)| (e.0@, e.1.0)),
        }
    }
}

/// The entry most recently made at `path` in this block.
pub open spec fn lookup_new(entries: Seq<(Seq<char>, u64)>, path: Seq<char>) -> Option<u64>
    decreases entries.len(),
{
    if entries.len() == 0 {
        None
    } else if entries.last().0 == path {
        Some(entries.last().1)
    } else {
        lookup_new(entries.drop_last(), path)
    }
}

/// The entry an `Add` at `path` goes under: the sentinel for the root, else
/// the parent made earlier in the block, else the parent found in the store.
pub open spec fn spec_parent_entry(store: StoreView, st: StateView, path: Seq<char>) -> Option<
    u64,
> {
    match spec_parent(path) {
        None => Some(ROOT_ENTRY_ID),
        Some(p) => match lookup_new(st.new_entries, p) {
            Some(id) => Some(id),
            None => match resolve(store.rows, spec_components(p)) {
                Some(i) => Some(store.rows[i].id),
                None => None,
            },
        },
    }
}

/// The effect of an `Add` of `obj` at `path`, in a block with identifier
/// `bid` and timestamp `ts`.
pub open spec fn spec_add_step(
    store: StoreView,
    st: StateView,
    path: Seq<char>,
    obj: Object,
    bid: Seq<u8>,
    ts: u64,
) -> Result<(StoreView, StateView), Error> {
    if st.next_id == u64::MAX {
        Err(Error::StorageFailure)
    } else {
        let e = st.next_id;
        match spec_parent_entry(store, st, path) {
            None => Err(Error::DirectoryNotFound),
            Some(p) => if p != ROOT_ENTRY_ID && !has_id(store.rows, p) {
                Err(Error::DirectoryNotFound)
            } else if find_child(store.rows, p, spec_entry_name(path)).is_some() {
                Err(Error::EntryAlreadyExists)
            } else {
                let row = EntryView {
                    id: e,
                    parent_id: p,
                    name: spec_entry_name(path),
                    type_id: spec_type_id(obj),
                    payload: spec_encode_object(obj),
                    block_id: bid,
                    timestamp: ts,
                };
                Ok(
                    (
                        StoreView {
                            rows: store.rows.push(row),
                            next_id: if e >= store.next_id {
                                (e + 1) as u64
                            } else {
                                store.next_id
                            },
                            ..store
                        },
                        StateView {
                            next_id: (e + 1) as u64,
                            new_entries: st.new_entries.push((path, e)),
                        },
                    ),
                )
            }
        }
    }
}

/// A result agrees with a step: the same error, or success with the
/// step's store and state.
pub open spec fn step_agrees(
    r: Result<(), Error>,
    step: Result<(StoreView, StateView), Error>,
    store: StoreView,
    st: StateView,
) -> bool {
    match r {
        Ok(()) => step == Ok::<(StoreView, StateView), Error>((store, st)),
        Err(e) => step == Err::<(StoreView, StateView), Error>(e),
    }
}

/// After a successful `Add`, the path's name under the resolved parent
/// leads to the new row, whose payload is the object's canonical encoding
/// and whose identifier is the one allocated; later operations of the block
/// find that identifier by the path.
pub proof fn lemma_add_step_entry(
    store: StoreView,
    st: StateView,
    path: Seq<char>,
    obj: Object,
    bid: Seq<u8>,
    ts: u64,
)
    requires
        spec_add_step(store, st, path, obj, bid, ts).is_ok(),
    ensures
        ({
            let (s, t) = spec_add_step(store, st, path, obj, bid, ts)->Ok_0;
            let p = spec_parent_entry(store, st, path)->Some_0;
            let i = s.rows.len() - 1;
            &&& find_child(s.rows, p, spec_entry_name(path)) == Some(i)
            &&& s.rows[i].id == st.next_id
            &&& s.rows[i].payload == spec_encode_object(obj)
            &&& s.rows[i].type_id == spec_type_id(obj)
            &&& lookup_new(t.new_entries, path) == Some(st.next_id)
        }),
{
}

/// Applying an `Add` keeps the store's next free identifier equal to the
/// block's, and moves both one past the identifier it allocated.
pub proof fn lemma_add_step_next_id(
    store: StoreView,
    st: StateView,
    path: Seq<char>,
    obj: Object,
    bid: Seq<u8>,
    ts: u64,
)
    requires
        st.next_id == store.next_id,
        spec_add_step(store, st, path, obj, bid, ts).is_ok(),
    ensures
        ({
            let (s, t) = spec_add_step(store, st, path, obj, bid, ts)->Ok_0;
            &&& s.next_id == t.next_id
            &&& s.next_id == store.next_id + 1
        }),
{
}

/// Every path recorded in a block's state leads, in `rows`, to the row of
/// the identifier recorded with it.
pub open spec fn entries_resolve(rows: Seq<EntryView>, entries: Seq<(Seq<char>, u64)>) -> bool {
    forall|k: int|
        0 <= k < entries.len() ==> {
            let r = resolve(rows, spec_components((#[trigger] entries[k]).0));
            r.is_some() && rows[r->Some_0].id == entries[k].1
        }
}

proof fn lemma_lookup_new_in(entries: Seq<(Seq<char>, u64)>, q: Seq<char>)
    requires
        lookup_new(entries, q).is_some(),
    ensures
        exists|k: int| 0 <= k < entries.len() && #[trigger] entries[k] == (q, lookup_new(entries, q)->Some_0),
    decreases entries.len(),
{
    if entries.last().0 == q {
        assert(entries[entries.len() - 1] == (q, lookup_new(entries, q)->Some_0));
    } else {
        lemma_lookup_new_in(entries.drop_last(), q);
        let k = choose|k: int| 0 <= k < entries.drop_last().len() && #[trigger] entries.drop_last()[k] == (q, lookup_new(entries, q)->Some_0);
        assert(entries[k] == entries.drop_last()[k]);
    }
}

/// After a successful `Add` at a valid path, the path leads to the new row,
/// every lookup that succeeded before still gives the same row, and the
/// block's recorded paths still lead to their rows.
pub proof fn lemma_add_step_found(
    store: StoreView,
    st: StateView,
    path: Seq<char>,
    obj: Object,
    bid: Seq<u8>,
    ts: u64,
)
    requires
        valid_path(path),
        entries_resolve(store.rows, st.new_entries),
        spec_add_step(store, st, path, obj, bid, ts).is_ok(),
    ensures
        ({
            let (s, t) = spec_add_step(store, st, path, obj, bid, ts)->Ok_0;
            &&& s.rows.len() == store.rows.len() + 1
            &&& s.rows.drop_last() == store.rows
            &&& resolve(s.rows, spec_components(path)) == Some(store.rows.len() as int)
            &&& s.rows[store.rows.len() as int].payload == spec_encode_object(obj)
            &&& s.rows[store.rows.len() as int].type_id == spec_type_id(obj)
            &&& s.rows[store.rows.len() as int].block_id == bid
            &&& s.rows[store.rows.len() as int].timestamp == ts
            &&& entries_resolve(s.rows, t.new_entries)
            &&& forall|c: Seq<Seq<char>>|
                resolve(store.rows, c).is_some() ==> #[trigger] resolve(s.rows, c) == resolve(
                    store.rows,
                    c,
                )
        }),
{
    let (s, t) = spec_add_step(store, st, path, obj, bid, ts)->Ok_0;
    let p = spec_parent_entry(store, st, path)->Some_0;
    let name = spec_entry_name(path);
    let row = s.rows.last();
    assert(s.rows == store.rows.push(row));
    assert(s.rows.drop_last() =~= store.rows);
    assert(find_child(store.rows, row.parent_id, row.name).is_none());
    assert forall|c: Seq<Seq<char>>| resolve(store.rows, c).is_some() implies #[trigger] resolve(
        s.rows,
        c,
    ) == resolve(store.rows, c) by {
        crate::store::lemma_resolve_stable(store.rows, row, c);
    }
    if path.len() <= 1 {
        assert(path =~= root_seq());
        crate::path::lemma_root_boundaries();
        assert(spec_components(path) =~= Seq::<Seq<char>>::empty());
        assert(find_child(s.rows, ROOT_ENTRY_ID, Seq::empty()) == Some(store.rows.len() as int));
    } else {
        lemma_parent_valid(path);
        let q = parent_seq(path);
        let j: int;
        if lookup_new(st.new_entries, q).is_some() {
            lemma_lookup_new_in(st.new_entries, q);
            let k = choose|k: int| 0 <= k < st.new_entries.len() && #[trigger] st.new_entries[k] == (q, lookup_new(st.new_entries, q)->Some_0);
            assert(st.new_entries[k].0 == q);
            j = resolve(store.rows, spec_components(q))->Some_0;
        } else {
            j = resolve(store.rows, spec_components(q))->Some_0;
        }
        assert(resolve(store.rows, spec_components(q)) == Some(j));
        assert(store.rows[j].id == p);
        crate::store::lemma_resolve_bounds(store.rows, spec_components(q));
        assert(resolve(s.rows, spec_components(q)) == Some(j));
        assert(s.rows[j] == store.rows[j]);
        let cp = spec_components(path);
        assert(cp.drop_last() =~= spec_components(q));
        assert(find_child(s.rows, p, name) == Some(store.rows.len() as int));
    }
    assert forall|k: int| 0 <= k < t.new_entries.len() implies {
        let r = resolve(s.rows, spec_components((#[trigger] t.new_entries[k]).0));
        r.is_some() && s.rows[r->Some_0].id == t.new_entries[k].1
    } by {
        if k < st.new_entries.len() {
            assert(t.new_entries[k] == st.new_entries[k]);
            let c = spec_components(st.new_entries[k].0);
            let r0 = resolve(store.rows, c);
            assert(r0.is_some() && store.rows[r0->Some_0].id == st.new_entries[k].1);
            crate::store::lemma_resolve_bounds(store.rows, c);
            assert(resolve(s.rows, c) == r0);
            assert(s.rows[r0->Some_0] == store.rows[r0->Some_0]);
        } else {
            assert(t.new_entries[k] == (path, st.next_id));
        }
    }
}

/// The number an operation type is written as.
pub open spec fn optype_code(t: Type) -> nat {
    1
}

/// The canonical encoding of an operation.
pub open spec fn spec_encode_op(op: Op) -> Seq<u8> {
    spec_varint_field(1, optype_code(op.optype)) + (spec_len_field(2, utf8(op.path@))
        + spec_len_field(3, spec_encode_object(op.objectclass)))
}

/// The digest of an operation.
pub open spec fn spec_hash_op(op: Op) -> Seq<u8> {
    spec_hash_struct(
        seq![
            spec_member("optype"@, spec_hash_str("ADD"@)),
            spec_member("path"@, spec_hash_str(op.path@)),
            spec_member("objectclass"@, spec_hash_object(op.objectclass)),
        ],
    )
}

impl State {
    /// A fresh state that allocates from `next_entry_id`.
    pub fn new(next_entry_id: EntryId) -> (r: State)
        ensures
            r@.next_id == next_entry_id.0,
            r@.new_entries.len() == 0,
    {
        let r = State { next_entry_id, new_entries: Vec::new() };
        assert(r@.new_entries =~= Seq::<(Seq<char>, u64)>::empty());
        r
    }

    /// Allocates the next entry identifier.
    pub fn get_entry_id(&mut self) -> (r: EntryId)
        requires
            old(self)@.next_id < u64::MAX,
        ensures
            r.0 == old(self)@.next_id,
            final(self)@.next_id == old(self)@.next_id + 1,
            final(self)@.new_entries == old(self)@.new_entries,
    {
        let id = self.next_entry_id;
        self.next_entry_id = EntryId(id.0 + 1);
        id
    }

    /// The entry most recently made at `path` in this block.
    fn lookup(&self, path: &Path) -> (r: Option<EntryId>)
        ensures
            r matches Some(e) ==> lookup_new(self@.new_entries, path@) == Some(e.0),
            r.is_none() ==> lookup_new(self@.new_entries, path@).is_none(),
    {
        let mut i: usize = self.new_entries.len();
        assert(self@.new_entries.subrange(0, i as int) =~= self@.new_entries);
        while i > 0
            invariant
                i <= self.new_entries.len(),
                lookup_new(self@.new_entries, path@) == lookup_new(
                    self@.new_entries.subrange(0, i as int),
                    path@,
                ),
            decreases i,
        {
            let ghost pre = self@.new_entries.subrange(0, i as int);
            assert(pre.drop_last() =~= self@.new_entries.subrange(0, i - 1));
            assert(pre.last() == (self.new_entries[i - 1].0@, self.new_entries[i - 1].1.0));
            if path_eq(&self.new_entries[i - 1].0, path) {
                return Some(self.new_entries[i - 1].1);
            }
            i = i - 1;
        }
        None
    }
}

fn path_eq(a: &Path, b: &Path) -> (r: bool)
    ensures
        r == (a@ == b@),
{
    chars_eq(a.as_str(), b.as_str())
}

impl Op {
    pub fn new(optype: Type, path: PathBuf, objectclass: Object) -> (r: Op)
        ensures
            r.optype == optype,
            r.path@ == path@,
            r.objectclass == objectclass,
    {
        Op { optype, path, objectclass }
    }

    /// Applies this operation to `txn`, as part of the block `block_id`
    /// written at `timestamp`. On an error the transaction is to be dropped.
    pub fn apply(
        &self,
        adapter: &MemoryAdapter,
        txn: &mut Transaction,
        state: &mut State,
        block_id: Id,
        timestamp: u64,
    ) -> (r: Result<(), Error>)
        requires
            valid_path(self.path@),
        ensures
            step_agrees(
                r,
                spec_add_step(
                    old(txn)@,
                    old(state)@,
                    self.path@,
                    self.objectclass,
                    block_id@,
                    timestamp,
                ),
                final(txn)@,
                final(state)@,
            ),
            r is Err ==> final(state)@.new_entries == old(state)@.new_entries && final(txn)@ == old(
                txn,
            )@,
    {
        match self.optype {
            Type::Add => self.add(adapter, txn, state, block_id, timestamp),
        }
    }

    fn add(
        &self,
        adapter: &MemoryAdapter,
        txn: &mut Transaction,
        state: &mut State,
        block_id: Id,
        timestamp: u64,
    ) -> (r: Result<(), Error>)
        requires
            valid_path(self.path@),
        ensures
            step_agrees(
                r,
                spec_add_step(
                    old(txn)@,
                    old(state)@,
                    self.path@,
                    self.objectclass,
                    block_id@,
                    timestamp,
                ),
                final(txn)@,
                final(state)@,
            ),
            r is Err ==> final(state)@.new_entries == old(state)@.new_entries && final(txn)@ == old(
                txn,
            )@,
    {
        if state.next_entry_id.0 == u64::MAX {
            return Err(Error::StorageFailure);
        }
        let ghost st0 = state@;
        let entry_id = state.get_entry_id();
        let path = self.path.as_path();
        let parent_id = match path.parent() {
            Some(parent) => {
                match state.lookup(&parent) {
                    Some(id) => id,
                    None => {
                        match adapter.find_direntry(txn, &parent) {
                            Ok(e) => e.id,
                            Err(e) => {
                                assert(spec_parent_entry(old(txn)@, st0, self.path@).is_none());
                                return Err(e);
                            },
                        }
                    },
                }
            },
            None => EntryId::root(),
        };
        assert(st0.new_entries == state@.new_entries);
        assert(Some(parent_id.0) == spec_parent_entry(old(txn)@, st0, self.path@));
        let name = match path.entry_name() {
            Some(n) => n,
            None => {
                return Err(Error::PathInvalid);
            },
        };
        let metadata = Metadata { block_id, timestamp };
        let entry = Entry { type_id: self.objectclass.type_id(), data: self.objectclass.encode() };
        let added = adapter.add_entry(txn, entry_id, parent_id, name.as_str(), &metadata, entry);
        match added {
            Ok(()) => {},
            Err(e) => {
                return Err(e);
            },
        }
        let ghost before = state.new_entries@;
        state.new_entries.push((path, entry_id));
        proof {
            assert(state@.new_entries =~= st0.new_entries.push((self.path@, entry_id.0)));
        }
        Ok(())
    }

    /// The canonical encoding of this operation.
    pub fn encode(&self) -> (r: Vec<u8>)
        ensures
            r@ == spec_encode_op(*self),
    {
        let mut out: Vec<u8> = Vec::new();
        write_varint_field(&mut out, 1, 1);
        let p = self.path.as_path();
        let pb = utf8_bytes(p.as_str());
        write_len_field(&mut out, 2, pb.as_slice());
        let ob = self.objectclass.encode();
        write_len_field(&mut out, 3, ob.as_slice());
        assert(out@ =~= spec_encode_op(*self));
        out
    }

    /// The digest of this operation.
    pub fn objecthash(&self) -> (r: Vec<u8>)
        ensures
            r@ == spec_hash_op(*self),
            r@.len() == DIGEST_SIZE,
    {
        let mut members: Vec<Vec<u8>> = Vec::new();
        let h1 = hash_str("ADD");
        push_member(&mut members, member("optype", &h1));
        let p = self.path.as_path();
        let h2 = hash_str(p.as_str());
        push_member(&mut members, member("path", &h2));
        let h3 = self.objectclass.objecthash();
        push_member(&mut members, member("objectclass", &h3));
        assert(members.deep_view() =~= seq![
            spec_member("optype"@, spec_hash_str("ADD"@)),
            spec_member("path"@, spec_hash_str(self.path@)),
            spec_member("objectclass"@, spec_hash_object(self.objectclass)),
        ]);
        hash_struct(members)
    }
}

} // verus!
