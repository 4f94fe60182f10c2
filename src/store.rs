//! The transactional store the engine materializes the directory into.
//!
//! A transaction works on its own snapshot of the store: every write stays in
//! it until `commit` publishes the whole snapshot at once, and dropping it
//! discards them all.
use vstd::prelude::*;
use vstd::string::*;

use crate::block::Id;
use crate::error::Error;
use crate::object::TypeId;
use crate::path::{chars_eq, spec_components, valid_path, Path};

verus! {

/// An entry identifier, allocated in increasing order and never reused.
#[derive(Debug, Eq, PartialEq, Structural, Copy, Clone)]
pub struct EntryId(pub u64);

impl EntryId {
    /// The sentinel parent of the root entry; never allocated to an entry.
    pub fn root() -> (r: EntryId)
        ensures
            r.0 == ROOT_ENTRY_ID,
    {
        EntryId(0)
    }
}

/// The value of `EntryId::root`.
pub const ROOT_ENTRY_ID: u64 = 0;

/// Where and when an entry was written.
#[derive(Debug, Eq, PartialEq, Copy, Clone)]
pub struct Metadata {
    pub block_id: Id,
    /// Nanoseconds since the Unix epoch.
    pub timestamp: u64,
}

/// The payload of an entry row: its type and canonical bytes.
#[derive(Debug, Eq, PartialEq, Clone)]
pub struct Entry {
    pub type_id: TypeId,
    pub data: Vec<u8>,
}

/// A row of the directory.
#[derive(Debug, Eq, PartialEq, Clone)]
pub struct DirEntry {
    pub id: EntryId,
    pub parent_id: EntryId,
    pub name: String,
    pub type_id: TypeId,
    pub payload: Vec<u8>,
    pub metadata: Metadata,
}

/// The mathematical value of a row.
pub struct EntryView {
    pub id: u64,
    pub parent_id: u64,
    pub name: Seq<char>,
    pub type_id: TypeId,
    pub payload: Seq<u8>,
    pub block_id: Seq<u8>,
    pub timestamp: u64,
}

impl View for DirEntry {
    type V = EntryView;

    open spec fn view(&self) -> EntryView {
        EntryView {
            id: self.id.0,
            parent_id: self.parent_id.0,
            name: self.name@,
            type_id: self.type_id,
            payload: self.payload@,
            block_id: self.metadata.block_id@,
            timestamp: self.metadata.timestamp,
        }
    }
}

/// A stored block: its identifier and its canonical bytes.
#[derive(Debug, Eq, PartialEq, Clone)]
pub struct StoredBlock {
    pub id: Id,
    pub data: Vec<u8>,
}

/// The contents of a store.
pub struct StoreView {
    pub rows: Seq<EntryView>,
    pub blocks: Seq<(Seq<u8>, Seq<u8>)>,
    pub next_id: u64,
}

/// A transaction: a private snapshot of the store.
#[derive(Debug)]
pub struct Transaction {
    rows: Vec<DirEntry>,
    blocks: Vec<StoredBlock>,
    next_id: u64,
}

/// An in-memory store.
#[derive(Debug)]
pub struct MemoryAdapter {
    rows: Vec<DirEntry>,
    blocks: Vec<StoredBlock>,
    next_id: u64,
}

pub open spec fn rows_view(rows: Seq<DirEntry>) -> Seq<EntryView> {
    rows.map_values(|e: DirEntry| e@)
}

pub open spec fn blocks_view(blocks: Seq<StoredBlock>) -> Seq<(Seq<u8>, Seq<u8>)> {
    blocks.map_values(|b: StoredBlock| (b.id@, b.data@))
}

impl View for Transaction {
    type V = StoreView;

    closed spec fn view(&self) -> StoreView {
        StoreView { rows: rows_view(self.rows@), blocks: blocks_view(self.blocks@), next_id: self.next_id }
    }
}

impl View for MemoryAdapter {
    type V = StoreView;

    closed spec fn view(&self) -> StoreView {
        StoreView { rows: rows_view(self.rows@), blocks: blocks_view(self.blocks@), next_id: self.next_id }
    }
}

/// Index of the last row named `name` under `parent`, if any.
pub open spec fn find_child(rows: Seq<EntryView>, parent: u64, name: Seq<char>) -> Option<int>
    decreases rows.len(),
{
    if rows.len() == 0 {
        None
    } else if rows.last().parent_id == parent && rows.last().name == name {
        Some(rows.len() - 1)
    } else {
        find_child(rows.drop_last(), parent, name)
    }
}

/// Index of the row that a path's components lead to. The root path names
/// the row with the empty name under the sentinel parent.
pub open spec fn resolve(rows: Seq<EntryView>, comps: Seq<Seq<char>>) -> Option<int>
    decreases comps.len(),
{
    if comps.len() == 0 {
        find_child(rows, ROOT_ENTRY_ID, Seq::empty())
    } else {
        match resolve(rows, comps.drop_last()) {
            Some(i) => find_child(rows, rows[i].id, comps.last()),
            None => None,
        }
    }
}

/// Whether some row has the identifier `id`.
pub open spec fn has_id(rows: Seq<EntryView>, id: u64) -> bool {
    exists|i: int| 0 <= i < rows.len() && (#[trigger] rows[i]).id == id
}

/// Whether some stored block has the identifier `id`.
pub open spec fn has_block(blocks: Seq<(Seq<u8>, Seq<u8>)>, id: Seq<u8>) -> bool {
    exists|i: int| 0 <= i < blocks.len() && (#[trigger] blocks[i]).0 == id
}

/// Every row's identifier is below the next free one, and the next free one
/// is never the sentinel.
pub open spec fn store_wf(s: StoreView) -> bool {
    &&& s.next_id > ROOT_ENTRY_ID
    &&& forall|i: int| 0 <= i < s.rows.len() ==> (#[trigger] s.rows[i]).id < s.next_id
}

pub proof fn lemma_find_child_bounds(rows: Seq<EntryView>, parent: u64, name: Seq<char>)
    ensures
        find_child(rows, parent, name) matches Some(i) ==> 0 <= i < rows.len() && rows[i].parent_id
            == parent && rows[i].name == name,
        find_child(rows, parent, name).is_none() ==> forall|i: int|
            0 <= i < rows.len() ==> !((#[trigger] rows[i]).parent_id == parent && rows[i].name
                == name),
    decreases rows.len(),
{
    if rows.len() > 0 {
        lemma_find_child_bounds(rows.drop_last(), parent, name);
        if find_child(rows, parent, name) is None {
            assert forall|i: int| 0 <= i < rows.len() implies !((#[trigger] rows[i]).parent_id
                == parent && rows[i].name == name) by {
                if i < rows.len() - 1 {
                    assert(rows[i] == rows.drop_last()[i]);
                }
            }
        }
    }
}

pub proof fn lemma_resolve_bounds(rows: Seq<EntryView>, comps: Seq<Seq<char>>)
    ensures
        resolve(rows, comps) matches Some(i) ==> 0 <= i < rows.len(),
    decreases comps.len(),
{
    if comps.len() == 0 {
        lemma_find_child_bounds(rows, ROOT_ENTRY_ID, Seq::empty());
    } else {
        lemma_resolve_bounds(rows, comps.drop_last());
        if let Some(i) = resolve(rows, comps.drop_last()) {
            lemma_find_child_bounds(rows, rows[i].id, comps.last());
        }
    }
}

/// A row appended under a name its parent does not hold yet changes no
/// lookup that already succeeded.
pub proof fn lemma_resolve_stable(old: Seq<EntryView>, row: EntryView, comps: Seq<Seq<char>>)
    requires
        find_child(old, row.parent_id, row.name).is_none(),
        resolve(old, comps).is_some(),
    ensures
        resolve(old.push(row), comps) == resolve(old, comps),
    decreases comps.len(),
{
    let new = old.push(row);
    assert(new.drop_last() =~= old);
    if comps.len() == 0 {
    } else {
        lemma_resolve_stable(old, row, comps.drop_last());
        let i = resolve(old, comps.drop_last())->Some_0;
        lemma_resolve_bounds(old, comps.drop_last());
        assert(new[i] == old[i]);
    }
}

fn copy_entry(e: &DirEntry) -> (r: DirEntry)
    ensures
        r@ == e@,
{
    let payload = e.payload.clone();
    assert(payload@ =~= e.payload@);
    DirEntry {
        id: e.id,
        parent_id: e.parent_id,
        name: e.name.clone(),
        type_id: e.type_id,
        payload,
        metadata: e.metadata,
    }
}

fn copy_rows(rows: &Vec<DirEntry>) -> (r: Vec<DirEntry>)
    ensures
        rows_view(r@) == rows_view(rows@),
{
    let mut out: Vec<DirEntry> = Vec::new();
    let mut i: usize = 0;
    while i < rows.len()
        invariant
            i <= rows.len(),
            rows_view(out@) =~= rows_view(rows@.subrange(0, i as int)),
        decreases rows.len() - i,
    {
        let ghost before = out@;
        let e = copy_entry(&rows[i]);
        out.push(e);
        proof {
            assert(rows@.subrange(0, i + 1) =~= rows@.subrange(0, i as int).push(rows[i as int]));
            assert(rows_view(out@) =~= rows_view(before).push(e@));
            assert(rows_view(rows@.subrange(0, i + 1)) =~= rows_view(rows@.subrange(0, i as int)).push(rows[i as int]@));
        }
        i = i + 1;
    }
    assert(rows@.subrange(0, rows.len() as int) =~= rows@);
    out
}

fn copy_blocks(blocks: &Vec<StoredBlock>) -> (r: Vec<StoredBlock>)
    ensures
        blocks_view(r@) == blocks_view(blocks@),
{
    let mut out: Vec<StoredBlock> = Vec::new();
    let mut i: usize = 0;
    while i < blocks.len()
        invariant
            i <= blocks.len(),
            blocks_view(out@) =~= blocks_view(blocks@.subrange(0, i as int)),
        decreases blocks.len() - i,
    {
        let data = blocks[i].data.clone();
        assert(data@ =~= blocks[i as int].data@);
        let ghost before = out@;
        let b = StoredBlock { id: blocks[i].id, data };
        out.push(b);
        proof {
            assert(blocks@.subrange(0, i + 1) =~= blocks@.subrange(0, i as int).push(blocks[i as int]));
            assert(blocks_view(out@) =~= blocks_view(before).push((b.id@, b.data@)));
            assert(blocks_view(blocks@.subrange(0, i + 1)) =~= blocks_view(blocks@.subrange(0, i as int)).push((blocks[i as int].id@, blocks[i as int].data@)));
        }
        i = i + 1;
    }
    assert(blocks@.subrange(0, blocks.len() as int) =~= blocks@);
    out
}

/// Whether some row has the identifier `id`.
fn has_id_exec(rows: &Vec<DirEntry>, id: u64) -> (r: bool)
    ensures
        r == has_id(rows_view(rows@), id),
{
    let mut i: usize = 0;
    while i < rows.len()
        invariant
            i <= rows.len(),
            forall|k: int| 0 <= k < i ==> (#[trigger] rows_view(rows@)[k]).id != id,
        decreases rows.len() - i,
    {
        if rows[i].id.0 == id {
            assert(rows_view(rows@)[i as int].id == id);
            return true;
        }
        i = i + 1;
    }
    false
}

/// Index of the last row named `name` under `parent`.
fn find_child_exec(rows: &Vec<DirEntry>, parent: u64, name: &str) -> (r: Option<usize>)
    ensures
        r matches Some(i) ==> find_child(rows_view(rows@), parent, name@) == Some(i as int),
        r.is_none() ==> find_child(rows_view(rows@), parent, name@).is_none(),
{
    let mut i: usize = rows.len();
    assert(rows_view(rows@).subrange(0, rows.len() as int) =~= rows_view(rows@));
    while i > 0
        invariant
            i <= rows.len(),
            find_child(rows_view(rows@), parent, name@) == find_child(
                rows_view(rows@).subrange(0, i as int),
                parent,
                name@,
            ),
        decreases i,
    {
        let e = &rows[i - 1];
        let ghost pre = rows_view(rows@).subrange(0, i as int);
        assert(pre.drop_last() =~= rows_view(rows@).subrange(0, i - 1));
        assert(pre.last() == e@);
        if e.parent_id.0 == parent && chars_eq(e.name.as_str(), name) {
            return Some(i - 1);
        }
        i = i - 1;
    }
    None
}

impl MemoryAdapter {
    /// An empty store.
    pub fn new() -> (r: MemoryAdapter)
        ensures
            r@.rows.len() == 0,
            r@.blocks.len() == 0,
            r@.next_id == 1,
            store_wf(r@),
    {
        let r = MemoryAdapter { rows: Vec::new(), blocks: Vec::new(), next_id: 1 };
        assert(r@.rows =~= Seq::<EntryView>::empty());
        r
    }

    /// A transaction for reading: a snapshot of the store.
    pub fn ro_transaction(&self) -> (r: Transaction)
        ensures
            r@ == self@,
    {
        Transaction { rows: copy_rows(&self.rows), blocks: copy_blocks(&self.blocks), next_id: self.next_id }
    }

    /// A transaction for writing: a snapshot of the store that `commit`
    /// publishes.
    pub fn rw_transaction(&self) -> (r: Transaction)
        ensures
            r@ == self@,
    {
        Transaction { rows: copy_rows(&self.rows), blocks: copy_blocks(&self.blocks), next_id: self.next_id }
    }

    /// Publishes every write of `txn` at once.
    pub fn commit(&mut self, txn: Transaction)
        ensures
            final(self)@ == txn@,
    {
        self.rows = txn.rows;
        self.blocks = txn.blocks;
        self.next_id = txn.next_id;
    }

    /// The next unallocated entry identifier.
    pub fn next_free_entry_id(&self, txn: &Transaction) -> (r: EntryId)
        ensures
            r.0 == txn@.next_id,
    {
        EntryId(txn.next_id)
    }

    /// Stores a block's bytes under its identifier; fails if the identifier
    /// is already stored.
    pub fn add_block(&self, txn: &mut Transaction, id: Id, data: Vec<u8>) -> (r: Result<(), Error>)
        ensures
            r.is_ok() == !has_block(old(txn)@.blocks, id@),
            store_wf(old(txn)@) ==> store_wf(final(txn)@),
            r.is_err() ==> r == Err::<(), Error>(Error::StorageFailure) && final(txn)@ == old(
                txn,
            )@,
            r.is_ok() ==> final(txn)@ == (StoreView {
                blocks: old(txn)@.blocks.push((id@, data@)),
                ..old(txn)@
            }),
    {
        let mut i: usize = 0;
        while i < txn.blocks.len()
            invariant
                i <= txn.blocks.len(),
                txn@ == old(txn)@,
                forall|k: int| 0 <= k < i ==> (#[trigger] txn@.blocks[k]).0 != id@,
            decreases txn.blocks.len() - i,
        {
            if bytes_eq(txn.blocks[i].id.as_bytes(), id.as_bytes()) {
                assert(txn@.blocks[i as int].0 == id@);
                return Err(Error::StorageFailure);
            }
            i = i + 1;
        }
        txn.blocks.push(StoredBlock { id, data });
        proof {
            assert(blocks_view(txn.blocks@) =~= blocks_view(old(txn).blocks@).push((id@, data@)));
            assert(rows_view(txn.rows@) == old(txn)@.rows);
        }
        Ok(())
    }

    /// Inserts a directory row.
    ///
    /// Fails with `DirectoryNotFound` where `parent_id` is neither the
    /// sentinel nor the identifier of a row, and with `EntryAlreadyExists`
    /// where a row under `parent_id` already bears `name`.
    pub fn add_entry(
        &self,
        txn: &mut Transaction,
        id: EntryId,
        parent_id: EntryId,
        name: &str,
        metadata: &Metadata,
        entry: Entry,
    ) -> (r: Result<(), Error>)
        requires
            id.0 < u64::MAX,
        ensures
            r == Err::<(), Error>(Error::DirectoryNotFound) <==> (parent_id.0 != ROOT_ENTRY_ID
                && !has_id(old(txn)@.rows, parent_id.0)),
            r == Err::<(), Error>(Error::EntryAlreadyExists) <==> ((parent_id.0 == ROOT_ENTRY_ID
                || has_id(old(txn)@.rows, parent_id.0)) && find_child(
                old(txn)@.rows,
                parent_id.0,
                name@,
            ).is_some()),
            r.is_ok() == ((parent_id.0 == ROOT_ENTRY_ID || has_id(old(txn)@.rows, parent_id.0))
                && find_child(old(txn)@.rows, parent_id.0, name@).is_none()),
            r.is_err() ==> final(txn)@ == old(txn)@,
            store_wf(old(txn)@) ==> store_wf(final(txn)@),
            r.is_ok() ==> final(txn)@ == (StoreView {
                rows: old(txn)@.rows.push(
                    EntryView {
                        id: id.0,
                        parent_id: parent_id.0,
                        name: name@,
                        type_id: entry.type_id,
                        payload: entry.data@,
                        block_id: metadata.block_id@,
                        timestamp: metadata.timestamp,
                    },
                ),
                next_id: if id.0 >= old(txn)@.next_id {
                    (id.0 + 1) as u64
                } else {
                    old(txn)@.next_id
                },
                ..old(txn)@
            }),
    {
        if parent_id.0 != 0 && !has_id_exec(&txn.rows, parent_id.0) {
            return Err(Error::DirectoryNotFound);
        }
        if find_child_exec(&txn.rows, parent_id.0, name).is_some() {
            return Err(Error::EntryAlreadyExists);
        }
        let row = DirEntry {
            id,
            parent_id,
            name: String::from_str(name),
            type_id: entry.type_id,
            payload: entry.data,
            metadata: *metadata,
        };
        txn.rows.push(row);
        if id.0 >= txn.next_id {
            txn.next_id = id.0 + 1;
        }
        proof {
            assert(rows_view(txn.rows@) =~= rows_view(old(txn).rows@).push(row@));
            assert(blocks_view(txn.blocks@) == old(txn)@.blocks);
        }
        Ok(())
    }

    /// The row a path names.
    pub fn find_direntry(&self, txn: &Transaction, path: &Path) -> (r: Result<DirEntry, Error>)
        requires
            valid_path(path@),
        ensures
            r.is_ok() == resolve(txn@.rows, spec_components(path@)).is_some(),
            r matches Ok(e) ==> e@ == txn@.rows[resolve(txn@.rows, spec_components(path@))->0],
            r.is_err() ==> r == Err::<DirEntry, Error>(Error::DirectoryNotFound),
    {
        let comps = path.components();
        let ghost cv = comps.deep_view();
        proof {
            reveal_strlit("");
        }
        let mut cur = find_child_exec(&txn.rows, 0, "");
        let mut i: usize = 0;
        proof {
            assert(""@ =~= Seq::<char>::empty());
            lemma_find_child_bounds(txn@.rows, ROOT_ENTRY_ID, Seq::empty());
            assert(cv.subrange(0, 0) =~= Seq::<Seq<char>>::empty());
            lemma_resolve_bounds(txn@.rows, cv.subrange(0, 0));
        }
        while i < comps.len()
            invariant
                cv == comps.deep_view(),
                i <= comps.len(),
                rows_view(txn.rows@) == txn@.rows,
                cur matches Some(j) ==> resolve(txn@.rows, cv.subrange(0, i as int)) == Some(
                    j as int,
                ) && j < txn.rows.len(),
                cur.is_none() ==> resolve(txn@.rows, cv.subrange(0, i as int)).is_none(),
            decreases comps.len() - i,
        {
            let ghost pre = cv.subrange(0, i + 1);
            assert(pre.drop_last() =~= cv.subrange(0, i as int));
            assert(pre.last() == comps[i as int]@);
            match cur {
                Some(j) => {
                    cur = find_child_exec(&txn.rows, txn.rows[j].id.0, comps[i].as_str());
                    proof {
                        lemma_resolve_bounds(txn@.rows, pre);
                    }
                },
                None => {},
            }
            i = i + 1;
        }
        assert(cv.subrange(0, comps.len() as int) =~= cv);
        match cur {
            Some(j) => Ok(copy_entry(&txn.rows[j])),
            None => Err(Error::DirectoryNotFound),
        }
    }
}

/// Whether two byte strings are equal.
pub fn bytes_eq(a: &[u8], b: &[u8]) -> (r: bool)
    ensures
        r == (a@ == b@),
{
    if a.len() != b.len() {
        return false;
    }
    let mut i: usize = 0;
    while i < a.len()
        invariant
            a@.len() == b@.len(),
            i <= a.len(),
            forall|k: int| 0 <= k < i ==> a@[k] == b@[k],
        decreases a.len() - i,
    {
        if a[i] != b[i] {
            return false;
        }
        i = i + 1;
    }
    assert(a@ =~= b@);
    true
}

} // verus!
