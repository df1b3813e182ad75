//! A slotted body: a directory of variable-length records in a region of
//! fixed byte size, each record paying for its bytes and one directory entry.
use vstd::prelude::*;

verus! {

/// Bytes that the body's own header takes.
pub const SLOTTED_HEADER_SIZE: usize = 8;

/// Bytes that one directory entry takes.
pub const POINTER_SIZE: usize = 4;

/// Bytes that a sequence of records takes, directory entries included.
pub open spec fn used_bytes(records: Seq<Seq<u8>>) -> int
    decreases records.len(),
{
    if records.len() == 0 {
        0
    } else {
        used_bytes(records.drop_last()) + records.last().len() + POINTER_SIZE
    }
}

/// Inserting a record anywhere adds its bytes and one directory entry.
pub proof fn lemma_used_bytes_insert(records: Seq<Seq<u8>>, i: int, r: Seq<u8>)
    requires
        0 <= i <= records.len(),
    ensures
        used_bytes(records.insert(i, r)) == used_bytes(records) + r.len() + POINTER_SIZE,
    decreases records.len(),
{
    let s = records.insert(i, r);
    if i == records.len() {
        assert(s.drop_last() =~= records);
    } else {
        lemma_used_bytes_insert(records.drop_last(), i, r);
        assert(s.drop_last() =~= records.drop_last().insert(i, r));
    }
}

/// Every record takes at least its directory entry.
pub proof fn lemma_used_bytes_bound(records: Seq<Seq<u8>>)
    ensures
        used_bytes(records) >= records.len() * POINTER_SIZE,
    decreases records.len(),
{
    if records.len() > 0 {
        lemma_used_bytes_bound(records.drop_last());
    }
}

/// The body of a page: records by slot, the region's size and its free bytes.
pub struct Slotted {
    size: usize,
    free: usize,
    slots: Vec<Vec<u8>>,
}

impl Slotted {
    /// The records, by slot.
    pub closed spec fn records(&self) -> Seq<Seq<u8>> {
        self.slots@.map_values(|r: Vec<u8>| r@)
    }

    /// Bytes of the whole region.
    pub closed spec fn size(&self) -> nat {
        self.size as nat
    }

    /// Bytes still free in the region.
    pub closed spec fn free(&self) -> nat {
        self.free as nat
    }

    /// Header, records and free space add up to the region.
    pub closed spec fn wf(&self) -> bool {
        &&& self.size >= SLOTTED_HEADER_SIZE
        &&& SLOTTED_HEADER_SIZE + used_bytes(self.records()) + self.free == self.size
    }

    /// An empty body over a region of `size` bytes.
    pub fn new(size: usize) -> (r: Slotted)
        requires
            size >= SLOTTED_HEADER_SIZE,
        ensures
            r.wf(),
            r.size() == size,
            r.records() == Seq::<Seq<u8>>::empty(),
            r.free() == size - SLOTTED_HEADER_SIZE,
    {
        let r = Slotted { size, free: size - SLOTTED_HEADER_SIZE, slots: Vec::new() };
        assert(r.records() =~= Seq::<Seq<u8>>::empty());
        r
    }

    /// Bytes that records and their directory entries may take in all.
    pub fn capacity(&self) -> (r: usize)
        requires
            self.wf(),
        ensures
            r == self.size() - SLOTTED_HEADER_SIZE,
    {
        self.size - SLOTTED_HEADER_SIZE
    }

    /// Bytes still free.
    pub fn free_space(&self) -> (r: usize)
        ensures
            r == self.free(),
    {
        self.free
    }

    /// Number of records.
    pub fn num_slots(&self) -> (r: usize)
        ensures
            r == self.records().len(),
    {
        self.slots.len()
    }

    /// Header, records and free space add up to the region, which holds
    /// fewer records than `usize` counts.
    pub proof fn lemma_slot_count_bound(&self)
        requires
            self.wf(),
        ensures
            self.records().len() * POINTER_SIZE <= self.size(),
            self.size() <= usize::MAX,
            SLOTTED_HEADER_SIZE + used_bytes(self.records()) + self.free() == self.size(),
    {
        lemma_used_bytes_bound(self.records());
    }

    /// The record in slot `index`.
    pub fn slot(&self, index: usize) -> (r: &[u8])
        requires
            index < self.records().len(),
        ensures
            r@ == self.records()[index as int],
    {
        self.slots[index].as_slice()
    }

    /// Drops every record.
    pub fn initialize(&mut self)
        requires
            old(self).wf(),
        ensures
            final(self).wf(),
            final(self).size() == old(self).size(),
            final(self).records() == Seq::<Seq<u8>>::empty(),
            final(self).free() == old(self).size() - SLOTTED_HEADER_SIZE,
    {
        self.slots = Vec::new();
        self.free = self.size - SLOTTED_HEADER_SIZE;
        assert(self.records() =~= Seq::<Seq<u8>>::empty());
    }

    /// Puts `record` into slot `index`, moving the later slots up by one, when
    /// the free space holds it and its directory entry; otherwise leaves the
    /// body as it was and returns `None`.
    pub fn insert(&mut self, index: usize, record: Vec<u8>) -> (r: Option<()>)
        requires
            old(self).wf(),
            index <= old(self).records().len(),
        ensures
            final(self).wf(),
            r is Some <==> record@.len() + POINTER_SIZE <= old(self).free(),
            r is Some ==> final(self).records() == old(self).records().insert(
                index as int,
                record@,
            ) && final(self).size() == old(self).size() && final(self).free() == old(
                self,
            ).free() - record@.len() - POINTER_SIZE,
            r is None ==> *final(self) == *old(self),
    {
        let len = record.len();
        if len > self.free || self.free - len < POINTER_SIZE {
            return None;
        }
        let ghost old_records = self.records();
        self.slots.insert(index, record);
        self.free = self.free - len - POINTER_SIZE;
        proof {
            assert(self.records() =~= old_records.insert(index as int, record@));
            lemma_used_bytes_insert(old_records, index as int, record@);
        }
        Some(())
    }
}

} // verus!
