//! A leaf page: sibling links in a fixed header, then a slotted body whose
//! records are the leaf's key/value pairs in ascending key order.
use vstd::prelude::*;
use crate::codec::{
    encode_pair, encode_record, is_record, lemma_decode_encode, lemma_le_round_trip,
    le_bytes, le_value, record_key, record_len, record_value,
    u64_from_le, u64_to_le, Pair,
};
use crate::lex::{compare_keys, lex_lt, lemma_lex_irreflexive, lemma_lex_total, lemma_lex_transitive};
use crate::page_id::{decode_page_id, encode_page_id, PageId, INVALID_PAGE_ID};
use crate::search::{
    lemma_insert_then_found, lemma_scan_boundary, lemma_search_err, lemma_search_found,
    linear_search, sorted_keys,
};
use crate::slotted::{used_bytes, Slotted, POINTER_SIZE, SLOTTED_HEADER_SIZE};

verus! {

/// Bytes that the leaf header takes: two page identifiers.
pub const LEAF_HEADER_SIZE: usize = 16;

/// The smallest page a leaf fits in: its header, the body's header and room
/// for a pair of at least zero bytes.
pub const MIN_PAGE_SIZE: usize = 32;

/// The sibling links of a leaf, each stored in its sentinel-encoded form.
#[derive(Clone, Copy, Debug, PartialEq, Eq, Structural)]
pub struct Header {
    pub prev_page_id: PageId,
    pub next_page_id: PageId,
}

/// The header as it lies at the start of a page: the previous leaf's
/// identifier, then the next one's, each as eight little-endian bytes.
pub open spec fn header_bytes(h: Header) -> Seq<u8> {
    le_bytes(h.prev_page_id.0) + le_bytes(h.next_page_id.0)
}

/// The header that the first sixteen bytes of a page hold.
pub open spec fn header_of_bytes(b: Seq<u8>) -> Header {
    Header {
        prev_page_id: PageId(le_value(b.subrange(0, 8))),
        next_page_id: PageId(le_value(b.subrange(8, 16))),
    }
}

impl Header {
    /// Reads the header from the first sixteen bytes of `page`.
    pub fn from_bytes(page: &[u8]) -> (r: Header)
        requires
            page@.len() >= LEAF_HEADER_SIZE,
        ensures
            r == header_of_bytes(page@),
    {
        let prev = u64_from_le(vstd::slice::slice_subrange(page, 0, 8));
        let next = u64_from_le(vstd::slice::slice_subrange(page, 8, 16));
        Header { prev_page_id: PageId(prev), next_page_id: PageId(next) }
    }

    /// The sixteen bytes that hold the header on a page.
    pub fn to_bytes(&self) -> (r: Vec<u8>)
        ensures
            r@ == header_bytes(*self),
    {
        let mut out = u64_to_le(self.prev_page_id.0);
        let mut next = u64_to_le(self.next_page_id.0);
        out.append(&mut next);
        out
    }
}

/// Writing a header and reading it back gives the same header, and the
/// header takes exactly `LEAF_HEADER_SIZE` bytes.
pub proof fn lemma_header_round_trip(h: Header)
    ensures
        header_bytes(h).len() == LEAF_HEADER_SIZE,
        header_of_bytes(header_bytes(h)) == h,
{
    let b = header_bytes(h);
    lemma_le_round_trip(h.prev_page_id.0);
    lemma_le_round_trip(h.next_page_id.0);
    assert(b.subrange(0, 8) =~= le_bytes(h.prev_page_id.0));
    assert(b.subrange(8, 16) =~= le_bytes(h.next_page_id.0));
}

/// Bytes that `pairs` take in a body: each pair's record and its directory
/// entry.
pub open spec fn pairs_bytes(pairs: Seq<(Seq<u8>, Seq<u8>)>) -> int
    decreases pairs.len(),
{
    if pairs.len() == 0 {
        0
    } else {
        pairs_bytes(pairs.drop_last()) + record_len(
            pairs.last().0.len() as int,
            pairs.last().1.len() as int,
        ) + POINTER_SIZE
    }
}

/// What a leaf holds.
pub struct LeafModel {
    pub prev_page_id: Option<PageId>,
    pub next_page_id: Option<PageId>,
    pub pairs: Seq<(Seq<u8>, Seq<u8>)>,
    pub page_size: nat,
    pub free_space: nat,
}

/// The keys of `pairs`, in order.
pub open spec fn keys_of(pairs: Seq<(Seq<u8>, Seq<u8>)>) -> Seq<Seq<u8>> {
    pairs.map_values(|p: (Seq<u8>, Seq<u8>)| p.0)
}

/// Largest record that a leaf of `page_size` bytes accepts: half of what its
/// body can hold, less one directory entry.
pub open spec fn max_pair_size_of(page_size: nat) -> int {
    (page_size - LEAF_HEADER_SIZE - SLOTTED_HEADER_SIZE) / 2 - POINTER_SIZE
}

/// A leaf of the tree: its sibling links and the records of its pairs, held
/// in the byte budget of one page.
pub struct Leaf {
    header: Header,
    body: Slotted,
}

impl View for Leaf {
    type V = LeafModel;

    closed spec fn view(&self) -> LeafModel {
        LeafModel {
            prev_page_id: decode_page_id(self.header.prev_page_id),
            next_page_id: decode_page_id(self.header.next_page_id),
            pairs: self.body.records().map_values(
                |r: Seq<u8>| (record_key(r), record_value(r)),
            ),
            page_size: (self.body.size() + LEAF_HEADER_SIZE) as nat,
            free_space: self.body.free(),
        }
    }
}

impl Leaf {
    /// The body is sound, each slot holds a record, and the keys ascend.
    pub closed spec fn wf(&self) -> bool {
        &&& self.body.wf()
        &&& self.body.size() + LEAF_HEADER_SIZE >= MIN_PAGE_SIZE
        &&& self.body.size() + LEAF_HEADER_SIZE <= usize::MAX
        &&& forall|i: int| 0 <= i < self.body.records().len() ==> is_record(#[trigger] self.body.records()[i])
        &&& sorted_keys(keys_of(self@.pairs))
    }

    /// An empty leaf over a page of `page_size` bytes, with no siblings.
    pub fn new(page_size: usize) -> (r: Leaf)
        requires
            page_size >= MIN_PAGE_SIZE,
        ensures
            r.wf(),
            r@.prev_page_id is None,
            r@.next_page_id is None,
            r@.pairs == Seq::<(Seq<u8>, Seq<u8>)>::empty(),
            r@.page_size == page_size,
            r@.free_space == page_size - LEAF_HEADER_SIZE - SLOTTED_HEADER_SIZE,
    {
        let header = Header { prev_page_id: PageId::invalid(), next_page_id: PageId::invalid() };
        let body = Slotted::new(page_size - LEAF_HEADER_SIZE);
        let r = Leaf { header, body };
        assert(r@.pairs =~= Seq::<(Seq<u8>, Seq<u8>)>::empty());
        r
    }

    /// A leaf over a page of `page@.len()` bytes whose sibling links are read
    /// from the page's header. The body's slot layout belongs to the slotted
    /// body, which starts empty here.
    pub fn from_page(page: &[u8]) -> (r: Leaf)
        requires
            page@.len() >= MIN_PAGE_SIZE,
        ensures
            r.wf(),
            r@.prev_page_id == decode_page_id(header_of_bytes(page@).prev_page_id),
            r@.next_page_id == decode_page_id(header_of_bytes(page@).next_page_id),
            r@.pairs == Seq::<(Seq<u8>, Seq<u8>)>::empty(),
            r@.page_size == page@.len(),
            r@.free_space == page@.len() - LEAF_HEADER_SIZE - SLOTTED_HEADER_SIZE,
    {
        let header = Header::from_bytes(page);
        let body = Slotted::new(page.len() - LEAF_HEADER_SIZE);
        let r = Leaf { header, body };
        assert(r@.pairs =~= Seq::<(Seq<u8>, Seq<u8>)>::empty());
        r
    }

    /// The leaf's header in its stored form, as `header_bytes` lays it out.
    pub fn header(&self) -> (r: Header)
        ensures
            decode_page_id(r.prev_page_id) == self@.prev_page_id,
            decode_page_id(r.next_page_id) == self@.next_page_id,
    {
        self.header
    }

    /// The leaf before this one, if any.
    pub fn prev_page_id(&self) -> (r: Option<PageId>)
        ensures
            r == self@.prev_page_id,
            r matches Some(p) ==> p.0 != INVALID_PAGE_ID,
    {
        self.header.prev_page_id.valid()
    }

    /// The leaf after this one, if any.
    pub fn next_page_id(&self) -> (r: Option<PageId>)
        ensures
            r == self@.next_page_id,
            r matches Some(p) ==> p.0 != INVALID_PAGE_ID,
    {
        self.header.next_page_id.valid()
    }

    /// Number of pairs held.
    pub fn num_pairs(&self) -> (r: usize)
        ensures
            r == self@.pairs.len(),
    {
        self.body.num_slots()
    }

    /// Largest record, in bytes, that `insert` accepts.
    pub fn max_pair_size(&self) -> (r: usize)
        requires
            self.wf(),
        ensures
            r == max_pair_size_of(self@.page_size),
    {
        self.body.capacity() / 2 - POINTER_SIZE
    }

    /// The pair in slot `slot_id`.
    pub fn pair_at(&self, slot_id: usize) -> (r: Pair)
        requires
            self.wf(),
            slot_id < self@.pairs.len(),
        ensures
            r.key@ == self@.pairs[slot_id as int].0,
            r.value@ == self@.pairs[slot_id as int].1,
    {
        Pair::from_bytes(self.body.slot(slot_id))
    }

    /// Where `key` stands (`Ok`) or where it would have to be inserted to
    /// keep the keys ascending (`Err`), found by binary search.
    pub fn search_slot_id(&self, key: &[u8]) -> (r: Result<usize, usize>)
        requires
            self.wf(),
        ensures
            r == linear_search(keys_of(self@.pairs), key@),
    {
        let ghost keys = keys_of(self@.pairs);
        let n = self.body.num_slots();
        let mut lo: usize = 0;
        let mut hi: usize = n;
        while lo < hi
            invariant
                self.wf(),
                keys == keys_of(self@.pairs),
                n == keys.len(),
                lo <= hi <= n,
                forall|j: int| 0 <= j < lo ==> lex_lt(#[trigger] keys[j], key@),
                forall|j: int| hi <= j < n ==> lex_lt(key@, #[trigger] keys[j]),
            decreases hi - lo,
        {
            let mid = lo + (hi - lo) / 2;
            let pair = self.pair_at(mid);
            assert(pair.key@ == keys[mid as int]);
            match compare_keys(pair.key.as_slice(), key) {
                core::cmp::Ordering::Less => {
                    assert forall|j: int| 0 <= j < mid + 1 implies lex_lt(
                        #[trigger] keys[j],
                        key@,
                    ) by {
                        if j < mid {
                            lemma_lex_transitive(keys[j], keys[mid as int], key@);
                        }
                    }
                    lo = mid + 1;
                },
                core::cmp::Ordering::Greater => {
                    assert forall|j: int| mid <= j < n implies lex_lt(
                        key@,
                        #[trigger] keys[j],
                    ) by {
                        if j > mid {
                            lemma_lex_transitive(key@, keys[mid as int], keys[j]);
                        }
                    }
                    hi = mid;
                },
                core::cmp::Ordering::Equal => {
                    proof {
                        lemma_lex_irreflexive(key@);
                        assert forall|j: int| 0 <= j < mid implies lex_lt(
                            #[trigger] keys[j],
                            key@,
                        ) by {}
                        lemma_scan_boundary(keys, key@, mid as int);
                    }
                    return Ok(mid);
                },
            }
        }
        proof {
            if lo < n {
                lemma_lex_total(keys[lo as int], key@);
            }
            lemma_scan_boundary(keys, key@, lo as int);
        }
        Err(lo)
    }

    /// The pair with key `key`, if there is one.
    pub fn search_pair(&self, key: &[u8]) -> (r: Option<Pair>)
        requires
            self.wf(),
        ensures
            match linear_search(keys_of(self@.pairs), key@) {
                Ok(i) => r matches Some(p) && p.key@ == self@.pairs[i as int].0 && p.value@
                    == self@.pairs[i as int].1,
                Err(_) => r is None,
            },
    {
        match self.search_slot_id(key) {
            Ok(slot_id) => {
                proof {
                    self.body.lemma_slot_count_bound();
                    lemma_search_found(keys_of(self@.pairs), key@);
                }
                Some(self.pair_at(slot_id))
            },
            Err(_) => None,
        }
    }

    /// Empties the leaf and clears both sibling links.
    pub fn initialize(&mut self)
        requires
            old(self).wf(),
        ensures
            final(self).wf(),
            final(self)@.prev_page_id is None,
            final(self)@.next_page_id is None,
            final(self)@.pairs == Seq::<(Seq<u8>, Seq<u8>)>::empty(),
            final(self)@.page_size == old(self)@.page_size,
            final(self)@.free_space == old(self)@.page_size - LEAF_HEADER_SIZE
                - SLOTTED_HEADER_SIZE,
    {
        self.header.prev_page_id = PageId::invalid();
        self.header.next_page_id = PageId::invalid();
        self.body.initialize();
        assert(self@.pairs =~= Seq::<(Seq<u8>, Seq<u8>)>::empty());
    }

    /// Links the leaf to the one before it, or to none.
    pub fn set_prev_page_id(&mut self, prev_page_id: Option<PageId>)
        requires
            old(self).wf(),
        ensures
            final(self).wf(),
            final(self)@ == (LeafModel {
                prev_page_id: decode_page_id(encode_page_id(prev_page_id)),
                ..old(self)@
            }),
    {
        self.header.prev_page_id = PageId::from_option(prev_page_id);
    }

    /// Links the leaf to the one after it, or to none.
    pub fn st_next_page_id(&mut self, next_page_id: Option<PageId>)
        requires
            old(self).wf(),
        ensures
            final(self).wf(),
            final(self)@ == (LeafModel {
                next_page_id: decode_page_id(encode_page_id(next_page_id)),
                ..old(self)@
            }),
    {
        self.header.next_page_id = PageId::from_option(next_page_id);
    }

    /// Inserts the pair `key`, `value` at `slot_id`, the position that
    /// `search_slot_id` gives for a missing key. Returns `None`, with the leaf
    /// unchanged, when the free space cannot hold the pair's record and its
    /// directory entry: the leaf has to be split first.
    pub fn insert(&mut self, slot_id: usize, key: &[u8], value: &[u8]) -> (r: Option<()>)
        requires
            old(self).wf(),
            record_len(key@.len() as int, value@.len() as int) <= max_pair_size_of(
                old(self)@.page_size,
            ),
            linear_search(keys_of(old(self)@.pairs), key@) == Err::<usize, usize>(slot_id),
        ensures
            final(self).wf(),
            r is Some <==> record_len(key@.len() as int, value@.len() as int) + POINTER_SIZE
                <= old(self)@.free_space,
            r is Some ==> final(self)@ == (LeafModel {
                pairs: old(self)@.pairs.insert(slot_id as int, (key@, value@)),
                free_space: (old(self)@.free_space - record_len(
                    key@.len() as int,
                    value@.len() as int,
                ) - POINTER_SIZE) as nat,
                ..old(self)@
            }),
            r is None ==> final(self)@ == old(self)@,
            record_len(key@.len() as int, value@.len() as int) + POINTER_SIZE
                > old(self)@.free_space ==> r is None && final(self)@ == old(self)@,
    {
        let ghost old_records = self.body.records();
        let ghost old_pairs = self@.pairs;
        let key_len = key.len();
        let value_len = value.len();
        let record = encode_record(key, value);
        proof {
            lemma_decode_encode(key@, value@);
            self.body.lemma_slot_count_bound();
            lemma_search_err(keys_of(old_pairs), key@, slot_id);
        }
        let r = self.body.insert(slot_id, record);
        if r.is_none() {
            return None;
        }
        proof {
            let pairs = self@.pairs;
            assert(self.body.records() == old_records.insert(slot_id as int, record@));
            assert(pairs =~= old_pairs.insert(slot_id as int, (key@, value@)));
            assert(keys_of(pairs) =~= keys_of(old_pairs).insert(slot_id as int, key@));
            lemma_insert_then_found(keys_of(old_pairs), key@, slot_id);
            assert forall|i: int| 0 <= i < self.body.records().len() implies is_record(
                #[trigger] self.body.records()[i],
            ) by {
                if i < slot_id {
                    assert(self.body.records()[i] == old_records[i]);
                } else if i > slot_id {
                    assert(self.body.records()[i] == old_records[i - 1]);
                }
            }
        }
        r
    }
}


proof fn lemma_used_bytes_of_records(records: Seq<Seq<u8>>)
    requires
        forall|i: int| 0 <= i < records.len() ==> is_record(#[trigger] records[i]),
    ensures
        used_bytes(records) == pairs_bytes(
            records.map_values(|r: Seq<u8>| (record_key(r), record_value(r))),
        ),
    decreases records.len(),
{
    if records.len() > 0 {
        let f = |r: Seq<u8>| (record_key(r), record_value(r));
        let r = records.last();
        assert(is_record(records[records.len() - 1]));
        lemma_le_round_trip(record_key(r).len() as u64);
        lemma_le_round_trip(record_value(r).len() as u64);
        assert(r == encode_pair(record_key(r), record_value(r)));
        lemma_used_bytes_of_records(records.drop_last());
        assert(records.drop_last().map_values(f) =~= records.map_values(f).drop_last());
    }
}

/// The free space of a leaf is what its page leaves once the two headers
/// and every pair's record and directory entry are paid for.
pub proof fn lemma_free_space(leaf: &Leaf)
    requires
        leaf.wf(),
    ensures
        leaf@.free_space == leaf@.page_size - LEAF_HEADER_SIZE - SLOTTED_HEADER_SIZE
            - pairs_bytes(leaf@.pairs),
{
    leaf.body.lemma_slot_count_bound();
    lemma_used_bytes_of_records(leaf.body.records());
}

/// The pairs' keys ascend strictly.
pub open spec fn sorted_pairs(pairs: Seq<(Seq<u8>, Seq<u8>)>) -> bool {
    forall|a: int, b: int|
        0 <= a < b < pairs.len() ==> lex_lt(#[trigger] pairs[a].0, #[trigger] pairs[b].0)
}

/// In every leaf, whatever inserts built it, each pair's key sorts strictly
/// before the key of every later pair.
pub proof fn lemma_leaf_sorted(leaf: &Leaf)
    requires
        leaf.wf(),
    ensures
        sorted_pairs(leaf@.pairs),
{
    let keys = keys_of(leaf@.pairs);
    assert forall|a: int, b: int| 0 <= a < b < leaf@.pairs.len() implies lex_lt(
        #[trigger] leaf@.pairs[a].0,
        #[trigger] leaf@.pairs[b].0,
    ) by {
        assert(keys[a] == leaf@.pairs[a].0 && keys[b] == leaf@.pairs[b].0);
    }
}

/// Inserting a missing key with its value at the position that the search
/// gives keeps the pairs sorted; searching for the key again then finds it
/// at that position, holding exactly that key and value.
pub proof fn lemma_insert_round_trip(
    pairs: Seq<(Seq<u8>, Seq<u8>)>,
    key: Seq<u8>,
    value: Seq<u8>,
    slot_id: usize,
)
    requires
        sorted_pairs(pairs),
        pairs.len() < usize::MAX,
        linear_search(keys_of(pairs), key) == Err::<usize, usize>(slot_id),
    ensures
        sorted_pairs(pairs.insert(slot_id as int, (key, value))),
        linear_search(keys_of(pairs.insert(slot_id as int, (key, value))), key) == Ok::<
            usize,
            usize,
        >(slot_id),
        pairs.insert(slot_id as int, (key, value))[slot_id as int] == (key, value),
{
    let keys = keys_of(pairs);
    assert forall|a: int, b: int| 0 <= a < b < keys.len() implies lex_lt(
        #[trigger] keys[a],
        #[trigger] keys[b],
    ) by {
        assert(keys[a] == pairs[a].0 && keys[b] == pairs[b].0);
    }
    lemma_search_err(keys, key, slot_id);
    let p2 = pairs.insert(slot_id as int, (key, value));
    assert(keys_of(p2) =~= keys.insert(slot_id as int, key));
    lemma_insert_then_found(keys, key, slot_id);
    let k2 = keys_of(p2);
    assert forall|a: int, b: int| 0 <= a < b < p2.len() implies lex_lt(
        #[trigger] p2[a].0,
        #[trigger] p2[b].0,
    ) by {
        assert(k2[a] == p2[a].0 && k2[b] == p2[b].0);
    }
}

} // verus!
