//! Slotted pages: a fixed-size block of bytes whose front holds a header and
//! a slot directory growing forward, and whose back holds row bytes growing
//! backward.
//!
//! Layout (all integers are little-endian `u16`):
//! - bytes `0..2`: number of slots,
//! - bytes `2..4`: offset where the free space ends (rows start there),
//! - slot `i` at `4 + 4 * i`: row offset, then row length.
use vstd::prelude::*;

verus! {

/// Size of every page, in bytes.
pub const PAGE_SIZE: usize = 4096;

/// Size of the page header (slot count and free-space offset).
pub const HEADER_SIZE: usize = 4;

/// Size of one slot directory entry (row offset and row length).
pub const SLOT_SIZE: usize = 4;

/// The little-endian value of two bytes.
pub open spec fn le16(lo: u8, hi: u8) -> int {
    lo as int + 256 * hi as int
}

/// The little-endian `u16` stored at `pos`.
pub open spec fn read16(b: Seq<u8>, pos: int) -> int {
    le16(b[pos], b[pos + 1])
}

/// `b` with the little-endian encoding of `v` stored at `pos`.
pub open spec fn write16(b: Seq<u8>, pos: int, v: int) -> Seq<u8> {
    b.update(pos, (v % 256) as u8).update(pos + 1, (v / 256) as u8)
}

/// `b` with `data` copied over the bytes starting at `pos`.
pub open spec fn splice(b: Seq<u8>, pos: int, data: Seq<u8>) -> Seq<u8> {
    b.subrange(0, pos) + data + b.subrange(pos + data.len(), b.len() as int)
}

/// Where the directory entry of slot `i` starts.
pub open spec fn slot_pos(i: int) -> int {
    HEADER_SIZE + i * SLOT_SIZE
}

pub open spec fn slot_count_of(b: Seq<u8>) -> int {
    read16(b, 0)
}

pub open spec fn free_offset_of(b: Seq<u8>) -> int {
    read16(b, 2)
}

pub open spec fn row_offset_of(b: Seq<u8>, i: int) -> int {
    read16(b, slot_pos(i))
}

pub open spec fn row_len_of(b: Seq<u8>, i: int) -> int {
    read16(b, slot_pos(i) + 2)
}

/// The bytes of the row that slot `i` points at.
pub open spec fn row_of(b: Seq<u8>, i: int) -> Seq<u8> {
    b.subrange(row_offset_of(b, i), row_offset_of(b, i) + row_len_of(b, i))
}

/// The rows of a page, in slot order.
pub open spec fn rows_of(b: Seq<u8>) -> Seq<Seq<u8>> {
    Seq::new(slot_count_of(b) as nat, |i: int| row_of(b, i))
}

/// A page whose header, slot directory and rows are consistent: the slot
/// directory ends before the free-space offset, and every row lies between the
/// free-space offset and the end of the page.
pub open spec fn well_formed(b: Seq<u8>) -> bool {
    &&& b.len() == PAGE_SIZE
    &&& slot_pos(slot_count_of(b)) <= free_offset_of(b) <= PAGE_SIZE
    &&& forall|i: int|
        0 <= i < slot_count_of(b) ==> free_offset_of(b) <= #[trigger] row_offset_of(b, i)
            && row_offset_of(b, i) + row_len_of(b, i) <= PAGE_SIZE
}

/// Whether a row of `len` bytes, plus its new slot, fits in the free space.
pub open spec fn has_room(b: Seq<u8>, len: int) -> bool {
    slot_pos(slot_count_of(b) + 1) + len <= free_offset_of(b)
}

/// The page bytes after inserting `data` into a page with room for it.
pub open spec fn inserted(b: Seq<u8>, data: Seq<u8>) -> Seq<u8> {
    let sc = slot_count_of(b);
    let off = free_offset_of(b) - data.len();
    write16(
        write16(write16(write16(splice(b, off, data), slot_pos(sc), off), slot_pos(sc) + 2, data.len() as int), 2, off),
        0,
        sc + 1,
    )
}

/// The inputs on which inserting does not index past the page: a row that
/// fits must end at a free-space offset inside the page.
pub open spec fn insert_defined(b: Seq<u8>, len: int) -> bool {
    &&& b.len() == PAGE_SIZE
    &&& has_room(b, len) ==> free_offset_of(b) <= PAGE_SIZE
}

/// The inputs on which reading slot `i` does not index past the page.
pub open spec fn get_row_defined(b: Seq<u8>, i: int) -> bool {
    &&& b.len() == PAGE_SIZE
    &&& i < slot_count_of(b) ==> {
        &&& slot_pos(i) + SLOT_SIZE <= PAGE_SIZE
        &&& row_offset_of(b, i) + row_len_of(b, i) <= PAGE_SIZE
    }
}

/// The bytes of a freshly created page: no slots, all space free.
pub open spec fn empty_page_bytes() -> Seq<u8> {
    write16(Seq::new(PAGE_SIZE as nat, |i: int| 0u8), 2, PAGE_SIZE as int)
}

proof fn lemma_le16_write(v: int)
    requires
        0 <= v < 65536,
    ensures
        le16((v % 256) as u8, (v / 256) as u8) == v,
{
}

/// Reading back a little-endian `u16` that was just written gives its value,
/// and the write touches no other byte.
pub proof fn lemma_write16(b: Seq<u8>, pos: int, v: int)
    requires
        0 <= pos,
        pos + 1 < b.len(),
        0 <= v < 65536,
    ensures
        write16(b, pos, v).len() == b.len(),
        read16(write16(b, pos, v), pos) == v,
        forall|j: int| 0 <= j < b.len() && j != pos && j != pos + 1 ==> write16(b, pos, v)[j] == b[j],
{
    lemma_le16_write(v);
}

/// A fresh page is well formed and holds no rows.
pub proof fn lemma_empty_page()
    ensures
        well_formed(empty_page_bytes()),
        rows_of(empty_page_bytes()) =~= Seq::<Seq<u8>>::empty(),
        slot_count_of(empty_page_bytes()) == 0,
        free_offset_of(empty_page_bytes()) == PAGE_SIZE,
{
    let z = Seq::new(PAGE_SIZE as nat, |i: int| 0u8);
    lemma_write16(z, 2, PAGE_SIZE as int);
    let b = empty_page_bytes();
    assert(b[0] == 0u8 && b[1] == 0u8);
}

/// Every slot of a well-formed page can be read.
pub proof fn lemma_well_formed_readable(b: Seq<u8>, i: int)
    requires
        well_formed(b),
        0 <= i,
    ensures
        get_row_defined(b, i),
{
    if 0 <= i < slot_count_of(b) {
        assert(free_offset_of(b) <= row_offset_of(b, i));
    }
}

/// Inserting a row into a well-formed page with room for it keeps the page
/// well formed and appends exactly that row: the new row reads back as
/// written, and every earlier row reads back unchanged.
pub proof fn lemma_insert_appends_row(b: Seq<u8>, data: Seq<u8>)
    requires
        well_formed(b),
        has_room(b, data.len() as int),
    ensures
        well_formed(inserted(b, data)),
        rows_of(inserted(b, data)) =~= rows_of(b).push(data),
        slot_count_of(inserted(b, data)) == slot_count_of(b) + 1,
{
    let sc = slot_count_of(b);
    let fso = free_offset_of(b);
    let len = data.len() as int;
    let off = fso - len;
    let sp = slot_pos(sc);
    let b1 = splice(b, off, data);
    assert(b1.len() == b.len());
    assert forall|j: int| 0 <= j < off implies b1[j] == b[j] by {}
    assert forall|j: int| fso <= j < b.len() implies b1[j] == b[j] by {}
    assert forall|j: int| off <= j < fso implies b1[j] == data[j - off] by {}
    lemma_write16(b1, sp, off);
    let b2 = write16(b1, sp, off);
    lemma_write16(b2, sp + 2, len);
    let b3 = write16(b2, sp + 2, len);
    lemma_write16(b3, 2, off);
    let b4 = write16(b3, 2, off);
    lemma_write16(b4, 0, sc + 1);
    let b5 = write16(b4, 0, sc + 1);
    assert(b5 == inserted(b, data));
    // bytes at or above `sp + 4`, other than the header, are those of `b1`
    assert forall|j: int| sp + 4 <= j < b.len() implies b5[j] == b1[j] by {}
    assert forall|j: int| 4 <= j < sp implies b5[j] == b[j] by {}
    assert(slot_count_of(b5) == sc + 1);
    assert(free_offset_of(b5) == off);
    assert(row_offset_of(b5, sc) == off);
    assert(row_len_of(b5, sc) == len);
    assert forall|i: int| 0 <= i < sc implies #[trigger] row_offset_of(b5, i) == row_offset_of(b, i)
        && row_len_of(b5, i) == row_len_of(b, i) by {
        assert(slot_pos(i) + 4 <= sp);
    }
    assert forall|i: int| 0 <= i < sc + 1 implies free_offset_of(b5) <= #[trigger] row_offset_of(b5, i)
        && row_offset_of(b5, i) + row_len_of(b5, i) <= PAGE_SIZE by {
        if i < sc {
            assert(free_offset_of(b) <= row_offset_of(b, i));
        }
    }
    assert(row_of(b5, sc) =~= data);
    assert forall|i: int| 0 <= i < sc implies #[trigger] row_of(b5, i) =~= row_of(b, i) by {
        assert(free_offset_of(b) <= row_offset_of(b, i));
        assert(row_offset_of(b5, i) == row_offset_of(b, i));
    }
    assert(rows_of(b5) =~= rows_of(b).push(data)) by {
        assert forall|i: int| 0 <= i < sc + 1 implies rows_of(b5)[i] == rows_of(b).push(data)[i] by {
            if i < sc {
                assert(row_of(b5, i) =~= row_of(b, i));
            }
        }
    }
}

/// The bytes of a page after trying to insert each of `rows` in turn: a row
/// that does not fit leaves the page as it was.
pub open spec fn after_inserts(b: Seq<u8>, rows: Seq<Seq<u8>>) -> Seq<u8>
    decreases rows.len(),
{
    if rows.len() == 0 {
        b
    } else {
        let prev = after_inserts(b, rows.drop_last());
        if has_room(prev, rows.last().len() as int) {
            inserted(prev, rows.last())
        } else {
            prev
        }
    }
}

/// How many of `rows` the inserts into `b` accepted.
pub open spec fn accepted_inserts(b: Seq<u8>, rows: Seq<Seq<u8>>) -> nat
    decreases rows.len(),
{
    if rows.len() == 0 {
        0
    } else {
        let prev = after_inserts(b, rows.drop_last());
        accepted_inserts(b, rows.drop_last()) + if has_room(prev, rows.last().len() as int) {
            1nat
        } else {
            0nat
        }
    }
}

/// The slot count of a page is the number of inserts it accepted: starting
/// from a fresh page, a successful insert adds one slot, a refused one adds
/// none, and the page stays well formed throughout.
pub proof fn law_slot_count_counts_accepted_inserts(rows: Seq<Seq<u8>>)
    ensures
        well_formed(after_inserts(empty_page_bytes(), rows)),
        slot_count_of(after_inserts(empty_page_bytes(), rows)) == accepted_inserts(empty_page_bytes(), rows),
    decreases rows.len(),
{
    lemma_empty_page();
    if rows.len() > 0 {
        law_slot_count_counts_accepted_inserts(rows.drop_last());
        let prev = after_inserts(empty_page_bytes(), rows.drop_last());
        if has_room(prev, rows.last().len() as int) {
            lemma_insert_appends_row(prev, rows.last());
        }
    }
}

/// A fixed-size slotted page.
pub struct Page {
    bytes: [u8; PAGE_SIZE],
}

impl View for Page {
    type V = Seq<u8>;

    closed spec fn view(&self) -> Seq<u8> {
        self.bytes@
    }
}

impl Clone for Page {
    fn clone(&self) -> (res: Self)
        ensures
            res@ == self@,
    {
        Page { bytes: self.bytes }
    }
}

impl Page {
    /// Every page holds exactly `PAGE_SIZE` bytes.
    pub proof fn lemma_len(&self)
        ensures
            self@.len() == PAGE_SIZE,
    {
    }

    fn read_u16(&self, pos: usize) -> (v: u16)
        requires
            pos + 1 < PAGE_SIZE,
        ensures
            v == read16(self@, pos as int),
    {
        (self.bytes[pos] as u16) + (self.bytes[pos + 1] as u16) * 256
    }

    fn write_u16(&mut self, pos: usize, v: u16)
        requires
            pos + 1 < PAGE_SIZE,
        ensures
            final(self)@ == write16(old(self)@, pos as int, v as int),
    {
        self.bytes[pos] = (v % 256) as u8;
        self.bytes[pos + 1] = (v / 256) as u8;
        assert(self.bytes@ =~= write16(old(self)@, pos as int, v as int));
    }

    /// An empty page: no slots, and the free space spans the whole page.
    pub fn new() -> (page: Self)
        ensures
            page@ == empty_page_bytes(),
            well_formed(page@),
            rows_of(page@) == Seq::<Seq<u8>>::empty(),
    {
        let mut page = Page { bytes: [0u8; PAGE_SIZE] };
        assert(page@ =~= Seq::new(PAGE_SIZE as nat, |i: int| 0u8));
        page.write_u16(2, 4096u16);
        proof {
            lemma_empty_page();
        }
        page
    }

    /// The number of slots in the directory.
    pub fn slot_count(&self) -> (count: u16)
        ensures
            count == slot_count_of(self@),
    {
        self.read_u16(0)
    }

    fn set_slot_count(&mut self, count: u16)
        ensures
            final(self)@ == write16(old(self)@, 0, count as int),
    {
        self.write_u16(0, count)
    }

    fn free_space_offset(&self) -> (offset: u16)
        ensures
            offset == free_offset_of(self@),
    {
        self.read_u16(2)
    }

    fn set_free_space_offset(&mut self, offset: u16)
        ensures
            final(self)@ == write16(old(self)@, 2, offset as int),
    {
        self.write_u16(2, offset)
    }

    /// Stores `data` as a new row and returns its slot number, or `None`
    /// (leaving the page unchanged) when the row and its slot do not fit in
    /// the free space.
    pub fn insert_row(&mut self, data: &[u8]) -> (slot: Option<u16>)
        requires
            insert_defined(old(self)@, data@.len() as int),
        ensures
            match slot {
                None => !has_room(old(self)@, data@.len() as int) && final(self)@ == old(self)@,
                Some(s) => {
                    &&& has_room(old(self)@, data@.len() as int)
                    &&& s == slot_count_of(old(self)@)
                    &&& final(self)@ == inserted(old(self)@, data@)
                },
            },
            well_formed(old(self)@) ==> well_formed(final(self)@),
            well_formed(old(self)@) ==> rows_of(final(self)@) == (match slot {
                None => rows_of(old(self)@),
                Some(_) => rows_of(old(self)@).push(data@),
            }),
    {
        let ghost b0 = self@;
        let slot_count = self.slot_count();
        let slot_dir_end: usize = HEADER_SIZE + (slot_count as usize) * SLOT_SIZE;
        let new_slot_dir_end: usize = slot_dir_end + SLOT_SIZE;
        let free_space_offset: usize = self.free_space_offset() as usize;
        let row_len: usize = data.len();

        if new_slot_dir_end > free_space_offset || row_len > free_space_offset - new_slot_dir_end {
            return None;
        }
        // rows grow backward from the free-space boundary
        let row_offset: usize = free_space_offset - row_len;

        let mut k: usize = 0;
        while k < row_len
            invariant
                k <= row_len,
                row_len == data@.len(),
                row_offset + row_len == free_space_offset,
                free_space_offset <= PAGE_SIZE,
                self@ =~= b0.subrange(0, row_offset as int) + data@.subrange(0, k as int) + b0.subrange(
                    row_offset + k,
                    PAGE_SIZE as int,
                ),
                b0.len() == PAGE_SIZE,
            decreases row_len - k,
        {
            self.bytes[row_offset + k] = data[k];
            k = k + 1;
        }
        assert(data@.subrange(0, row_len as int) =~= data@);
        assert(self@ =~= splice(b0, row_offset as int, data@));

        self.write_u16(slot_dir_end, row_offset as u16);
        self.write_u16(slot_dir_end + 2, row_len as u16);
        self.set_free_space_offset(row_offset as u16);
        self.set_slot_count(slot_count + 1);
        proof {
            if well_formed(b0) {
                lemma_insert_appends_row(b0, data@);
            }
        }
        Some(slot_count)
    }

    /// Whether every slot of the directory can be read without indexing past
    /// the page.
    pub fn all_rows_defined(&self) -> (ok: bool)
        ensures
            ok == (forall|i: int| 0 <= i < slot_count_of(self@) ==> #[trigger] get_row_defined(self@, i)),
    {
        proof {
            self.lemma_len();
        }
        let n = self.slot_count();
        let mut i: u16 = 0;
        while i < n
            invariant
                i <= n,
                n == slot_count_of(self@),
                self@.len() == PAGE_SIZE,
                forall|j: int| 0 <= j < i ==> #[trigger] get_row_defined(self@, j),
            decreases n - i,
        {
            let pos: usize = HEADER_SIZE + (i as usize) * SLOT_SIZE;
            if pos + SLOT_SIZE > PAGE_SIZE {
                assert(!get_row_defined(self@, i as int));
                return false;
            }
            let off = self.read_u16(pos) as usize;
            let len = self.read_u16(pos + 2) as usize;
            if off + len > PAGE_SIZE {
                assert(!get_row_defined(self@, i as int));
                return false;
            }
            i = i + 1;
        }
        true
    }

    /// The bytes of the row in `slot_index`, or `None` when there is no such
    /// slot.
    pub fn get_row(&self, slot_index: u16) -> (row: Option<&[u8]>)
        requires
            get_row_defined(self@, slot_index as int),
        ensures
            match row {
                None => slot_index >= slot_count_of(self@),
                Some(r) => slot_index < slot_count_of(self@) && r@ == row_of(self@, slot_index as int),
            },
    {
        if slot_index >= self.slot_count() {
            return None;
        }
        let slot_offset: usize = HEADER_SIZE + (slot_index as usize) * SLOT_SIZE;
        let row_offset: usize = self.read_u16(slot_offset) as usize;
        let row_len: usize = self.read_u16(slot_offset + 2) as usize;
        let all: &[u8] = self.bytes.as_slice();
        Some(&all[row_offset..row_offset + row_len])
    }

    /// A page holding exactly the given bytes.
    pub fn from_bytes(bytes: [u8; PAGE_SIZE]) -> (page: Self)
        ensures
            page@ == bytes@,
    {
        Page { bytes }
    }

    /// The raw bytes of the page.
    pub fn as_bytes(&self) -> (bytes: &[u8; PAGE_SIZE])
        ensures
            bytes@ == self@,
    {
        &self.bytes
    }
}

} // verus!
