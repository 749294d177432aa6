//! B+tree nodes stored in slotted pages.
//!
//! Slot 0 of a node page holds the node header; slots `1..` hold the
//! entries, in order. Every slot holds one row encoded with bincode's
//! standard configuration, each value as the tuple of its fields in order:
//! - header: `(is_leaf, leftmost_child, next_leaf)`,
//! - leaf entry: `(key, page_index, slot)`,
//! - internal entry: `(key, child_page)`,
//!
//! where a key is written as the index of its variant (`0` integer, `1`
//! string, `2` NULL) followed by the variant's value, if any.
use crate::error::IndexError;
use crate::key::{IndexKey, KeyValue};
use crate::page::{
    free_offset_of, get_row_defined, lemma_insert_appends_row, row_of, rows_of,
    slot_count_of, well_formed, Page, HEADER_SIZE, PAGE_SIZE, SLOT_SIZE,
};
use vstd::prelude::*;

verus! {

/// The header row of a node.
#[derive(Debug, Clone, Copy, PartialEq, Eq)]
pub struct NodeHeader {
    pub is_leaf: bool,
    /// Only meaningful for internal nodes: the child for every key below the
    /// first entry's key.
    pub leftmost_child: u32,
    /// Only meaningful for leaves: the next leaf in key order, if any.
    pub next_leaf: Option<u32>,
}

/// A leaf entry: a key and the location of the row it indexes.
#[derive(Debug)]
pub struct LeafEntry {
    pub key: IndexKey,
    pub page_index: u32,
    pub slot: u16,
}

/// An internal entry: a separator key and the child covering keys from it up
/// to the next separator.
#[derive(Debug)]
pub struct InternalEntry {
    pub key: IndexKey,
    pub child_page: u32,
}

pub struct LeafEntryView {
    pub key: KeyValue,
    pub page_index: u32,
    pub slot: u16,
}

pub struct InternalEntryView {
    pub key: KeyValue,
    pub child_page: u32,
}

impl View for LeafEntry {
    type V = LeafEntryView;

    open spec fn view(&self) -> LeafEntryView {
        LeafEntryView { key: self.key@, page_index: self.page_index, slot: self.slot }
    }
}

impl View for InternalEntry {
    type V = InternalEntryView;

    open spec fn view(&self) -> InternalEntryView {
        InternalEntryView { key: self.key@, child_page: self.child_page }
    }
}

impl LeafEntry {
    pub fn duplicate(&self) -> (copy: LeafEntry)
        ensures
            copy@ == self@,
    {
        LeafEntry { key: self.key.duplicate(), page_index: self.page_index, slot: self.slot }
    }
}

impl InternalEntry {
    pub fn duplicate(&self) -> (copy: InternalEntry)
        ensures
            copy@ == self@,
    {
        InternalEntry { key: self.key.duplicate(), child_page: self.child_page }
    }
}

/// The fields of one node row, in the order bincode writes them. The first
/// field of an entry is the variant index of its key.
pub enum NodeRow {
    Header(bool, u32, Option<u32>),
    LeafInt(u32, i64, u32, u16),
    LeafText(u32, Seq<char>, u32, u16),
    LeafNull(u32, u32, u16),
    InternalInt(u32, i64, u32),
    InternalText(u32, Seq<char>, u32),
    InternalNull(u32, u32),
}

/// The tuple type a row is decoded as.
pub enum RowShape {
    Header,
    LeafInt,
    LeafText,
    LeafNull,
    InternalInt,
    InternalText,
    InternalNull,
}

/// The bytes that bincode's `encode_to_vec` (standard configuration) writes
/// for the tuple of a row's fields.
pub uninterp spec fn bincode_row_bytes(row: NodeRow) -> Seq<u8>;

/// What bincode's `decode_from_slice` (standard configuration, at most 65536
/// claimed bytes) reads from the front of `bytes` as the tuple of fields of
/// a row of `shape`, or `None` when it reports an error.
pub uninterp spec fn bincode_row_decoded(bytes: Seq<u8>, shape: RowShape) -> Option<NodeRow>;

/// The `u32` that bincode's `decode_from_slice` (same configuration) reads
/// from the front of `bytes`, or `None` when it reports an error.
pub uninterp spec fn bincode_leading_u32(bytes: Seq<u8>) -> Option<u32>;

/// `bincode::encode_to_vec` (standard configuration) of a header's fields.
/// Trusted: writing into a vector never fails; the bytes are at most 12
/// long (one for the `bool`, at most five for the variable-length `u32`, and
/// one tag byte plus at most five for the `Option<u32>`); and decoding the
/// bytes as a header gives the fields back.
#[verifier::external_body]
fn encode_header(is_leaf: bool, leftmost_child: u32, next_leaf: Option<u32>) -> (bytes: Result<Vec<u8>, String>)
    ensures
        bytes is Ok,
        bytes matches Ok(b) ==> b@ == bincode_row_bytes(NodeRow::Header(is_leaf, leftmost_child, next_leaf))
            && b@.len() <= 12
            && bincode_row_decoded(b@, RowShape::Header) == Some(NodeRow::Header(is_leaf, leftmost_child, next_leaf)),
{
    match bincode::encode_to_vec((is_leaf, leftmost_child, next_leaf), bincode::config::standard()) {
        Ok(v) => Ok(v),
        Err(e) => Err(e.to_string()),
    }
}

/// `bincode::encode_to_vec` (standard configuration) of a leaf entry with an
/// integer key. Trusted: it never fails; the bytes start with `variant`, and
/// decoding them as this shape gives the fields back.
#[verifier::external_body]
fn encode_leaf_int(variant: u32, key: i64, page_index: u32, slot: u16) -> (bytes: Result<Vec<u8>, String>)
    ensures
        bytes is Ok,
        bytes matches Ok(b) ==> b@ == bincode_row_bytes(NodeRow::LeafInt(variant, key, page_index, slot))
            && bincode_leading_u32(b@) == Some(variant)
            && bincode_row_decoded(b@, RowShape::LeafInt) == Some(NodeRow::LeafInt(variant, key, page_index, slot)),
{
    match bincode::encode_to_vec((variant, key, page_index, slot), bincode::config::standard()) {
        Ok(v) => Ok(v),
        Err(e) => Err(e.to_string()),
    }
}

/// `bincode::encode_to_vec` (standard configuration) of a leaf entry with a
/// string key. Trusted: it never fails; the bytes start with `variant`, and,
/// when they are no longer than a page (so within the decoding limit),
/// decoding them as this shape gives the fields back.
#[verifier::external_body]
fn encode_leaf_text(variant: u32, key: &String, page_index: u32, slot: u16) -> (bytes: Result<Vec<u8>, String>)
    ensures
        bytes is Ok,
        bytes matches Ok(b) ==> b@ == bincode_row_bytes(NodeRow::LeafText(variant, key@, page_index, slot))
            && bincode_leading_u32(b@) == Some(variant)
            && (b@.len() <= PAGE_SIZE ==> bincode_row_decoded(b@, RowShape::LeafText) == Some(
                NodeRow::LeafText(variant, key@, page_index, slot),
            )),
{
    match bincode::encode_to_vec((variant, key, page_index, slot), bincode::config::standard()) {
        Ok(v) => Ok(v),
        Err(e) => Err(e.to_string()),
    }
}

/// `bincode::encode_to_vec` (standard configuration) of a leaf entry with a
/// NULL key. Trusted as `encode_leaf_int`.
#[verifier::external_body]
fn encode_leaf_null(variant: u32, page_index: u32, slot: u16) -> (bytes: Result<Vec<u8>, String>)
    ensures
        bytes is Ok,
        bytes matches Ok(b) ==> b@ == bincode_row_bytes(NodeRow::LeafNull(variant, page_index, slot))
            && bincode_leading_u32(b@) == Some(variant)
            && bincode_row_decoded(b@, RowShape::LeafNull) == Some(NodeRow::LeafNull(variant, page_index, slot)),
{
    match bincode::encode_to_vec((variant, page_index, slot), bincode::config::standard()) {
        Ok(v) => Ok(v),
        Err(e) => Err(e.to_string()),
    }
}

/// `bincode::encode_to_vec` (standard configuration) of an internal entry
/// with an integer key. Trusted as `encode_leaf_int`.
#[verifier::external_body]
fn encode_internal_int(variant: u32, key: i64, child_page: u32) -> (bytes: Result<Vec<u8>, String>)
    ensures
        bytes is Ok,
        bytes matches Ok(b) ==> b@ == bincode_row_bytes(NodeRow::InternalInt(variant, key, child_page))
            && bincode_leading_u32(b@) == Some(variant)
            && bincode_row_decoded(b@, RowShape::InternalInt) == Some(NodeRow::InternalInt(variant, key, child_page)),
{
    match bincode::encode_to_vec((variant, key, child_page), bincode::config::standard()) {
        Ok(v) => Ok(v),
        Err(e) => Err(e.to_string()),
    }
}

/// `bincode::encode_to_vec` (standard configuration) of an internal entry
/// with a string key. Trusted as `encode_leaf_text`.
#[verifier::external_body]
fn encode_internal_text(variant: u32, key: &String, child_page: u32) -> (bytes: Result<Vec<u8>, String>)
    ensures
        bytes is Ok,
        bytes matches Ok(b) ==> b@ == bincode_row_bytes(NodeRow::InternalText(variant, key@, child_page))
            && bincode_leading_u32(b@) == Some(variant)
            && (b@.len() <= PAGE_SIZE ==> bincode_row_decoded(b@, RowShape::InternalText) == Some(
                NodeRow::InternalText(variant, key@, child_page),
            )),
{
    match bincode::encode_to_vec((variant, key, child_page), bincode::config::standard()) {
        Ok(v) => Ok(v),
        Err(e) => Err(e.to_string()),
    }
}

/// `bincode::encode_to_vec` (standard configuration) of an internal entry
/// with a NULL key. Trusted as `encode_leaf_int`.
#[verifier::external_body]
fn encode_internal_null(variant: u32, child_page: u32) -> (bytes: Result<Vec<u8>, String>)
    ensures
        bytes is Ok,
        bytes matches Ok(b) ==> b@ == bincode_row_bytes(NodeRow::InternalNull(variant, child_page))
            && bincode_leading_u32(b@) == Some(variant)
            && bincode_row_decoded(b@, RowShape::InternalNull) == Some(NodeRow::InternalNull(variant, child_page)),
{
    match bincode::encode_to_vec((variant, child_page), bincode::config::standard()) {
        Ok(v) => Ok(v),
        Err(e) => Err(e.to_string()),
    }
}

/// `bincode::decode_from_slice` of a header, standard configuration with a
/// limit of 65536 claimed bytes (so no length prefix can make it allocate
/// more); trailing bytes are ignored. Trusted: the result is a function of
/// the bytes alone; the error message is left unspecified.
#[verifier::external_body]
fn decode_header(bytes: &[u8]) -> (fields: Result<(bool, u32, Option<u32>), String>)
    ensures
        match fields {
            Ok((a, c, n)) => bincode_row_decoded(bytes@, RowShape::Header) == Some(NodeRow::Header(a, c, n)),
            Err(_) => bincode_row_decoded(bytes@, RowShape::Header) is None,
        },
{
    match bincode::decode_from_slice(bytes, bincode::config::standard().with_limit::<65536>()) {
        Ok((fields, _)) => Ok(fields),
        Err(e) => Err(e.to_string()),
    }
}

/// `bincode::decode_from_slice` of a leading `u32`, in the configuration of
/// `decode_header`. Trusted as `decode_header`.
#[verifier::external_body]
fn decode_leading_u32(bytes: &[u8]) -> (v: Result<u32, String>)
    ensures
        match v {
            Ok(n) => bincode_leading_u32(bytes@) == Some(n),
            Err(_) => bincode_leading_u32(bytes@) is None,
        },
{
    match bincode::decode_from_slice(bytes, bincode::config::standard().with_limit::<65536>()) {
        Ok((n, _)) => Ok(n),
        Err(e) => Err(e.to_string()),
    }
}

/// `bincode::decode_from_slice` of a leaf entry with an integer key, in the
/// configuration of `decode_header`. Trusted as `decode_header`.
#[verifier::external_body]
fn decode_leaf_int(bytes: &[u8]) -> (fields: Result<(u32, i64, u32, u16), String>)
    ensures
        match fields {
            Ok((v, k, p, s)) => bincode_row_decoded(bytes@, RowShape::LeafInt) == Some(NodeRow::LeafInt(v, k, p, s)),
            Err(_) => bincode_row_decoded(bytes@, RowShape::LeafInt) is None,
        },
{
    match bincode::decode_from_slice(bytes, bincode::config::standard().with_limit::<65536>()) {
        Ok((fields, _)) => Ok(fields),
        Err(e) => Err(e.to_string()),
    }
}

/// `bincode::decode_from_slice` of a leaf entry with a string key, in the
/// configuration of `decode_header`. Trusted as `decode_header`.
#[verifier::external_body]
fn decode_leaf_text(bytes: &[u8]) -> (fields: Result<(u32, String, u32, u16), String>)
    ensures
        match fields {
            Ok((v, k, p, s)) => bincode_row_decoded(bytes@, RowShape::LeafText) == Some(NodeRow::LeafText(v, k@, p, s)),
            Err(_) => bincode_row_decoded(bytes@, RowShape::LeafText) is None,
        },
{
    match bincode::decode_from_slice(bytes, bincode::config::standard().with_limit::<65536>()) {
        Ok((fields, _)) => Ok(fields),
        Err(e) => Err(e.to_string()),
    }
}

/// `bincode::decode_from_slice` of a leaf entry with a NULL key, in the
/// configuration of `decode_header`. Trusted as `decode_header`.
#[verifier::external_body]
fn decode_leaf_null(bytes: &[u8]) -> (fields: Result<(u32, u32, u16), String>)
    ensures
        match fields {
            Ok((v, p, s)) => bincode_row_decoded(bytes@, RowShape::LeafNull) == Some(NodeRow::LeafNull(v, p, s)),
            Err(_) => bincode_row_decoded(bytes@, RowShape::LeafNull) is None,
        },
{
    match bincode::decode_from_slice(bytes, bincode::config::standard().with_limit::<65536>()) {
        Ok((fields, _)) => Ok(fields),
        Err(e) => Err(e.to_string()),
    }
}

/// `bincode::decode_from_slice` of an internal entry with an integer key, in
/// the configuration of `decode_header`. Trusted as `decode_header`.
#[verifier::external_body]
fn decode_internal_int(bytes: &[u8]) -> (fields: Result<(u32, i64, u32), String>)
    ensures
        match fields {
            Ok((v, k, c)) => bincode_row_decoded(bytes@, RowShape::InternalInt) == Some(NodeRow::InternalInt(v, k, c)),
            Err(_) => bincode_row_decoded(bytes@, RowShape::InternalInt) is None,
        },
{
    match bincode::decode_from_slice(bytes, bincode::config::standard().with_limit::<65536>()) {
        Ok((fields, _)) => Ok(fields),
        Err(e) => Err(e.to_string()),
    }
}

/// `bincode::decode_from_slice` of an internal entry with a string key, in
/// the configuration of `decode_header`. Trusted as `decode_header`.
#[verifier::external_body]
fn decode_internal_text(bytes: &[u8]) -> (fields: Result<(u32, String, u32), String>)
    ensures
        match fields {
            Ok((v, k, c)) => bincode_row_decoded(bytes@, RowShape::InternalText) == Some(NodeRow::InternalText(v, k@, c)),
            Err(_) => bincode_row_decoded(bytes@, RowShape::InternalText) is None,
        },
{
    match bincode::decode_from_slice(bytes, bincode::config::standard().with_limit::<65536>()) {
        Ok((fields, _)) => Ok(fields),
        Err(e) => Err(e.to_string()),
    }
}

/// `bincode::decode_from_slice` of an internal entry with a NULL key, in the
/// configuration of `decode_header`. Trusted as `decode_header`.
#[verifier::external_body]
fn decode_internal_null(bytes: &[u8]) -> (fields: Result<(u32, u32), String>)
    ensures
        match fields {
            Ok((v, c)) => bincode_row_decoded(bytes@, RowShape::InternalNull) == Some(NodeRow::InternalNull(v, c)),
            Err(_) => bincode_row_decoded(bytes@, RowShape::InternalNull) is None,
        },
{
    match bincode::decode_from_slice(bytes, bincode::config::standard().with_limit::<65536>()) {
        Ok((fields, _)) => Ok(fields),
        Err(e) => Err(e.to_string()),
    }
}

// ---------------------------------------------------------------------------
// The row format
// ---------------------------------------------------------------------------
pub open spec fn header_row(h: NodeHeader) -> NodeRow {
    NodeRow::Header(h.is_leaf, h.leftmost_child, h.next_leaf)
}

pub open spec fn leaf_entry_row(e: LeafEntryView) -> NodeRow {
    match e.key {
        KeyValue::Int(n) => NodeRow::LeafInt(0, n, e.page_index, e.slot),
        KeyValue::Str(s) => NodeRow::LeafText(1, s, e.page_index, e.slot),
        KeyValue::Null => NodeRow::LeafNull(2, e.page_index, e.slot),
    }
}

pub open spec fn internal_entry_row(e: InternalEntryView) -> NodeRow {
    match e.key {
        KeyValue::Int(n) => NodeRow::InternalInt(0, n, e.child_page),
        KeyValue::Str(s) => NodeRow::InternalText(1, s, e.child_page),
        KeyValue::Null => NodeRow::InternalNull(2, e.child_page),
    }
}

/// The header that a row's bytes encode.
pub open spec fn header_of_bytes(b: Seq<u8>) -> Option<NodeHeader> {
    match bincode_row_decoded(b, RowShape::Header) {
        Some(NodeRow::Header(is_leaf, leftmost_child, next_leaf)) => Some(NodeHeader { is_leaf, leftmost_child, next_leaf }),
        _ => None,
    }
}

/// The leaf entry that a row's bytes encode: the key's variant index first,
/// then the fields of that variant.
pub open spec fn leaf_entry_of_bytes(b: Seq<u8>) -> Option<LeafEntryView> {
    match bincode_leading_u32(b) {
        Some(0) => match bincode_row_decoded(b, RowShape::LeafInt) {
            Some(NodeRow::LeafInt(_, n, p, s)) => Some(LeafEntryView { key: KeyValue::Int(n), page_index: p, slot: s }),
            _ => None,
        },
        Some(1) => match bincode_row_decoded(b, RowShape::LeafText) {
            Some(NodeRow::LeafText(_, t, p, s)) => Some(LeafEntryView { key: KeyValue::Str(t), page_index: p, slot: s }),
            _ => None,
        },
        Some(2) => match bincode_row_decoded(b, RowShape::LeafNull) {
            Some(NodeRow::LeafNull(_, p, s)) => Some(LeafEntryView { key: KeyValue::Null, page_index: p, slot: s }),
            _ => None,
        },
        _ => None,
    }
}

/// The internal entry that a row's bytes encode, read as a leaf entry's.
pub open spec fn internal_entry_of_bytes(b: Seq<u8>) -> Option<InternalEntryView> {
    match bincode_leading_u32(b) {
        Some(0) => match bincode_row_decoded(b, RowShape::InternalInt) {
            Some(NodeRow::InternalInt(_, n, c)) => Some(InternalEntryView { key: KeyValue::Int(n), child_page: c }),
            _ => None,
        },
        Some(1) => match bincode_row_decoded(b, RowShape::InternalText) {
            Some(NodeRow::InternalText(_, t, c)) => Some(InternalEntryView { key: KeyValue::Str(t), child_page: c }),
            _ => None,
        },
        Some(2) => match bincode_row_decoded(b, RowShape::InternalNull) {
            Some(NodeRow::InternalNull(_, c)) => Some(InternalEntryView { key: KeyValue::Null, child_page: c }),
            _ => None,
        },
        _ => None,
    }
}

/// The rows of a leaf page holding `entries`.
pub open spec fn leaf_rows(entries: Seq<LeafEntryView>, next_leaf: Option<u32>) -> Seq<Seq<u8>> {
    seq![bincode_row_bytes(header_row(NodeHeader { is_leaf: true, leftmost_child: 0, next_leaf }))]
        + entries.map_values(|e: LeafEntryView| bincode_row_bytes(leaf_entry_row(e)))
}

/// The rows of an internal page holding `entries`.
pub open spec fn internal_rows(entries: Seq<InternalEntryView>, leftmost_child: u32) -> Seq<Seq<u8>> {
    seq![bincode_row_bytes(header_row(NodeHeader { is_leaf: false, leftmost_child, next_leaf: None }))]
        + entries.map_values(|e: InternalEntryView| bincode_row_bytes(internal_entry_row(e)))
}

/// Total length of a sequence of rows.
pub open spec fn total_len(rows: Seq<Seq<u8>>) -> int
    decreases rows.len(),
{
    if rows.len() == 0 {
        0
    } else {
        total_len(rows.drop_last()) + rows.last().len()
    }
}

/// Whether `rows`, with one slot each, fit in an empty page.
pub open spec fn rows_fit(rows: Seq<Seq<u8>>) -> bool {
    HEADER_SIZE + SLOT_SIZE * rows.len() + total_len(rows) <= PAGE_SIZE
}

/// The header a node page's slot 0 decodes to, if any.
pub open spec fn page_header(b: Seq<u8>) -> Option<NodeHeader> {
    if slot_count_of(b) > 0 {
        header_of_bytes(row_of(b, 0))
    } else {
        None
    }
}

/// Whether every entry row (slots `1..`) decodes to a leaf entry.
pub open spec fn leaf_rows_decode(b: Seq<u8>) -> bool {
    forall|i: int| 1 <= i < slot_count_of(b) ==> #[trigger] leaf_entry_of_bytes(row_of(b, i)) is Some
}

pub open spec fn internal_rows_decode(b: Seq<u8>) -> bool {
    forall|i: int| 1 <= i < slot_count_of(b) ==> #[trigger] internal_entry_of_bytes(row_of(b, i)) is Some
}

/// The leaf entries of a node page, if every entry row decodes.
pub open spec fn page_leaf_entries(b: Seq<u8>) -> Option<Seq<LeafEntryView>> {
    if leaf_rows_decode(b) {
        Some(
            Seq::new(
                (if slot_count_of(b) > 0 { slot_count_of(b) - 1 } else { 0 }) as nat,
                |i: int| leaf_entry_of_bytes(row_of(b, i + 1))->0,
            ),
        )
    } else {
        None
    }
}

/// The internal entries of a node page, if every entry row decodes.
pub open spec fn page_internal_entries(b: Seq<u8>) -> Option<Seq<InternalEntryView>> {
    if internal_rows_decode(b) {
        Some(
            Seq::new(
                (if slot_count_of(b) > 0 { slot_count_of(b) - 1 } else { 0 }) as nat,
                |i: int| internal_entry_of_bytes(row_of(b, i + 1))->0,
            ),
        )
    } else {
        None
    }
}

/// Every slot of the page can be read without indexing past it.
pub open spec fn all_rows_readable(b: Seq<u8>) -> bool {
    forall|i: int| 0 <= i < slot_count_of(b) ==> #[trigger] get_row_defined(b, i)
}

proof fn lemma_total_len_prefix(rows: Seq<Seq<u8>>, k: int)
    requires
        0 <= k <= rows.len(),
    ensures
        total_len(rows.take(k)) <= total_len(rows),
    decreases rows.len(),
{
    if k < rows.len() {
        assert(rows.drop_last().take(k) =~= rows.take(k));
        lemma_total_len_prefix(rows.drop_last(), k);
    } else {
        assert(rows.take(k) =~= rows);
    }
}

proof fn lemma_total_len_push(rows: Seq<Seq<u8>>, k: int)
    requires
        0 <= k < rows.len(),
    ensures
        total_len(rows.take(k + 1)) == total_len(rows.take(k)) + rows[k].len(),
{
    assert(rows.take(k + 1).drop_last() =~= rows.take(k));
}

/// Places `rows` one per slot, in order, into a fresh page; `NodeFull` when
/// they do not all fit.
fn frame_rows(rows: &Vec<Vec<u8>>) -> (page: Result<Page, IndexError>)
    ensures
        match page {
            Ok(p) => {
                &&& rows_fit(rows@.map_values(|r: Vec<u8>| r@))
                &&& well_formed(p@)
                &&& rows_of(p@) == rows@.map_values(|r: Vec<u8>| r@)
            },
            Err(e) => !rows_fit(rows@.map_values(|r: Vec<u8>| r@)) && e is NodeFull,
        },
{
    let ghost all = rows@.map_values(|r: Vec<u8>| r@);
    let mut page = Page::new();
    let mut k: usize = 0;
    while k < rows.len()
        invariant
            k <= rows.len(),
            all == rows@.map_values(|r: Vec<u8>| r@),
            well_formed(page@),
            rows_of(page@) =~= all.take(k as int),
            slot_count_of(page@) == k,
            free_offset_of(page@) == PAGE_SIZE - total_len(all.take(k as int)),
            rows_fit(all.take(k as int)),
        decreases rows.len() - k,
    {
        proof {
            lemma_total_len_push(all, k as int);
            assert(all[k as int] == rows@[k as int]@);
        }
        let ghost before = page@;
        match page.insert_row(rows[k].as_slice()) {
            None => {
                proof {
                    lemma_total_len_prefix(all, k as int + 1);
                    assert(all.take(k + 1).len() == k + 1);
                }
                return Err(IndexError::NodeFull);
            },
            Some(_) => {
                proof {
                    lemma_insert_appends_row(before, rows@[k as int]@);
                    assert(all.take(k + 1) =~= all.take(k as int).push(all[k as int]));
                }
            },
        }
        k = k + 1;
    }
    assert(all.take(rows.len() as int) =~= all);
    Ok(page)
}

proof fn lemma_total_len_nonneg(rows: Seq<Seq<u8>>)
    ensures
        total_len(rows) >= 0,
    decreases rows.len(),
{
    if rows.len() > 0 {
        lemma_total_len_nonneg(rows.drop_last());
    }
}

/// No row is longer than all the rows together.
proof fn lemma_row_within_total(rows: Seq<Seq<u8>>, k: int)
    requires
        0 <= k < rows.len(),
    ensures
        rows[k].len() <= total_len(rows),
{
    lemma_total_len_prefix(rows, k + 1);
    lemma_total_len_push(rows, k);
    lemma_total_len_nonneg(rows.take(k));
}

/// The bytes of a leaf entry; they decode back to it when no longer than a
/// page.
fn encode_leaf_entry(e: &LeafEntry) -> (bytes: Result<Vec<u8>, IndexError>)
    ensures
        bytes matches Ok(b) && b@ == bincode_row_bytes(leaf_entry_row(e@)) && (b@.len() <= PAGE_SIZE
            ==> leaf_entry_of_bytes(b@) == Some(e@)),
{
    let r = match &e.key {
        IndexKey::Int(n) => encode_leaf_int(0, *n, e.page_index, e.slot),
        IndexKey::String(s) => encode_leaf_text(1, s, e.page_index, e.slot),
        IndexKey::Null => encode_leaf_null(2, e.page_index, e.slot),
    };
    match r {
        Ok(b) => Ok(b),
        Err(msg) => Err(IndexError::Encoding(msg)),
    }
}

/// The bytes of an internal entry; they decode back to it when no longer
/// than a page.
fn encode_internal_entry(e: &InternalEntry) -> (bytes: Result<Vec<u8>, IndexError>)
    ensures
        bytes matches Ok(b) && b@ == bincode_row_bytes(internal_entry_row(e@)) && (b@.len() <= PAGE_SIZE
            ==> internal_entry_of_bytes(b@) == Some(e@)),
{
    let r = match &e.key {
        IndexKey::Int(n) => encode_internal_int(0, *n, e.child_page),
        IndexKey::String(s) => encode_internal_text(1, s, e.child_page),
        IndexKey::Null => encode_internal_null(2, e.child_page),
    };
    match r {
        Ok(b) => Ok(b),
        Err(msg) => Err(IndexError::Encoding(msg)),
    }
}

/// The bytes of a header, which decode back to it.
fn encode_node_header(h: NodeHeader) -> (bytes: Result<Vec<u8>, IndexError>)
    ensures
        bytes matches Ok(b) && b@ == bincode_row_bytes(header_row(h)) && header_of_bytes(b@) == Some(h) && b@.len()
            <= 12,
{
    match encode_header(h.is_leaf, h.leftmost_child, h.next_leaf) {
        Ok(b) => Ok(b),
        Err(msg) => Err(IndexError::Encoding(msg)),
    }
}

/// Builds a leaf page holding `entries` in order, linked to `next_leaf`.
/// Fails with `NodeFull` exactly when the encoded header and entries, with
/// one slot each, do not fit in a page.
pub fn build_leaf_page(entries: &[LeafEntry], next_leaf: Option<u32>) -> (page: Result<Page, IndexError>)
    ensures
        match page {
            Ok(p) => {
                &&& rows_fit(leaf_rows(entries@.map_values(|e: LeafEntry| e@), next_leaf))
                &&& well_formed(p@)
                &&& rows_of(p@) == leaf_rows(entries@.map_values(|e: LeafEntry| e@), next_leaf)
                &&& page_header(p@) == Some(NodeHeader { is_leaf: true, leftmost_child: 0, next_leaf })
                &&& page_leaf_entries(p@) == Some(entries@.map_values(|e: LeafEntry| e@))
            },
            Err(e) => {
                &&& entries@.len() > 0
                &&& !rows_fit(leaf_rows(entries@.map_values(|e: LeafEntry| e@), next_leaf))
                &&& e is NodeFull
            },
        },
{
    let ghost views = entries@.map_values(|e: LeafEntry| e@);
    let ghost hv = NodeHeader { is_leaf: true, leftmost_child: 0, next_leaf };
    let mut rows: Vec<Vec<u8>> = Vec::new();
    let h = encode_node_header(NodeHeader { is_leaf: true, leftmost_child: 0, next_leaf })?;
    rows.push(h);
    let mut i: usize = 0;
    while i < entries.len()
        invariant
            i <= entries.len(),
            views == entries@.map_values(|e: LeafEntry| e@),
            hv == (NodeHeader { is_leaf: true, leftmost_child: 0, next_leaf }),
            rows@.len() == i + 1,
            rows@.map_values(|r: Vec<u8>| r@) =~= leaf_rows(views.take(i as int), next_leaf),
            header_of_bytes(rows@[0]@) == Some(hv),
            forall|j: int|
                0 <= j < i ==> (#[trigger] rows@[j + 1]@).len() <= PAGE_SIZE ==> leaf_entry_of_bytes(rows@[j + 1]@)
                    == Some(views[j]),
        decreases entries.len() - i,
    {
        let b = encode_leaf_entry(&entries[i])?;
        let ghost old_rows = rows@;
        rows.push(b);
        proof {
            assert(views.take(i + 1) =~= views.take(i as int).push(views[i as int]));
            assert(rows@[i + 1] == b);
            assert(rows@.map_values(|r: Vec<u8>| r@) =~= old_rows.map_values(|r: Vec<u8>| r@).push(b@));
            assert(leaf_rows(views.take(i + 1), next_leaf) =~= leaf_rows(views.take(i as int), next_leaf).push(
                bincode_row_bytes(leaf_entry_row(views[i as int])),
            ));
            assert forall|j: int|
                0 <= j < i + 1 && (#[trigger] rows@[j + 1]@).len() <= PAGE_SIZE implies leaf_entry_of_bytes(
                    rows@[j + 1]@,
                ) == Some(views[j]) by {
                if j < i {
                    assert(rows@[j + 1] == old_rows[j + 1]);
                }
            }
        }
        i = i + 1;
    }
    assert(views.take(entries.len() as int) =~= views);
    proof {
        if entries.len() == 0 {
            let rs = rows@.map_values(|r: Vec<u8>| r@);
            assert(rs.len() == 1);
            assert(rs.drop_last() =~= Seq::<Seq<u8>>::empty());
            assert(total_len(rs.drop_last()) == 0);
            assert(rs.last() == rs[0]);
            assert(total_len(rs) == rs[0].len());
        }
    }
    let page = frame_rows(&rows)?;
    proof {
        let b = page@;
        let rs = rows@.map_values(|r: Vec<u8>| r@);
        assert(rows_of(b) == rs);
        assert(slot_count_of(b) == rows@.len());
        assert(row_of(b, 0) == rows_of(b)[0]);
        assert(row_of(b, 0) == rows@[0]@);
        assert forall|j: int| 1 <= j < slot_count_of(b) implies (#[trigger] row_of(b, j)).len() <= PAGE_SIZE by {
            assert(row_of(b, j) == rs[j]);
            lemma_row_within_total(rs, j);
        }
        assert forall|j: int| 1 <= j < slot_count_of(b) implies #[trigger] leaf_entry_of_bytes(row_of(b, j)) is Some by {
            assert(row_of(b, j) == rows_of(b)[j]);
            assert(rows@[(j - 1) + 1]@ == rs[j]);
            assert(row_of(b, j).len() <= PAGE_SIZE);
        }
        let got = page_leaf_entries(b)->0;
        assert(got =~= views) by {
            assert forall|j: int| 0 <= j < views.len() implies got[j] == views[j] by {
                assert(row_of(b, j + 1) == rows_of(b)[j + 1]);
                assert(rows@[j + 1]@ == rs[j + 1]);
                assert(row_of(b, j + 1).len() <= PAGE_SIZE);
            }
        }
    }
    Ok(page)
}

/// Builds an internal page holding `entries` in order, with `leftmost_child`
/// covering every key below the first entry. Fails with `NodeFull` exactly
/// when the encoded header and entries do not fit in a page.
pub fn build_internal_page(entries: &[InternalEntry], leftmost_child: u32) -> (page: Result<Page, IndexError>)
    ensures
        match page {
            Ok(p) => {
                &&& rows_fit(internal_rows(entries@.map_values(|e: InternalEntry| e@), leftmost_child))
                &&& well_formed(p@)
                &&& rows_of(p@) == internal_rows(entries@.map_values(|e: InternalEntry| e@), leftmost_child)
                &&& page_header(p@) == Some(NodeHeader { is_leaf: false, leftmost_child, next_leaf: None })
                &&& page_internal_entries(p@) == Some(entries@.map_values(|e: InternalEntry| e@))
            },
            Err(e) => {
                &&& entries@.len() > 0
                &&& !rows_fit(internal_rows(entries@.map_values(|e: InternalEntry| e@), leftmost_child))
                &&& e is NodeFull
            },
        },
{
    let ghost views = entries@.map_values(|e: InternalEntry| e@);
    let ghost hv = NodeHeader { is_leaf: false, leftmost_child, next_leaf: None };
    let mut rows: Vec<Vec<u8>> = Vec::new();
    let h = encode_node_header(NodeHeader { is_leaf: false, leftmost_child, next_leaf: None })?;
    rows.push(h);
    let mut i: usize = 0;
    while i < entries.len()
        invariant
            i <= entries.len(),
            views == entries@.map_values(|e: InternalEntry| e@),
            hv == (NodeHeader { is_leaf: false, leftmost_child, next_leaf: None }),
            rows@.len() == i + 1,
            rows@.map_values(|r: Vec<u8>| r@) =~= internal_rows(views.take(i as int), leftmost_child),
            header_of_bytes(rows@[0]@) == Some(hv),
            forall|j: int|
                0 <= j < i ==> (#[trigger] rows@[j + 1]@).len() <= PAGE_SIZE ==> internal_entry_of_bytes(
                    rows@[j + 1]@,
                ) == Some(views[j]),
        decreases entries.len() - i,
    {
        let b = encode_internal_entry(&entries[i])?;
        let ghost old_rows = rows@;
        rows.push(b);
        proof {
            assert(views.take(i + 1) =~= views.take(i as int).push(views[i as int]));
            assert(rows@[i + 1] == b);
            assert(rows@.map_values(|r: Vec<u8>| r@) =~= old_rows.map_values(|r: Vec<u8>| r@).push(b@));
            assert(internal_rows(views.take(i + 1), leftmost_child) =~= internal_rows(
                views.take(i as int),
                leftmost_child,
            ).push(bincode_row_bytes(internal_entry_row(views[i as int]))));
            assert forall|j: int|
                0 <= j < i + 1 && (#[trigger] rows@[j + 1]@).len() <= PAGE_SIZE implies internal_entry_of_bytes(
                    rows@[j + 1]@,
                ) == Some(views[j]) by {
                if j < i {
                    assert(rows@[j + 1] == old_rows[j + 1]);
                }
            }
        }
        i = i + 1;
    }
    assert(views.take(entries.len() as int) =~= views);
    proof {
        if entries.len() == 0 {
            let rs = rows@.map_values(|r: Vec<u8>| r@);
            assert(rs.len() == 1);
            assert(rs.drop_last() =~= Seq::<Seq<u8>>::empty());
            assert(total_len(rs.drop_last()) == 0);
            assert(rs.last() == rs[0]);
            assert(total_len(rs) == rs[0].len());
        }
    }
    let page = frame_rows(&rows)?;
    proof {
        let b = page@;
        let rs = rows@.map_values(|r: Vec<u8>| r@);
        assert(rows_of(b) == rs);
        assert(row_of(b, 0) == rows_of(b)[0]);
        assert(row_of(b, 0) == rows@[0]@);
        assert forall|j: int| 1 <= j < slot_count_of(b) implies (#[trigger] row_of(b, j)).len() <= PAGE_SIZE by {
            assert(row_of(b, j) == rs[j]);
            lemma_row_within_total(rs, j);
        }
        assert forall|j: int| 1 <= j < slot_count_of(b) implies #[trigger] internal_entry_of_bytes(row_of(b, j)) is Some by {
            assert(row_of(b, j) == rows_of(b)[j]);
            assert(rows@[(j - 1) + 1]@ == rs[j]);
            assert(row_of(b, j).len() <= PAGE_SIZE);
        }
        let got = page_internal_entries(b)->0;
        assert(got =~= views) by {
            assert forall|j: int| 0 <= j < views.len() implies got[j] == views[j] by {
                assert(row_of(b, j + 1) == rows_of(b)[j + 1]);
                assert(rows@[j + 1]@ == rs[j + 1]);
                assert(row_of(b, j + 1).len() <= PAGE_SIZE);
            }
        }
    }
    Ok(page)
}

/// The node header in slot 0; a page with no slot fails with the message
/// "missing node header".
pub fn read_header(page: &Page) -> (header: Result<NodeHeader, IndexError>)
    requires
        get_row_defined(page@, 0),
    ensures
        match header {
            Ok(h) => page_header(page@) == Some(h),
            Err(e) => page_header(page@) is None && e is Encoding,
        },
        slot_count_of(page@) == 0 ==> (header matches Err(IndexError::Encoding(m)) && m@ == "missing node header"@),
{
    match page.get_row(0) {
        None => {
            proof {
                reveal_strlit("missing node header");
            }
            Err(IndexError::Encoding("missing node header".to_string()))
        },
        Some(bytes) => match decode_header(bytes) {
            Ok((is_leaf, leftmost_child, next_leaf)) => Ok(NodeHeader { is_leaf, leftmost_child, next_leaf }),
            Err(msg) => Err(IndexError::Encoding(msg)),
        },
    }
}

/// The leaf entry that a row encodes.
fn decode_leaf_entry(bytes: &[u8]) -> (entry: Result<LeafEntry, IndexError>)
    ensures
        match entry {
            Ok(e) => leaf_entry_of_bytes(bytes@) == Some(e@),
            Err(err) => leaf_entry_of_bytes(bytes@) is None && err is Encoding,
        },
{
    let variant = match decode_leading_u32(bytes) {
        Ok(v) => v,
        Err(msg) => {
            return Err(IndexError::Encoding(msg));
        },
    };
    if variant == 0 {
        match decode_leaf_int(bytes) {
            Ok((_, n, page_index, slot)) => Ok(LeafEntry { key: IndexKey::Int(n), page_index, slot }),
            Err(msg) => Err(IndexError::Encoding(msg)),
        }
    } else if variant == 1 {
        match decode_leaf_text(bytes) {
            Ok((_, s, page_index, slot)) => Ok(LeafEntry { key: IndexKey::String(s), page_index, slot }),
            Err(msg) => Err(IndexError::Encoding(msg)),
        }
    } else if variant == 2 {
        match decode_leaf_null(bytes) {
            Ok((_, page_index, slot)) => Ok(LeafEntry { key: IndexKey::Null, page_index, slot }),
            Err(msg) => Err(IndexError::Encoding(msg)),
        }
    } else {
        Err(IndexError::Encoding("unknown key variant".to_string()))
    }
}

/// The internal entry that a row encodes.
fn decode_internal_entry(bytes: &[u8]) -> (entry: Result<InternalEntry, IndexError>)
    ensures
        match entry {
            Ok(e) => internal_entry_of_bytes(bytes@) == Some(e@),
            Err(err) => internal_entry_of_bytes(bytes@) is None && err is Encoding,
        },
{
    let variant = match decode_leading_u32(bytes) {
        Ok(v) => v,
        Err(msg) => {
            return Err(IndexError::Encoding(msg));
        },
    };
    if variant == 0 {
        match decode_internal_int(bytes) {
            Ok((_, n, child_page)) => Ok(InternalEntry { key: IndexKey::Int(n), child_page }),
            Err(msg) => Err(IndexError::Encoding(msg)),
        }
    } else if variant == 1 {
        match decode_internal_text(bytes) {
            Ok((_, s, child_page)) => Ok(InternalEntry { key: IndexKey::String(s), child_page }),
            Err(msg) => Err(IndexError::Encoding(msg)),
        }
    } else if variant == 2 {
        match decode_internal_null(bytes) {
            Ok((_, child_page)) => Ok(InternalEntry { key: IndexKey::Null, child_page }),
            Err(msg) => Err(IndexError::Encoding(msg)),
        }
    } else {
        Err(IndexError::Encoding("unknown key variant".to_string()))
    }
}

/// The leaf entries in slots `1..`, in slot order.
pub fn read_leaf_entries(page: &Page) -> (entries: Result<Vec<LeafEntry>, IndexError>)
    requires
        all_rows_readable(page@),
    ensures
        match entries {
            Ok(v) => page_leaf_entries(page@) == Some(v@.map_values(|e: LeafEntry| e@)),
            Err(e) => page_leaf_entries(page@) is None && e is Encoding,
        },
{
    let ghost b = page@;
    let mut entries: Vec<LeafEntry> = Vec::new();
    let n = page.slot_count();
    let mut slot: u16 = 1;
    while slot < n
        invariant
            b == page@,
            n == slot_count_of(b),
            all_rows_readable(b),
            1 <= slot,
            slot <= n || slot == 1,
            entries@.len() == slot - 1,
            forall|i: int| 1 <= i < slot ==> #[trigger] leaf_entry_of_bytes(row_of(b, i)) is Some,
            forall|j: int| 0 <= j < entries@.len() ==> #[trigger] entries@[j]@ == leaf_entry_of_bytes(row_of(b, j + 1))->0,
        decreases n - slot,
    {
        assert(get_row_defined(b, slot as int));
        let bytes = match page.get_row(slot) {
            Some(bytes) => bytes,
            None => {
                return Err(IndexError::Encoding("missing node entry".to_string()));
            },
        };
        let e = match decode_leaf_entry(bytes) {
            Ok(e) => e,
            Err(err) => {
                return Err(err);
            },
        };
        entries.push(e);
        slot = slot + 1;
    }
    let ghost views = entries@.map_values(|e: LeafEntry| e@);
    proof {
        assert(slot_count_of(b) <= 1 || slot == n);
        assert(leaf_rows_decode(b));
        let got = page_leaf_entries(b)->0;
        assert(got.len() == views.len());
        assert forall|j: int| 0 <= j < views.len() implies got[j] == views[j] by {
            assert(entries@[j]@ == views[j]);
        }
        assert(got =~= views);
    }
    Ok(entries)
}

/// The internal entries in slots `1..`, in slot order.
pub fn read_internal_entries(page: &Page) -> (entries: Result<Vec<InternalEntry>, IndexError>)
    requires
        all_rows_readable(page@),
    ensures
        match entries {
            Ok(v) => page_internal_entries(page@) == Some(v@.map_values(|e: InternalEntry| e@)),
            Err(e) => page_internal_entries(page@) is None && e is Encoding,
        },
{
    let ghost b = page@;
    let mut entries: Vec<InternalEntry> = Vec::new();
    let n = page.slot_count();
    let mut slot: u16 = 1;
    while slot < n
        invariant
            b == page@,
            n == slot_count_of(b),
            all_rows_readable(b),
            1 <= slot,
            slot <= n || slot == 1,
            entries@.len() == slot - 1,
            forall|i: int| 1 <= i < slot ==> #[trigger] internal_entry_of_bytes(row_of(b, i)) is Some,
            forall|j: int|
                0 <= j < entries@.len() ==> #[trigger] entries@[j]@ == internal_entry_of_bytes(row_of(b, j + 1))->0,
        decreases n - slot,
    {
        assert(get_row_defined(b, slot as int));
        let bytes = match page.get_row(slot) {
            Some(bytes) => bytes,
            None => {
                return Err(IndexError::Encoding("missing node entry".to_string()));
            },
        };
        let e = match decode_internal_entry(bytes) {
            Ok(e) => e,
            Err(err) => {
                return Err(err);
            },
        };
        entries.push(e);
        slot = slot + 1;
    }
    let ghost views = entries@.map_values(|e: InternalEntry| e@);
    proof {
        assert(slot_count_of(b) <= 1 || slot == n);
        assert(internal_rows_decode(b));
        let got = page_internal_entries(b)->0;
        assert(got.len() == views.len());
        assert forall|j: int| 0 <= j < views.len() implies got[j] == views[j] by {
            assert(entries@[j]@ == views[j]);
        }
        assert(got =~= views);
    }
    Ok(entries)
}

/// Whether every slot of a page can be read: the condition under which its
/// node rows can be read.
pub fn rows_readable(page: &Page) -> (ok: bool)
    ensures
        ok == all_rows_readable(page@),
{
    page.all_rows_defined()
}

} // verus!
