//! The decisions of B+tree operations on decoded nodes: routing a key to a
//! child, searching and range-scanning a leaf, inserting and deleting leaf
//! entries, and splitting overfull nodes.
use crate::key::{IndexKey, KeyValue, key_lt, key_le, law_key_order_is_total};
use crate::node::{InternalEntry, InternalEntryView, LeafEntry, LeafEntryView};
use vstd::prelude::*;

verus! {

/// Entries whose keys never decrease.
pub open spec fn leaf_sorted(entries: Seq<LeafEntryView>) -> bool {
    forall|i: int, j: int| 0 <= i < j < entries.len() ==> key_le(entries[i].key, entries[j].key)
}

pub open spec fn internal_sorted(entries: Seq<InternalEntryView>) -> bool {
    forall|i: int, j: int| 0 <= i < j < entries.len() ==> key_le(entries[i].key, entries[j].key)
}

/// The number of leading entries whose key is not above `key`.
pub open spec fn routed_index(entries: Seq<InternalEntryView>, key: KeyValue) -> int
    decreases entries.len(),
{
    if entries.len() == 0 {
        0
    } else if key_lt(key, entries[0].key) {
        0
    } else {
        1 + routed_index(entries.drop_first(), key)
    }
}

/// The child an internal node routes `key` to: the child of the last entry
/// whose key is not above `key`, or the leftmost child when there is none.
pub open spec fn routed_child(entries: Seq<InternalEntryView>, leftmost_child: u32, key: KeyValue) -> u32 {
    let j = routed_index(entries, key);
    if j == 0 {
        leftmost_child
    } else {
        entries[j - 1].child_page
    }
}

proof fn lemma_routed_index(entries: Seq<InternalEntryView>, key: KeyValue)
    ensures
        0 <= routed_index(entries, key) <= entries.len(),
        forall|i: int| 0 <= i < routed_index(entries, key) ==> !key_lt(key, #[trigger] entries[i].key),
        routed_index(entries, key) < entries.len() ==> key_lt(key, entries[routed_index(entries, key)].key),
    decreases entries.len(),
{
    if entries.len() > 0 && !key_lt(key, entries[0].key) {
        lemma_routed_index(entries.drop_first(), key);
        assert forall|i: int| 0 <= i < routed_index(entries, key) implies !key_lt(key, #[trigger] entries[i].key) by {
            if i > 0 {
                assert(entries[i] == entries.drop_first()[i - 1]);
            }
        }
    }
}

/// In a node with sorted separators, the child chosen for `key` covers it:
/// every separator before the chosen child's is not above `key`, and the
/// next separator, if any, is above `key`.
pub proof fn law_routing_covers_key(entries: Seq<InternalEntryView>, key: KeyValue)
    requires
        internal_sorted(entries),
    ensures
        ({
            let j = routed_index(entries, key);
            &&& 0 <= j <= entries.len()
            &&& j > 0 ==> key_le(entries[j - 1].key, key)
            &&& j < entries.len() ==> key_lt(key, entries[j].key)
            &&& forall|i: int| 0 <= i < j ==> key_le(#[trigger] entries[i].key, key)
            &&& forall|i: int| j <= i < entries.len() ==> key_lt(key, #[trigger] entries[i].key)
        }),
{
    lemma_routed_index(entries, key);
    let j = routed_index(entries, key);
    assert forall|i: int| 0 <= i < j implies key_le(#[trigger] entries[i].key, key) by {
        law_key_order_is_total(entries[i].key, key, key);
    }
    assert forall|i: int| j <= i < entries.len() implies key_lt(key, #[trigger] entries[i].key) by {
        if i > j {
            assert(key_le(entries[j].key, entries[i].key));
            law_key_order_is_total(key, entries[j].key, entries[i].key);
        }
    }
}

/// The child page covering `key`: entries are sorted ascending, the leftmost
/// child covers everything below the first entry's key, and each entry's
/// child covers from its key up to the next entry's key.
pub fn child_for_key(entries: &[InternalEntry], leftmost_child: u32, key: &IndexKey) -> (child: u32)
    ensures
        child == routed_child(entries@.map_values(|e: InternalEntry| e@), leftmost_child, key@),
{
    let ghost views = entries@.map_values(|e: InternalEntry| e@);
    let mut chosen = leftmost_child;
    let mut i: usize = 0;
    assert(views.skip(0) =~= views);
    while i < entries.len()
        invariant
            i <= entries.len(),
            views == entries@.map_values(|e: InternalEntry| e@),
            routed_index(views, key@) == i + routed_index(views.skip(i as int), key@),
            chosen == (if i == 0 { leftmost_child } else { views[i - 1].child_page }),
        decreases entries.len() - i,
    {
        proof {
            assert(views.skip(i as int)[0] == views[i as int]);
            assert(views.skip(i as int).drop_first() =~= views.skip(i + 1));
        }
        if key.lt(&entries[i].key) {
            return chosen;
        }
        chosen = entries[i].child_page;
        i = i + 1;
    }
    chosen
}

/// The locations held by the entries whose key equals `key`, in order.
pub open spec fn matching_locations(entries: Seq<LeafEntryView>, key: KeyValue) -> Seq<(u32, u16)>
    decreases entries.len(),
{
    if entries.len() == 0 {
        Seq::empty()
    } else {
        let rest = matching_locations(entries.drop_last(), key);
        if entries.last().key == key {
            rest.push((entries.last().page_index, entries.last().slot))
        } else {
            rest
        }
    }
}

/// The row locations that a leaf holds for `key`, in entry order.
pub fn search_leaf(entries: &[LeafEntry], key: &IndexKey) -> (found: Vec<(u32, u16)>)
    ensures
        found@ == matching_locations(entries@.map_values(|e: LeafEntry| e@), key@),
{
    let ghost views = entries@.map_values(|e: LeafEntry| e@);
    let mut found: Vec<(u32, u16)> = Vec::new();
    let mut i: usize = 0;
    while i < entries.len()
        invariant
            i <= entries.len(),
            views == entries@.map_values(|e: LeafEntry| e@),
            found@ == matching_locations(views.take(i as int), key@),
        decreases entries.len() - i,
    {
        proof {
            assert(views.take(i + 1).drop_last() =~= views.take(i as int));
        }
        if entries[i].key.equals(key) {
            found.push((entries[i].page_index, entries[i].slot));
        }
        i = i + 1;
    }
    assert(views.take(entries.len() as int) =~= views);
    found
}

/// A bound of a range scan: a key, and whether the key itself is included.
pub open spec fn below_lower(k: KeyValue, lower: Option<(KeyValue, bool)>) -> bool {
    match lower {
        Some((b, inclusive)) => if inclusive { key_lt(k, b) } else { key_le(k, b) },
        None => false,
    }
}

pub open spec fn above_upper(k: KeyValue, upper: Option<(KeyValue, bool)>) -> bool {
    match upper {
        Some((b, inclusive)) => if inclusive { key_lt(b, k) } else { key_le(b, k) },
        None => false,
    }
}

/// Scanning a leaf for a range: entries below the lower bound are skipped;
/// the scan stops at the first entry above the upper bound. The result holds
/// the locations collected and whether the scan stopped.
pub open spec fn scan_range(
    entries: Seq<LeafEntryView>,
    lower: Option<(KeyValue, bool)>,
    upper: Option<(KeyValue, bool)>,
) -> (Seq<(u32, u16)>, bool)
    decreases entries.len(),
{
    if entries.len() == 0 {
        (Seq::empty(), false)
    } else {
        let (rest, stopped) = scan_range(entries.drop_last(), lower, upper);
        let e = entries.last();
        if stopped {
            (rest, true)
        } else if below_lower(e.key, lower) {
            (rest, false)
        } else if above_upper(e.key, upper) {
            (rest, true)
        } else {
            (rest.push((e.page_index, e.slot)), false)
        }
    }
}

/// Whether a location belongs in a range result.
pub open spec fn in_range(k: KeyValue, lower: Option<(KeyValue, bool)>, upper: Option<(KeyValue, bool)>) -> bool {
    !below_lower(k, lower) && !above_upper(k, upper)
}

/// On a sorted leaf that the scan does not stop in, the collected
/// locations are exactly those of the entries within the bounds.
pub proof fn law_scan_collects_entries_in_range(
    entries: Seq<LeafEntryView>,
    lower: Option<(KeyValue, bool)>,
    upper: Option<(KeyValue, bool)>,
)
    requires
        !scan_range(entries, lower, upper).1,
    ensures
        scan_range(entries, lower, upper).0 == entries.filter(|e: LeafEntryView| in_range(e.key, lower, upper)).map_values(
            |e: LeafEntryView| (e.page_index, e.slot),
        ),
    decreases entries.len(),
{
    let f = |e: LeafEntryView| in_range(e.key, lower, upper);
    let g = |e: LeafEntryView| (e.page_index, e.slot);
    if entries.len() == 0 {
        assert(entries.filter(f) =~= Seq::<LeafEntryView>::empty());
        assert(entries.filter(f).map_values(g) =~= Seq::<(u32, u16)>::empty());
    } else {
        let init = entries.drop_last();
        law_scan_collects_entries_in_range(init, lower, upper);
        assert(entries =~= init.push(entries.last()));
        init.lemma_filter_push(entries.last(), f);
        if f(entries.last()) {
            assert(entries.filter(f).map_values(g) =~= init.filter(f).map_values(g).push(g(entries.last())));
        } else {
            assert(entries.filter(f) == init.filter(f));
        }
    }
}

fn below_lower_exec(k: &IndexKey, lower: &Option<(&IndexKey, bool)>) -> (b: bool)
    ensures
        b == below_lower(k@, match lower { Some((b, i)) => Some((b@, *i)), None => None }),
{
    match lower {
        Some((bound, inclusive)) => if *inclusive {
            k.lt(bound)
        } else {
            k.lt(bound) || k.equals(bound)
        },
        None => false,
    }
}

fn above_upper_exec(k: &IndexKey, upper: &Option<(&IndexKey, bool)>) -> (b: bool)
    ensures
        b == above_upper(k@, match upper { Some((b, i)) => Some((b@, *i)), None => None }),
{
    match upper {
        Some((bound, inclusive)) => if *inclusive {
            bound.lt(k)
        } else {
            bound.lt(k) || bound.equals(k)
        },
        None => false,
    }
}

pub open spec fn bound_view(b: Option<(&IndexKey, bool)>) -> Option<(KeyValue, bool)> {
    match b {
        Some((k, inclusive)) => Some((k@, inclusive)),
        None => None,
    }
}

/// Whether a key lies within the bounds of a range search.
pub fn key_in_range(k: &IndexKey, lower: &Option<(&IndexKey, bool)>, upper: &Option<(&IndexKey, bool)>) -> (b: bool)
    ensures
        b == in_range(k@, bound_view(*lower), bound_view(*upper)),
{
    !below_lower_exec(k, lower) && !above_upper_exec(k, upper)
}

/// Scans one leaf of a range search. Returns the locations of the entries
/// within the bounds, in order, up to the first entry above the upper
/// bound, and whether such an entry was met (which ends the search).
pub fn scan_leaf_range(
    entries: &[LeafEntry],
    lower: Option<(&IndexKey, bool)>,
    upper: Option<(&IndexKey, bool)>,
) -> (result: (Vec<(u32, u16)>, bool))
    ensures
        (result.0@, result.1) == scan_range(entries@.map_values(|e: LeafEntry| e@), bound_view(lower), bound_view(upper)),
{
    let ghost views = entries@.map_values(|e: LeafEntry| e@);
    let mut results: Vec<(u32, u16)> = Vec::new();
    let mut i: usize = 0;
    while i < entries.len()
        invariant
            i <= entries.len(),
            views == entries@.map_values(|e: LeafEntry| e@),
            scan_range(views.take(i as int), bound_view(lower), bound_view(upper)) == (results@, false),
        decreases entries.len() - i,
    {
        proof {
            assert(views.take(i + 1).drop_last() =~= views.take(i as int));
        }
        let entry = &entries[i];
        if below_lower_exec(&entry.key, &lower) {
            i = i + 1;
            continue;
        }
        if above_upper_exec(&entry.key, &upper) {
            proof {
                lemma_scan_stops(views, i as int + 1, bound_view(lower), bound_view(upper));
            }
            return (results, true);
        }
        results.push((entry.page_index, entry.slot));
        i = i + 1;
    }
    assert(views.take(entries.len() as int) =~= views);
    (results, false)
}

proof fn lemma_scan_stops(
    entries: Seq<LeafEntryView>,
    k: int,
    lower: Option<(KeyValue, bool)>,
    upper: Option<(KeyValue, bool)>,
)
    requires
        0 <= k <= entries.len(),
        scan_range(entries.take(k), lower, upper).1,
    ensures
        scan_range(entries, lower, upper) == scan_range(entries.take(k), lower, upper),
    decreases entries.len() - k,
{
    if k < entries.len() {
        assert(entries.take(k + 1).drop_last() =~= entries.take(k));
        lemma_scan_stops(entries, k + 1, lower, upper);
    } else {
        assert(entries.take(k) =~= entries);
    }
}

/// Where a new key goes among sorted entries: before the first entry whose
/// key is above it, or at the end.
pub open spec fn leaf_insert_index(entries: Seq<LeafEntryView>, key: KeyValue) -> int
    decreases entries.len(),
{
    if entries.len() == 0 {
        0
    } else if key_lt(key, entries[0].key) {
        0
    } else {
        1 + leaf_insert_index(entries.drop_first(), key)
    }
}

pub open spec fn internal_insert_index(entries: Seq<InternalEntryView>, key: KeyValue) -> int
    decreases entries.len(),
{
    if entries.len() == 0 {
        0
    } else if key_lt(key, entries[0].key) {
        0
    } else {
        1 + internal_insert_index(entries.drop_first(), key)
    }
}

proof fn lemma_leaf_insert_index(entries: Seq<LeafEntryView>, key: KeyValue)
    ensures
        0 <= leaf_insert_index(entries, key) <= entries.len(),
        forall|i: int| 0 <= i < leaf_insert_index(entries, key) ==> !key_lt(key, #[trigger] entries[i].key),
        leaf_insert_index(entries, key) < entries.len() ==> key_lt(key, entries[leaf_insert_index(entries, key)].key),
    decreases entries.len(),
{
    if entries.len() > 0 && !key_lt(key, entries[0].key) {
        lemma_leaf_insert_index(entries.drop_first(), key);
        assert forall|i: int| 0 <= i < leaf_insert_index(entries, key) implies !key_lt(key, #[trigger] entries[i].key) by {
            if i > 0 {
                assert(entries[i] == entries.drop_first()[i - 1]);
            }
        }
    }
}

proof fn lemma_internal_insert_index(entries: Seq<InternalEntryView>, key: KeyValue)
    ensures
        0 <= internal_insert_index(entries, key) <= entries.len(),
        forall|i: int| 0 <= i < internal_insert_index(entries, key) ==> !key_lt(key, #[trigger] entries[i].key),
        internal_insert_index(entries, key) < entries.len() ==> key_lt(key, entries[internal_insert_index(entries, key)].key),
    decreases entries.len(),
{
    if entries.len() > 0 && !key_lt(key, entries[0].key) {
        lemma_internal_insert_index(entries.drop_first(), key);
        assert forall|i: int| 0 <= i < internal_insert_index(entries, key) implies !key_lt(key, #[trigger] entries[i].key) by {
            if i > 0 {
                assert(entries[i] == entries.drop_first()[i - 1]);
            }
        }
    }
}

/// Inserts `entry` after every entry whose key is not above its key. On
/// sorted entries the result stays sorted.
pub fn insert_leaf_entry(entries: &mut Vec<LeafEntry>, entry: LeafEntry)
    ensures
        ({
            let old_views = old(entries)@.map_values(|e: LeafEntry| e@);
            let pos = leaf_insert_index(old_views, entry@.key);
            &&& final(entries)@.map_values(|e: LeafEntry| e@) == old_views.insert(pos, entry@)
            &&& leaf_sorted(old_views) ==> leaf_sorted(final(entries)@.map_values(|e: LeafEntry| e@))
        }),
{
    let ghost old_views = entries@.map_values(|e: LeafEntry| e@);
    let ghost k = entry@.key;
    let mut i: usize = 0;
    assert(old_views.skip(0) =~= old_views);
    while i < entries.len()
        invariant
            i <= entries.len(),
            old_views == entries@.map_values(|e: LeafEntry| e@),
            leaf_insert_index(old_views, k) == i + leaf_insert_index(old_views.skip(i as int), k),
            k == entry@.key,
        ensures
            i == entries.len() || key_lt(k, old_views[i as int].key),
            leaf_insert_index(old_views, k) == i + leaf_insert_index(old_views.skip(i as int), k),
            i <= entries.len(),
        decreases entries.len() - i,
    {
        proof {
            assert(old_views.skip(i as int)[0] == old_views[i as int]);
            assert(old_views.skip(i as int).drop_first() =~= old_views.skip(i + 1));
        }
        if entry.key.lt(&entries[i].key) {
            break;
        }
        i = i + 1;
    }
    proof {
        if i == entries.len() {
            assert(old_views.skip(i as int).len() == 0);
        } else {
            assert(old_views.skip(i as int)[0] == old_views[i as int]);
        }
        assert(leaf_insert_index(old_views, k) == i);
        lemma_leaf_insert_index(old_views, k);
    }
    let ghost new_entry = entry@;
    entries.insert(i, entry);
    proof {
        let nv = entries@.map_values(|e: LeafEntry| e@);
        assert(nv =~= old_views.insert(i as int, new_entry));
        if leaf_sorted(old_views) {
            assert forall|a: int, b: int| 0 <= a < b < nv.len() implies key_le(nv[a].key, nv[b].key) by {
                if b < i {
                    assert(nv[a] == old_views[a] && nv[b] == old_views[b]);
                    assert(key_le(old_views[a].key, old_views[b].key));
                } else if a < i && b == i {
                    assert(nv[a] == old_views[a]);
                    assert(!key_lt(k, old_views[a].key));
                    law_key_order_is_total(old_views[a].key, k, k);
                } else if a < i && b > i {
                    assert(nv[a] == old_views[a]);
                    assert(nv[b] == old_views[b - 1]);
                    assert(key_le(old_views[a].key, old_views[b - 1].key));
                } else if a == i {
                    assert(nv[a] == new_entry);
                    assert(nv[b] == old_views[b - 1]);
                    assert(key_lt(k, old_views[i as int].key));
                    if b - 1 > i {
                        assert(key_le(old_views[i as int].key, old_views[b - 1].key));
                        law_key_order_is_total(k, old_views[i as int].key, old_views[b - 1].key);
                    }
                } else {
                    assert(nv[a] == old_views[a - 1]);
                    assert(nv[b] == old_views[b - 1]);
                    assert(key_le(old_views[a - 1].key, old_views[b - 1].key));
                }
            }
        }
    }
}

/// Inserts `entry` after every entry whose key is not above its key. On
/// sorted entries the result stays sorted.
pub fn insert_internal_entry(entries: &mut Vec<InternalEntry>, entry: InternalEntry)
    ensures
        ({
            let old_views = old(entries)@.map_values(|e: InternalEntry| e@);
            let pos = internal_insert_index(old_views, entry@.key);
            &&& final(entries)@.map_values(|e: InternalEntry| e@) == old_views.insert(pos, entry@)
            &&& internal_sorted(old_views) ==> internal_sorted(final(entries)@.map_values(|e: InternalEntry| e@))
        }),
{
    let ghost old_views = entries@.map_values(|e: InternalEntry| e@);
    let ghost k = entry@.key;
    let mut i: usize = 0;
    assert(old_views.skip(0) =~= old_views);
    while i < entries.len()
        invariant
            i <= entries.len(),
            old_views == entries@.map_values(|e: InternalEntry| e@),
            internal_insert_index(old_views, k) == i + internal_insert_index(old_views.skip(i as int), k),
            k == entry@.key,
        ensures
            i == entries.len() || key_lt(k, old_views[i as int].key),
            internal_insert_index(old_views, k) == i + internal_insert_index(old_views.skip(i as int), k),
            i <= entries.len(),
        decreases entries.len() - i,
    {
        proof {
            assert(old_views.skip(i as int)[0] == old_views[i as int]);
            assert(old_views.skip(i as int).drop_first() =~= old_views.skip(i + 1));
        }
        if entry.key.lt(&entries[i].key) {
            break;
        }
        i = i + 1;
    }
    proof {
        if i == entries.len() {
            assert(old_views.skip(i as int).len() == 0);
        } else {
            assert(old_views.skip(i as int)[0] == old_views[i as int]);
        }
        assert(internal_insert_index(old_views, k) == i);
        lemma_internal_insert_index(old_views, k);
    }
    let ghost new_entry = entry@;
    entries.insert(i, entry);
    proof {
        let nv = entries@.map_values(|e: InternalEntry| e@);
        assert(nv =~= old_views.insert(i as int, new_entry));
        if internal_sorted(old_views) {
            assert forall|a: int, b: int| 0 <= a < b < nv.len() implies key_le(nv[a].key, nv[b].key) by {
                if b < i {
                    assert(nv[a] == old_views[a] && nv[b] == old_views[b]);
                    assert(key_le(old_views[a].key, old_views[b].key));
                } else if a < i && b == i {
                    assert(nv[a] == old_views[a]);
                    assert(!key_lt(k, old_views[a].key));
                    law_key_order_is_total(old_views[a].key, k, k);
                } else if a < i && b > i {
                    assert(nv[a] == old_views[a]);
                    assert(nv[b] == old_views[b - 1]);
                    assert(key_le(old_views[a].key, old_views[b - 1].key));
                } else if a == i {
                    assert(nv[a] == new_entry);
                    assert(nv[b] == old_views[b - 1]);
                    assert(key_lt(k, old_views[i as int].key));
                    if b - 1 > i {
                        assert(key_le(old_views[i as int].key, old_views[b - 1].key));
                        law_key_order_is_total(k, old_views[i as int].key, old_views[b - 1].key);
                    }
                } else {
                    assert(nv[a] == old_views[a - 1]);
                    assert(nv[b] == old_views[b - 1]);
                    assert(key_le(old_views[a - 1].key, old_views[b - 1].key));
                }
            }
        }
    }
}

/// Whether a leaf entry is the one identified by key and location.
pub open spec fn is_target(e: LeafEntryView, key: KeyValue, page_index: u32, slot: u16) -> bool {
    e.key == key && e.page_index == page_index && e.slot == slot
}

/// Removes every entry identified by `key`, `page_index` and `slot`, keeping
/// the others in order. Returns whether any entry was removed.
pub fn delete_leaf_entry(entries: &mut Vec<LeafEntry>, key: &IndexKey, page_index: u32, slot: u16) -> (removed: bool)
    ensures
        final(entries)@.map_values(|e: LeafEntry| e@) == old(entries)@.map_values(|e: LeafEntry| e@).filter(
            |e: LeafEntryView| !is_target(e, key@, page_index, slot),
        ),
        removed == exists|i: int|
            0 <= i < old(entries)@.len() && #[trigger] is_target(old(entries)@[i]@, key@, page_index, slot),
{
    let ghost old_views = entries@.map_values(|e: LeafEntry| e@);
    let ghost f = |e: LeafEntryView| !is_target(e, key@, page_index, slot);
    let mut kept: Vec<LeafEntry> = Vec::new();
    let mut removed = false;
    let mut i: usize = 0;
    while i < entries.len()
        invariant
            i <= entries.len(),
            old_views == entries@.map_values(|e: LeafEntry| e@),
            f == (|e: LeafEntryView| !is_target(e, key@, page_index, slot)),
            kept@.map_values(|e: LeafEntry| e@) == old_views.take(i as int).filter(f),
            removed == exists|j: int| 0 <= j < i && #[trigger] is_target(entries@[j]@, key@, page_index, slot),
        decreases entries.len() - i,
    {
        let e = &entries[i];
        proof {
            assert(old_views.take(i + 1) =~= old_views.take(i as int).push(old_views[i as int]));
            old_views.take(i as int).lemma_filter_push(old_views[i as int], f);
        }
        let target = e.key.equals(key) && e.page_index == page_index && e.slot == slot;
        if target {
            removed = true;
        } else {
            let ghost before = kept@;
            kept.push(e.duplicate());
            assert(kept@.map_values(|e: LeafEntry| e@) =~= before.map_values(|e: LeafEntry| e@).push(old_views[i as int]));
        }
        proof {
            if !target {
                assert(!is_target(entries@[i as int]@, key@, page_index, slot));
                assert forall|j: int| 0 <= j < i + 1 && #[trigger] is_target(entries@[j]@, key@, page_index, slot) implies j < i by {}
            } else {
                assert(is_target(entries@[i as int]@, key@, page_index, slot));
            }
        }
        i = i + 1;
    }
    assert(old_views.take(entries.len() as int) =~= old_views);
    *entries = kept;
    removed
}

/// The halves of a split leaf: the first `len / 2` entries stay left, the
/// rest go right, and the first right key separates them.
pub fn split_leaf_entries(entries: &Vec<LeafEntry>) -> (halves: (Vec<LeafEntry>, Vec<LeafEntry>, IndexKey))
    requires
        entries@.len() >= 1,
    ensures
        ({
            let v = entries@.map_values(|e: LeafEntry| e@);
            let mid = v.len() / 2;
            &&& halves.0@.map_values(|e: LeafEntry| e@) == v.subrange(0, mid as int)
            &&& halves.1@.map_values(|e: LeafEntry| e@) == v.subrange(mid as int, v.len() as int)
            &&& halves.2@ == v[mid as int].key
            &&& leaf_sorted(v) ==> (forall|i: int| 0 <= i < mid ==> key_le(#[trigger] v[i].key, halves.2@))
            &&& leaf_sorted(v) ==> (forall|i: int| mid <= i < v.len() ==> key_le(halves.2@, #[trigger] v[i].key))
        }),
{
    let ghost v = entries@.map_values(|e: LeafEntry| e@);
    let mid = entries.len() / 2;
    let mut left: Vec<LeafEntry> = Vec::new();
    let mut right: Vec<LeafEntry> = Vec::new();
    let mut i: usize = 0;
    while i < entries.len()
        invariant
            i <= entries.len(),
            mid == entries.len() / 2,
            v == entries@.map_values(|e: LeafEntry| e@),
            left@.map_values(|e: LeafEntry| e@) == v.subrange(0, if i < mid { i as int } else { mid as int }),
            right@.map_values(|e: LeafEntry| e@) == v.subrange(mid as int, if i < mid { mid as int } else { i as int }),
        decreases entries.len() - i,
    {
        let ghost l0 = left@;
        let ghost r0 = right@;
        let copy = entries[i].duplicate();
        if i < mid {
            left.push(copy);
            assert(left@.map_values(|e: LeafEntry| e@) =~= l0.map_values(|e: LeafEntry| e@).push(v[i as int]));
            assert(v.subrange(0, i + 1) =~= v.subrange(0, i as int).push(v[i as int]));
        } else {
            right.push(copy);
            assert(right@.map_values(|e: LeafEntry| e@) =~= r0.map_values(|e: LeafEntry| e@).push(v[i as int]));
            assert(v.subrange(mid as int, i + 1) =~= v.subrange(mid as int, i as int).push(v[i as int]));
        }
        i = i + 1;
    }
    let separator = entries[mid].key.duplicate();
    proof {
        if leaf_sorted(v) {
            assert forall|i: int| mid <= i < v.len() implies key_le(separator@, #[trigger] v[i].key) by {
                if i > mid {
                    assert(key_le(v[mid as int].key, v[i].key));
                }
            }
        }
    }
    (left, right, separator)
}

/// The halves of a split internal node: the entry at `len / 2` is promoted
/// to the parent; the entries before it stay left and those after it go
/// right, where the promoted entry's child becomes the right node's leftmost
/// child.
pub fn split_internal_entries(entries: &Vec<InternalEntry>) -> (halves: (Vec<InternalEntry>, Vec<InternalEntry>, InternalEntry))
    requires
        entries@.len() >= 1,
    ensures
        ({
            let v = entries@.map_values(|e: InternalEntry| e@);
            let mid = v.len() / 2;
            &&& halves.0@.map_values(|e: InternalEntry| e@) == v.subrange(0, mid as int)
            &&& halves.1@.map_values(|e: InternalEntry| e@) == v.subrange(mid + 1int, v.len() as int)
            &&& halves.2@ == v[mid as int]
        }),
{
    let ghost v = entries@.map_values(|e: InternalEntry| e@);
    let mid = entries.len() / 2;
    let mut left: Vec<InternalEntry> = Vec::new();
    let mut right: Vec<InternalEntry> = Vec::new();
    let mut i: usize = 0;
    while i < entries.len()
        invariant
            i <= entries.len(),
            mid == entries.len() / 2,
            v == entries@.map_values(|e: InternalEntry| e@),
            left@.map_values(|e: InternalEntry| e@) == v.subrange(0, if i < mid { i as int } else { mid as int }),
            right@.map_values(|e: InternalEntry| e@) == v.subrange(mid + 1, if i <= mid { mid + 1 } else { i as int }),
        decreases entries.len() - i,
    {
        let ghost l0 = left@;
        let ghost r0 = right@;
        if i < mid {
            left.push(entries[i].duplicate());
            assert(left@.map_values(|e: InternalEntry| e@) =~= l0.map_values(|e: InternalEntry| e@).push(v[i as int]));
            assert(v.subrange(0, i + 1) =~= v.subrange(0, i as int).push(v[i as int]));
        } else if i > mid {
            right.push(entries[i].duplicate());
            assert(right@.map_values(|e: InternalEntry| e@) =~= r0.map_values(|e: InternalEntry| e@).push(v[i as int]));
            assert(v.subrange(mid + 1, i + 1) =~= v.subrange(mid + 1, i as int).push(v[i as int]));
        }
        i = i + 1;
    }
    let promoted = entries[mid].duplicate();
    (left, right, promoted)
}

/// Every entry of a leaf with key `key` contributes its location to the
/// locations held for `key`.
proof fn lemma_matching_includes(entries: Seq<LeafEntryView>, key: KeyValue, i: int)
    requires
        0 <= i < entries.len(),
        entries[i].key == key,
    ensures
        matching_locations(entries, key).contains((entries[i].page_index, entries[i].slot)),
    decreases entries.len(),
{
    let loc = (entries[i].page_index, entries[i].slot);
    let rest = matching_locations(entries.drop_last(), key);
    if i == entries.len() - 1 {
        assert(rest.push(loc)[rest.len() as int] == loc);
    } else {
        lemma_matching_includes(entries.drop_last(), key, i);
        assert(entries.drop_last()[i] == entries[i]);
        let j = choose|j: int| 0 <= j < rest.len() && rest[j] == loc;
        if entries.last().key == key {
            assert(rest.push((entries.last().page_index, entries.last().slot))[j] == loc);
        }
    }
}

/// Each location held for `key` is that of an entry with key `key`.
proof fn lemma_matching_only(entries: Seq<LeafEntryView>, key: KeyValue, loc: (u32, u16))
    requires
        matching_locations(entries, key).contains(loc),
    ensures
        exists|i: int| 0 <= i < entries.len() && #[trigger] entries[i].key == key && (entries[i].page_index, entries[i].slot) == loc,
    decreases entries.len(),
{
    let init = entries.drop_last();
    let rest = matching_locations(init, key);
    let j = choose|j: int| 0 <= j < matching_locations(entries, key).len() && matching_locations(entries, key)[j] == loc;
    if entries.last().key == key && j == rest.len() {
        assert(entries[entries.len() - 1].key == key);
    } else {
        assert(rest[j] == loc);
        lemma_matching_only(init, key, loc);
        let i = choose|i: int| 0 <= i < init.len() && #[trigger] init[i].key == key && (init[i].page_index, init[i].slot) == loc;
        assert(entries[i] == init[i]);
    }
}

/// Insert then search: once an entry is inserted into a leaf, a search of
/// the leaf for its key finds its location.
pub proof fn law_search_finds_inserted_entry(entries: Seq<LeafEntryView>, entry: LeafEntryView)
    ensures
        matching_locations(entries.insert(leaf_insert_index(entries, entry.key), entry), entry.key).contains(
            (entry.page_index, entry.slot),
        ),
{
    lemma_leaf_insert_index(entries, entry.key);
    let pos = leaf_insert_index(entries, entry.key);
    let s = entries.insert(pos, entry);
    assert(s[pos] == entry);
    lemma_matching_includes(s, entry.key, pos);
}

/// Delete then search: once the entry for a location is deleted from a
/// leaf, a search of the leaf for its key no longer finds that location.
pub proof fn law_search_misses_deleted_entry(entries: Seq<LeafEntryView>, key: KeyValue, page_index: u32, slot: u16)
    ensures
        !matching_locations(
            entries.filter(|e: LeafEntryView| !is_target(e, key, page_index, slot)),
            key,
        ).contains((page_index, slot)),
{
    broadcast use vstd::seq_lib::group_filter_ensures;
    let kept = entries.filter(|e: LeafEntryView| !is_target(e, key, page_index, slot));
    if matching_locations(kept, key).contains((page_index, slot)) {
        lemma_matching_only(kept, key, (page_index, slot));
        let i = choose|i: int| 0 <= i < kept.len() && #[trigger] kept[i].key == key && (kept[i].page_index, kept[i].slot) == (page_index, slot);
        assert(is_target(kept[i], key, page_index, slot));
    }
}


/// The page of a tree's root. The root never moves: when it splits, its
/// halves go to fresh pages and the root page is rewritten as an internal
/// node over them.
pub const ROOT_PAGE: u32 = 0;

/// Where the halves of a split node go.
#[derive(Debug, Clone, Copy, PartialEq, Eq)]
pub struct SplitPlacement {
    /// The page of the lower half.
    pub left_page: u32,
    /// The page of the upper half.
    pub right_page: u32,
    /// Whether the root page is rewritten over the two halves (else the
    /// separator goes up to the parent).
    pub new_root: bool,
}

/// Where the halves of node `node_page` go when it splits, in a tree whose
/// page file holds `page_count` pages: a root's halves take the next two
/// fresh pages and the root is rewritten over them; any other node keeps
/// its lower half and its upper half takes the next fresh page.
pub fn split_placement(node_page: u32, page_count: u32) -> (placement: SplitPlacement)
    requires
        page_count < u32::MAX,
    ensures
        node_page == ROOT_PAGE ==> placement == (SplitPlacement {
            left_page: page_count,
            right_page: (page_count + 1) as u32,
            new_root: true,
        }),
        node_page != ROOT_PAGE ==> placement == (SplitPlacement { left_page: node_page, right_page: page_count, new_root: false }),
{
    if node_page == ROOT_PAGE {
        SplitPlacement { left_page: page_count, right_page: page_count + 1, new_root: true }
    } else {
        SplitPlacement { left_page: node_page, right_page: page_count, new_root: false }
    }
}


/// Whether a range scan stops at an entry with key `k`: the key is not
/// below the lower bound but is above the upper bound.
pub open spec fn stops_scan(k: KeyValue, lower: Option<(KeyValue, bool)>, upper: Option<(KeyValue, bool)>) -> bool {
    !below_lower(k, lower) && above_upper(k, upper)
}

/// A range scan of a leaf reads the entries up to the first one at which it
/// stops (an entry above the upper bound that is not below the lower one).
/// If the first `m` entries hold no such entry, and entry `m` is one or
/// there is none after them, then the scan stops exactly when an entry is
/// left after the `m`, and it collects, in order, the locations of those
/// `m` entries whose keys lie within the bounds.
pub proof fn law_scan_reads_up_to_first_stop(
    entries: Seq<LeafEntryView>,
    lower: Option<(KeyValue, bool)>,
    upper: Option<(KeyValue, bool)>,
    m: int,
)
    requires
        0 <= m <= entries.len(),
        forall|j: int| 0 <= j < m ==> !stops_scan(#[trigger] entries[j].key, lower, upper),
        m < entries.len() ==> stops_scan(entries[m].key, lower, upper),
    ensures
        scan_range(entries, lower, upper).1 == (m < entries.len()),
        scan_range(entries, lower, upper).0 == entries.take(m).filter(|e: LeafEntryView| in_range(e.key, lower, upper)).map_values(
            |e: LeafEntryView| (e.page_index, e.slot),
        ),
{
    lemma_scan_no_stop(entries.take(m), lower, upper);
    law_scan_collects_entries_in_range(entries.take(m), lower, upper);
    if m < entries.len() {
        assert(entries.take(m + 1).drop_last() =~= entries.take(m));
        assert(entries.take(m + 1).last() == entries[m]);
        lemma_scan_stops(entries, m + 1, lower, upper);
    } else {
        assert(entries.take(m) =~= entries);
    }
}

/// A scan over entries none of which stops it does not stop.
proof fn lemma_scan_no_stop(
    entries: Seq<LeafEntryView>,
    lower: Option<(KeyValue, bool)>,
    upper: Option<(KeyValue, bool)>,
)
    requires
        forall|j: int| 0 <= j < entries.len() ==> !stops_scan(#[trigger] entries[j].key, lower, upper),
    ensures
        !scan_range(entries, lower, upper).1,
    decreases entries.len(),
{
    if entries.len() > 0 {
        let init = entries.drop_last();
        assert forall|j: int| 0 <= j < init.len() implies !stops_scan(#[trigger] init[j].key, lower, upper) by {
            assert(init[j] == entries[j]);
        }
        lemma_scan_no_stop(init, lower, upper);
        assert(!stops_scan(entries[entries.len() - 1].key, lower, upper));
    }
}

} // verus!
