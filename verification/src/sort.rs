//! The sorted-page codec: a page content holding an offset table and
//! densely packed, ascending-key-ordered key-value records.
//!
//! Content layout: a u32 little-endian offset for each item — entry `i` is
//! the byte offset of item `i` from the start of the content — followed by
//! the item encodings. The first offset equals four times the item count,
//! so the table's own length doubles as the count and the content needs no
//! separate count field. An empty page has empty content.

use crate::data::Key;
use crate::data::KeyView;
use crate::data::Value;
use crate::data::ValueView;
use crate::data::copy_bytes;
use crate::data::decode_key;
use crate::data::decode_value;
use crate::data::key_le;
use crate::data::lemma_enc_key_len;
use crate::data::lemma_enc_key_prefix_unique;
use crate::data::lex_le;
use crate::data::put_u32;
use crate::data::spec_enc_key;
use crate::data::spec_enc_value;
use crate::iter::DupItem;
use crate::iter::ForwardIterator;
use crate::iter::KeyCmp;
use crate::iter::RewindableIterator;
use crate::iter::SeekableIterator;
use crate::iter::SortKey;
use crate::iter::lower_bound;
use crate::iter::sorted_by_key;
use crate::page::PageBuild;
use crate::page::PageKind;
use crate::page::PageMut;
use crate::page::PageRef;
use crate::page::PageTier;
use crate::page::spec_page_content;
use vstd::bytes::*;
use vstd::prelude::*;
use vstd::seq_lib::*;
use vstd::slice::slice_subrange;

verus! {

/// The wire form of one item: its key, then its value.
pub open spec fn spec_item_enc(it: (KeyView, ValueView)) -> Seq<u8> {
    spec_enc_key(it.0) + spec_enc_value(it.1)
}

/// The densely packed item encodings, in order.
pub open spec fn spec_payload(items: Seq<(KeyView, ValueView)>) -> Seq<u8>
    decreases items.len(),
{
    if items.len() == 0 {
        Seq::empty()
    } else {
        spec_item_enc(items[0]) + spec_payload(items.drop_first())
    }
}

/// The byte offset of item `i` from the start of the content.
pub open spec fn spec_offset(items: Seq<(KeyView, ValueView)>, i: int) -> int {
    4 * items.len() as int + spec_payload(items.take(i)).len() as int
}

/// The offset-table bytes covering the first `i` items.
pub open spec fn spec_offsets_upto(items: Seq<(KeyView, ValueView)>, i: int) -> Seq<u8>
    decreases i,
{
    if i <= 0 {
        Seq::empty()
    } else {
        spec_offsets_upto(items, i - 1) + spec_u32_to_le_bytes(spec_offset(items, i - 1) as u32)
    }
}

/// The whole content encoding a sorted page's items.
pub open spec fn spec_sorted_content(items: Seq<(KeyView, ValueView)>) -> Seq<u8> {
    spec_offsets_upto(items, items.len() as int) + spec_payload(items)
}

/// Encodable items: every raw key fits the u32 length prefix and the whole
/// content stays within the 32-bit offset limit.
pub open spec fn items_wf(items: Seq<(KeyView, ValueView)>) -> bool {
    &&& forall|i: int| 0 <= i < items.len() ==> (#[trigger] items[i]).0.raw.len() <= u32::MAX
    &&& 4 * items.len() + spec_payload(items).len() <= u32::MAX
}

/// Splitting a concatenation splits its payload.
pub proof fn lemma_payload_concat(a: Seq<(KeyView, ValueView)>, b: Seq<(KeyView, ValueView)>)
    ensures
        spec_payload(a + b) == spec_payload(a) + spec_payload(b),
    decreases a.len(),
{
    if a.len() == 0 {
        assert(a + b =~= b);
        assert(spec_payload(a) + spec_payload(b) =~= spec_payload(b));
    } else {
        assert((a + b).drop_first() =~= a.drop_first() + b);
        lemma_payload_concat(a.drop_first(), b);
        assert(spec_payload(a + b) =~= spec_payload(a) + spec_payload(b)) by {
            assert((a + b)[0] == a[0]);
        }
    }
}

/// The payload of one more item appends that item's encoding.
pub proof fn lemma_payload_take_succ(items: Seq<(KeyView, ValueView)>, i: int)
    requires
        0 <= i < items.len(),
    ensures
        spec_payload(items.take(i + 1)) == spec_payload(items.take(i)) + spec_item_enc(items[i]),
{
    assert(items.take(i + 1) =~= items.take(i) + seq![items[i]]);
    lemma_payload_concat(items.take(i), seq![items[i]]);
    let single = seq![items[i]];
    assert(single.len() == 1 && single[0] == items[i]);
    assert(single.drop_first() =~= Seq::<(KeyView, ValueView)>::empty());
    assert(spec_payload(single) == spec_item_enc(items[i]) + spec_payload(single.drop_first()));
    assert(spec_payload(single) =~= spec_item_enc(items[i]));
}

/// Payload length grows with the items taken.
pub proof fn lemma_payload_take_le(items: Seq<(KeyView, ValueView)>, i: int)
    requires
        0 <= i <= items.len(),
    ensures
        spec_payload(items.take(i)).len() <= spec_payload(items).len(),
    decreases items.len() - i,
{
    if i == items.len() {
        assert(items.take(i) =~= items);
    } else {
        lemma_payload_take_succ(items, i);
        lemma_payload_take_le(items, i + 1);
    }
}

/// The offset table of the first `i` items is `4 * i` bytes, and entry `j`
/// holds offset `j`.
pub proof fn lemma_offsets_upto_props(items: Seq<(KeyView, ValueView)>, i: int)
    requires
        0 <= i <= items.len(),
    ensures
        spec_offsets_upto(items, i).len() == 4 * i,
        forall|j: int|
            0 <= j < i ==> #[trigger] spec_offsets_upto(items, i).subrange(4 * j, 4 * j + 4)
                == spec_u32_to_le_bytes(spec_offset(items, j) as u32),
    decreases i,
{
    lemma_auto_spec_u32_to_from_le_bytes();
    if i > 0 {
        lemma_offsets_upto_props(items, i - 1);
        let prev = spec_offsets_upto(items, i - 1);
        let cur = spec_offsets_upto(items, i);
        assert forall|j: int| 0 <= j < i implies #[trigger] cur.subrange(4 * j, 4 * j + 4)
            == spec_u32_to_le_bytes(spec_offset(items, j) as u32) by {
            if j < i - 1 {
                assert(cur.subrange(4 * j, 4 * j + 4) =~= prev.subrange(4 * j, 4 * j + 4));
            } else {
                assert(cur.subrange(4 * j, 4 * j + 4) =~= spec_u32_to_le_bytes(
                    spec_offset(items, j) as u32,
                ));
            }
        }
    }
}

/// Where item `i` sits inside the content: its encoding fills the region
/// from its offset to the next offset, or to the content's end for the
/// last item.
pub proof fn lemma_item_region(items: Seq<(KeyView, ValueView)>, i: int)
    requires
        0 <= i < items.len(),
    ensures
        spec_sorted_content(items).len() == 4 * items.len() + spec_payload(items).len(),
        4 * items.len() <= spec_offset(items, i),
        spec_offset(items, i) + spec_item_enc(items[i]).len() == if i + 1 < items.len() {
            spec_offset(items, i + 1)
        } else {
            spec_sorted_content(items).len() as int
        },
        spec_offset(items, i) + spec_item_enc(items[i]).len() <= spec_sorted_content(items).len(),
        spec_sorted_content(items).subrange(
            spec_offset(items, i),
            spec_offset(items, i) + spec_item_enc(items[i]).len(),
        ) == spec_item_enc(items[i]),
{
    let n = items.len() as int;
    let s = spec_sorted_content(items);
    lemma_offsets_upto_props(items, n);
    lemma_payload_take_succ(items, i);
    lemma_payload_take_le(items, i + 1);
    assert(items.take(i).len() == i);
    // decompose the payload around item i
    assert(items =~= items.take(i + 1) + items.skip(i + 1));
    lemma_payload_concat(items.take(i + 1), items.skip(i + 1));
    assert(spec_payload(items) == spec_payload(items.take(i)) + spec_item_enc(items[i])
        + spec_payload(items.skip(i + 1)));
    if i + 1 < n {
        assert(spec_offset(items, i + 1) == 4 * n + spec_payload(items.take(i)).len()
            + spec_item_enc(items[i]).len());
    } else {
        assert(items.take(i + 1) =~= items);
        assert(spec_payload(items) == spec_payload(items.take(i)) + spec_item_enc(items[i]));
    }
    let off = spec_offset(items, i);
    let el = spec_item_enc(items[i]).len() as int;
    assert(off + el <= s.len()) by {
        assert(spec_payload(items.take(i + 1)).len() <= spec_payload(items).len());
    }
    assert(s.subrange(off, off + el) =~= spec_item_enc(items[i])) by {
        let p = spec_payload(items);
        let pt = spec_payload(items.take(i));
        assert(forall|k: int| 0 <= k < p.len() ==> s[4 * n + k] == p[k]);
        assert(forall|k: int|
            0 <= k < el ==> p[pt.len() + k] == #[trigger] spec_item_enc(items[i])[k]);
    }
}


/// Offset-table entry `j` is the same in two encodings of the same bytes.
proof fn lemma_offset_entry_equal(
    items1: Seq<(KeyView, ValueView)>,
    items2: Seq<(KeyView, ValueView)>,
    j: int,
)
    requires
        items_wf(items1),
        items_wf(items2),
        spec_sorted_content(items1) == spec_sorted_content(items2),
        items1.len() == items2.len(),
        0 <= j < items1.len(),
    ensures
        spec_offset(items1, j) == spec_offset(items2, j),
{
    lemma_auto_spec_u32_to_from_le_bytes();
    let s = spec_sorted_content(items1);
    let n = items1.len() as int;
    lemma_offsets_upto_props(items1, n);
    lemma_offsets_upto_props(items2, n);
    lemma_payload_take_le(items1, j);
    lemma_payload_take_le(items2, j);
    let t1 = spec_offsets_upto(items1, n);
    let t2 = spec_offsets_upto(items2, n);
    let o1 = spec_offset(items1, j) as u32;
    let o2 = spec_offset(items2, j) as u32;
    assert(t1.subrange(4 * j, 4 * j + 4) == spec_u32_to_le_bytes(o1));
    assert(t2.subrange(4 * j, 4 * j + 4) == spec_u32_to_le_bytes(o2));
    assert(t1.subrange(4 * j, 4 * j + 4) =~= s.subrange(4 * j, 4 * j + 4)) by {
        assert(forall|k: int| 0 <= k < 4 * n ==> s[k] == t1[k]);
    }
    assert(t2.subrange(4 * j, 4 * j + 4) =~= s.subrange(4 * j, 4 * j + 4)) by {
        assert(forall|k: int| 0 <= k < 4 * n ==> spec_sorted_content(items2)[k] == t2[k]);
    }
    assert(spec_u32_to_le_bytes(o1).len() == 4 && spec_u32_from_le_bytes(spec_u32_to_le_bytes(o1))
        == o1);
    assert(spec_u32_to_le_bytes(o2).len() == 4 && spec_u32_from_le_bytes(spec_u32_to_le_bytes(o2))
        == o2);
    assert(o1 == o2);
    assert(spec_offset(items1, j) <= u32::MAX && spec_offset(items2, j) <= u32::MAX);
}

/// Two item sequences with the same content are the same: the encoding is
/// injective, so a page determines its items.
pub proof fn lemma_content_injective(
    items1: Seq<(KeyView, ValueView)>,
    items2: Seq<(KeyView, ValueView)>,
)
    requires
        items_wf(items1),
        items_wf(items2),
        spec_sorted_content(items1) == spec_sorted_content(items2),
    ensures
        items1 == items2,
{
    lemma_auto_spec_u32_to_from_le_bytes();
    let s = spec_sorted_content(items1);
    let n1 = items1.len() as int;
    let n2 = items2.len() as int;
    lemma_offsets_upto_props(items1, n1);
    lemma_offsets_upto_props(items2, n2);
    // equal item counts: an empty sequence gives empty content, a nonempty
    // one opens with the u32 form of four times its count
    if n1 == 0 || n2 == 0 {
        if n1 != n2 {
            let (a, b) = if n1 == 0 {
                (items1, items2)
            } else {
                (items2, items1)
            };
            assert(spec_sorted_content(a).len() == 0);
            assert(spec_sorted_content(b).len() >= 4) by {
                lemma_offsets_upto_props(b, b.len() as int);
            }
        }
        assert(n1 == n2);
        assert(items1 =~= items2);
    } else {
        assert(spec_offsets_upto(items1, n1).subrange(4 * 0int, 4 * 0int + 4) == spec_u32_to_le_bytes(
            spec_offset(items1, 0) as u32,
        ));
        assert(spec_offsets_upto(items2, n2).subrange(4 * 0int, 4 * 0int + 4) == spec_u32_to_le_bytes(
            spec_offset(items2, 0) as u32,
        ));
        assert(s.subrange(0, 4) == spec_u32_to_le_bytes(spec_offset(items1, 0) as u32)) by {
            assert(spec_offsets_upto(items1, n1).subrange(4 * 0int, 4 * 0int + 4) =~= s.subrange(0, 4));
        }
        assert(s.subrange(0, 4) == spec_u32_to_le_bytes(spec_offset(items2, 0) as u32)) by {
            assert(spec_offsets_upto(items2, n2).subrange(4 * 0int, 4 * 0int + 4) =~= s.subrange(
                0,
                4,
            ) && spec_sorted_content(items2) == s);
        }
        assert(spec_offset(items1, 0) == 4 * n1 && spec_offset(items2, 0) == 4 * n2) by {
            assert(items1.take(0) =~= Seq::<(KeyView, ValueView)>::empty());
            assert(items2.take(0) =~= Seq::<(KeyView, ValueView)>::empty());
        }
        let o1 = spec_offset(items1, 0) as u32;
        let o2 = spec_offset(items2, 0) as u32;
        assert(spec_u32_to_le_bytes(o1) == spec_u32_to_le_bytes(o2));
        assert(spec_u32_from_le_bytes(spec_u32_to_le_bytes(o1)) == o1);
        assert(spec_u32_from_le_bytes(spec_u32_to_le_bytes(o2)) == o2);
        assert(o1 == o2);
        assert(4 * n1 <= u32::MAX && 4 * n2 <= u32::MAX);
        assert(n1 == n2);
        // matching offsets, then matching item regions
        assert forall|i: int| 0 <= i < n1 implies items1[i] == items2[i] by {
            lemma_offset_entry_equal(items1, items2, i);
            lemma_item_equal_from_region(items1, items2, i);
        }
        assert(items1 =~= items2);
    }
}

/// When two encodings agree on content and item `i` starts at the same
/// offset in both, item `i` is the same.
proof fn lemma_item_equal_from_region(
    items1: Seq<(KeyView, ValueView)>,
    items2: Seq<(KeyView, ValueView)>,
    i: int,
)
    requires
        items_wf(items1),
        items_wf(items2),
        spec_sorted_content(items1) == spec_sorted_content(items2),
        items1.len() == items2.len(),
        0 <= i < items1.len(),
        spec_offset(items1, i) == spec_offset(items2, i),
    ensures
        items1[i] == items2[i],
{
    lemma_auto_spec_u32_to_from_le_bytes();
    lemma_auto_spec_u64_to_from_le_bytes();
    let s = spec_sorted_content(items1);
    lemma_item_region(items1, i);
    lemma_item_region(items2, i);
    let off = spec_offset(items1, i);
    let e1 = spec_item_enc(items1[i]);
    let e2 = spec_item_enc(items2[i]);
    let t = s.skip(off);
    assert(0 <= off && off + e1.len() <= s.len());
    assert(off + e2.len() <= s.len());
    let ek1 = spec_enc_key(items1[i].0);
    let ek2 = spec_enc_key(items2[i].0);
    assert(ek1.is_prefix_of(t)) by {
        assert(s.subrange(off, off + e1.len() as int) == e1);
        assert(ek1.len() <= e1.len());
        assert(ek1 =~= t.subrange(0, ek1.len() as int)) by {
            assert forall|k: int| 0 <= k < ek1.len() implies ek1[k] == t.subrange(
                0,
                ek1.len() as int,
            )[k] by {
                assert(t[k] == s[off + k]);
                assert(e1[k] == s.subrange(off, off + e1.len() as int)[k]);
                assert(e1[k] == ek1[k]);
            }
        }
    }
    assert(ek2.is_prefix_of(t)) by {
        assert(s.subrange(off, off + e2.len() as int) == e2);
        assert(ek2.len() <= e2.len());
        assert(ek2 =~= t.subrange(0, ek2.len() as int)) by {
            assert forall|k: int| 0 <= k < ek2.len() implies ek2[k] == t.subrange(
                0,
                ek2.len() as int,
            )[k] by {
                assert(t[k] == s[off + k]);
                assert(e2[k] == s.subrange(off, off + e2.len() as int)[k]);
                assert(e2[k] == ek2[k]);
            }
        }
    }
    lemma_enc_key_prefix_unique(items1[i].0, items2[i].0, t);
    assert(items1[i].0 == items2[i].0);
    // the regions end at the same place, so the value encodings match
    lemma_enc_key_len(items1[i].0);
    if i + 1 < items1.len() {
        lemma_offset_entry_equal(items1, items2, i + 1);
    }
    assert(e1.len() == e2.len());
    assert(s.subrange(off, off + e1.len()) == e1 && s.subrange(off, off + e1.len()) == e2);
    let kl = ek1.len() as int;
    let ev1 = spec_enc_value(items1[i].1);
    let ev2 = spec_enc_value(items2[i].1);
    assert(ev1.len() == e1.len() - kl && ev2.len() == e2.len() - kl);
    assert(ev1 =~= ev2) by {
        assert forall|k: int| 0 <= k < ev1.len() implies ev1[k] == ev2[k] by {
            assert(e1[kl + k] == ev1[k]);
            assert(e2[kl + k] == ev2[k]);
            assert(e1[kl + k] == s.subrange(off, off + e1.len() as int)[kl + k]);
            assert(e2[kl + k] == s.subrange(off, off + e2.len() as int)[kl + k]);
        }
    }
    lemma_enc_value_injective(items1[i].1, items2[i].1);
}

/// Equal value encodings come from equal values.
pub proof fn lemma_enc_value_injective(v1: ValueView, v2: ValueView)
    requires
        spec_enc_value(v1) == spec_enc_value(v2),
    ensures
        v1 == v2,
{
    match (v1, v2) {
        (ValueView::Put(b1), ValueView::Put(b2)) => {
            assert(spec_enc_value(v1).len() == 1 + b1.len());
            assert(spec_enc_value(v2).len() == 1 + b2.len());
            assert(b1.len() == b2.len());
            assert forall|k: int| 0 <= k < b1.len() implies b1[k] == b2[k] by {
                assert((seq![0u8] + b1)[1 + k] == b1[k]);
                assert((seq![0u8] + b2)[1 + k] == b2[k]);
            }
            assert(b1 =~= b2);
        },
        (ValueView::Put(b1), ValueView::Delete) => {
            assert(spec_enc_value(v1)[0] == 0 && spec_enc_value(v2)[0] == 1);
        },
        (ValueView::Delete, ValueView::Put(b2)) => {
            assert(spec_enc_value(v1)[0] == 1 && spec_enc_value(v2)[0] == 0);
        },
        (ValueView::Delete, ValueView::Delete) => {},
    }
}

/// The items a well-formed sorted-page content holds; empty when the bytes
/// encode no item sequence.
pub open spec fn spec_page_items(s: Seq<u8>) -> Seq<(KeyView, ValueView)> {
    if exists|items: Seq<(KeyView, ValueView)>|
        s == spec_sorted_content(items) && items_wf(items) {
        choose|items: Seq<(KeyView, ValueView)>| s == spec_sorted_content(items) && items_wf(items)
    } else {
        Seq::empty()
    }
}

/// Round trip: the content built from items reads back as exactly those
/// items.
pub proof fn lemma_round_trip(items: Seq<(KeyView, ValueView)>)
    requires
        items_wf(items),
    ensures
        spec_page_items(spec_sorted_content(items)) == items,
{
    let s = spec_sorted_content(items);
    let w = choose|w: Seq<(KeyView, ValueView)>| s == spec_sorted_content(w) && items_wf(w);
    lemma_content_injective(items, w);
}

/// The content length is the table plus the payload.
pub proof fn lemma_content_len(items: Seq<(KeyView, ValueView)>)
    ensures
        spec_sorted_content(items).len() == 4 * items.len() + spec_payload(items).len(),
{
    lemma_offsets_upto_props(items, items.len() as int);
}

/// A two-phase builder for sorted pages: the first pass over a restartable
/// item sequence computes the exact content size, the second writes the
/// offset table and the packed items into an exactly-sized page.
pub struct SortedPageBuilder<I> where I: RewindableIterator<Item = (Key, Value)> {
    base: PageBuild,
    iter: Option<I>,
    num_items: usize,
    content_size: usize,
}

impl<I> SortedPageBuilder<I> where I: RewindableIterator<Item = (Key, Value)> {
    /// The items the page will hold.
    pub closed spec fn spec_items(&self) -> Seq<(KeyView, ValueView)> {
        match self.iter {
            Some(it) => it.all_items(),
            None => Seq::empty(),
        }
    }

    pub closed spec fn spec_kind(&self) -> PageKind {
        self.base.spec_kind()
    }

    pub closed spec fn spec_tier(&self) -> PageTier {
        self.base.spec_tier()
    }

    /// True while no item sequence has been attached yet.
    pub closed spec fn is_empty_builder(&self) -> bool {
        self.iter is None
    }

    pub closed spec fn wf(&self) -> bool {
        &&& items_wf(self.spec_items())
        &&& self.num_items == self.spec_items().len()
        &&& self.content_size == spec_sorted_content(self.spec_items()).len()
        &&& match self.iter {
            Some(it) => it.inv(),
            None => true,
        }
    }

    /// A builder for a page with the given metadata and, so far, no items.
    pub fn new(tier: PageTier, kind: PageKind) -> (r: Self)
        ensures
            r.wf(),
            r.is_empty_builder(),
            r.spec_items() == Seq::<(KeyView, ValueView)>::empty(),
            r.spec_kind() == kind,
            r.spec_tier() == tier,
    {
        let r = SortedPageBuilder {
            base: PageBuild::new(kind, tier),
            iter: None,
            num_items: 0,
            content_size: 0,
        };
        proof {
            assert(spec_sorted_content(r.spec_items()) =~= Seq::<u8>::empty());
        }
        r
    }

    /// First pass: consumes the sequence once to count the items and the
    /// exact content size. The items must be strictly ascending by key and
    /// fit the 32-bit offset limit.
    pub fn with_iter(self, iter: I) -> (r: Self)
        requires
            iter.inv(),
            iter.cursor() == 0,
            items_wf(iter.all_items()),
            strictly_sorted(iter.all_items()),
            self.is_empty_builder(),
        ensures
            r.wf(),
            r.spec_items() == iter.all_items(),
            strictly_sorted(r.spec_items()),
            r.spec_kind() == self.spec_kind(),
            r.spec_tier() == self.spec_tier(),
    {
        let ghost items = iter.all_items();
        let mut iter = iter;
        let mut num: usize = 0;
        let mut csize: usize = 0;
        proof {
            assert(items.take(0) =~= Seq::<(KeyView, ValueView)>::empty());
        }
        loop
            invariant
                iter.inv(),
                iter.all_items() == items,
                items_wf(items),
                num == iter.cursor(),
                num <= items.len(),
                csize == spec_payload(items.take(num as int)).len(),
            ensures
                iter.inv(),
                iter.all_items() == items,
                num == items.len(),
                csize == spec_payload(items).len(),
            decreases items.len() - num,
        {
            proof {
                if num < items.len() {
                    lemma_payload_take_succ(items, num as int);
                    lemma_payload_take_le(items, num as int + 1);
                    lemma_enc_key_len(items[num as int].0);
                }
            }
            match iter.next() {
                Some((k, v)) => {
                    num = num + 1;
                    csize = csize + k.encode_size() + v.encode_size();
                },
                None => {
                    proof {
                        assert(items.take(num as int) =~= items);
                    }
                    break ;
                },
            }
        }
        proof {
            lemma_content_len(items);
        }
        let content_size = csize + num * 4;
        SortedPageBuilder { base: self.base, iter: Some(iter), num_items: num, content_size }
    }

    /// The size of the page that will be built: header plus content.
    pub fn size(&self) -> (r: usize)
        requires
            self.wf(),
            spec_sorted_content(self.spec_items()).len() + 16 <= usize::MAX,
        ensures
            r == spec_sorted_content(self.spec_items()).len() + 16,
    {
        self.content_size + 16
    }

    /// Second pass: stamps the header and writes the offset table and the
    /// items into an exactly-sized page.
    pub fn build(self, page: &mut PageMut) -> (nothing: ())
        requires
            self.wf(),
            old(page).wf(),
            old(page)@.len() == spec_sorted_content(self.spec_items()).len() + 16,
        ensures
            final(page).wf(),
            final(page)@.len() == old(page)@.len(),
            crate::page::spec_page_epoch(final(page)@) == 0,
            crate::page::spec_flags_wf(crate::page::spec_page_flags(final(page)@)),
            crate::page::spec_kind_of(crate::page::spec_page_flags(final(page)@))
                == self.spec_kind(),
            crate::page::spec_tier_of(crate::page::spec_page_flags(final(page)@))
                == self.spec_tier(),
            crate::page::spec_page_chain_len(final(page)@) == 1,
            crate::page::spec_page_chain_next(final(page)@) == 0,
            spec_page_content(final(page)@) == spec_sorted_content(self.spec_items()),
    {
        let ghost items = self.spec_items();
        let SortedPageBuilder { base, iter, num_items, content_size } = self;
        base.build(page);
        match iter {
            Some(mut iter) => {
                iter.rewind();
                let n = num_items;
                let mut offsets: Vec<u8> = Vec::new();
                let mut payload: Vec<u8> = Vec::new();
                let mut i: usize = 0;
                proof {
                    assert(items.take(0) =~= Seq::<(KeyView, ValueView)>::empty());
                    lemma_content_len(items);
                }
                while i < n
                    invariant
                        iter.inv(),
                        iter.all_items() == items,
                        items_wf(items),
                        n == items.len(),
                        i == iter.cursor(),
                        i <= n,
                        content_size == spec_sorted_content(items).len(),
                        4 * n + spec_payload(items).len() == content_size,
                        offsets@ == spec_offsets_upto(items, i as int),
                        payload@ == spec_payload(items.take(i as int)),
                    decreases n - i,
                {
                    proof {
                        lemma_offsets_upto_props(items, i as int);
                        lemma_payload_take_succ(items, i as int);
                        lemma_payload_take_le(items, i as int + 1);
                        lemma_enc_key_len(items[i as int].0);
                    }
                    match iter.next() {
                        Some((k, v)) => {
                            let off = 4 * n + payload.len();
                            put_u32(&mut offsets, off as u32);
                            k.encode_to(&mut payload);
                            v.encode_to(&mut payload);
                            proof {
                                assert(off == spec_offset(items, i as int));
                                assert(offsets@ =~= spec_offsets_upto(items, i as int + 1));
                                assert(payload@ =~= spec_payload(items.take(i as int + 1)));
                            }
                            i = i + 1;
                        },
                        None => {
                            proof {
                                assert(false);
                            }
                        },
                    }
                }
                let mut content = offsets;
                content.append(&mut payload);
                proof {
                    assert(items.take(n as int) =~= items);
                    assert(content@ =~= spec_sorted_content(items));
                }
                page.write_content(content.as_slice());
            },
            None => {
                let content: Vec<u8> = Vec::new();
                proof {
                    assert(spec_sorted_content(items) =~= Seq::<u8>::empty());
                }
                page.write_content(content.as_slice());
            },
        }
    }
}

impl SortedPageBuilder<crate::iter::ItemIter<(Key, Value)>> {
    /// A builder over exactly one item.
    pub fn with_item(self, item: (Key, Value)) -> (r: Self)
        requires
            items_wf(seq![item@]),
            self.is_empty_builder(),
        ensures
            r.wf(),
            r.spec_items() == seq![item@],
            r.spec_kind() == self.spec_kind(),
            r.spec_tier() == self.spec_tier(),
    {
        self.with_iter(crate::iter::ItemIter::new(item))
    }
}

impl SortedPageBuilder<crate::iter::SliceIter<(Key, Value)>> {
    /// A builder over an owned sequence of items, strictly ascending by
    /// key.
    pub fn with_slice(self, slice: Vec<(Key, Value)>) -> (r: Self)
        requires
            items_wf(slice@.map_values(|x: (Key, Value)| x@)),
            strictly_sorted(slice@.map_values(|x: (Key, Value)| x@)),
            self.is_empty_builder(),
        ensures
            r.wf(),
            r.spec_items() == slice@.map_values(|x: (Key, Value)| x@),
            r.spec_kind() == self.spec_kind(),
            r.spec_tier() == self.spec_tier(),
    {
        self.with_iter(crate::iter::SliceIter::new(slice))
    }
}

/// Item `i` of a content starts with its key encoding, and its value
/// encoding fills the rest of its region.
pub proof fn lemma_item_parses(items: Seq<(KeyView, ValueView)>, i: int)
    requires
        items_wf(items),
        0 <= i < items.len(),
    ensures
        spec_enc_key(items[i].0).is_prefix_of(
            spec_sorted_content(items).skip(spec_offset(items, i)),
        ),
        spec_sorted_content(items).subrange(
            spec_offset(items, i) + spec_enc_key(items[i].0).len(),
            spec_offset(items, i) + spec_item_enc(items[i]).len(),
        ) == spec_enc_value(items[i].1),
{
    let s = spec_sorted_content(items);
    lemma_item_region(items, i);
    let off = spec_offset(items, i);
    let e = spec_item_enc(items[i]);
    let ek = spec_enc_key(items[i].0);
    let ev = spec_enc_value(items[i].1);
    let t = s.skip(off);
    assert(s.subrange(off, off + e.len() as int) == e);
    assert(ek.is_prefix_of(t)) by {
        assert(ek =~= t.subrange(0, ek.len() as int)) by {
            assert forall|k: int| 0 <= k < ek.len() implies ek[k] == t.subrange(
                0,
                ek.len() as int,
            )[k] by {
                assert(t[k] == s[off + k]);
                assert(e[k] == s.subrange(off, off + e.len() as int)[k]);
                assert(e[k] == ek[k]);
            }
        }
    }
    let kl = ek.len() as int;
    assert(s.subrange(off + kl, off + e.len() as int) =~= ev) by {
        assert forall|k: int| 0 <= k < ev.len() implies s.subrange(
            off + kl,
            off + e.len() as int,
        )[k] == ev[k] by {
            assert(s.subrange(off + kl, off + e.len() as int)[k] == s[off + kl + k]);
            assert(e[kl + k] == s.subrange(off, off + e.len() as int)[kl + k]);
            assert(e[kl + k] == ev[k]);
        }
    }
}

/// An immutable reader over a sorted page: random access by index,
/// binary-search rank, and split discovery.
#[derive(Debug)]
pub struct SortedPageRef {
    page: PageRef,
}

impl SortedPageRef {
    /// The whole page buffer.
    pub closed spec fn spec_page(&self) -> Seq<u8> {
        self.page@
    }

    /// The page's content bytes.
    pub open spec fn spec_content(&self) -> Seq<u8> {
        spec_page_content(self.spec_page())
    }

    /// True when the content encodes an item sequence.
    pub open spec fn content_is(&self, items: Seq<(KeyView, ValueView)>) -> bool {
        self.spec_content() == spec_sorted_content(items) && items_wf(items)
    }

    pub open spec fn wf(&self) -> bool {
        self.spec_page().len() >= 16 && exists|items: Seq<(KeyView, ValueView)>|
            self.content_is(items)
    }

    /// The items the page holds.
    pub open spec fn spec_items(&self) -> Seq<(KeyView, ValueView)> {
        spec_page_items(self.spec_content())
    }

    pub proof fn lemma_wf_items(&self)
        requires
            self.wf(),
        ensures
            self.content_is(self.spec_items()),
    {
        let w = choose|w: Seq<(KeyView, ValueView)>| self.content_is(w);
        let s = self.spec_content();
        let c = choose|items: Seq<(KeyView, ValueView)>|
            s == spec_sorted_content(items) && items_wf(items);
        lemma_content_injective(w, c);
    }

    /// Wraps a page whose content encodes a sorted item sequence.
    pub fn new(page: PageRef) -> (r: Self)
        requires
            page@.len() >= 16,
            exists|items: Seq<(KeyView, ValueView)>|
                spec_page_content(page@) == spec_sorted_content(items) && items_wf(items),
        ensures
            r.wf(),
            r.spec_page() == page@,
    {
        let r = SortedPageRef { page };
        proof {
            let w = choose|items: Seq<(KeyView, ValueView)>|
                spec_page_content(page@) == spec_sorted_content(items) && items_wf(items);
            assert(r.content_is(w));
        }
        r
    }

    /// The underlying page.
    pub fn page(&self) -> (r: &PageRef)
        ensures
            r@ == self.spec_page(),
    {
        &self.page
    }

    /// A second reader over a copy of the same page bytes.
    pub fn dup(&self) -> (r: Self)
        requires
            self.wf(),
        ensures
            r.wf(),
            r.spec_page() == self.spec_page(),
    {
        let buf = copy_bytes(self.page.as_page().data());
        let r = SortedPageRef { page: PageRef::new(buf) };
        proof {
            let w = choose|items: Seq<(KeyView, ValueView)>| self.content_is(items);
            assert(r.content_is(w));
        }
        r
    }

    /// The number of items in the page: the first offset, which is the
    /// table's byte length, divided by four. Empty content holds no items.
    pub fn len(&self) -> (r: usize)
        requires
            self.wf(),
        ensures
            r == self.spec_items().len(),
    {
        proof {
            self.lemma_wf_items();
        }
        let ghost items = self.spec_items();
        let ghost n = items.len() as int;
        proof {
            lemma_content_len(items);
            lemma_offsets_upto_props(items, n);
        }
        let c = self.page.as_page().content();
        if c.len() < 4 {
            proof {
                if items.len() > 0 {
                    assert(c@.len() >= 4 * n);
                }
                assert(items.len() == 0);
            }
            0
        } else {
            proof {
                if items.len() == 0 {
                    assert(c@.len() == 0);
                }
                assert(n > 0);
                assert(spec_offsets_upto(items, n).subrange(4 * 0int, 4 * 0int + 4)
                    == spec_u32_to_le_bytes(spec_offset(items, 0) as u32));
                assert(c@.subrange(0, 4) =~= spec_offsets_upto(items, n).subrange(
                    4 * 0int,
                    4 * 0int + 4,
                )) by {
                    assert(forall|k: int|
                        0 <= k < 4 * n ==> c@[k] == spec_offsets_upto(items, n)[k]);
                }
                assert(items.take(0) =~= Seq::<(KeyView, ValueView)>::empty());
                assert(spec_offset(items, 0) == 4 * n);
                lemma_auto_spec_u32_to_from_le_bytes();
            }
            let first = u32_from_le_bytes(slice_subrange(c, 0, 4));
            let r = first as usize / 4;
            proof {
                assert(first == 4 * n);
                assert(r == n);
            }
            r
        }
    }

    /// The item at `index`, decoded; nothing at or past the item count.
    pub fn get(&self, index: usize) -> (r: Option<(Key, Value)>)
        requires
            self.wf(),
        ensures
            index < self.spec_items().len() ==> (r matches Some(p) && p.0@ == self.spec_items()[index as int].0
                && p.1@ == self.spec_items()[index as int].1),
            index >= self.spec_items().len() ==> r is None,
    {
        proof {
            self.lemma_wf_items();
        }
        let ghost items = self.spec_items();
        let ghost nn = items.len() as int;
        let n = self.len();
        if index >= n {
            return None;
        }
        proof {
            lemma_content_len(items);
            lemma_offsets_upto_props(items, nn);
            lemma_item_region(items, index as int);
            lemma_item_parses(items, index as int);
            lemma_enc_key_len(items[index as int].0);
        }
        let c = self.page.as_page().content();
        let ghost s = self.spec_content();
        proof {
            assert(c@.subrange(4 * index as int, 4 * index as int + 4) =~= spec_offsets_upto(
                items,
                nn,
            ).subrange(4 * index as int, 4 * index as int + 4)) by {
                assert(forall|k: int| 0 <= k < 4 * nn ==> c@[k] == spec_offsets_upto(items, nn)[k]);
            }
            lemma_auto_spec_u32_to_from_le_bytes();
            lemma_payload_take_le(items, index as int);
        }
        let off = u32_from_le_bytes(slice_subrange(c, 4 * index, 4 * index + 4)) as usize;
        proof {
            assert(off == spec_offset(items, index as int));
        }
        let end: usize;
        if index + 1 < n {
            proof {
                lemma_item_region(items, index as int + 1);
                lemma_payload_take_le(items, index as int + 1);
                assert(c@.subrange(4 * (index as int + 1), 4 * (index as int + 1) + 4)
                    =~= spec_offsets_upto(items, nn).subrange(
                    4 * (index as int + 1),
                    4 * (index as int + 1) + 4,
                )) by {
                    assert(forall|k: int|
                        0 <= k < 4 * nn ==> c@[k] == spec_offsets_upto(items, nn)[k]);
                }
            }
            end = u32_from_le_bytes(slice_subrange(c, 4 * (index + 1), 4 * (index + 1) + 4))
                as usize;
            proof {
                assert(end == spec_offset(items, index as int + 1));
            }
        } else {
            end = c.len();
        }
        proof {
            assert(off + spec_item_enc(items[index as int]).len() == end);
        }
        match decode_key(c, off) {
            Some((k, kend)) => {
                proof {
                    assert(k@ == items[index as int].0) by {
                        assert(spec_enc_key(k@).is_prefix_of(c@.skip(off as int))) by {
                            assert(c@.subrange(off as int, kend as int) == spec_enc_key(k@));
                            assert(spec_enc_key(k@) =~= c@.skip(off as int).subrange(
                                0,
                                spec_enc_key(k@).len() as int,
                            )) by {
                                assert(forall|j: int|
                                    0 <= j < spec_enc_key(k@).len() ==> c@.skip(off as int)[j]
                                        == c@[off + j]);
                            }
                        }
                        lemma_enc_key_prefix_unique(k@, items[index as int].0, c@.skip(off as int));
                    }
                    assert(kend == off + spec_enc_key(items[index as int].0).len());
                }
                if kend > end {
                    proof {
                        assert(false);
                    }
                    return None;
                }
                match decode_value(c, kend, end) {
                    Some(v) => {
                        proof {
                            assert(c@.subrange(kend as int, end as int) == spec_enc_value(
                                items[index as int].1,
                            ));
                            lemma_enc_value_injective(v@, items[index as int].1);
                        }
                        Some((k, v))
                    },
                    None => {
                        proof {
                            assert(false);
                        }
                        None
                    },
                }
            },
            None => {
                proof {
                    assert(spec_enc_key(items[index as int].0).is_prefix_of(c@.skip(off as int)));
                    assert(false);
                }
                None
            },
        }
    }
}

/// A strict version of the key order.
pub open spec fn key_lt(a: KeyView, b: KeyView) -> bool {
    key_le(a, b) && a != b
}

/// Strictly ascending keys: what a well-built page holds.
pub open spec fn strictly_sorted(items: Seq<(KeyView, ValueView)>) -> bool {
    forall|i: int, j: int|
        0 <= i < j < items.len() ==> key_lt((#[trigger] items[i]).0, (#[trigger] items[j]).0)
}

/// Strictly ascending keys are in particular sorted.
pub proof fn lemma_strictly_sorted_is_sorted(items: Seq<(KeyView, ValueView)>)
    requires
        strictly_sorted(items),
    ensures
        sorted_by_key::<Key, ValueView>(items),
{
    assert forall|i: int, j: int| 0 <= i < j < items.len() implies key_le(
        (#[trigger] items[i]).0,
        (#[trigger] items[j]).0,
    ) by {
        assert(key_lt(items[i].0, items[j].0));
    }
}

impl SortedPageRef {
    /// The rank of `target` among the page's keys: the index of an exact
    /// match, or the index where `target` could be inserted without
    /// breaking the order; an error also says no key matches.
    pub fn rank(&self, target: &Key) -> (r: Result<usize, usize>)
        requires
            self.wf(),
            sorted_by_key::<Key, ValueView>(self.spec_items()),
        ensures
            ({
                let items = self.spec_items();
                match r {
                    Ok(i) => i < items.len() && items[i as int].0 == target@,
                    Err(j) => 0 <= j <= items.len() && (forall|l: int|
                        0 <= l < j ==> key_lt((#[trigger] items[l]).0, target@)) && (forall|
                        l: int,
                    |
                        j <= l < items.len() ==> key_lt(target@, (#[trigger] items[l]).0)),
                }
            }),
    {
        let ghost items = self.spec_items();
        let ghost t = target@;
        let n = self.len();
        let mut left: usize = 0;
        let mut right: usize = n;
        while left < right
            invariant
                self.wf(),
                items == self.spec_items(),
                t == target@,
                sorted_by_key::<Key, ValueView>(items),
                n == items.len(),
                0 <= left <= right <= n,
                forall|l: int| 0 <= l < left ==> key_lt((#[trigger] items[l]).0, t),
                forall|l: int| right <= l < n ==> key_lt(t, (#[trigger] items[l]).0),
            decreases right - left,
        {
            let mid = left + (right - left) / 2;
            let item = match self.get(mid) {
                Some(p) => p,
                None => {
                    proof {
                        assert(false);
                    }
                    return Err(0);
                },
            };
            let key = item.0;
            proof {
                assert(key@ == items[mid as int].0);
            }
            match key.compare(target) {
                KeyCmp::Less => {
                    proof {
                        assert forall|l: int| 0 <= l < mid + 1 implies key_lt(
                            (#[trigger] items[l]).0,
                            t,
                        ) by {
                            if l < mid {
                                assert(key_le(items[l].0, items[mid as int].0));
                                <Key as SortKey>::le_transitive(items[l].0, items[mid as int].0, t);
                            }
                            if items[l].0 == t {
                                <Key as SortKey>::le_transitive(t, items[mid as int].0, t);
                                <Key as SortKey>::le_antisymmetric(t, items[mid as int].0);
                            }
                        }
                    }
                    left = mid + 1;
                },
                KeyCmp::Greater => {
                    proof {
                        assert forall|l: int| mid <= l < n implies key_lt(
                            t,
                            (#[trigger] items[l]).0,
                        ) by {
                            if l > mid {
                                assert(key_le(items[mid as int].0, items[l].0));
                                <Key as SortKey>::le_transitive(t, items[mid as int].0, items[l].0);
                            }
                            if items[l].0 == t {
                                <Key as SortKey>::le_transitive(items[mid as int].0, t, items[mid as int].0);
                                <Key as SortKey>::le_antisymmetric(t, items[mid as int].0);
                            }
                        }
                    }
                    right = mid;
                },
                KeyCmp::Equal => {
                    return Ok(mid);
                },
            }
        }
        Err(left)
    }
}

/// An iterator over every item of a sorted page, in order.
#[derive(Debug)]
pub struct SortedPageIter {
    page: SortedPageRef,
    next: usize,
}

impl SortedPageIter {
    /// An iterator positioned at the page's first item.
    pub fn new(page: SortedPageRef) -> (r: Self)
        requires
            page.wf(),
        ensures
            r.inv(),
            r.all_items() == page.spec_items(),
            r.cursor() == 0,
    {
        SortedPageIter { page, next: 0 }
    }
}

impl ForwardIterator for SortedPageIter {
    type Item = (Key, Value);

    closed spec fn all_items(&self) -> Seq<(KeyView, ValueView)> {
        self.page.spec_items()
    }

    closed spec fn cursor(&self) -> int {
        self.next as int
    }

    closed spec fn inv(&self) -> bool {
        self.page.wf() && self.next <= self.page.spec_items().len()
    }

    proof fn inv_bounds(&self) {
    }

    fn next(&mut self) -> (r: Option<(Key, Value)>) {
        match self.page.get(self.next) {
            Some(item) => {
                self.next = self.next + 1;
                Some(item)
            },
            None => None,
        }
    }
}

impl RewindableIterator for SortedPageIter {
    fn rewind(&mut self) -> (nothing: ()) {
        self.next = 0;
    }
}

impl SeekableIterator<Key, Value> for SortedPageIter {
    /// Binary search for the first key at or after the target.
    fn seek(&mut self, target: &Key) -> (found: bool) {
        let ghost items = self.all_items();
        let ghost t = target@;
        proof {
            crate::iter::lemma_lower_bound::<Key, ValueView>(items, t);
        }
        let n = self.page.len();
        let mut lo: usize = 0;
        let mut hi: usize = n;
        while lo < hi
            invariant
                self.page.wf(),
                items == self.page.spec_items(),
                t == target@,
                sorted_by_key::<Key, ValueView>(items),
                n == items.len(),
                0 <= lo <= hi <= n,
                forall|j: int| 0 <= j < lo ==> !key_le(t, (#[trigger] items[j]).0),
                forall|j: int| hi <= j < n ==> key_le(t, (#[trigger] items[j]).0),
            decreases hi - lo,
        {
            let mid = lo + (hi - lo) / 2;
            let item = match self.page.get(mid) {
                Some(p) => p,
                None => {
                    proof {
                        assert(false);
                    }
                    (Key::new(Vec::new(), 0), Value::Delete)
                },
            };
            match item.0.compare(target) {
                KeyCmp::Less => {
                    proof {
                        assert forall|j: int| 0 <= j < mid + 1 implies !key_le(
                            t,
                            (#[trigger] items[j]).0,
                        ) by {
                            if key_le(t, items[j].0) {
                                if j < mid {
                                    assert(key_le(items[j].0, items[mid as int].0));
                                    <Key as SortKey>::le_transitive(t, items[j].0, items[mid as int].0);
                                }
                                <Key as SortKey>::le_antisymmetric(t, items[mid as int].0);
                            }
                        }
                    }
                    lo = mid + 1;
                },
                _ => {
                    proof {
                        assert forall|j: int| mid <= j < n implies key_le(
                            t,
                            (#[trigger] items[j]).0,
                        ) by {
                            if items[mid as int].0 == t {
                                <Key as SortKey>::le_reflexive(t);
                            }
                            if j > mid {
                                <Key as SortKey>::le_transitive(t, items[mid as int].0, items[j].0);
                            }
                        }
                    }
                    hi = mid;
                },
            }
        }
        proof {
            let lb = lower_bound::<Key, ValueView>(items, t);
            if lo < lb {
                assert(key_le(t, items[lo as int].0));
            }
            if lb < lo {
                assert(!key_le(t, items[lb].0));
            }
            assert(lo == lb);
        }
        self.next = lo;
        if lo < n {
            let item = match self.page.get(lo) {
                Some(p) => p,
                None => {
                    proof {
                        assert(false);
                    }
                    (Key::new(Vec::new(), 0), Value::Delete)
                },
            };
            match item.0.compare(target) {
                KeyCmp::Equal => {
                    proof {
                        assert(items[lo as int].0 == t);
                    }
                    true
                },
                _ => {
                    proof {
                        assert forall|i: int|
                            0 <= i < items.len() implies (#[trigger] items[i]).0 != t by {
                            if items[i].0 == t {
                                let lb = lo as int;
                                if i < lb {
                                    <Key as SortKey>::le_reflexive(t);
                                } else if i > lb {
                                    assert(key_le(t, items[lb].0));
                                    assert(key_le(items[lb].0, items[i].0));
                                    <Key as SortKey>::le_antisymmetric(t, items[lb].0);
                                }
                            }
                        }
                    }
                    false
                },
            }
        } else {
            proof {
                assert forall|i: int| 0 <= i < items.len() implies (#[trigger] items[i]).0
                    != t by {
                    if items[i].0 == t {
                        <Key as SortKey>::le_reflexive(t);
                    }
                }
            }
            false
        }
    }
}

/// An iterator over a half-open index range of a sorted page's items.
#[derive(Debug)]
pub struct SortedPageRangeIter {
    page: SortedPageRef,
    start: usize,
    end: usize,
    index: usize,
}

impl SortedPageRangeIter {
    /// An iterator over items `start` to `end` of the page, positioned at
    /// `start`.
    pub fn new(page: SortedPageRef, start: usize, end: usize) -> (r: Self)
        requires
            page.wf(),
            start <= end <= page.spec_items().len(),
        ensures
            r.inv(),
            r.all_items() == page.spec_items().subrange(start as int, end as int),
            r.cursor() == 0,
    {
        SortedPageRangeIter { page, start, end, index: start }
    }
}

impl ForwardIterator for SortedPageRangeIter {
    type Item = (Key, Value);

    closed spec fn all_items(&self) -> Seq<(KeyView, ValueView)> {
        self.page.spec_items().subrange(self.start as int, self.end as int)
    }

    closed spec fn cursor(&self) -> int {
        self.index - self.start
    }

    closed spec fn inv(&self) -> bool {
        self.page.wf() && self.start <= self.index <= self.end <= self.page.spec_items().len()
    }

    proof fn inv_bounds(&self) {
    }

    fn next(&mut self) -> (r: Option<(Key, Value)>) {
        if self.index < self.end {
            match self.page.get(self.index) {
                Some(item) => {
                    proof {
                        assert(self.all_items()[self.index - self.start]
                            == self.page.spec_items()[self.index as int]);
                    }
                    self.index = self.index + 1;
                    Some(item)
                },
                None => {
                    proof {
                        assert(false);
                    }
                    None
                },
            }
        } else {
            None
        }
    }
}

impl RewindableIterator for SortedPageRangeIter {
    fn rewind(&mut self) -> (nothing: ()) {
        self.index = self.start;
    }
}

impl SortedPageRef {
    /// Split discovery: derives a separator from the middle item — its raw
    /// bytes with the greatest sequence number — ranks it, and when the
    /// split index is positive returns the separator with iterators over
    /// the two halves, which together reproduce the page exactly. No safe
    /// split exists when the page is empty or its first half carries one
    /// raw key.
    pub fn into_split_iter(self) -> (r: Option<(Key, SortedPageRangeIter, SortedPageRangeIter)>)
        requires
            self.wf(),
            strictly_sorted(self.spec_items()),
        ensures
            ({
                let items = self.spec_items();
                match r {
                    Some(parts) => {
                        let (sep, l, rgt) = parts;
                        &&& l.inv() && rgt.inv()
                        &&& l.cursor() == 0 && rgt.cursor() == 0
                        &&& l.all_items() + rgt.all_items() == items
                        &&& l.all_items().len() > 0
                        &&& sep@.raw == items[items.len() as int / 2].0.raw && sep@.lsn == u64::MAX
                        &&& forall|x: int|
                            0 <= x < l.all_items().len() ==> key_lt(
                                (#[trigger] l.all_items()[x]).0,
                                sep@,
                            )
                        &&& forall|x: int|
                            0 <= x < rgt.all_items().len() ==> key_le(
                                sep@,
                                (#[trigger] rgt.all_items()[x]).0,
                            )
                    },
                    None => items.len() == 0 || items[0].0.raw == items[items.len() as int / 2].0.raw,
                }
            }),
    {
        let ghost items = self.spec_items();
        proof {
            lemma_strictly_sorted_is_sorted(items);
        }
        let n = self.len();
        match self.get(n / 2) {
            Some((mid, _)) => {
                let sep = mid.as_split_separator();
                let index = match self.rank(&sep) {
                    Ok(i) => i,
                    Err(i) => i,
                };
                if index > 0 {
                    proof {
                        assert forall|x: int| 0 <= x < index implies key_lt(
                            (#[trigger] items[x]).0,
                            sep@,
                        ) by {
                            if items[x].0 == sep@ {
                            }
                        }
                        assert forall|x: int| index <= x < n implies key_le(
                            sep@,
                            (#[trigger] items[x]).0,
                        ) by {
                            if items[x].0 == sep@ {
                                <Key as SortKey>::le_reflexive(sep@);
                            }
                        }
                    }
                    let left = SortedPageRangeIter::new(self.dup(), 0, index);
                    let right = SortedPageRangeIter::new(self, index, n);
                    proof {
                        assert(left.all_items() + right.all_items() =~= items);
                    }
                    Some((sep, left, right))
                } else {
                    proof {
                        lemma_split_none(items, sep@);
                    }
                    None
                }
            },
            None => {
                proof {
                    assert(items.len() == 0);
                }
                None
            },
        }
    }
}

/// When the separator ranks at the front, the whole first half shares the
/// middle item's raw key.
proof fn lemma_split_none(items: Seq<(KeyView, ValueView)>, sep: KeyView)
    requires
        sorted_by_key::<Key, ValueView>(items),
        items.len() > 0,
        sep.raw == items[items.len() as int / 2].0.raw,
        key_le(sep, items[0].0) || items[0].0 == sep,
    ensures
        items[0].0.raw == items[items.len() as int / 2].0.raw,
{
    let m = items.len() as int / 2;
    if items[0].0 == sep {
    } else {
        // sep is at or before the first key, yet the middle key's raw part
        // is at or after the first key's: the raws must be equal
        assert(key_le(items[0].0, items[m].0));
        if items[0].0.raw != sep.raw {
            assert(lex_le(sep.raw, items[0].0.raw));
            if items[0].0.raw == items[m].0.raw {
                crate::data::lemma_lex_antisym(sep.raw, items[0].0.raw);
            } else {
                assert(lex_le(items[0].0.raw, items[m].0.raw));
                crate::data::lemma_lex_trans(sep.raw, items[0].0.raw, items[m].0.raw);
                crate::data::lemma_lex_antisym(sep.raw, items[0].0.raw);
            }
        }
    }
}

} // verus!
