//! The composable ordered-iterator framework.
//!
//! Three capability layers, each producing a lazy, finite sequence of items:
//! a plain iterator advances with `next`; a rewindable iterator can also
//! reset to its first item; a seekable iterator can also position itself at
//! the first item at or after a target key. A k-way merging iterator
//! combines ordered sources into one ordered stream, breaking key ties by
//! the order in which sources were added.

use vstd::prelude::*;
use vstd::seq_lib::*;

verus! {

/// Outcome of a three-way key comparison.
#[derive(Copy, Clone, Debug, PartialEq, Eq, Structural)]
pub enum KeyCmp {
    Less,
    Equal,
    Greater,
}

/// A key type with a total order over its abstract values, decidable by an
/// executable comparison.
pub trait SortKey: View + Sized {
    /// The order: `le(a, b)` says `a` comes no later than `b`.
    spec fn le(a: Self::V, b: Self::V) -> bool;

    proof fn le_reflexive(a: Self::V)
        ensures
            Self::le(a, a),
    ;

    proof fn le_total(a: Self::V, b: Self::V)
        ensures
            Self::le(a, b) || Self::le(b, a),
    ;

    proof fn le_transitive(a: Self::V, b: Self::V, c: Self::V)
        requires
            Self::le(a, b),
            Self::le(b, c),
        ensures
            Self::le(a, c),
    ;

    proof fn le_antisymmetric(a: Self::V, b: Self::V)
        requires
            Self::le(a, b),
            Self::le(b, a),
        ensures
            a == b,
    ;

    /// Three-way comparison agreeing with the order on views.
    fn compare(&self, other: &Self) -> (c: KeyCmp)
        ensures
            c is Less ==> Self::le(self@, other@) && self@ != other@,
            c is Equal ==> self@ == other@,
            c is Greater ==> Self::le(other@, self@) && self@ != other@,
    ;
}

impl View for KeyCmp {
    type V = KeyCmp;

    open spec fn view(&self) -> KeyCmp {
        *self
    }
}

impl SortKey for u64 {
    open spec fn le(a: u64, b: u64) -> bool {
        a <= b
    }

    proof fn le_reflexive(a: u64) {
    }

    proof fn le_total(a: u64, b: u64) {
    }

    proof fn le_transitive(a: u64, b: u64, c: u64) {
    }

    proof fn le_antisymmetric(a: u64, b: u64) {
    }

    fn compare(&self, other: &Self) -> (c: KeyCmp) {
        if *self < *other {
            KeyCmp::Less
        } else if *self == *other {
            KeyCmp::Equal
        } else {
            KeyCmp::Greater
        }
    }
}

/// A value that can be duplicated without changing its abstract view.
pub trait DupItem: View + Sized {
    fn dup(&self) -> (r: Self)
        ensures
            r@ == self@,
    ;
}

impl DupItem for u64 {
    fn dup(&self) -> (r: Self) {
        *self
    }
}

impl DupItem for () {
    fn dup(&self) -> (r: Self) {
    }
}

impl DupItem for String {
    fn dup(&self) -> (r: Self) {
        self.clone()
    }
}

impl<A: DupItem, B: DupItem> DupItem for (A, B) {
    fn dup(&self) -> (r: Self) {
        (self.0.dup(), self.1.dup())
    }
}

/// Produces a lazy, finite sequence of items. The abstraction is the whole
/// sequence together with a cursor; `next` yields the item under the cursor
/// and advances it.
pub trait ForwardIterator: Sized {
    type Item: View;

    /// The whole sequence this iterator ranges over, as abstract values.
    spec fn all_items(&self) -> Seq<<Self::Item as View>::V>;

    /// The index of the next item to be yielded.
    spec fn cursor(&self) -> int;

    /// The iterator's well-formedness.
    spec fn inv(&self) -> bool;

    proof fn inv_bounds(&self)
        requires
            self.inv(),
        ensures
            0 <= self.cursor() <= self.all_items().len(),
    ;

    /// Yields the item under the cursor, or nothing when exhausted.
    fn next(&mut self) -> (r: Option<Self::Item>)
        requires
            old(self).inv(),
        ensures
            final(self).inv(),
            final(self).all_items() == old(self).all_items(),
            old(self).cursor() < old(self).all_items().len() ==> final(self).cursor() == old(
            self).cursor() + 1 && (r matches Some(x) && x@ == old(self).all_items()[old(
            self).cursor()]),
            old(self).cursor() >= old(self).all_items().len() ==> final(self).cursor() == old(
            self).cursor() && r is None,
    ;
}

/// A [`ForwardIterator`] that can reset its cursor to the first item.
pub trait RewindableIterator: ForwardIterator {
    /// Positions the iterator at the first item.
    fn rewind(&mut self) -> (nothing: ())
        requires
            old(self).inv(),
        ensures
            final(self).inv(),
            final(self).all_items() == old(self).all_items(),
            final(self).cursor() == 0,
    ;
}

/// True when the pair sequence is ordered by key, duplicates allowed.
pub open spec fn sorted_by_key<K: SortKey, VV>(items: Seq<(K::V, VV)>) -> bool {
    forall|i: int, j: int| 0 <= i < j < items.len() ==> K::le(#[trigger] items[i].0, #[trigger] items[j].0)
}

/// The least index whose key is at or after `t`; the sequence length when
/// every key is before `t`.
pub open spec fn lower_bound<K: SortKey, VV>(items: Seq<(K::V, VV)>, t: K::V) -> int
    decreases items.len(),
{
    if items.len() == 0 {
        0
    } else if K::le(t, items[0].0) {
        0
    } else {
        1 + lower_bound::<K, VV>(items.drop_first(), t)
    }
}

/// On a sorted sequence, `lower_bound` splits the keys: everything before
/// it is strictly under `t`, everything from it on is at or over `t`.
pub proof fn lemma_lower_bound<K: SortKey, VV>(items: Seq<(K::V, VV)>, t: K::V)
    requires
        sorted_by_key::<K, VV>(items),
    ensures
        0 <= lower_bound::<K, VV>(items, t) <= items.len(),
        forall|j: int|
            0 <= j < lower_bound::<K, VV>(items, t) ==> !K::le(t, #[trigger] items[j].0),
        forall|j: int|
            lower_bound::<K, VV>(items, t) <= j < items.len() ==> K::le(
                t,
                #[trigger] items[j].0,
            ),
    decreases items.len(),
{
    let lb = lower_bound::<K, VV>(items, t);
    if items.len() == 0 {
    } else if K::le(t, items[0].0) {
        assert forall|j: int| 0 <= j < items.len() implies K::le(t, #[trigger] items[j].0) by {
            if j > 0 {
                K::le_transitive(t, items[0].0, items[j].0);
            }
        }
    } else {
        let rest = items.drop_first();
        assert(sorted_by_key::<K, VV>(rest)) by {
            assert forall|i: int, j: int| 0 <= i < j < rest.len() implies K::le(
                #[trigger] rest[i].0,
                #[trigger] rest[j].0,
            ) by {
                assert(rest[i] == items[i + 1] && rest[j] == items[j + 1]);
            }
        }
        lemma_lower_bound::<K, VV>(rest, t);
        assert forall|j: int| 0 <= j < lb implies !K::le(t, #[trigger] items[j].0) by {
            if j > 0 {
                assert(items[j] == rest[j - 1]);
            }
        }
        assert forall|j: int| lb <= j < items.len() implies K::le(t, #[trigger] items[j].0) by {
            assert(items[j] == rest[j - 1]);
        }
    }
}

/// A [`ForwardIterator`] over key-value pairs that can position itself at
/// the first item at or after a target key. Seeking assumes the sequence is
/// sorted by key.
pub trait SeekableIterator<K: SortKey, V: View>: ForwardIterator<Item = (K, V)> {
    /// Positions the cursor at the first item at or after `target`; reports
    /// whether an item with exactly that key exists.
    fn seek(&mut self, target: &K) -> (found: bool)
        requires
            old(self).inv(),
            sorted_by_key::<K, V::V>(old(self).all_items()),
        ensures
            final(self).inv(),
            final(self).all_items() == old(self).all_items(),
            final(self).cursor() == lower_bound::<K, V::V>(old(self).all_items(), target@),
            found == exists|i: int|
                0 <= i < old(self).all_items().len() && (#[trigger] old(self).all_items()[i]).0
                    == target@,
    ;
}

/// An iterator over at most one item.
#[derive(Clone, Debug)]
pub struct ItemIter<T> {
    next: Option<T>,
    item: Option<T>,
}

impl<T: DupItem> ItemIter<T> {
    /// An iterator that yields exactly `item`.
    pub fn new(item: T) -> (r: Self)
        ensures
            r.inv(),
            r.all_items() == seq![item@],
            r.cursor() == 0,
    {
        let next = Some(item.dup());
        ItemIter { next, item: Some(item) }
    }

    /// An iterator over the item held in `item`, if any.
    pub fn from_option(item: Option<T>) -> (r: Self)
        ensures
            r.inv(),
            r.cursor() == 0,
            item matches Some(x) ==> r.all_items() == seq![x@],
            item is None ==> r.all_items() == Seq::<<T as View>::V>::empty(),
    {
        let next = match &item {
            Some(x) => Some(x.dup()),
            None => None,
        };
        ItemIter { next, item }
    }
}

impl<T: DupItem> vstd::std_specs::convert::FromSpecImpl<Option<T>> for ItemIter<T> {
    open spec fn obeys_from_spec() -> bool {
        false
    }

    open spec fn from_spec(item: Option<T>) -> ItemIter<T> {
        arbitrary()
    }
}

impl<T: DupItem> From<Option<T>> for ItemIter<T> {
    /// An iterator over the item held in `item`, if any.
    fn from(item: Option<T>) -> (r: Self)
        ensures
            r.inv(),
            r.cursor() == 0,
            item matches Some(x) ==> r.all_items() == seq![x@],
            item is None ==> r.all_items() == Seq::<<T as View>::V>::empty(),
    {
        ItemIter::from_option(item)
    }
}

impl<T: DupItem> ForwardIterator for ItemIter<T> {
    type Item = T;

    closed spec fn all_items(&self) -> Seq<T::V> {
        match self.item {
            Some(x) => seq![x@],
            None => Seq::empty(),
        }
    }

    closed spec fn cursor(&self) -> int {
        if self.next is Some {
            0
        } else {
            self.all_items().len() as int
        }
    }

    closed spec fn inv(&self) -> bool {
        match self.next {
            Some(n) => self.item matches Some(i) && n@ == i@,
            None => true,
        }
    }

    proof fn inv_bounds(&self) {
    }

    fn next(&mut self) -> (r: Option<T>) {
        self.next.take()
    }
}

impl<T: DupItem> RewindableIterator for ItemIter<T> {
    fn rewind(&mut self) -> (nothing: ()) {
        self.next = match &self.item {
            Some(x) => Some(x.dup()),
            None => None,
        };
    }
}

/// An iterator over an owned sequence of items, yielded in order.
#[derive(Clone, Debug)]
pub struct SliceIter<T> {
    data: Vec<T>,
    next: usize,
}

impl<T: DupItem> SliceIter<T> {
    /// An iterator over `data`, positioned at the first item.
    pub fn new(data: Vec<T>) -> (r: Self)
        ensures
            r.inv(),
            r.all_items() == data@.map_values(|x: T| x@),
            r.cursor() == 0,
    {
        let r = SliceIter { data, next: 0 };
        proof {
            assert(r.all_items() =~= r.data@.map_values(|x: T| x@));
        }
        r
    }

    /// The number of items.
    pub fn len(&self) -> (r: usize)
        ensures
            r == self.all_items().len(),
    {
        self.data.len()
    }
}

impl<T: DupItem> ForwardIterator for SliceIter<T> {
    type Item = T;

    closed spec fn all_items(&self) -> Seq<T::V> {
        Seq::new(self.data@.len(), |i: int| self.data@[i]@)
    }

    closed spec fn cursor(&self) -> int {
        self.next as int
    }

    closed spec fn inv(&self) -> bool {
        self.next <= self.data@.len()
    }

    proof fn inv_bounds(&self) {
    }

    fn next(&mut self) -> (r: Option<T>) {
        if self.next < self.data.len() {
            let item = self.data[self.next].dup();
            self.next = self.next + 1;
            Some(item)
        } else {
            None
        }
    }
}

impl<T: DupItem> RewindableIterator for SliceIter<T> {
    fn rewind(&mut self) -> (nothing: ()) {
        self.next = 0;
    }
}

impl<K: SortKey + DupItem, V: View + DupItem> SeekableIterator<K, V> for SliceIter<(K, V)> {
    /// Binary search for the first key at or after the target; assumes the
    /// items are sorted by key.
    fn seek(&mut self, target: &K) -> (found: bool) {
        let ghost items = self.all_items();
        let ghost t = target@;
        proof {
            lemma_lower_bound::<K, V::V>(items, t);
        }
        let mut lo: usize = 0;
        let mut hi: usize = self.data.len();
        while lo < hi
            invariant
                0 <= lo <= hi <= self.data@.len(),
                items == self.all_items(),
                t == target@,
                sorted_by_key::<K, V::V>(items),
                items.len() == self.data@.len(),
                forall|j: int| 0 <= j < lo ==> !K::le(t, #[trigger] items[j].0),
                forall|j: int| hi <= j < items.len() ==> K::le(t, #[trigger] items[j].0),
            decreases hi - lo,
        {
            let mid = lo + (hi - lo) / 2;
            match self.data[mid].0.compare(target) {
                KeyCmp::Less => {
                    proof {
                        assert forall|j: int| 0 <= j < mid + 1 implies !K::le(
                            t,
                            #[trigger] items[j].0,
                        ) by {
                            if K::le(t, items[j].0) {
                                if j < mid {
                                    assert(K::le(items[j].0, items[mid as int].0));
                                    K::le_transitive(t, items[j].0, items[mid as int].0);
                                }
                                K::le_antisymmetric(t, items[mid as int].0);
                            }
                        }
                    }
                    lo = mid + 1;
                },
                _ => {
                    proof {
                        assert forall|j: int| mid <= j < items.len() implies K::le(
                            t,
                            #[trigger] items[j].0,
                        ) by {
                            if items[mid as int].0 == t {
                                K::le_reflexive(t);
                            }
                            if j > mid {
                                K::le_transitive(t, items[mid as int].0, items[j].0);
                            }
                        }
                    }
                    hi = mid;
                },
            }
        }
        proof {
            let lb = lower_bound::<K, V::V>(items, t);
            if lo < lb {
                assert(K::le(t, items[lo as int].0));
            }
            if lb < lo {
                assert(!K::le(t, items[lb].0));
            }
            assert(lo == lb);
        }
        self.next = lo;
        if lo < self.data.len() {
            match self.data[lo].0.compare(target) {
                KeyCmp::Equal => {
                    proof {
                        assert(items[lo as int].0 == t);
                    }
                    true
                },
                _ => {
                    proof {
                        assert forall|i: int|
                            0 <= i < items.len() implies (#[trigger] items[i]).0 != t by {
                            if items[i].0 == t {
                                let lb = lo as int;
                                if i < lb {
                                    K::le_reflexive(t);
                                } else {
                                    assert(K::le(t, items[lb].0));
                                    assert(K::le(items[lb].0, items[i].0) || i == lb);
                                    if i > lb {
                                        K::le_antisymmetric(t, items[lb].0);
                                    }
                                }
                            }
                        }
                    }
                    false
                },
            }
        } else {
            proof {
                assert forall|i: int| 0 <= i < items.len() implies (#[trigger] items[i]).0
                    != t by {
                    if items[i].0 == t {
                        K::le_reflexive(t);
                    }
                }
            }
            false
        }
    }
}

/// A total order given as a spec-level relation.
pub open spec fn le_is_total<KV>(le: spec_fn(KV, KV) -> bool) -> bool {
    forall|a: KV, b: KV| #[trigger] le(a, b) || #[trigger] le(b, a)
}

/// A transitive spec-level relation.
pub open spec fn le_is_trans<KV>(le: spec_fn(KV, KV) -> bool) -> bool {
    forall|a: KV, b: KV, c: KV| #[trigger] le(a, b) && #[trigger] le(b, c) ==> le(a, c)
}

/// The order of a [`SortKey`], as a spec-level relation.
pub open spec fn kle<K: SortKey>() -> spec_fn(K::V, K::V) -> bool {
    |a: K::V, b: K::V| K::le(a, b)
}

/// [`kle`] is total and transitive.
pub proof fn lemma_kle_props<K: SortKey>()
    ensures
        le_is_total(kle::<K>()),
        le_is_trans(kle::<K>()),
{
    assert forall|a: K::V, b: K::V| #[trigger] kle::<K>()(a, b) || #[trigger] kle::<K>()(
        b,
        a,
    ) by {
        K::le_total(a, b);
    }
    assert forall|a: K::V, b: K::V, c: K::V|
        #[trigger] kle::<K>()(a, b) && #[trigger] kle::<K>()(b, c) implies kle::<K>()(a, c) by {
        K::le_transitive(a, b, c);
    }
}

/// A pair sequence ordered by key under `le`, duplicates allowed.
pub open spec fn sorted_pairs<KV, VV>(le: spec_fn(KV, KV) -> bool, s: Seq<(KV, VV)>) -> bool {
    forall|i: int, j: int| 0 <= i < j < s.len() ==> le((#[trigger] s[i]).0, (#[trigger] s[j]).0)
}

/// One merge source: its whole item sequence and its current position.
pub open spec fn src_wf<KV, VV>(s: (Seq<(KV, VV)>, int)) -> bool {
    0 <= s.1 <= s.0.len()
}

/// A source that still has items to yield.
pub open spec fn src_active<KV, VV>(s: (Seq<(KV, VV)>, int)) -> bool {
    0 <= s.1 < s.0.len()
}

/// The item a source would yield next.
pub open spec fn src_head<KV, VV>(s: (Seq<(KV, VV)>, int)) -> (KV, VV) {
    s.0[s.1]
}

pub open spec fn srcs_wf<KV, VV>(ss: Seq<(Seq<(KV, VV)>, int)>) -> bool {
    forall|i: int| 0 <= i < ss.len() ==> src_wf(#[trigger] ss[i])
}

/// The source that the merge consumes next, among the first `n`: the one
/// with the least head key, ties going to the earliest-added source; `-1`
/// when none of them has an item left.
pub open spec fn best_idx<KV, VV>(
    le: spec_fn(KV, KV) -> bool,
    ss: Seq<(Seq<(KV, VV)>, int)>,
    n: int,
) -> int
    decreases n,
{
    if n <= 0 {
        -1
    } else {
        let b = best_idx(le, ss, n - 1);
        if !src_active(ss[n - 1]) {
            b
        } else if b == -1 {
            n - 1
        } else if le(src_head(ss[b]).0, src_head(ss[n - 1]).0) {
            b
        } else {
            n - 1
        }
    }
}

/// The sources after source `i` yields one item.
pub open spec fn advance_src<KV, VV>(ss: Seq<(Seq<(KV, VV)>, int)>, i: int) -> Seq<
    (Seq<(KV, VV)>, int),
> {
    ss.update(i, (ss[i].0, ss[i].1 + 1))
}

/// How many items are left over all sources.
pub open spec fn total_rem<KV, VV>(ss: Seq<(Seq<(KV, VV)>, int)>) -> int
    decreases ss.len(),
{
    if ss.len() == 0 {
        0
    } else {
        (ss.last().0.len() - ss.last().1) + total_rem(ss.drop_last())
    }
}

proof fn lemma_total_rem_nonneg<KV, VV>(ss: Seq<(Seq<(KV, VV)>, int)>)
    requires
        srcs_wf(ss),
    ensures
        total_rem(ss) >= 0,
    decreases ss.len(),
{
    if ss.len() > 0 {
        assert(srcs_wf(ss.drop_last())) by {
            assert forall|i: int| 0 <= i < ss.drop_last().len() implies src_wf(
                #[trigger] ss.drop_last()[i],
            ) by {
                assert(ss.drop_last()[i] == ss[i]);
            }
        }
        lemma_total_rem_nonneg(ss.drop_last());
        assert(src_wf(ss.last()));
    }
}

proof fn lemma_total_rem_advance<KV, VV>(ss: Seq<(Seq<(KV, VV)>, int)>, i: int)
    requires
        0 <= i < ss.len(),
        src_active(ss[i]),
    ensures
        total_rem(advance_src(ss, i)) == total_rem(ss) - 1,
    decreases ss.len(),
{
    let ss2 = advance_src(ss, i);
    if i == ss.len() - 1 {
        assert(ss2.drop_last() =~= ss.drop_last());
        assert(ss2.last() == (ss[i].0, ss[i].1 + 1));
    } else {
        assert(ss2.last() == ss.last());
        assert(ss2.drop_last() =~= advance_src(ss.drop_last(), i));
        lemma_total_rem_advance(ss.drop_last(), i);
    }
}

proof fn lemma_advance_wf<KV, VV>(ss: Seq<(Seq<(KV, VV)>, int)>, i: int)
    requires
        srcs_wf(ss),
        0 <= i < ss.len(),
        src_active(ss[i]),
    ensures
        srcs_wf(advance_src(ss, i)),
{
    let ss2 = advance_src(ss, i);
    assert forall|j: int| 0 <= j < ss2.len() implies src_wf(#[trigger] ss2[j]) by {
        if j != i {
            assert(ss2[j] == ss[j]);
        }
    }
}

/// What `best_idx` picks: an active source whose head key is at or before
/// every other active head key among the first `n`.
pub proof fn lemma_best_idx<KV, VV>(
    le: spec_fn(KV, KV) -> bool,
    ss: Seq<(Seq<(KV, VV)>, int)>,
    n: int,
)
    requires
        le_is_total(le),
        le_is_trans(le),
        0 <= n <= ss.len(),
    ensures
        -1 <= best_idx(le, ss, n) < n,
        best_idx(le, ss, n) == -1 ==> forall|j: int| 0 <= j < n ==> !src_active(#[trigger] ss[j]),
        best_idx(le, ss, n) != -1 ==> src_active(ss[best_idx(le, ss, n)]),
        best_idx(le, ss, n) != -1 ==> forall|j: int|
            0 <= j < n && src_active(#[trigger] ss[j]) ==> le(
                src_head(ss[best_idx(le, ss, n)]).0,
                src_head(ss[j]).0,
            ),
    decreases n,
{
    if n > 0 {
        lemma_best_idx(le, ss, n - 1);
        let b = best_idx(le, ss, n - 1);
        let r = best_idx(le, ss, n);
        if src_active(ss[n - 1]) && b != -1 && !le(src_head(ss[b]).0, src_head(ss[n - 1]).0) {
            assert(le(src_head(ss[n - 1]).0, src_head(ss[b]).0));
            assert forall|j: int| 0 <= j < n && src_active(#[trigger] ss[j]) implies le(
                src_head(ss[r]).0,
                src_head(ss[j]).0,
            ) by {
                if j < n - 1 {
                    assert(le(src_head(ss[b]).0, src_head(ss[j]).0));
                }
            }
        }
    }
}

/// The merged stream still owed by the given sources: repeatedly take the
/// head of the best source until all are exhausted.
pub open spec fn merge_rem<KV, VV>(
    le: spec_fn(KV, KV) -> bool,
    ss: Seq<(Seq<(KV, VV)>, int)>,
) -> Seq<(KV, VV)>
    decreases total_rem(ss),
    when srcs_wf(ss)
    via merge_rem_dec::<KV, VV>
{
    let b = best_idx(le, ss, ss.len() as int);
    if b == -1 || !(0 <= b < ss.len() && src_active(ss[b])) {
        Seq::empty()
    } else {
        seq![src_head(ss[b])] + merge_rem(le, advance_src(ss, b))
    }
}

#[via_fn]
proof fn merge_rem_dec<KV, VV>(le: spec_fn(KV, KV) -> bool, ss: Seq<(Seq<(KV, VV)>, int)>) {
    let b = best_idx(le, ss, ss.len() as int);
    if !(b == -1 || !(0 <= b < ss.len() && src_active(ss[b]))) {
        lemma_advance_wf(ss, b);
        lemma_total_rem_advance(ss, b);
        lemma_total_rem_nonneg(advance_src(ss, b));
    }
}

/// Every item of the merged stream comes from the pending part of one of
/// the sources.
pub proof fn lemma_merge_elements<KV, VV>(
    le: spec_fn(KV, KV) -> bool,
    ss: Seq<(Seq<(KV, VV)>, int)>,
)
    requires
        le_is_total(le),
        le_is_trans(le),
        srcs_wf(ss),
    ensures
        forall|x: int|
            0 <= x < merge_rem(le, ss).len() ==> exists|j: int, p: int|
                0 <= j < ss.len() && ss[j].1 <= p < ss[j].0.len() && #[trigger] merge_rem(
                    le,
                    ss,
                )[x] == ss[j].0[p],
    decreases total_rem(ss),
{
    lemma_total_rem_nonneg(ss);
    let m = merge_rem(le, ss);
    let b = best_idx(le, ss, ss.len() as int);
    lemma_best_idx(le, ss, ss.len() as int);
    if b != -1 {
        let ss2 = advance_src(ss, b);
        lemma_advance_wf(ss, b);
        lemma_total_rem_advance(ss, b);
        lemma_total_rem_nonneg(ss2);
        lemma_merge_elements(le, ss2);
        let m2 = merge_rem(le, ss2);
        assert forall|x: int| 0 <= x < m.len() implies exists|j: int, p: int|
            0 <= j < ss.len() && ss[j].1 <= p < ss[j].0.len() && #[trigger] m[x] == ss[j].0[p] by {
            if x == 0 {
                assert(m[0] == src_head(ss[b]));
                assert(0 <= b < ss.len() && ss[b].1 <= ss[b].1 < ss[b].0.len() && m[0]
                    == ss[b].0[ss[b].1]);
            } else {
                assert(m[x] == m2[x - 1]);
                let (j, p) = choose|j: int, p: int|
                    0 <= j < ss2.len() && ss2[j].1 <= p < ss2[j].0.len() && #[trigger] m2[x - 1]
                        == ss2[j].0[p];
                assert(ss2[j].0 == ss[j].0 && ss2[j].1 >= ss[j].1);
                assert(0 <= j < ss.len() && ss[j].1 <= p < ss[j].0.len() && m[x] == ss[j].0[p]);
            }
        }
    }
}

/// The merged stream is ordered by key when every source is.
pub proof fn lemma_merge_sorted<KV, VV>(le: spec_fn(KV, KV) -> bool, ss: Seq<(Seq<(KV, VV)>, int)>)
    requires
        le_is_total(le),
        le_is_trans(le),
        srcs_wf(ss),
        forall|i: int| 0 <= i < ss.len() ==> sorted_pairs(le, (#[trigger] ss[i]).0),
    ensures
        sorted_pairs(le, merge_rem(le, ss)),
    decreases total_rem(ss),
{
    lemma_total_rem_nonneg(ss);
    let m = merge_rem(le, ss);
    let b = best_idx(le, ss, ss.len() as int);
    lemma_best_idx(le, ss, ss.len() as int);
    if b != -1 {
        let h = src_head(ss[b]);
        let ss2 = advance_src(ss, b);
        lemma_advance_wf(ss, b);
        lemma_total_rem_advance(ss, b);
        lemma_total_rem_nonneg(ss2);
        assert forall|i: int| 0 <= i < ss2.len() implies sorted_pairs(
            le,
            (#[trigger] ss2[i]).0,
        ) by {
            assert(ss2[i].0 == ss[i].0);
        }
        lemma_merge_sorted(le, ss2);
        lemma_merge_elements(le, ss2);
        let m2 = merge_rem(le, ss2);
        assert forall|x: int| 0 <= x < m2.len() implies le(h.0, (#[trigger] m2[x]).0) by {
            let (j, p) = choose|j: int, p: int|
                0 <= j < ss2.len() && ss2[j].1 <= p < ss2[j].0.len() && #[trigger] m2[x]
                    == ss2[j].0[p];
            if j == b {
                assert(p >= ss[b].1);
                if p > ss[b].1 {
                    assert(sorted_pairs(le, ss[b].0));
                    assert(le(ss[b].0[ss[b].1].0, ss[b].0[p].0));
                } else {
                    assert(m2[x] == h);
                    assert(le(h.0, h.0));
                }
            } else {
                assert(src_active(ss[j]));
                assert(le(h.0, src_head(ss[j]).0));
                if p > ss[j].1 {
                    assert(le(ss[j].0[ss[j].1].0, ss[j].0[p].0));
                }
            }
        }
        assert forall|i: int, j: int| 0 <= i < j < m.len() implies le(
            (#[trigger] m[i]).0,
            (#[trigger] m[j]).0,
        ) by {
            if i == 0 {
                assert(m[j] == m2[j - 1]);
                assert(le(h.0, m2[j - 1].0));
            } else {
                assert(m[i] == m2[i - 1] && m[j] == m2[j - 1]);
                assert(le(m2[i - 1].0, m2[j - 1].0));
            }
        }
    }
}

/// Two rewound states over the same sources owe the same merged stream: the
/// output of a full pass is a function of the sources alone, so repeated
/// rewound passes are identical.
pub proof fn lemma_rewound_passes_equal<KV, VV>(
    le: spec_fn(KV, KV) -> bool,
    ss1: Seq<(Seq<(KV, VV)>, int)>,
    ss2: Seq<(Seq<(KV, VV)>, int)>,
)
    requires
        ss1.len() == ss2.len(),
        forall|i: int| 0 <= i < ss1.len() ==> (#[trigger] ss1[i]).0 == (#[trigger] ss2[i]).0,
        forall|i: int| 0 <= i < ss1.len() ==> (#[trigger] ss1[i]).1 == 0,
        forall|i: int| 0 <= i < ss2.len() ==> (#[trigger] ss2[i]).1 == 0,
    ensures
        merge_rem(le, ss1) == merge_rem(le, ss2),
{
    assert(ss1 =~= ss2);
}

/// A source wrapped for merging: buffers its next item so heads can be
/// compared, and remembers the rank that breaks key ties.
pub struct OrderedIter<I: ForwardIterator> {
    iter: I,
    rank: usize,
    next_item: Option<I::Item>,
}

impl<I: ForwardIterator> OrderedIter<I> {
    /// The whole sequence of the wrapped source.
    pub closed spec fn all(&self) -> Seq<<I::Item as View>::V> {
        self.iter.all_items()
    }

    /// The position of the buffered head within the whole sequence.
    pub closed spec fn lpos(&self) -> int {
        if self.next_item is Some {
            self.iter.cursor() - 1
        } else {
            self.iter.cursor()
        }
    }

    /// The tie-breaking rank.
    pub closed spec fn spec_rank(&self) -> int {
        self.rank as int
    }

    /// Well-formedness before the head is first filled.
    pub closed spec fn pre_inv(&self) -> bool {
        self.iter.inv() && self.next_item is None
    }

    /// Well-formedness once the head buffer tracks the cursor.
    pub closed spec fn inv(&self) -> bool {
        &&& self.iter.inv()
        &&& match self.next_item {
            Some(x) => self.iter.cursor() >= 1 && self.iter.cursor() <= self.all().len() && x@
                == self.all()[self.iter.cursor() - 1],
            None => self.iter.cursor() == self.all().len(),
        }
    }

    /// True while the buffered head still holds an item.
    pub closed spec fn has_head(&self) -> bool {
        self.next_item is Some
    }

    pub proof fn lemma_inv_bounds(&self)
        requires
            self.inv(),
        ensures
            0 <= self.lpos() <= self.all().len(),
            self.has_head() <==> self.lpos() < self.all().len(),
    {
        self.iter.inv_bounds();
    }

    /// Wraps a source with its rank; the head is filled by `init`.
    pub fn new(iter: I, rank: usize) -> (r: Self)
        requires
            iter.inv(),
        ensures
            r.pre_inv(),
            r.all() == iter.all_items(),
            r.iter_cursor() == iter.cursor(),
            r.spec_rank() == rank,
    {
        OrderedIter { iter, rank, next_item: None }
    }

    /// The wrapped iterator's cursor, exposed for contracts about `init`.
    pub closed spec fn iter_cursor(&self) -> int {
        self.iter.cursor()
    }

    /// Buffers the first pending item.
    pub fn init(&mut self) -> (nothing: ())
        requires
            old(self).pre_inv(),
        ensures
            final(self).inv(),
            final(self).all() == old(self).all(),
            final(self).spec_rank() == old(self).spec_rank(),
            final(self).lpos() == old(self).iter_cursor(),
    {
        proof {
            self.iter.inv_bounds();
        }
        self.next_item = self.iter.next();
    }

    /// Yields the buffered head and refills it.
    fn advance(&mut self) -> (r: I::Item)
        requires
            old(self).inv(),
            old(self).lpos() < old(self).all().len(),
        ensures
            final(self).inv(),
            final(self).all() == old(self).all(),
            final(self).spec_rank() == old(self).spec_rank(),
            final(self).lpos() == old(self).lpos() + 1,
            r@ == old(self).all()[old(self).lpos()],
    {
        proof {
            self.lemma_inv_bounds();
        }
        let item = self.next_item.take().unwrap();
        self.next_item = self.iter.next();
        item
    }
}

impl<I: RewindableIterator> OrderedIter<I> {
    /// Rewinds the source and refills the head.
    fn rewind_refill(&mut self) -> (nothing: ())
        requires
            old(self).inv(),
        ensures
            final(self).inv(),
            final(self).all() == old(self).all(),
            final(self).spec_rank() == old(self).spec_rank(),
            final(self).lpos() == 0,
    {
        self.iter.rewind();
        self.next_item = self.iter.next();
    }
}

impl<I: ForwardIterator> OrderedIter<I> {
    /// True while this source still has an item to yield.
    fn has_item(&self) -> (r: bool)
        ensures
            r == self.has_head(),
    {
        self.next_item.is_some()
    }
}

impl<I, K, V> OrderedIter<I> where
    I: ForwardIterator<Item = (K, V)>,
    K: SortKey + View,
    V: View,
 {
    /// The item this source would yield next.
    pub open spec fn head(&self) -> (K::V, V::V) {
        self.all()[self.lpos()]
    }

    /// Compares the buffered head keys of two sources.
    fn head_cmp(&self, other: &Self) -> (c: KeyCmp)
        requires
            self.inv(),
            other.inv(),
            self.has_head(),
            other.has_head(),
        ensures
            c is Less ==> K::le(self.head().0, other.head().0) && self.head().0 != other.head().0,
            c is Equal ==> self.head().0 == other.head().0,
            c is Greater ==> K::le(other.head().0, self.head().0) && self.head().0
                != other.head().0,
    {
        match (&self.next_item, &other.next_item) {
            (Some(x), Some(y)) => {
                proof {
                    self.lemma_inv_bounds();
                    other.lemma_inv_bounds();
                    assert(x@ == self.head() && y@ == other.head());
                    assert(x@.0 == x.0@ && y@.0 == y.0@);
                }
                x.0.compare(&y.0)
            },
            _ => KeyCmp::Less,
        }
    }
}

/// An iterator that merges multiple ordered sources into one ordered
/// stream. Each `next` takes the head of the best source: least key first,
/// key ties broken in favour of the earliest-added source.
pub struct MergingIter<I: ForwardIterator> {
    iters: Vec<OrderedIter<I>>,
}

impl<I, K, V> MergingIter<I> where
    I: ForwardIterator<Item = (K, V)>,
    K: SortKey + View,
    V: View,
 {
    /// The merge sources: each one's whole sequence and position.
    pub closed spec fn srcs(&self) -> Seq<(Seq<(K::V, V::V)>, int)> {
        Seq::new(self.iters@.len() as nat, |i: int| (self.iters@[i].all(), self.iters@[i].lpos()))
    }

    pub closed spec fn inv(&self) -> bool {
        forall|i: int|
            0 <= i < self.iters@.len() ==> (#[trigger] self.iters@[i]).inv()
                && self.iters@[i].spec_rank() == i
    }

    /// True when every source sequence is ordered by key.
    pub open spec fn sources_sorted(&self) -> bool {
        forall|i: int|
            0 <= i < self.srcs().len() ==> sorted_pairs(kle::<K>(), (#[trigger] self.srcs()[i]).0)
    }

    /// The merged stream still owed.
    pub open spec fn remaining(&self) -> Seq<(K::V, V::V)> {
        merge_rem(kle::<K>(), self.srcs())
    }

    pub proof fn lemma_srcs_wf(&self)
        requires
            self.inv(),
        ensures
            srcs_wf(self.srcs()),
    {
        assert forall|i: int| 0 <= i < self.srcs().len() implies src_wf(
            #[trigger] self.srcs()[i],
        ) by {
            self.iters@[i].lemma_inv_bounds();
        }
    }

    /// Yields the least pending item, or nothing once every source is
    /// exhausted.
    pub fn next(&mut self) -> (r: Option<(K, V)>)
        requires
            old(self).inv(),
        ensures
            final(self).inv(),
            final(self).srcs().len() == old(self).srcs().len(),
            forall|i: int|
                0 <= i < old(self).srcs().len() ==> (#[trigger] final(self).srcs()[i]).0 == (
                #[trigger] old(self).srcs()[i]).0,
            old(self).remaining().len() > 0 ==> (r matches Some(x) && x@ == old(self).remaining()[0])
                && final(self).remaining() == old(self).remaining().drop_first(),
            old(self).remaining().len() == 0 ==> r is None && final(self).srcs() == old(
            self).srcs(),
    {
        proof {
            lemma_kle_props::<K>();
            self.lemma_srcs_wf();
            lemma_best_idx(kle::<K>(), self.srcs(), self.srcs().len() as int);
        }
        let ghost ss = self.srcs();
        let ghost le = kle::<K>();
        let n = self.iters.len();
        let mut best: usize = n;
        let mut i: usize = 0;
        while i < n
            invariant
                self.inv(),
                n == self.iters@.len(),
                i <= n,
                ss == self.srcs(),
                le == kle::<K>(),
                best == n || best < i,
                best == n ==> best_idx(le, ss, i as int) == -1,
                best < n ==> best == best_idx(le, ss, i as int),
            decreases n - i,
        {
            proof {
                lemma_kle_props::<K>();
                self.lemma_srcs_wf();
                self.iters@[i as int].lemma_inv_bounds();
                lemma_best_idx(le, ss, i as int);
                if best < n {
                    self.iters@[best as int].lemma_inv_bounds();
                    assert(src_active(ss[best as int]));
                    assert(self.iters@[best as int].has_head());
                }
            }
            let active = self.iters[i].has_item();
            proof {
                assert(self.iters@[i as int].head() == src_head(ss[i as int]));
                assert(active == src_active(ss[i as int]));
            }
            if active {
                if best == n {
                    best = i;
                } else {
                    let c = self.iters[best].head_cmp(&self.iters[i]);
                    proof {
                        let hb = src_head(ss[best as int]).0;
                        let hi = src_head(ss[i as int]).0;
                        assert(self.iters@[best as int].head() == src_head(ss[best as int]));
                        match c {
                            KeyCmp::Less => {
                                assert(le(hb, hi));
                            },
                            KeyCmp::Equal => {
                                K::le_reflexive(hb);
                                assert(le(hb, hi));
                            },
                            KeyCmp::Greater => {
                                if le(hb, hi) {
                                    K::le_antisymmetric(hb, hi);
                                    assert(false);
                                }
                            },
                        }
                    }
                    if matches!(c, KeyCmp::Greater) {
                        best = i;
                    }
                }
            }
            i += 1;
        }
        if best == n {
            proof {
                assert(best_idx(le, ss, ss.len() as int) == -1);
                assert(self.remaining() =~= Seq::<(K::V, V::V)>::empty());
            }
            None
        } else {
            let ghost b = best as int;
            proof {
                assert(best_idx(le, ss, ss.len() as int) == b);
                self.iters@[b].lemma_inv_bounds();
            }
            let ghost prev = self.iters@;
            let mut it = self.iters.remove(best);
            proof {
                assert(prev[b] == it);
            }
            let item = it.advance();
            let ghost new_elem = it;
            self.iters.insert(best, it);
            proof {
                assert forall|j: int| 0 <= j < n && j != b implies self.iters@[j] == prev[j] by {}
                assert(self.iters@[b] == new_elem);
                assert forall|j: int| 0 <= j < n implies #[trigger] self.srcs()[j] == advance_src(
                    ss,
                    b,
                )[j] by {
                    assert(self.srcs()[j] == (self.iters@[j].all(), self.iters@[j].lpos()));
                    assert(ss[j] == (prev[j].all(), prev[j].lpos()));
                }
                assert(final(self).srcs() =~= advance_src(ss, b));
                assert(self.remaining() == merge_rem(le, advance_src(ss, b)));
                assert(ss[b].1 < ss[b].0.len());
                assert(merge_rem(le, ss) == seq![src_head(ss[b])] + merge_rem(
                    le,
                    advance_src(ss, b),
                ));
                assert(merge_rem(le, ss)[0] == src_head(ss[b]));
                assert(merge_rem(le, ss).drop_first() =~= merge_rem(le, advance_src(ss, b)));
                assert(item@ == src_head(ss[b]));
            }
            Some(item)
        }
    }
}

impl<I, K, V> MergingIter<I> where
    I: RewindableIterator<Item = (K, V)>,
    K: SortKey + View,
    V: View,
 {
    /// Rewinds every source: the stream owed afterwards is the full merge
    /// of the sources, whatever had been consumed.
    pub fn rewind(&mut self) -> (nothing: ())
        requires
            old(self).inv(),
        ensures
            final(self).inv(),
            final(self).srcs().len() == old(self).srcs().len(),
            forall|i: int|
                0 <= i < old(self).srcs().len() ==> (#[trigger] final(self).srcs()[i]).0 == (
                #[trigger] old(self).srcs()[i]).0 && final(self).srcs()[i].1 == 0,
    {
        let ghost ss = self.srcs();
        let n = self.iters.len();
        let mut i: usize = 0;
        while i < n
            invariant
                self.inv(),
                n == self.iters@.len(),
                i <= n,
                self.srcs().len() == ss.len(),
                forall|j: int| 0 <= j < n ==> (#[trigger] self.srcs()[j]).0 == ss[j].0,
                forall|j: int| 0 <= j < i ==> (#[trigger] self.srcs()[j]).1 == 0,
                forall|j: int| i <= j < n ==> (#[trigger] self.srcs()[j]).1 == ss[j].1,
            decreases n - i,
        {
            let ghost entry_srcs = self.srcs();
            let ghost prev = self.iters@;
            let mut it = self.iters.remove(i);
            proof {
                assert(prev[i as int] == it);
            }
            it.rewind_refill();
            let ghost new_elem = it;
            self.iters.insert(i, it);
            proof {
                assert forall|j: int| 0 <= j < n && j != i implies self.iters@[j] == prev[j] by {}
                assert(self.iters@[i as int] == new_elem);
                assert forall|j: int| 0 <= j < n implies (#[trigger] self.srcs()[j]).0 == ss[j].0
                    && (j <= i ==> self.srcs()[j].1 == 0) && (j > i ==> self.srcs()[j].1
                    == ss[j].1) by {
                    assert(self.srcs()[j] == (self.iters@[j].all(), self.iters@[j].lpos()));
                    assert(entry_srcs[j] == (prev[j].all(), prev[j].lpos()));
                }
            }
            i += 1;
        }
    }
}

/// Builds a [`MergingIter`] from sources added in rank order: the first
/// source added wins key ties.
pub struct MergingIterBuilder<I: ForwardIterator> {
    iters: Vec<OrderedIter<I>>,
}

impl<I, K, V> MergingIterBuilder<I> where
    I: ForwardIterator<Item = (K, V)>,
    K: SortKey + View,
    V: View,
 {
    /// The sources added so far: each one's sequence and cursor.
    pub closed spec fn views(&self) -> Seq<(Seq<(K::V, V::V)>, int)> {
        Seq::new(
            self.iters@.len() as nat,
            |i: int| (self.iters@[i].all(), self.iters@[i].iter_cursor()),
        )
    }

    pub closed spec fn inv(&self) -> bool {
        forall|i: int|
            0 <= i < self.iters@.len() ==> (#[trigger] self.iters@[i]).pre_inv()
                && self.iters@[i].spec_rank() == i
    }

    /// An empty builder.
    pub fn new() -> (r: Self)
        ensures
            r.inv(),
            r.views() == Seq::<(Seq<(K::V, V::V)>, int)>::empty(),
    {
        let r = MergingIterBuilder { iters: Vec::new() };
        proof {
            assert(r.views() =~= Seq::<(Seq<(K::V, V::V)>, int)>::empty());
        }
        r
    }

    /// An empty builder with room reserved for `capacity` sources.
    pub fn with_capacity(capacity: usize) -> (r: Self)
        ensures
            r.inv(),
            r.views() == Seq::<(Seq<(K::V, V::V)>, int)>::empty(),
    {
        let r = MergingIterBuilder { iters: Vec::with_capacity(capacity) };
        proof {
            assert(r.views() =~= Seq::<(Seq<(K::V, V::V)>, int)>::empty());
        }
        r
    }

    /// The number of sources added so far.
    pub fn len(&self) -> (r: usize)
        ensures
            r == self.views().len(),
    {
        self.iters.len()
    }

    /// Adds a source; its rank is the number of sources added before it.
    pub fn add(&mut self, iter: I) -> (nothing: ())
        requires
            old(self).inv(),
            iter.inv(),
        ensures
            final(self).inv(),
            final(self).views() == old(self).views().push((iter.all_items(), iter.cursor())),
    {
        let rank = self.iters.len();
        self.iters.push(OrderedIter::new(iter, rank));
        proof {
            assert(self.views() =~= old(self).views().push((iter.all_items(), iter.cursor())));
        }
    }

    /// Finalises into a merge positioned at the first combined item.
    pub fn build(self) -> (m: MergingIter<I>)
        requires
            self.inv(),
        ensures
            m.inv(),
            m.srcs() == self.views(),
    {
        let MergingIterBuilder { mut iters } = self;
        let ghost vs = Seq::new(
            iters@.len() as nat,
            |i: int| (iters@[i].all(), iters@[i].iter_cursor()),
        );
        let n = iters.len();
        let mut i: usize = 0;
        while i < n
            invariant
                n == iters@.len(),
                i <= n,
                vs.len() == n,
                forall|j: int|
                    0 <= j < n ==> (#[trigger] iters@[j]).spec_rank() == j && vs[j].0
                        == iters@[j].all(),
                forall|j: int| 0 <= j < i ==> (#[trigger] iters@[j]).inv() && iters@[j].lpos() == vs[j].1,
                forall|j: int|
                    i <= j < n ==> (#[trigger] iters@[j]).pre_inv() && iters@[j].iter_cursor()
                        == vs[j].1,
            decreases n - i,
        {
            let ghost prev = iters@;
            let mut it = iters.remove(i);
            proof {
                assert(prev[i as int] == it);
            }
            it.init();
            let ghost new_elem = it;
            iters.insert(i, it);
            proof {
                assert forall|j: int| 0 <= j < n && j != i implies iters@[j] == prev[j] by {}
                assert(iters@[i as int] == new_elem);
            }
            i += 1;
        }
        let m = MergingIter { iters };
        proof {
            assert(m.srcs() =~= vs);
        }
        m
    }
}

impl<I, K, V> OrderedIter<I> where
    I: SeekableIterator<K, V> + ForwardIterator<Item = (K, V)>,
    K: SortKey + View,
    V: View,
 {
    /// Seeks the source and refills the head.
    fn seek_refill(&mut self, target: &K) -> (found: bool)
        requires
            old(self).inv(),
            sorted_by_key::<K, V::V>(old(self).all()),
        ensures
            final(self).inv(),
            final(self).all() == old(self).all(),
            final(self).spec_rank() == old(self).spec_rank(),
            final(self).lpos() == lower_bound::<K, V::V>(old(self).all(), target@),
            found == exists|i: int|
                0 <= i < old(self).all().len() && (#[trigger] old(self).all()[i]).0 == target@,
    {
        proof {
            lemma_lower_bound::<K, V::V>(self.all(), target@);
        }
        let found = self.iter.seek(target);
        self.next_item = self.iter.next();
        found
    }
}

impl<I, K, V> MergingIter<I> where
    I: SeekableIterator<K, V> + ForwardIterator<Item = (K, V)>,
    K: SortKey + View,
    V: View,
 {
    /// Positions every source at its first item at or after `target`;
    /// reports whether any source holds an item with exactly that key. The
    /// following `next` calls yield the merged items at or after `target`,
    /// in order.
    pub fn seek(&mut self, target: &K) -> (found: bool)
        requires
            old(self).inv(),
            old(self).sources_sorted(),
        ensures
            final(self).inv(),
            final(self).srcs().len() == old(self).srcs().len(),
            forall|i: int|
                0 <= i < old(self).srcs().len() ==> (#[trigger] final(self).srcs()[i]).0 == (
                #[trigger] old(self).srcs()[i]).0 && final(self).srcs()[i].1 == lower_bound::<
                    K,
                    V::V,
                >(old(self).srcs()[i].0, target@),
            found == exists|i: int, p: int|
                0 <= i < old(self).srcs().len() && 0 <= p < (#[trigger] old(
                self).srcs()[i]).0.len() && #[trigger] old(self).srcs()[i].0[p].0 == target@,
    {
        let ghost ss = self.srcs();
        let n = self.iters.len();
        let mut found = false;
        let mut i: usize = 0;
        while i < n
            invariant
                self.inv(),
                n == self.iters@.len(),
                i <= n,
                ss.len() == n,
                forall|j: int|
                    0 <= j < n ==> sorted_by_key::<K, V::V>((#[trigger] ss[j]).0) && src_wf(
                        ss[j],
                    ),
                forall|j: int| 0 <= j < n ==> (#[trigger] self.srcs()[j]).0 == ss[j].0,
                forall|j: int|
                    0 <= j < i ==> (#[trigger] self.srcs()[j]).1 == lower_bound::<K, V::V>(
                        ss[j].0,
                        target@,
                    ),
                forall|j: int| i <= j < n ==> (#[trigger] self.srcs()[j]).1 == ss[j].1,
                found == exists|j: int, p: int|
                    0 <= j < i && 0 <= p < (#[trigger] ss[j]).0.len() && #[trigger] ss[j].0[p].0
                        == target@,
            decreases n - i,
        {
            let ghost entry_srcs = self.srcs();
            let ghost prev = self.iters@;
            let ghost found0 = found;
            let mut it = self.iters.remove(i);
            proof {
                assert(prev[i as int] == it);
                assert(entry_srcs[i as int] == (prev[i as int].all(), prev[i as int].lpos()));
            }
            let f = it.seek_refill(target);
            let ghost new_elem = it;
            self.iters.insert(i, it);
            found = found || f;
            proof {
                assert forall|j: int| 0 <= j < n && j != i implies self.iters@[j] == prev[j] by {}
                assert(self.iters@[i as int] == new_elem);
                assert forall|j: int| 0 <= j < n implies (#[trigger] self.srcs()[j]).0 == ss[j].0
                    && (j <= i ==> self.srcs()[j].1 == lower_bound::<K, V::V>(ss[j].0, target@))
                    && (j > i ==> self.srcs()[j].1 == ss[j].1) by {
                    assert(self.srcs()[j] == (self.iters@[j].all(), self.iters@[j].lpos()));
                    assert(entry_srcs[j] == (prev[j].all(), prev[j].lpos()));
                }
                if found {
                    if found0 {
                        let (j, p) = choose|j: int, p: int|
                            0 <= j < i && 0 <= p < (#[trigger] ss[j]).0.len()
                                && #[trigger] ss[j].0[p].0 == target@;
                        assert(0 <= j < i + 1 && 0 <= p < ss[j].0.len() && ss[j].0[p].0
                            == target@);
                    } else {
                        let p = choose|p: int|
                            0 <= p < prev[i as int].all().len() && (#[trigger] prev[
                            i as int].all()[p]).0 == target@;
                        assert(ss[i as int].0 == prev[i as int].all());
                        assert(0 <= i < i + 1 && 0 <= p < ss[i as int].0.len()
                            && ss[i as int].0[p].0 == target@);
                    }
                } else {
                    assert forall|j: int, p: int|
                        !(0 <= j < i + 1 && 0 <= p < (#[trigger] ss[j]).0.len()
                            && #[trigger] ss[j].0[p].0 == target@) by {
                        if 0 <= j < i + 1 && 0 <= p < ss[j].0.len() {
                            if j == i {
                                assert(ss[j].0 == prev[j].all());
                            }
                        }
                    }
                }
            }
            i += 1;
        }
        found
    }
}

/// `sorted_pairs` under a key type's order is exactly `sorted_by_key`.
pub proof fn lemma_sorted_pairs_is_sorted_by_key<K: SortKey, VV>(s: Seq<(K::V, VV)>)
    ensures
        sorted_pairs(kle::<K>(), s) == sorted_by_key::<K, VV>(s),
{
    if sorted_pairs(kle::<K>(), s) {
        assert forall|i: int, j: int| 0 <= i < j < s.len() implies K::le(
            (#[trigger] s[i]).0,
            (#[trigger] s[j]).0,
        ) by {
            assert(kle::<K>()((s[i]).0, (s[j]).0));
        }
        assert(sorted_by_key::<K, VV>(s));
    }
    if sorted_by_key::<K, VV>(s) {
        assert forall|i: int, j: int| 0 <= i < j < s.len() implies kle::<K>()(
            (#[trigger] s[i]).0,
            (#[trigger] s[j]).0,
        ) by {
            assert(K::le((s[i]).0, (s[j]).0));
        }
        assert(sorted_pairs(kle::<K>(), s));
    }
}

/// After every source is positioned at its first item at or after `t`, the
/// merged stream owed is ordered by key and holds only items whose key is
/// at or after `t`.
pub proof fn lemma_merge_after_seek<K: SortKey, VV>(ss: Seq<(Seq<(K::V, VV)>, int)>, t: K::V)
    requires
        forall|i: int| 0 <= i < ss.len() ==> sorted_by_key::<K, VV>((#[trigger] ss[i]).0),
        forall|i: int|
            0 <= i < ss.len() ==> (#[trigger] ss[i]).1 == lower_bound::<K, VV>(ss[i].0, t),
    ensures
        srcs_wf(ss),
        sorted_pairs(kle::<K>(), merge_rem(kle::<K>(), ss)),
        forall|x: int|
            0 <= x < merge_rem(kle::<K>(), ss).len() ==> K::le(
                t,
                (#[trigger] merge_rem(kle::<K>(), ss)[x]).0,
            ),
{
    lemma_kle_props::<K>();
    assert forall|i: int| 0 <= i < ss.len() implies src_wf(#[trigger] ss[i]) by {
        lemma_lower_bound::<K, VV>(ss[i].0, t);
    }
    assert forall|i: int| 0 <= i < ss.len() implies sorted_pairs(
        kle::<K>(),
        (#[trigger] ss[i]).0,
    ) by {
        lemma_sorted_pairs_is_sorted_by_key::<K, VV>(ss[i].0);
    }
    lemma_merge_sorted(kle::<K>(), ss);
    lemma_merge_elements(kle::<K>(), ss);
    let m = merge_rem(kle::<K>(), ss);
    assert forall|x: int| 0 <= x < m.len() implies K::le(t, (#[trigger] m[x]).0) by {
        let (j, p) = choose|j: int, p: int|
            0 <= j < ss.len() && ss[j].1 <= p < ss[j].0.len() && #[trigger] m[x] == ss[j].0[p];
        lemma_lower_bound::<K, VV>(ss[j].0, t);
        assert(K::le(t, ss[j].0[p].0));
    }
}

/// The merged stream yields exactly as many items as the sources still
/// hold: nothing is dropped and nothing is invented.
pub proof fn lemma_merge_rem_len<KV, VV>(
    le: spec_fn(KV, KV) -> bool,
    ss: Seq<(Seq<(KV, VV)>, int)>,
)
    requires
        le_is_total(le),
        le_is_trans(le),
        srcs_wf(ss),
    ensures
        merge_rem(le, ss).len() == total_rem(ss),
    decreases total_rem(ss),
{
    lemma_total_rem_nonneg(ss);
    let b = best_idx(le, ss, ss.len() as int);
    lemma_best_idx(le, ss, ss.len() as int);
    if b == -1 {
        lemma_total_rem_all_done(ss);
    } else {
        let ss2 = advance_src(ss, b);
        lemma_advance_wf(ss, b);
        lemma_total_rem_advance(ss, b);
        lemma_total_rem_nonneg(ss2);
        lemma_merge_rem_len(le, ss2);
    }
}

/// With every source exhausted, nothing remains.
proof fn lemma_total_rem_all_done<KV, VV>(ss: Seq<(Seq<(KV, VV)>, int)>)
    requires
        srcs_wf(ss),
        forall|j: int| 0 <= j < ss.len() ==> !src_active(#[trigger] ss[j]),
    ensures
        total_rem(ss) == 0,
    decreases ss.len(),
{
    if ss.len() > 0 {
        assert(srcs_wf(ss.drop_last()) && forall|j: int|
            0 <= j < ss.drop_last().len() ==> !src_active(#[trigger] ss.drop_last()[j])) by {
            assert(forall|j: int|
                0 <= j < ss.drop_last().len() ==> ss.drop_last()[j] == ss[j]);
        }
        lemma_total_rem_all_done(ss.drop_last());
        assert(!src_active(ss.last()) && src_wf(ss.last()));
    }
}

} // verus!
