//! The uploader's bookkeeping: which memtables wait to be uploaded, in which
//! order their entries go to the table builder, and what is registered with
//! the metadata service once the tables are stored.
//!
//! The uploader itself performs no I/O. Each call says what the caller has to
//! carry out next; the caller reports back when it is done.

use vstd::prelude::*;
use vstd::seq_lib::{to_multiset_build, to_multiset_insert};
use crate::key::{
    compare_bytes, lemma_lex_le_transitive, lemma_lex_total, lex_le, lex_lt, ByteOrder,
};
use crate::memtable::{ImmutableMemtable, ItemView, MemtableItem};

verus! {

/// What is sent to the uploader: a memtable to queue, or a request to make
/// everything queued so far durable. `N` is whatever the requester wants to
/// be notified through.
#[derive(Debug)]
#[allow(non_camel_case_types)]
pub enum MemtableUploaderItem<N> {
    MEMTABLE(ImmutableMemtable),
    SYNC(Option<N>),
}

/// What the caller of [`MemtableUploader::handle`] has to do next.
pub enum UploaderStep<N> {
    /// The memtable was queued. Nothing to do.
    Queued,
    /// Nothing was waiting: report success through `notify`.
    Synced { notify: Option<N> },
    /// Feed the entries of `memtables`, in this order, to the table builder,
    /// store the tables it cuts, register them at `epoch`, and report the
    /// outcome through `notify`.
    Upload { memtables: Vec<ImmutableMemtable>, epoch: u64, notify: Option<N> },
}

/// The bounds of the full keys held by one stored table.
#[derive(Clone, Debug, PartialEq, Eq)]
pub struct KeyRange {
    pub left: Vec<u8>,
    pub right: Vec<u8>,
    pub inf: bool,
}

/// What the metadata service is told about one stored table.
#[derive(Clone, Debug, PartialEq, Eq)]
pub struct SstableInfo {
    pub id: u64,
    pub key_range: Option<KeyRange>,
}

/// A table as the object store holds it after an upload.
#[derive(Clone, Debug, PartialEq, Eq)]
pub struct UploadedTable {
    pub id: u64,
    pub smallest_key: Vec<u8>,
    pub largest_key: Vec<u8>,
}

/// The smallest full keys of `memtables` never descend.
pub open spec fn ascending_start_keys(memtables: Seq<ImmutableMemtable>) -> bool {
    forall|i: int, j: int|
        0 <= i < j < memtables.len() ==> lex_le(
            (#[trigger] memtables[i]).first_key(),
            (#[trigger] memtables[j]).first_key(),
        )
}

/// The test whether a memtable begins with the full key `key`.
pub open spec fn begins_with(key: Seq<u8>) -> spec_fn(ImmutableMemtable) -> bool {
    |m: ImmutableMemtable| m.first_key() == key
}

/// The two lists hold the memtables that begin with the same key in the
/// same order, whatever the key.
pub open spec fn same_order_within_keys(
    a: Seq<ImmutableMemtable>,
    b: Seq<ImmutableMemtable>,
) -> bool {
    forall|key: Seq<u8>| #[trigger] a.filter(begins_with(key)) == b.filter(begins_with(key))
}

/// Every memtable of `memtables` is well formed.
pub open spec fn all_wf(memtables: Seq<ImmutableMemtable>) -> bool {
    forall|i: int| 0 <= i < memtables.len() ==> (#[trigger] memtables[i]).wf()
}

/// The entries of `memtables`, one memtable after the other.
pub open spec fn entry_stream(memtables: Seq<ImmutableMemtable>) -> Seq<ItemView>
    decreases memtables.len(),
{
    if memtables.len() == 0 {
        Seq::empty()
    } else {
        entry_stream(memtables.drop_last()) + memtables.last()@.items
    }
}

/// `info` describes `table`: same id, the closed range between its smallest
/// and its largest key.
pub open spec fn describes(info: SstableInfo, table: UploadedTable) -> bool {
    &&& info.id == table.id
    &&& info.key_range matches Some(range)
    &&& range.left@ == table.smallest_key@
    &&& range.right@ == table.largest_key@
    &&& !range.inf
}

/// The memtables that wait for upload and the newest epoch seen among all
/// memtables ever queued.
pub struct MemtableUploader {
    memtables_to_upload: Vec<ImmutableMemtable>,
    max_upload_epoch: u64,
}

impl MemtableUploader {
    /// The memtables that wait for upload, in queue order.
    pub closed spec fn pending(&self) -> Seq<ImmutableMemtable> {
        self.memtables_to_upload@
    }

    /// The newest epoch of any memtable queued so far.
    pub closed spec fn max_epoch(&self) -> u64 {
        self.max_upload_epoch
    }

    /// Every waiting memtable is well formed and not newer than `max_epoch`.
    pub open spec fn wf(&self) -> bool {
        &&& all_wf(self.pending())
        &&& forall|i: int|
            0 <= i < self.pending().len() ==> (#[trigger] self.pending()[i])@.epoch
                <= self.max_epoch()
    }

    /// An uploader with nothing queued.
    pub fn new() -> (r: Self)
        ensures
            r.wf(),
            r.pending().len() == 0,
            r.max_epoch() == 0,
    {
        Self { memtables_to_upload: Vec::new(), max_upload_epoch: 0 }
    }

    /// Takes one item off the queue. A memtable is appended to the waiting
    /// ones. A sync request with nothing waiting is answered at once;
    /// otherwise the waiting memtables are put in ascending order of their
    /// smallest key and handed out for upload. They keep waiting until
    /// [`Self::finish_sync`] is called.
    pub fn handle<N>(&mut self, item: MemtableUploaderItem<N>) -> (r: UploaderStep<N>)
        requires
            old(self).wf(),
            item matches MemtableUploaderItem::MEMTABLE(m) ==> m.wf(),
        ensures
            final(self).wf(),
            match item {
                MemtableUploaderItem::MEMTABLE(m) => {
                    &&& r is Queued
                    &&& final(self).pending() == old(self).pending().push(m)
                    &&& final(self).max_epoch() == if m@.epoch > old(self).max_epoch() {
                        m@.epoch
                    } else {
                        old(self).max_epoch()
                    }
                },
                MemtableUploaderItem::SYNC(n) => {
                    &&& final(self).max_epoch() == old(self).max_epoch()
                    &&& final(self).pending().to_multiset() == old(self).pending().to_multiset()
                    &&& ascending_start_keys(final(self).pending())
                    &&& same_order_within_keys(final(self).pending(), old(self).pending())
                    &&& if old(self).pending().len() == 0 {
                        r == (UploaderStep::Synced { notify: n })
                    } else {
                        r == (UploaderStep::Upload {
                            memtables: r->memtables,
                            epoch: old(self).max_epoch(),
                            notify: n,
                        }) && r->memtables@ == final(self).pending()
                    }
                },
            },
    {
        match item {
            MemtableUploaderItem::MEMTABLE(m) => {
                if m.epoch() > self.max_upload_epoch {
                    self.max_upload_epoch = m.epoch();
                }
                self.memtables_to_upload.push(m);
                UploaderStep::Queued
            },
            MemtableUploaderItem::SYNC(notify) => {
                match self.sync() {
                    Some(memtables) => UploaderStep::Upload {
                        memtables,
                        epoch: self.max_upload_epoch,
                        notify,
                    },
                    None => UploaderStep::Synced { notify },
                }
            },
        }
    }

    /// Prepares an upload. With nothing waiting the answer is `None`.
    /// Otherwise the waiting memtables are sorted by their smallest key and
    /// handles to them are returned in that order.
    pub fn sync(&mut self) -> (r: Option<Vec<ImmutableMemtable>>)
        requires
            old(self).wf(),
        ensures
            final(self).wf(),
            final(self).max_epoch() == old(self).max_epoch(),
            final(self).pending().to_multiset() == old(self).pending().to_multiset(),
            ascending_start_keys(final(self).pending()),
            same_order_within_keys(final(self).pending(), old(self).pending()),
            r is None <==> old(self).pending().len() == 0,
            r matches Some(memtables) ==> memtables@ == final(self).pending(),
    {
        if self.memtables_to_upload.len() == 0 {
            return None;
        }
        let ghost before = self.memtables_to_upload@;
        let mut waiting: Vec<ImmutableMemtable> = Vec::new();
        std::mem::swap(&mut waiting, &mut self.memtables_to_upload);
        let sorted = sort_by_start_key(waiting);
        proof {
            before.to_multiset_ensures();
            sorted@.to_multiset_ensures();
            assert forall|i: int| 0 <= i < sorted@.len() implies (#[trigger] sorted@[i])@.epoch
                <= self.max_upload_epoch by {
                assert(sorted@.to_multiset().count(sorted@[i]) > 0);
                assert(before.contains(sorted@[i]));
            }
            assert(sorted@.len() == before.len());
        }
        let mut handles: Vec<ImmutableMemtable> = Vec::new();
        let mut i: usize = 0;
        while i < sorted.len()
            invariant
                i <= sorted.len(),
                handles@ == sorted@.subrange(0, i as int),
            decreases sorted.len() - i,
        {
            handles.push(sorted[i].share());
            i += 1;
            assert(handles@ =~= sorted@.subrange(0, i as int));
        }
        assert(handles@ =~= sorted@);
        self.memtables_to_upload = sorted;
        Some(handles)
    }

    /// Copies the entries of `memtables` into one list, one memtable after
    /// the other: the stream that the table builder is fed.
    pub fn entries_in_order(memtables: &Vec<ImmutableMemtable>) -> (r: Vec<MemtableItem>)
        ensures
            crate::memtable::items_view(r@) == entry_stream(memtables@),
    {
        let mut r: Vec<MemtableItem> = Vec::new();
        let mut i: usize = 0;
        while i < memtables.len()
            invariant
                i <= memtables.len(),
                crate::memtable::items_view(r@) == entry_stream(memtables@.subrange(0, i as int)),
            decreases memtables.len() - i,
        {
            let ghost done = r@;
            let mut cursor = memtables[i].iter();
            let ghost items = memtables@[i as int]@.items;
            while cursor.is_valid()
                invariant
                    cursor.items() == items,
                    cursor.position() <= items.len(),
                    crate::memtable::items_view(r@) == crate::memtable::items_view(done)
                        + items.subrange(0, cursor.position() as int),
                decreases items.len() - cursor.position(),
            {
                let ghost old_r = r@;
                let item = cursor.current_item();
                r.push((crate::key::copy_bytes(item.0.as_slice()), item.1.duplicate()));
                let _ = cursor.next();
                assert(crate::memtable::items_view(r@) =~= crate::memtable::items_view(old_r).push(
                    (item.0@, item.1@),
                ));
                assert(crate::memtable::items_view(r@) =~= crate::memtable::items_view(done)
                    + items.subrange(0, cursor.position() as int));
            }
            i += 1;
            proof {
                let part = memtables@.subrange(0, i as int);
                assert(part.drop_last() =~= memtables@.subrange(0, i - 1));
                assert(items.subrange(0, items.len() as int) =~= items);
            }
        }
        assert(memtables@.subrange(0, memtables.len() as int) =~= memtables@);
        r
    }

    /// What is registered with the metadata service once `tables` are
    /// stored: nothing if no table was cut, otherwise every table at the
    /// newest epoch seen.
    pub fn registration(&self, tables: &Vec<UploadedTable>) -> (r: Option<(u64, Vec<SstableInfo>)>)
        ensures
            r is None <==> tables@.len() == 0,
            r matches Some((epoch, infos)) ==> {
                &&& epoch == self.max_epoch()
                &&& infos@.len() == tables@.len()
                &&& forall|i: int|
                    0 <= i < tables@.len() ==> describes(#[trigger] infos@[i], tables@[i])
            },
    {
        if tables.len() == 0 {
            return None;
        }
        let mut infos: Vec<SstableInfo> = Vec::new();
        let mut i: usize = 0;
        while i < tables.len()
            invariant
                i <= tables.len(),
                infos@.len() == i,
                forall|j: int| 0 <= j < i ==> describes(#[trigger] infos@[j], tables@[j]),
            decreases tables.len() - i,
        {
            let table = &tables[i];
            infos.push(
                SstableInfo {
                    id: table.id,
                    key_range: Some(
                        KeyRange {
                            left: table.smallest_key.clone(),
                            right: table.largest_key.clone(),
                            inf: false,
                        },
                    ),
                },
            );
            i += 1;
        }
        Some((self.max_upload_epoch, infos))
    }

    /// Records that the upload handed out by the last sync is registered:
    /// nothing waits any more.
    pub fn finish_sync(&mut self)
        ensures
            final(self).wf(),
            final(self).pending().len() == 0,
            final(self).max_epoch() == old(self).max_epoch(),
    {
        self.memtables_to_upload.clear();
    }
}

/// The entries of two lists of memtables, one after the other, are the
/// entries of the first list followed by those of the second.
pub proof fn lemma_entry_stream_concat(a: Seq<ImmutableMemtable>, b: Seq<ImmutableMemtable>)
    ensures
        entry_stream(a + b) == entry_stream(a) + entry_stream(b),
    decreases b.len(),
{
    if b.len() == 0 {
        assert(a + b =~= a);
        assert(entry_stream(a) + entry_stream(b) =~= entry_stream(a));
    } else {
        lemma_entry_stream_concat(a, b.drop_last());
        assert((a + b).drop_last() =~= a + b.drop_last());
        assert((a + b).last() == b.last());
        assert(entry_stream(a + b) =~= entry_stream(a) + entry_stream(b));
    }
}

/// Upload coverage. Whatever the order in which the same memtables are
/// handed out, the table builder is fed the same entries, each as often as
/// the memtables hold it: sorting the queue loses nothing and repeats
/// nothing.
pub proof fn lemma_entry_stream_coverage(a: Seq<ImmutableMemtable>, b: Seq<ImmutableMemtable>)
    requires
        a.to_multiset() == b.to_multiset(),
    ensures
        entry_stream(a).to_multiset() == entry_stream(b).to_multiset(),
    decreases a.len(),
{
    a.to_multiset_ensures();
    b.to_multiset_ensures();
    if a.len() == 0 {
        assert(b.len() == 0);
    } else {
        let x = a.last();
        let head = a.drop_last();
        assert(a =~= head.push(x));
        assert(a.to_multiset().count(x) > 0) by {
            assert(a.contains(x)) by {
                assert(a[a.len() - 1] == x);
            }
        }
        assert(b.contains(x));
        let j = choose|j: int| 0 <= j < b.len() && b[j] == x;
        let left = b.subrange(0, j);
        let right = b.subrange(j + 1, b.len() as int);
        let rest = b.remove(j);
        assert(rest =~= left + right);
        assert(b =~= left + seq![x] + right);
        assert(head.to_multiset() =~= rest.to_multiset()) by {
            to_multiset_build(head, x);
            vstd::seq_lib::to_multiset_remove(b, j);
            assert(head.to_multiset() =~= a.to_multiset().remove(x));
        }
        lemma_entry_stream_coverage(head, rest);
        lemma_entry_stream_concat(left, right);
        lemma_entry_stream_concat(left + seq![x], right);
        lemma_entry_stream_concat(left, seq![x]);
        assert(entry_stream(seq![x]) =~= x@.items) by {
            assert(seq![x].drop_last() =~= Seq::<ImmutableMemtable>::empty());
            assert(seq![x].last() == x);
            assert(entry_stream(Seq::<ImmutableMemtable>::empty()) =~= Seq::<ItemView>::empty());
            assert(entry_stream(seq![x]) == entry_stream(seq![x].drop_last()) + x@.items);
        }
        let s1 = entry_stream(left);
        let s2 = entry_stream(right);
        vstd::seq_lib::lemma_multiset_commutative(s1 + x@.items, s2);
        vstd::seq_lib::lemma_multiset_commutative(s1, x@.items);
        vstd::seq_lib::lemma_multiset_commutative(s1, s2);
        vstd::seq_lib::lemma_multiset_commutative(entry_stream(head), x@.items);
        assert(entry_stream(a) == entry_stream(head) + x@.items);
        assert(entry_stream(b) == s1 + x@.items + s2);
        assert(entry_stream(a).to_multiset() =~= entry_stream(b).to_multiset());
    }
}

/// A list of which no element passes a test has nothing left after the
/// test.
proof fn lemma_filter_none<A>(s: Seq<A>, pred: spec_fn(A) -> bool)
    requires
        forall|i: int| 0 <= i < s.len() ==> !pred(#[trigger] s[i]),
    ensures
        s.filter(pred) == Seq::<A>::empty(),
    decreases s.len(),
{
    reveal(Seq::filter);
    if s.len() > 0 {
        assert(forall|i: int| 0 <= i < s.drop_last().len() ==> s.drop_last()[i] == s[i]);
        lemma_filter_none(s.drop_last(), pred);
    }
}

/// Putting an element in front of a stretch that does not pass a test, or
/// behind it, leaves the same after the test.
proof fn lemma_filter_insert<A>(s: Seq<A>, p: int, x: A, pred: spec_fn(A) -> bool)
    requires
        0 <= p <= s.len(),
        pred(x) ==> forall|i: int| 0 <= i < p ==> !pred(#[trigger] s[i]),
    ensures
        s.insert(p, x).filter(pred) == (seq![x] + s).filter(pred),
{
    let left = s.subrange(0, p);
    let right = s.subrange(p, s.len() as int);
    assert(s =~= left + right);
    assert(s.insert(p, x) =~= left + seq![x] + right);
    assert(seq![x] + s =~= seq![x] + left + right);
    Seq::filter_distributes_over_add(left + seq![x], right, pred);
    Seq::filter_distributes_over_add(left, seq![x], pred);
    Seq::filter_distributes_over_add(seq![x] + left, right, pred);
    Seq::filter_distributes_over_add(seq![x], left, pred);
    if pred(x) {
        assert forall|i: int| 0 <= i < left.len() implies !pred(#[trigger] left[i]) by {
            assert(left[i] == s[i]);
        }
        lemma_filter_none(left, pred);
        assert(Seq::<A>::empty() + seq![x] =~= seq![x] + Seq::<A>::empty());
    } else {
        lemma_filter_none(seq![x], pred);
        assert(left.filter(pred) + Seq::<A>::empty() =~= Seq::<A>::empty() + left.filter(pred));
    }
}

/// Sorts memtables by their smallest full key. Memtables with the same
/// smallest key keep their order.
fn sort_by_start_key(waiting: Vec<ImmutableMemtable>) -> (sorted: Vec<ImmutableMemtable>)
    requires
        all_wf(waiting@),
    ensures
        all_wf(sorted@),
        ascending_start_keys(sorted@),
        sorted@.to_multiset() == waiting@.to_multiset(),
        same_order_within_keys(sorted@, waiting@),
{
    let mut rest = waiting;
    let mut sorted: Vec<ImmutableMemtable> = Vec::new();
    proof {
        sorted@.to_multiset_ensures();
        assert(sorted@.to_multiset().add(rest@.to_multiset()) =~= waiting@.to_multiset());
        assert(rest@ + sorted@ =~= waiting@);
    }
    while rest.len() > 0
        invariant
            all_wf(rest@),
            all_wf(sorted@),
            ascending_start_keys(sorted@),
            sorted@.to_multiset().add(rest@.to_multiset()) == waiting@.to_multiset(),
            same_order_within_keys(rest@ + sorted@, waiting@),
        decreases rest.len(),
    {
        let ghost rest_before = rest@;
        let ghost sorted_before = sorted@;
        let m = rest.pop().unwrap();
        proof {
            assert(rest_before =~= rest@.push(m));
            to_multiset_build(rest@, m);
        }
        let mut p: usize = 0;
        while p < sorted.len() && compare_bytes(sorted[p].start_key(), m.start_key())
            == ByteOrder::Less
            invariant
                p <= sorted.len(),
                sorted@ == sorted_before,
                all_wf(sorted@),
                m.wf(),
                forall|i: int| 0 <= i < p ==> lex_lt((#[trigger] sorted@[i]).first_key(), m.first_key()),
            decreases sorted.len() - p,
        {
            p += 1;
        }
        sorted.insert(p, m);
        proof {
            to_multiset_insert(sorted_before, p as int, m);
            assert(sorted@.to_multiset().add(rest@.to_multiset()) =~= waiting@.to_multiset());
            assert forall|i: int, j: int| 0 <= i < j < sorted@.len() implies lex_le(
                (#[trigger] sorted@[i]).first_key(),
                (#[trigger] sorted@[j]).first_key(),
            ) by {
                if j == p {
                } else if i == p {
                    lemma_lex_total(sorted_before[p as int].first_key(), m.first_key());
                    if j - 1 > p {
                        lemma_lex_le_transitive(
                            m.first_key(),
                            sorted_before[p as int].first_key(),
                            sorted_before[j - 1].first_key(),
                        );
                    }
                } else {
                    let i0 = if i < p { i } else { i - 1 };
                    let j0 = if j < p { j } else { j - 1 };
                    assert(sorted@[i] == sorted_before[i0]);
                    assert(sorted@[j] == sorted_before[j0]);
                }
            }
            assert forall|key: Seq<u8>| #[trigger]
                (rest@ + sorted@).filter(begins_with(key)) == waiting@.filter(
                    begins_with(key),
                ) by {
                let pred = begins_with(key);
                assert((rest_before + sorted_before).filter(pred) == waiting@.filter(pred));
                if pred(m) {
                    assert forall|i: int| 0 <= i < p implies !pred(
                        #[trigger] sorted_before[i],
                    ) by {
                        crate::key::lemma_lex_asymmetric(m.first_key(), m.first_key());
                    }
                }
                lemma_filter_insert(sorted_before, p as int, m, pred);
                assert(rest_before + sorted_before =~= rest@ + (seq![m] + sorted_before));
                Seq::filter_distributes_over_add(rest@, seq![m] + sorted_before, pred);
                Seq::filter_distributes_over_add(rest@, sorted@, pred);
            }
        }
    }
    proof {
        assert(rest@.to_multiset() =~= vstd::multiset::Multiset::empty()) by {
            rest@.to_multiset_ensures();
        }
        assert(sorted@.to_multiset() =~= waiting@.to_multiset());
        assert(rest@ + sorted@ =~= sorted@);
    }
    sorted
}

} // verus!
