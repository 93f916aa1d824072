//! The registry of immutable memtables: which batches are held in memory,
//! grouped by epoch, and what a reader sees of them.

use vstd::prelude::*;
use crate::error::{HummockError, HummockResult};
use crate::key::{
    compare_bytes, lemma_lex_asymmetric, lemma_lex_le_lt, lemma_lex_total, lemma_lex_transitive,
    lex_le, lex_lt, user_key_of, ByteOrder,
};
use crate::memtable::{
    holds_user_key, is_sorted_batch, items_view, lemma_user_keys_bounded, lookup, sorted_batch,
    ImmutableMemtable, ImmutableMemtableIterator, ItemView, MemtableItem, MemtableView, BACKWARD,
    FORWARD,
};
use crate::range::{overlaps, range_overlap, EpochRange, UserKeyRange, UserKeyRangeView};
use crate::value::HummockValue;

verus! {

/// The smallest user key of a memtable.
pub open spec fn first_user_key(m: MemtableView) -> Seq<u8> {
    user_key_of(m.items.first().0)
}

/// The largest user key of a memtable.
pub open spec fn last_user_key(m: MemtableView) -> Seq<u8> {
    user_key_of(m.items.last().0)
}

/// The user keys of the two memtables do not overlap: one ends before the
/// other begins.
pub open spec fn disjoint(a: MemtableView, b: MemtableView) -> bool {
    lex_lt(last_user_key(a), first_user_key(b)) || lex_lt(last_user_key(b), first_user_key(a))
}

/// The memtables of one epoch, by ascending user key.
pub struct GroupView {
    pub epoch: u64,
    pub memtables: Seq<MemtableView>,
}

/// A group holds at least one memtable; each is a sorted batch of the
/// group's epoch; each ends before the next begins.
pub open spec fn group_wf(group: GroupView) -> bool {
    &&& group.memtables.len() > 0
    &&& forall|i: int|
        0 <= i < group.memtables.len() ==> sorted_batch(
            (#[trigger] group.memtables[i]).items,
            group.epoch,
        ) && group.memtables[i].epoch == group.epoch
    &&& forall|i: int, j: int|
        0 <= i < j < group.memtables.len() ==> lex_lt(
            last_user_key(#[trigger] group.memtables[i]),
            first_user_key(#[trigger] group.memtables[j]),
        )
}

/// The mathematical value of the registry: its groups by ascending epoch.
pub struct RegistryView {
    pub groups: Seq<GroupView>,
}

impl RegistryView {
    /// The registry holds the memtable `m`.
    pub open spec fn registered(self, m: MemtableView) -> bool {
        exists|g: int, i: int|
            0 <= g < self.groups.len() && 0 <= i < self.groups[g].memtables.len()
                && #[trigger] self.groups[g].memtables[i] == m
    }

    /// The epochs of the groups ascend strictly and every group is well
    /// formed. So every registered memtable is a sorted batch of one epoch,
    /// and two memtables of one epoch never overlap.
    pub open spec fn wf(self) -> bool {
        &&& forall|g: int, h: int|
            0 <= g < h < self.groups.len() ==> (#[trigger] self.groups[g]).epoch
                < (#[trigger] self.groups[h]).epoch
        &&& forall|g: int| 0 <= g < self.groups.len() ==> group_wf(#[trigger] self.groups[g])
    }

    /// `m` is registered, its epoch lies in `range`, and it holds `user_key`.
    pub open spec fn holds_at(self, m: MemtableView, user_key: Seq<u8>, range: EpochRange) -> bool {
        self.registered(m) && range.spec_contains(m.epoch) && holds_user_key(m.items, user_key)
    }

    /// `m` is the memtable of the newest epoch in `range` that holds
    /// `user_key`.
    pub open spec fn newest_holder(
        self,
        m: MemtableView,
        user_key: Seq<u8>,
        range: EpochRange,
    ) -> bool {
        self.holds_at(m, user_key, range) && forall|other: MemtableView| #[trigger]
            self.holds_at(other, user_key, range) ==> other.epoch <= m.epoch
    }

    /// What a reader sees under `user_key` when it looks at the epochs in
    /// `range`: the value written at the newest of those epochs that wrote
    /// the key at all. A tombstone is a value like any other.
    pub open spec fn visible(self, user_key: Seq<u8>, range: EpochRange) -> Option<
        HummockValue<Seq<u8>>,
    > {
        if exists|m: MemtableView| self.newest_holder(m, user_key, range) {
            lookup((choose|m: MemtableView| self.newest_holder(m, user_key, range)).items, user_key)
        } else {
            None
        }
    }

    /// The memtables that a scan of `key_range` over the epochs in
    /// `epoch_range` has to read: by ascending epoch, and within an epoch by
    /// ascending user key.
    pub open spec fn selected(
        self,
        key_range: UserKeyRangeView,
        epoch_range: EpochRange,
        backward: bool,
    ) -> Seq<MemtableView> {
        selected_from(self.groups, key_range, epoch_range, backward)
    }
}

/// The test that a scan of `key_range` makes on a memtable: whether the
/// range meets the user keys of the memtable.
pub open spec fn met_by(key_range: UserKeyRangeView, backward: bool) -> spec_fn(MemtableView) -> bool {
    |m: MemtableView| overlaps(key_range, first_user_key(m), last_user_key(m), backward)
}

/// The memtables of `groups` that a scan has to read.
pub open spec fn selected_from(
    groups: Seq<GroupView>,
    key_range: UserKeyRangeView,
    epoch_range: EpochRange,
    backward: bool,
) -> Seq<MemtableView>
    decreases groups.len(),
{
    if groups.len() == 0 {
        Seq::empty()
    } else {
        let head = selected_from(groups.drop_last(), key_range, epoch_range, backward);
        if epoch_range.spec_contains(groups.last().epoch) {
            head + groups.last().memtables.filter(met_by(key_range, backward))
        } else {
            head
        }
    }
}

/// Why a batch cannot be registered at `epoch`, if it cannot: it is no
/// sorted batch of the epoch, or it overlaps a memtable of the epoch.
pub open spec fn write_error(reg: RegistryView, items: Seq<ItemView>, epoch: u64) -> Option<
    HummockError,
> {
    if !sorted_batch(items, epoch) {
        Some(HummockError::InvalidBatch)
    } else if exists|m: MemtableView|
        reg.registered(m) && m.epoch == epoch && !disjoint(
            m,
            MemtableView { items, epoch },
        ) {
        Some(HummockError::OverlappingBatch)
    } else {
        None
    }
}

/// Among the memtables of a well-formed registry, at most one is the newest
/// holder of a key.
pub proof fn lemma_newest_holder_unique(
    reg: RegistryView,
    a: MemtableView,
    b: MemtableView,
    user_key: Seq<u8>,
    range: EpochRange,
)
    requires
        reg.wf(),
        reg.newest_holder(a, user_key, range),
        reg.newest_holder(b, user_key, range),
    ensures
        a == b,
{
    assert(reg.holds_at(a, user_key, range));
    assert(reg.holds_at(b, user_key, range));
    let (ga, ia) = choose|g: int, i: int|
        0 <= g < reg.groups.len() && 0 <= i < reg.groups[g].memtables.len()
            && #[trigger] reg.groups[g].memtables[i] == a;
    let (gb, ib) = choose|g: int, i: int|
        0 <= g < reg.groups.len() && 0 <= i < reg.groups[g].memtables.len()
            && #[trigger] reg.groups[g].memtables[i] == b;
    assert(group_wf(reg.groups[ga]));
    assert(group_wf(reg.groups[gb]));
    assert(ga == gb);
    lemma_holders_coincide(reg.groups[ga], ia, ib, user_key);
}

/// In a well-formed group at most one memtable holds a given key.
pub proof fn lemma_holders_coincide(group: GroupView, i: int, j: int, user_key: Seq<u8>)
    requires
        group_wf(group),
        0 <= i < group.memtables.len(),
        0 <= j < group.memtables.len(),
        holds_user_key(group.memtables[i].items, user_key),
        holds_user_key(group.memtables[j].items, user_key),
    ensures
        i == j,
{
    let a = group.memtables[i];
    let b = group.memtables[j];
    let x = choose|x: int| 0 <= x < a.items.len() && user_key_of((#[trigger] a.items[x]).0) == user_key;
    let y = choose|y: int| 0 <= y < b.items.len() && user_key_of((#[trigger] b.items[y]).0) == user_key;
    lemma_user_keys_bounded(a.items, group.epoch, x);
    lemma_user_keys_bounded(b.items, group.epoch, y);
    lemma_lex_asymmetric(user_key, user_key);
    if i < j {
        assert(lex_lt(last_user_key(a), first_user_key(b)));
        lemma_lex_le_lt(user_key, last_user_key(a), first_user_key(b));
        lemma_lex_le_lt(user_key, first_user_key(b), user_key);
    } else if j < i {
        assert(lex_lt(last_user_key(b), first_user_key(a)));
        lemma_lex_le_lt(user_key, last_user_key(b), first_user_key(a));
        lemma_lex_le_lt(user_key, first_user_key(a), user_key);
    }
}

/// The value seen under a key is the value of any memtable shown to be its
/// newest holder.
pub proof fn lemma_visible_from_holder(
    reg: RegistryView,
    m: MemtableView,
    user_key: Seq<u8>,
    range: EpochRange,
)
    requires
        reg.wf(),
        reg.newest_holder(m, user_key, range),
    ensures
        reg.visible(user_key, range) == lookup(m.items, user_key),
        reg.visible(user_key, range) is Some,
{
    let chosen = choose|x: MemtableView| reg.newest_holder(x, user_key, range);
    lemma_newest_holder_unique(reg, chosen, m, user_key, range);
}

/// Among the holders of a key in the first `g` groups there is a newest one.
proof fn lemma_newest_among(reg: RegistryView, user_key: Seq<u8>, range: EpochRange, g: int)
    requires
        reg.wf(),
        0 <= g <= reg.groups.len(),
    ensures
        (exists|h: int, i: int|
            0 <= h < g && 0 <= i < reg.groups[h].memtables.len() && range.spec_contains(
                reg.groups[h].epoch,
            ) && holds_user_key((#[trigger] reg.groups[h].memtables[i]).items, user_key))
            ==> exists|m: MemtableView|
            reg.holds_at(m, user_key, range) && forall|h: int, i: int|
                0 <= h < g && 0 <= i < reg.groups[h].memtables.len() && range.spec_contains(
                    reg.groups[h].epoch,
                ) && holds_user_key((#[trigger] reg.groups[h].memtables[i]).items, user_key)
                    ==> reg.groups[h].epoch <= m.epoch,
    decreases g,
{
    if g > 0 {
        let last = reg.groups[g - 1];
        assert(group_wf(last));
        if range.spec_contains(last.epoch) && exists|i: int|
            0 <= i < last.memtables.len() && holds_user_key(
                (#[trigger] last.memtables[i]).items,
                user_key,
            ) {
            let i = choose|i: int|
                0 <= i < last.memtables.len() && holds_user_key(
                    (#[trigger] last.memtables[i]).items,
                    user_key,
                );
            let m = reg.groups[g - 1].memtables[i];
            assert(reg.registered(m));
            assert(reg.holds_at(m, user_key, range));
            assert forall|h: int, j: int|
                0 <= h < g && 0 <= j < reg.groups[h].memtables.len() && range.spec_contains(
                    reg.groups[h].epoch,
                ) && holds_user_key(
                    (#[trigger] reg.groups[h].memtables[j]).items,
                    user_key,
                ) implies reg.groups[h].epoch <= m.epoch by {
                if h < g - 1 {
                    assert(reg.groups[h].epoch < reg.groups[g - 1].epoch);
                }
            }
        } else {
            lemma_newest_among(reg, user_key, range, g - 1);
            if exists|h: int, i: int|
                0 <= h < g && 0 <= i < reg.groups[h].memtables.len() && range.spec_contains(
                    reg.groups[h].epoch,
                ) && holds_user_key((#[trigger] reg.groups[h].memtables[i]).items, user_key) {
                let (h, i) = choose|h: int, i: int|
                    0 <= h < g && 0 <= i < reg.groups[h].memtables.len() && range.spec_contains(
                        reg.groups[h].epoch,
                    ) && holds_user_key((#[trigger] reg.groups[h].memtables[i]).items, user_key);
                assert(h < g - 1);
            }
        }
    }
}

/// Nothing is seen under a key exactly when no registered memtable of an
/// epoch in the range holds the key.
pub proof fn lemma_visible_none(reg: RegistryView, user_key: Seq<u8>, range: EpochRange)
    requires
        reg.wf(),
    ensures
        reg.visible(user_key, range) is None <==> forall|m: MemtableView|
            !reg.holds_at(m, user_key, range),
{
    if exists|m: MemtableView| reg.holds_at(m, user_key, range) {
        let x = choose|m: MemtableView| reg.holds_at(m, user_key, range);
        let (hx, ix) = choose|h: int, i: int|
            0 <= h < reg.groups.len() && 0 <= i < reg.groups[h].memtables.len()
                && #[trigger] reg.groups[h].memtables[i] == x;
        assert(group_wf(reg.groups[hx]));
        assert(holds_user_key(reg.groups[hx].memtables[ix].items, user_key));
        lemma_newest_among(reg, user_key, range, reg.groups.len() as int);
        let m = choose|m: MemtableView|
            reg.holds_at(m, user_key, range) && forall|h: int, i: int|
                0 <= h < reg.groups.len() && 0 <= i < reg.groups[h].memtables.len()
                    && range.spec_contains(reg.groups[h].epoch) && holds_user_key(
                    (#[trigger] reg.groups[h].memtables[i]).items,
                    user_key,
                ) ==> reg.groups[h].epoch <= m.epoch;
        assert forall|other: MemtableView| #[trigger]
            reg.holds_at(other, user_key, range) implies other.epoch <= m.epoch by {
            let (h, i) = choose|h: int, i: int|
                0 <= h < reg.groups.len() && 0 <= i < reg.groups[h].memtables.len()
                    && #[trigger] reg.groups[h].memtables[i] == other;
            assert(group_wf(reg.groups[h]));
            assert(holds_user_key(reg.groups[h].memtables[i].items, user_key));
        }
        assert(reg.newest_holder(m, user_key, range));
        lemma_visible_from_holder(reg, m, user_key, range);
    } else {
        assert forall|m: MemtableView| !reg.newest_holder(m, user_key, range) by {}
    }
}

/// Two registries that register the same holders of a key in a range show
/// the same value under the key.
pub proof fn lemma_visible_same_holders(
    a: RegistryView,
    b: RegistryView,
    user_key: Seq<u8>,
    range: EpochRange,
)
    requires
        a.wf(),
        b.wf(),
        forall|m: MemtableView| a.holds_at(m, user_key, range) <==> b.holds_at(m, user_key, range),
    ensures
        a.visible(user_key, range) == b.visible(user_key, range),
{
    assert forall|m: MemtableView| a.newest_holder(m, user_key, range) <==> b.newest_holder(
        m,
        user_key,
        range,
    ) by {
        if a.newest_holder(m, user_key, range) {
            assert forall|other: MemtableView| #[trigger]
                b.holds_at(other, user_key, range) implies other.epoch <= m.epoch by {
                assert(a.holds_at(other, user_key, range));
            }
        }
        if b.newest_holder(m, user_key, range) {
            assert forall|other: MemtableView| #[trigger]
                a.holds_at(other, user_key, range) implies other.epoch <= m.epoch by {
                assert(b.holds_at(other, user_key, range));
            }
        }
    }
    if exists|m: MemtableView| a.newest_holder(m, user_key, range) {
        let m = choose|m: MemtableView| a.newest_holder(m, user_key, range);
        lemma_visible_from_holder(b, m, user_key, range);
    } else {
        assert forall|m: MemtableView| !b.newest_holder(m, user_key, range) by {
            assert(!a.newest_holder(m, user_key, range));
        }
    }
}

/// Epoch visibility. Once a batch is registered at an epoch, a reader that
/// looks up to that epoch sees, under every key of the batch, what the batch
/// wrote. A reader whose range leaves the epoch out, and a reader of a key
/// that the batch does not hold, see what they saw before.
pub proof fn lemma_epoch_visibility(
    before: RegistryView,
    after: RegistryView,
    m: MemtableView,
    user_key: Seq<u8>,
    range: EpochRange,
)
    requires
        before.wf(),
        after.wf(),
        forall|x: MemtableView| after.registered(x) <==> before.registered(x) || x == m,
    ensures
        holds_user_key(m.items, user_key) ==> after.visible(
            user_key,
            EpochRange::spec_up_to(m.epoch),
        ) == lookup(m.items, user_key),
        after.visible(user_key, EpochRange::spec_below(m.epoch)) == before.visible(
            user_key,
            EpochRange::spec_below(m.epoch),
        ),
        !range.spec_contains(m.epoch) || !holds_user_key(m.items, user_key) ==> after.visible(
            user_key,
            range,
        ) == before.visible(user_key, range),
{
    if holds_user_key(m.items, user_key) {
        assert(after.registered(m));
        lemma_visible_from_holder(after, m, user_key, EpochRange::spec_up_to(m.epoch));
    }
    lemma_visible_same_holders(after, before, user_key, EpochRange::spec_below(m.epoch));
    if !range.spec_contains(m.epoch) || !holds_user_key(m.items, user_key) {
        lemma_visible_same_holders(after, before, user_key, range);
    }
}

/// Newer wins. Of two registered batches that both hold a key, a reader
/// that looks up to the epoch of the newer one sees what the newer one
/// wrote.
pub proof fn lemma_newer_wins(
    reg: RegistryView,
    older: MemtableView,
    newer: MemtableView,
    user_key: Seq<u8>,
)
    requires
        reg.wf(),
        reg.registered(older),
        reg.registered(newer),
        older.epoch < newer.epoch,
        holds_user_key(older.items, user_key),
        holds_user_key(newer.items, user_key),
    ensures
        reg.visible(user_key, EpochRange::spec_up_to(newer.epoch)) == lookup(
            newer.items,
            user_key,
        ),
{
    lemma_visible_from_holder(reg, newer, user_key, EpochRange::spec_up_to(newer.epoch));
}

/// No overlap within an epoch. Two different registered memtables of one
/// epoch hold no user key in common: one ends before the other begins.
pub proof fn lemma_same_epoch_disjoint(reg: RegistryView, a: MemtableView, b: MemtableView)
    requires
        reg.wf(),
        reg.registered(a),
        reg.registered(b),
        a.epoch == b.epoch,
        a != b,
    ensures
        disjoint(a, b),
        forall|user_key: Seq<u8>|
            !(holds_user_key(a.items, user_key) && holds_user_key(b.items, user_key)),
{
    let (ga, ia) = choose|g: int, i: int|
        0 <= g < reg.groups.len() && 0 <= i < reg.groups[g].memtables.len()
            && #[trigger] reg.groups[g].memtables[i] == a;
    let (gb, ib) = choose|g: int, i: int|
        0 <= g < reg.groups.len() && 0 <= i < reg.groups[g].memtables.len()
            && #[trigger] reg.groups[g].memtables[i] == b;
    assert(group_wf(reg.groups[ga]));
    assert(group_wf(reg.groups[gb]));
    assert(ga == gb);
    assert forall|user_key: Seq<u8>|
        !(holds_user_key(a.items, user_key) && holds_user_key(b.items, user_key)) by {
        if holds_user_key(a.items, user_key) && holds_user_key(b.items, user_key) {
            lemma_holders_coincide(reg.groups[ga], ia, ib, user_key);
        }
    }
}

/// Registry purge. Once every memtable of an epoch up to `epoch` is gone, a
/// reader that looks up to `epoch` sees nothing under any key.
pub proof fn lemma_purged(before: RegistryView, after: RegistryView, epoch: u64, user_key: Seq<u8>)
    requires
        forall|x: MemtableView| after.registered(x) <==> before.registered(x) && x.epoch > epoch,
    ensures
        after.visible(user_key, EpochRange::spec_up_to(epoch)) is None,
{
    assert forall|m: MemtableView| !after.newest_holder(
        m,
        user_key,
        EpochRange::spec_up_to(epoch),
    ) by {
        if after.holds_at(m, user_key, EpochRange::spec_up_to(epoch)) {
            assert(after.registered(m));
        }
    }
}

/// Memtable sort. Every memtable of a well-formed registry is a sorted
/// batch: it is not empty, its entries ascend strictly by full key, and all
/// of them carry the epoch of the memtable.
pub proof fn lemma_registered_sorted(reg: RegistryView, m: MemtableView)
    requires
        reg.wf(),
        reg.registered(m),
    ensures
        sorted_batch(m.items, m.epoch),
        m.items.len() > 0,
        crate::ordered::ascending_keys(m.items),
        forall|i: int| 0 <= i < m.items.len() ==> crate::key::epoch_of(#[trigger] m.items[i].0) == m.epoch,
{
    let (g, i) = choose|g: int, i: int|
        0 <= g < reg.groups.len() && 0 <= i < reg.groups[g].memtables.len()
            && #[trigger] reg.groups[g].memtables[i] == m;
    assert(group_wf(reg.groups[g]));
}

/// Two lists in strictly ascending order that hold the same elements are
/// the same list.
proof fn lemma_ascending_unique<A>(s: Seq<A>, t: Seq<A>, lt: spec_fn(A, A) -> bool)
    requires
        forall|i: int, j: int| 0 <= i < j < s.len() ==> lt(#[trigger] s[i], #[trigger] s[j]),
        forall|i: int, j: int| 0 <= i < j < t.len() ==> lt(#[trigger] t[i], #[trigger] t[j]),
        forall|x: A, y: A| !(#[trigger] lt(x, y) && lt(y, x)),
        forall|x: A| s.contains(x) <==> t.contains(x),
    ensures
        s == t,
    decreases s.len(),
{
    if s.len() == 0 {
        if t.len() > 0 {
            assert(t.contains(t[0]));
        }
        assert(s =~= t);
    } else {
        let x = s.last();
        assert(s.contains(x)) by {
            assert(s[s.len() - 1] == x);
        }
        let j = choose|j: int| 0 <= j < t.len() && t[j] == x;
        if j < t.len() - 1 {
            let y = t.last();
            assert(lt(t[j], t[t.len() - 1]));
            assert(t.contains(y)) by {
                assert(t[t.len() - 1] == y);
            }
            let i = choose|i: int| 0 <= i < s.len() && s[i] == y;
            if i < s.len() - 1 {
                assert(lt(s[i], s[s.len() - 1]));
            }
        }
        let s0 = s.drop_last();
        let t0 = t.drop_last();
        assert forall|z: A| s0.contains(z) <==> t0.contains(z) by {
            if s0.contains(z) {
                let i = choose|i: int| 0 <= i < s0.len() && s0[i] == z;
                assert(lt(s[i], s[s.len() - 1]));
                assert(s.contains(z)) by {
                    assert(s[i] == z);
                }
                let k = choose|k: int| 0 <= k < t.len() && t[k] == z;
                assert(t0[k] == z);
            }
            if t0.contains(z) {
                let k = choose|k: int| 0 <= k < t0.len() && t0[k] == z;
                assert(lt(t[k], t[t.len() - 1]));
                assert(t.contains(z)) by {
                    assert(t[k] == z);
                }
                let i = choose|i: int| 0 <= i < s.len() && s[i] == z;
                assert(s0[i] == z);
            }
        }
        assert forall|a: int, b: int| 0 <= a < b < s0.len() implies lt(
            #[trigger] s0[a],
            #[trigger] s0[b],
        ) by {
            assert(s0[a] == s[a] && s0[b] == s[b]);
        }
        assert forall|a: int, b: int| 0 <= a < b < t0.len() implies lt(
            #[trigger] t0[a],
            #[trigger] t0[b],
        ) by {
            assert(t0[a] == t[a] && t0[b] == t[b]);
        }
        lemma_ascending_unique(s0, t0, lt);
        assert(s =~= s0.push(x));
        assert(t =~= t0.push(x));
    }
}

/// The epochs of the groups of a registry.
spec fn group_epochs(reg: RegistryView) -> Seq<u64> {
    Seq::new(reg.groups.len(), |g: int| reg.groups[g].epoch)
}

/// A registry is what it registers. Two well-formed registries that
/// register the same memtables are the same registry: the order of the
/// groups and of the memtables in them leaves no choice.
pub proof fn lemma_registry_determined(a: RegistryView, b: RegistryView)
    requires
        a.wf(),
        b.wf(),
        forall|x: MemtableView| a.registered(x) <==> b.registered(x),
    ensures
        a == b,
{
    let ea = group_epochs(a);
    let eb = group_epochs(b);
    let below = |x: u64, y: u64| x < y;
    assert forall|e: u64| ea.contains(e) <==> eb.contains(e) by {
        if ea.contains(e) {
            let g = choose|g: int| 0 <= g < ea.len() && ea[g] == e;
            assert(group_wf(a.groups[g]));
            let m = a.groups[g].memtables[0];
            assert(a.registered(m));
            let (h, i) = choose|h: int, i: int|
                0 <= h < b.groups.len() && 0 <= i < b.groups[h].memtables.len()
                    && #[trigger] b.groups[h].memtables[i] == m;
            assert(group_wf(b.groups[h]));
            assert(eb[h] == e);
        }
        if eb.contains(e) {
            let g = choose|g: int| 0 <= g < eb.len() && eb[g] == e;
            assert(group_wf(b.groups[g]));
            let m = b.groups[g].memtables[0];
            assert(b.registered(m));
            let (h, i) = choose|h: int, i: int|
                0 <= h < a.groups.len() && 0 <= i < a.groups[h].memtables.len()
                    && #[trigger] a.groups[h].memtables[i] == m;
            assert(group_wf(a.groups[h]));
            assert(ea[h] == e);
        }
    }
    assert forall|i: int, j: int| 0 <= i < j < ea.len() implies below(
        #[trigger] ea[i],
        #[trigger] ea[j],
    ) by {
        assert(a.groups[i].epoch < a.groups[j].epoch);
    }
    assert forall|i: int, j: int| 0 <= i < j < eb.len() implies below(
        #[trigger] eb[i],
        #[trigger] eb[j],
    ) by {
        assert(b.groups[i].epoch < b.groups[j].epoch);
    }
    lemma_ascending_unique(ea, eb, below);
    assert(ea.len() == a.groups.len() && eb.len() == b.groups.len());
    assert forall|g: int| 0 <= g < a.groups.len() implies a.groups[g] == b.groups[g] by {
        assert(ea[g] == eb[g]);
        lemma_group_determined(a, b, g);
    }
    assert(a.groups =~= b.groups);
}

/// Groups of one epoch in two registries that register the same memtables
/// hold the same memtables in the same order.
proof fn lemma_group_determined(a: RegistryView, b: RegistryView, g: int)
    requires
        a.wf(),
        b.wf(),
        forall|x: MemtableView| a.registered(x) <==> b.registered(x),
        0 <= g < a.groups.len(),
        g < b.groups.len(),
        a.groups[g].epoch == b.groups[g].epoch,
    ensures
        a.groups[g] == b.groups[g],
{
    let ga = a.groups[g];
    let gb = b.groups[g];
    assert(group_wf(ga));
    assert(group_wf(gb));
    let before = |x: MemtableView, y: MemtableView|
        sorted_batch(x.items, x.epoch) && sorted_batch(y.items, y.epoch) && lex_lt(
            last_user_key(x),
            first_user_key(y),
        );
    assert forall|x: MemtableView, y: MemtableView| !(#[trigger] before(x, y) && before(y, x)) by {
        if before(x, y) && before(y, x) {
            lemma_ends_ascend(x, y);
            lemma_ends_ascend(y, x);
            lemma_lex_asymmetric(last_user_key(x), last_user_key(y));
        }
    }
    assert forall|x: MemtableView| ga.memtables.contains(x) <==> gb.memtables.contains(x) by {
        if ga.memtables.contains(x) {
            let i = choose|i: int| 0 <= i < ga.memtables.len() && ga.memtables[i] == x;
            assert(a.groups[g].memtables[i] == x);
            assert(a.registered(x));
            let (h, k) = choose|h: int, k: int|
                0 <= h < b.groups.len() && 0 <= k < b.groups[h].memtables.len()
                    && #[trigger] b.groups[h].memtables[k] == x;
            assert(group_wf(b.groups[h]));
            assert(h == g);
        }
        if gb.memtables.contains(x) {
            let i = choose|i: int| 0 <= i < gb.memtables.len() && gb.memtables[i] == x;
            assert(b.groups[g].memtables[i] == x);
            assert(b.registered(x));
            let (h, k) = choose|h: int, k: int|
                0 <= h < a.groups.len() && 0 <= k < a.groups[h].memtables.len()
                    && #[trigger] a.groups[h].memtables[k] == x;
            assert(group_wf(a.groups[h]));
            assert(h == g);
        }
    }
    lemma_ascending_unique(ga.memtables, gb.memtables, before);
}

/// The memtables of one epoch.
struct EpochMemtables {
    epoch: u64,
    memtables: Vec<ImmutableMemtable>,
}

impl View for EpochMemtables {
    type V = GroupView;

    closed spec fn view(&self) -> GroupView {
        GroupView {
            epoch: self.epoch,
            memtables: Seq::new(self.memtables@.len(), |i: int| self.memtables@[i]@),
        }
    }
}

/// What a well-formed group says of the memtables that make it up.
proof fn lemma_entry_facts(entry: &EpochMemtables)
    requires
        group_wf(entry@),
    ensures
        entry@.memtables.len() == entry.memtables@.len(),
        forall|i: int|
            0 <= i < entry.memtables@.len() ==> (#[trigger] entry.memtables@[i])@
                == entry@.memtables[i],
        forall|i: int| 0 <= i < entry.memtables@.len() ==> (#[trigger] entry.memtables@[i]).wf(),
        forall|i: int, j: int|
            0 <= i < j < entry.memtables@.len() ==> lex_lt(
                (#[trigger] entry.memtables@[i]).last_user_key(),
                (#[trigger] entry.memtables@[j]).first_user_key(),
            ),
{
    let group = entry@;
    assert forall|i: int| 0 <= i < entry.memtables@.len() implies (
    #[trigger] entry.memtables@[i]).wf() by {
        assert(group.memtables[i] == entry.memtables@[i]@);
    }
    assert forall|i: int, j: int| 0 <= i < j < entry.memtables@.len() implies lex_lt(
        (#[trigger] entry.memtables@[i]).last_user_key(),
        (#[trigger] entry.memtables@[j]).first_user_key(),
    ) by {
        assert(group.memtables[i] == entry.memtables@[i]@);
        assert(group.memtables[j] == entry.memtables@[j]@);
    }
}

/// The registry of immutable memtables, grouped by epoch and, within an
/// epoch, ordered by user key.
pub struct MemtableManager {
    /// Memtables from the same epoch are non-overlapping.
    imm_memtables: Vec<EpochMemtables>,
}

impl View for MemtableManager {
    type V = RegistryView;

    closed spec fn view(&self) -> RegistryView {
        RegistryView {
            groups: Seq::new(self.imm_memtables@.len(), |g: int| self.imm_memtables@[g]@),
        }
    }
}

/// The position in a group of the first memtable that does not end below
/// `user_key`.
fn candidate(memtables: &Vec<ImmutableMemtable>, user_key: &[u8]) -> (p: usize)
    requires
        forall|i: int| 0 <= i < memtables@.len() ==> (#[trigger] memtables@[i]).wf(),
        forall|i: int, j: int|
            0 <= i < j < memtables@.len() ==> lex_lt(
                (#[trigger] memtables@[i]).last_user_key(),
                (#[trigger] memtables@[j]).first_user_key(),
            ),
    ensures
        p <= memtables@.len(),
        forall|i: int| 0 <= i < p ==> lex_lt((#[trigger] memtables@[i]).last_user_key(), user_key@),
        forall|i: int|
            p <= i < memtables@.len() ==> !lex_lt(
                (#[trigger] memtables@[i]).last_user_key(),
                user_key@,
            ),
{
    let mut lo: usize = 0;
    let mut hi: usize = memtables.len();
    while lo < hi
        invariant
            0 <= lo <= hi <= memtables@.len(),
            forall|i: int| 0 <= i < memtables@.len() ==> (#[trigger] memtables@[i]).wf(),
            forall|i: int, j: int|
                0 <= i < j < memtables@.len() ==> lex_lt(
                    (#[trigger] memtables@[i]).last_user_key(),
                    (#[trigger] memtables@[j]).first_user_key(),
                ),
            forall|i: int|
                0 <= i < lo ==> lex_lt((#[trigger] memtables@[i]).last_user_key(), user_key@),
            forall|i: int|
                hi <= i < memtables@.len() ==> !lex_lt(
                    (#[trigger] memtables@[i]).last_user_key(),
                    user_key@,
                ),
        decreases hi - lo,
    {
        let mid: usize = lo + (hi - lo) / 2;
        let ghost probe = memtables@[mid as int];
        match compare_bytes(memtables[mid].end_user_key(), user_key) {
            ByteOrder::Less => {
                assert forall|i: int| 0 <= i < mid + 1 implies lex_lt(
                    (#[trigger] memtables@[i]).last_user_key(),
                    user_key@,
                ) by {
                    if i < mid {
                        lemma_ends_ascend(memtables@[i]@, probe@);
                        lemma_lex_transitive(
                            memtables@[i].last_user_key(),
                            probe.last_user_key(),
                            user_key@,
                        );
                    }
                }
                lo = mid + 1;
            },
            _ => {
                assert forall|i: int| mid <= i < memtables@.len() implies !lex_lt(
                    (#[trigger] memtables@[i]).last_user_key(),
                    user_key@,
                ) by {
                    lemma_lex_asymmetric(probe.last_user_key(), user_key@);
                    if mid < i && lex_lt(memtables@[i].last_user_key(), user_key@) {
                        lemma_ends_ascend(probe@, memtables@[i]@);
                        lemma_lex_le_lt(
                            probe.last_user_key(),
                            memtables@[i].last_user_key(),
                            user_key@,
                        );
                    }
                }
                hi = mid;
            },
        }
    }
    lo
}

/// A memtable that ends before another begins also ends before the other
/// ends.
proof fn lemma_ends_ascend(a: MemtableView, b: MemtableView)
    requires
        sorted_batch(a.items, a.epoch),
        sorted_batch(b.items, b.epoch),
        lex_lt(last_user_key(a), first_user_key(b)),
    ensures
        lex_lt(last_user_key(a), last_user_key(b)),
        lex_lt(first_user_key(a), first_user_key(b)),
{
    lemma_user_keys_bounded(b.items, b.epoch, 0);
    lemma_user_keys_bounded(a.items, a.epoch, 0);
    lemma_lex_le_lt(last_user_key(a), first_user_key(b), last_user_key(b));
    lemma_lex_le_lt(first_user_key(a), last_user_key(a), first_user_key(b));
}

/// A memtable holds no key below its first or above its last.
proof fn lemma_outside_not_held(m: MemtableView, user_key: Seq<u8>)
    requires
        sorted_batch(m.items, m.epoch),
        lex_lt(user_key, first_user_key(m)) || lex_lt(last_user_key(m), user_key),
    ensures
        !holds_user_key(m.items, user_key),
{
    if holds_user_key(m.items, user_key) {
        let x = choose|x: int|
            0 <= x < m.items.len() && user_key_of((#[trigger] m.items[x]).0) == user_key;
        lemma_user_keys_bounded(m.items, m.epoch, x);
        lemma_lex_asymmetric(user_key, user_key);
        if lex_lt(user_key, first_user_key(m)) {
            lemma_lex_le_lt(user_key, first_user_key(m), user_key);
        } else {
            lemma_lex_le_lt(user_key, last_user_key(m), user_key);
        }
    }
}

/// In a well-formed group only the memtable at the candidate position of a
/// key can hold the key, and it cannot if it begins above the key.
proof fn lemma_only_candidate_holds(group: GroupView, p: int, user_key: Seq<u8>, i: int)
    requires
        group_wf(group),
        0 <= p <= group.memtables.len(),
        forall|j: int| 0 <= j < p ==> lex_lt(last_user_key(#[trigger] group.memtables[j]), user_key),
        forall|j: int|
            p <= j < group.memtables.len() ==> !lex_lt(
                last_user_key(#[trigger] group.memtables[j]),
                user_key,
            ),
        0 <= i < group.memtables.len(),
        i != p || lex_lt(user_key, first_user_key(group.memtables[p])),
    ensures
        !holds_user_key(group.memtables[i].items, user_key),
{
    let m = group.memtables[i];
    if i < p {
        lemma_outside_not_held(m, user_key);
    } else if i == p {
        lemma_outside_not_held(m, user_key);
    } else {
        let c = group.memtables[p];
        assert(lex_lt(last_user_key(c), first_user_key(m)));
        lemma_lex_total(last_user_key(c), user_key);
        lemma_lex_le_lt(user_key, last_user_key(c), first_user_key(m));
        lemma_outside_not_held(m, user_key);
    }
}

impl MemtableManager {
    /// An empty registry.
    pub fn new() -> (r: Self)
        ensures
            r@.wf(),
            r@.groups.len() == 0,
    {
        Self { imm_memtables: Vec::new() }
    }

    /// The position of the first group whose epoch is not below `epoch`.
    fn group_position(&self, epoch: u64) -> (g: usize)
        requires
            self@.wf(),
        ensures
            g <= self@.groups.len(),
            forall|h: int| 0 <= h < g ==> (#[trigger] self@.groups[h]).epoch < epoch,
            forall|h: int| g <= h < self@.groups.len() ==> (#[trigger] self@.groups[h]).epoch >= epoch,
    {
        let mut lo: usize = 0;
        let mut hi: usize = self.imm_memtables.len();
        while lo < hi
            invariant
                0 <= lo <= hi <= self.imm_memtables@.len(),
                self@.wf(),
                forall|h: int| 0 <= h < lo ==> (#[trigger] self@.groups[h]).epoch < epoch,
                forall|h: int|
                    hi <= h < self@.groups.len() ==> (#[trigger] self@.groups[h]).epoch >= epoch,
            decreases hi - lo,
        {
            let mid: usize = lo + (hi - lo) / 2;
            assert(self@.groups[mid as int].epoch == self.imm_memtables@[mid as int].epoch);
            if self.imm_memtables[mid].epoch < epoch {
                lo = mid + 1;
            } else {
                hi = mid;
            }
        }
        lo
    }

    /// Registers a batch written at `epoch` and returns a handle to the new
    /// memtable, for the uploader. A batch that is no sorted batch of the
    /// epoch, or that overlaps a memtable of the epoch, is turned down and
    /// leaves the registry as it is.
    pub fn write_batch(&mut self, batch: Vec<MemtableItem>, epoch: u64) -> (r: HummockResult<
        ImmutableMemtable,
    >)
        requires
            old(self)@.wf(),
        ensures
            final(self)@.wf(),
            match r {
                Ok(m) => {
                    &&& write_error(old(self)@, items_view(batch@), epoch) is None
                    &&& m.wf()
                    &&& m@ == (MemtableView { items: items_view(batch@), epoch })
                    &&& forall|x: MemtableView|
                        final(self)@.registered(x) <==> old(self)@.registered(x) || x == m@
                },
                Err(e) => {
                    &&& write_error(old(self)@, items_view(batch@), epoch) == Some(e)
                    &&& final(self)@ == old(self)@
                },
            },
    {
        if !is_sorted_batch(&batch, epoch) {
            return Err(HummockError::InvalidBatch);
        }
        let ghost before = self@;
        let ghost items = items_view(batch@);
        let immu_memtable = ImmutableMemtable::new(batch, epoch);
        let ghost mv = immu_memtable@;
        let g = self.group_position(epoch);
        if g < self.imm_memtables.len() && self.imm_memtables[g].epoch == epoch {
            let ghost group = before.groups[g as int];
            assert(group_wf(group));
            assert(group == self.imm_memtables@[g as int]@);
            proof {
                lemma_entry_facts(&self.imm_memtables@[g as int]);
            }
            let p = candidate(&self.imm_memtables[g].memtables, immu_memtable.start_user_key());
            if p < self.imm_memtables[g].memtables.len() {
                let next = &self.imm_memtables[g].memtables[p];
                assert(next@ == group.memtables[p as int]);
                match compare_bytes(immu_memtable.end_user_key(), next.start_user_key()) {
                    ByteOrder::Less => {},
                    _ => {
                        proof {
                            lemma_lex_asymmetric(last_user_key(mv), first_user_key(next@));
                            assert(!disjoint(next@, mv));
                            assert(before.registered(next@));
                        }
                        return Err(HummockError::OverlappingBatch);
                    },
                }
            }
            proof {
                lemma_fits_at(before, g as int, p as int, mv);
            }
            let mut entry = self.imm_memtables.remove(g);
            entry.memtables.insert(p, immu_memtable.share());
            self.imm_memtables.insert(g, entry);
            proof {
                let after = self@;
                let grown = GroupView { epoch, memtables: group.memtables.insert(p as int, mv) };
                assert(after.groups =~= before.groups.update(g as int, grown)) by {
                    assert(self.imm_memtables@[g as int]@.memtables =~= grown.memtables);
                }
                lemma_grown_group(before, g as int, p as int, mv);
            }
        } else {
            proof {
                lemma_fits_new_group(before, g as int, mv);
            }
            let mut memtables: Vec<ImmutableMemtable> = Vec::new();
            memtables.push(immu_memtable.share());
            let entry = EpochMemtables { epoch, memtables };
            assert(entry@.memtables =~= seq![mv]);
            self.imm_memtables.insert(g, entry);
            proof {
                let fresh = GroupView { epoch, memtables: seq![mv] };
                assert(self@.groups =~= before.groups.insert(g as int, fresh));
                lemma_new_group(before, g as int, mv);
            }
        }
        Ok(immu_memtable)
    }

    /// The value a reader sees under `user_key` when it looks at the epochs
    /// in `epoch_range`: the newest one wins, a tombstone included.
    pub fn get(&self, user_key: &[u8], epoch_range: &EpochRange) -> (r: Option<
        HummockValue<Vec<u8>>,
    >)
        requires
            self@.wf(),
        ensures
            match r {
                Some(v) => self@.visible(user_key@, *epoch_range) == Some(v@),
                None => self@.visible(user_key@, *epoch_range) is None,
            },
    {
        let ghost reg = self@;
        let mut g: usize = self.imm_memtables.len();
        while g > 0
            invariant
                g <= self.imm_memtables@.len(),
                reg == self@,
                reg.wf(),
                forall|h: int, i: int|
                    g <= h < reg.groups.len() && 0 <= i < reg.groups[h].memtables.len()
                        && epoch_range.spec_contains(reg.groups[h].epoch) ==> !holds_user_key(
                        (#[trigger] reg.groups[h].memtables[i]).items,
                        user_key@,
                    ),
            decreases g,
        {
            g -= 1;
            let entry = &self.imm_memtables[g];
            let ghost group = reg.groups[g as int];
            assert(group == entry@);
            assert(group_wf(group));
            if epoch_range.contains(entry.epoch) {
                proof {
                    lemma_entry_facts(entry);
                }
                let p = candidate(&entry.memtables, user_key);
                proof {
                    assert forall|j: int| 0 <= j < p implies lex_lt(
                        last_user_key(#[trigger] group.memtables[j]),
                        user_key@,
                    ) by {
                        assert(group.memtables[j] == entry.memtables@[j]@);
                    }
                    assert forall|j: int| p <= j < group.memtables.len() implies !lex_lt(
                        last_user_key(#[trigger] group.memtables[j]),
                        user_key@,
                    ) by {
                        assert(group.memtables[j] == entry.memtables@[j]@);
                    }
                }
                let mut found: Option<HummockValue<Vec<u8>>> = None;
                let mut begins_above = true;
                if p < entry.memtables.len() {
                    let m = &entry.memtables[p];
                    assert(m@ == group.memtables[p as int]);
                    if compare_bytes(m.start_user_key(), user_key) != ByteOrder::Greater {
                        begins_above = false;
                        found = m.get(user_key);
                    }
                }
                match found {
                    Some(v) => {
                        proof {
                            let m = group.memtables[p as int];
                            assert(holds_user_key(m.items, user_key@));
                            assert(reg.registered(m));
                            assert forall|other: MemtableView| #[trigger]
                                reg.holds_at(other, user_key@, *epoch_range) implies other.epoch
                                <= m.epoch by {
                                let (h, i) = choose|h: int, i: int|
                                    0 <= h < reg.groups.len() && 0 <= i
                                        < reg.groups[h].memtables.len()
                                        && #[trigger] reg.groups[h].memtables[i] == other;
                                assert(group_wf(reg.groups[h]));
                                if h > g {
                                    assert(!holds_user_key(
                                        reg.groups[h].memtables[i].items,
                                        user_key@,
                                    ));
                                }
                            }
                            lemma_visible_from_holder(reg, m, user_key@, *epoch_range);
                        }
                        return Some(v);
                    },
                    None => {
                        assert forall|i: int| 0 <= i < group.memtables.len() implies !holds_user_key(
                            (#[trigger] group.memtables[i]).items,
                            user_key@,
                        ) by {
                            if i == p && !begins_above {
                            } else {
                                lemma_only_candidate_holds(group, p as int, user_key@, i);
                            }
                        }
                    },
                }
            }
        }
        proof {
            assert forall|m: MemtableView| !reg.newest_holder(m, user_key@, *epoch_range) by {
                if reg.holds_at(m, user_key@, *epoch_range) {
                    let (h, i) = choose|h: int, i: int|
                        0 <= h < reg.groups.len() && 0 <= i < reg.groups[h].memtables.len()
                            && #[trigger] reg.groups[h].memtables[i] == m;
                    assert(group_wf(reg.groups[h]));
                    assert(!holds_user_key(reg.groups[h].memtables[i].items, user_key@));
                }
            }
        }
        None
    }

    /// Handles to the memtables that a scan has to read.
    fn select(&self, key_range: &UserKeyRange, epoch_range: &EpochRange, backward: bool) -> (r: Vec<
        ImmutableMemtable,
    >)
        requires
            self@.wf(),
        ensures
            r@.len() == self@.selected(key_range@, *epoch_range, backward).len(),
            forall|i: int|
                0 <= i < r@.len() ==> (#[trigger] r@[i])@ == self@.selected(
                    key_range@,
                    *epoch_range,
                    backward,
                )[i],
    {
        let ghost reg = self@;
        let ghost pred = met_by(key_range@, backward);
        let mut r: Vec<ImmutableMemtable> = Vec::new();
        let mut g: usize = 0;
        while g < self.imm_memtables.len()
            invariant
                g <= self.imm_memtables@.len(),
                reg == self@,
                reg.wf(),
                pred == met_by(key_range@, backward),
                r@.len() == selected_from(
                    reg.groups.subrange(0, g as int),
                    key_range@,
                    *epoch_range,
                    backward,
                ).len(),
                forall|i: int|
                    0 <= i < r@.len() ==> (#[trigger] r@[i])@ == selected_from(
                        reg.groups.subrange(0, g as int),
                        key_range@,
                        *epoch_range,
                        backward,
                    )[i],
            decreases self.imm_memtables@.len() - g,
        {
            let entry = &self.imm_memtables[g];
            let ghost group = reg.groups[g as int];
            let ghost head = selected_from(
                reg.groups.subrange(0, g as int),
                key_range@,
                *epoch_range,
                backward,
            );
            assert(group == entry@);
            assert(group_wf(group));
            proof {
                let part = reg.groups.subrange(0, g + 1);
                assert(part.drop_last() =~= reg.groups.subrange(0, g as int));
                assert(part.last() == group);
            }
            if epoch_range.contains(entry.epoch) {
                let mut i: usize = 0;
                proof {
                    reveal(Seq::filter);
                    assert(group.memtables.subrange(0, 0).filter(pred) =~= Seq::empty());
                    assert(head + Seq::<MemtableView>::empty() =~= head);
                }
                while i < entry.memtables.len()
                    invariant
                        i <= entry.memtables@.len(),
                        group == entry@,
                        group_wf(group),
                        pred == met_by(key_range@, backward),
                        r@.len() == head.len() + group.memtables.subrange(0, i as int).filter(
                            pred,
                        ).len(),
                        forall|j: int|
                            0 <= j < r@.len() ==> (#[trigger] r@[j])@ == (head
                                + group.memtables.subrange(0, i as int).filter(pred))[j],
                    decreases entry.memtables@.len() - i,
                {
                    let m = &entry.memtables[i];
                    assert(m@ == group.memtables[i as int]);
                    let ghost sofar = group.memtables.subrange(0, i as int);
                    let ghost next = group.memtables.subrange(0, i + 1);
                    proof {
                        reveal(Seq::filter);
                        assert(next.drop_last() =~= sofar);
                        assert(next.last() == m@);
                    }
                    if range_overlap(key_range, m.start_user_key(), m.end_user_key(), backward) {
                        r.push(m.share());
                        proof {
                            reveal(Seq::filter);
                            assert(next.filter(pred) == sofar.filter(pred).push(m@));
                        }
                    } else {
                        proof {
                            reveal(Seq::filter);
                            assert(next.filter(pred) == sofar.filter(pred));
                        }
                    }
                    i += 1;
                }
                assert(group.memtables.subrange(0, entry.memtables@.len() as int)
                    =~= group.memtables);
            }
            g += 1;
        }
        assert(reg.groups.subrange(0, self.imm_memtables@.len() as int) =~= reg.groups);
        r
    }

    /// Cursors over the memtables that a scan of `key_range` from small keys
    /// to large has to read at the epochs in `epoch_range`, by ascending
    /// epoch and, within an epoch, by ascending user key. Every cursor
    /// stands at the start of its memtable.
    pub fn iters(&self, key_range: &UserKeyRange, epoch_range: &EpochRange) -> (r: Vec<
        ImmutableMemtableIterator<FORWARD>,
    >)
        requires
            self@.wf(),
        ensures
            r@.len() == self@.selected(key_range@, *epoch_range, false).len(),
            forall|i: int|
                0 <= i < r@.len() ==> (#[trigger] r@[i]).items() == self@.selected(
                    key_range@,
                    *epoch_range,
                    false,
                )[i].items && r@[i].position() == 0,
    {
        let picked = self.select(key_range, epoch_range, false);
        let mut r: Vec<ImmutableMemtableIterator<FORWARD>> = Vec::new();
        let mut i: usize = 0;
        while i < picked.len()
            invariant
                i <= picked@.len(),
                r@.len() == i,
                forall|j: int|
                    0 <= j < i ==> (#[trigger] r@[j]).items() == picked@[j]@.items
                        && r@[j].position() == 0,
            decreases picked@.len() - i,
        {
            r.push(picked[i].iter());
            i += 1;
        }
        r
    }

    /// Cursors over the memtables that a scan of `key_range` from large keys
    /// to small has to read at the epochs in `epoch_range`, in the same
    /// order as [`Self::iters`] gives them. Every cursor stands at the
    /// largest key of its memtable.
    pub fn reverse_iters(&self, key_range: &UserKeyRange, epoch_range: &EpochRange) -> (r: Vec<
        ImmutableMemtableIterator<BACKWARD>,
    >)
        requires
            self@.wf(),
        ensures
            r@.len() == self@.selected(key_range@, *epoch_range, true).len(),
            forall|i: int|
                0 <= i < r@.len() ==> (#[trigger] r@[i]).items() == self@.selected(
                    key_range@,
                    *epoch_range,
                    true,
                )[i].items && r@[i].position() == 0,
    {
        let picked = self.select(key_range, epoch_range, true);
        let mut r: Vec<ImmutableMemtableIterator<BACKWARD>> = Vec::new();
        let mut i: usize = 0;
        while i < picked.len()
            invariant
                i <= picked@.len(),
                r@.len() == i,
                forall|j: int|
                    0 <= j < i ==> (#[trigger] r@[j]).items() == picked@[j]@.items
                        && r@[j].position() == 0,
            decreases picked@.len() - i,
        {
            r.push(picked[i].reverse_iter());
            i += 1;
        }
        r
    }

    /// Drops every memtable whose epoch is `epoch` or older.
    pub fn delete_before(&mut self, epoch: u64)
        requires
            old(self)@.wf(),
        ensures
            final(self)@.wf(),
            forall|x: MemtableView|
                final(self)@.registered(x) <==> old(self)@.registered(x) && x.epoch > epoch,
    {
        let ghost before = self@;
        let mut at: usize = 0;
        while at < self.imm_memtables.len() && self.imm_memtables[at].epoch <= epoch
            invariant
                at <= self.imm_memtables@.len(),
                before == self@,
                forall|h: int| 0 <= h < at ==> (#[trigger] before.groups[h]).epoch <= epoch,
            decreases self.imm_memtables@.len() - at,
        {
            assert(before.groups[at as int].epoch == self.imm_memtables@[at as int].epoch);
            at += 1;
        }
        assert(at < before.groups.len() ==> before.groups[at as int].epoch > epoch) by {
            if at < before.groups.len() {
                assert(before.groups[at as int].epoch == self.imm_memtables@[at as int].epoch);
            }
        }
        let kept = self.imm_memtables.split_off(at);
        self.imm_memtables = kept;
        proof {
            let after = self@;
            assert(after.groups =~= before.groups.subrange(at as int, before.groups.len() as int));
            assert forall|x: MemtableView| after.registered(x) <==> before.registered(x) && x.epoch
                > epoch by {
                if after.registered(x) {
                    let (h, i) = choose|h: int, i: int|
                        0 <= h < after.groups.len() && 0 <= i < after.groups[h].memtables.len()
                            && #[trigger] after.groups[h].memtables[i] == x;
                    assert(after.groups[h] == before.groups[h + at]);
                    assert(before.groups[h + at].memtables[i] == x);
                    assert(group_wf(before.groups[h + at]));
                    if h > 0 {
                        assert(before.groups[at as int].epoch < before.groups[h + at].epoch);
                    }
                }
                if before.registered(x) && x.epoch > epoch {
                    let (h, i) = choose|h: int, i: int|
                        0 <= h < before.groups.len() && 0 <= i < before.groups[h].memtables.len()
                            && #[trigger] before.groups[h].memtables[i] == x;
                    assert(group_wf(before.groups[h]));
                    assert(h >= at);
                    assert(after.groups[h - at] == before.groups[h]);
                    assert(after.groups[h - at].memtables[i] == x);
                }
            }
            assert forall|g: int, h: int| 0 <= g < h < after.groups.len() implies (
            #[trigger] after.groups[g]).epoch < (#[trigger] after.groups[h]).epoch by {
                assert(after.groups[g] == before.groups[g + at]);
                assert(after.groups[h] == before.groups[h + at]);
            }
            assert forall|g: int| 0 <= g < after.groups.len() implies group_wf(
                #[trigger] after.groups[g],
            ) by {
                assert(after.groups[g] == before.groups[g + at]);
            }
        }
    }
}

/// A sorted batch that ends before the memtable at position `p` of its
/// epoch's group begins, and begins after every memtable before `p` ends,
/// overlaps no memtable of its epoch.
proof fn lemma_fits_at(reg: RegistryView, g: int, p: int, m: MemtableView)
    requires
        reg.wf(),
        0 <= g < reg.groups.len(),
        reg.groups[g].epoch == m.epoch,
        sorted_batch(m.items, m.epoch),
        0 <= p <= reg.groups[g].memtables.len(),
        forall|j: int|
            0 <= j < p ==> lex_lt(
                last_user_key(#[trigger] reg.groups[g].memtables[j]),
                first_user_key(m),
            ),
        p < reg.groups[g].memtables.len() ==> lex_lt(
            last_user_key(m),
            first_user_key(reg.groups[g].memtables[p]),
        ),
    ensures
        write_error(reg, m.items, m.epoch) is None,
{
    let group = reg.groups[g];
    assert(group_wf(group));
    assert forall|x: MemtableView| reg.registered(x) && x.epoch == m.epoch implies disjoint(
        x,
        m,
    ) by {
        let (h, i) = choose|h: int, i: int|
            0 <= h < reg.groups.len() && 0 <= i < reg.groups[h].memtables.len()
                && #[trigger] reg.groups[h].memtables[i] == x;
        assert(group_wf(reg.groups[h]));
        assert(h == g);
        if i > p {
            let c = group.memtables[p];
            assert(lex_lt(last_user_key(c), first_user_key(x)));
            lemma_user_keys_bounded(c.items, c.epoch, 0);
            lemma_lex_le_lt(last_user_key(m), first_user_key(c), last_user_key(c));
            lemma_lex_transitive(last_user_key(m), last_user_key(c), first_user_key(x));
        }
    }
    assert(MemtableView { items: m.items, epoch: m.epoch } == m);
}

/// A sorted batch of an epoch that has no group overlaps no memtable of its
/// epoch.
proof fn lemma_fits_new_group(reg: RegistryView, g: int, m: MemtableView)
    requires
        reg.wf(),
        0 <= g <= reg.groups.len(),
        sorted_batch(m.items, m.epoch),
        forall|h: int| 0 <= h < g ==> (#[trigger] reg.groups[h]).epoch < m.epoch,
        forall|h: int| g <= h < reg.groups.len() ==> (#[trigger] reg.groups[h]).epoch > m.epoch,
    ensures
        write_error(reg, m.items, m.epoch) is None,
{
    assert forall|x: MemtableView| reg.registered(x) implies x.epoch != m.epoch by {
        let (h, i) = choose|h: int, i: int|
            0 <= h < reg.groups.len() && 0 <= i < reg.groups[h].memtables.len()
                && #[trigger] reg.groups[h].memtables[i] == x;
        assert(group_wf(reg.groups[h]));
    }
}

/// A group stays well formed when a memtable is put where it fits.
proof fn lemma_grown_group_wf(group: GroupView, p: int, m: MemtableView)
    requires
        group_wf(group),
        group.epoch == m.epoch,
        sorted_batch(m.items, m.epoch),
        0 <= p <= group.memtables.len(),
        forall|j: int|
            0 <= j < p ==> lex_lt(last_user_key(#[trigger] group.memtables[j]), first_user_key(m)),
        p < group.memtables.len() ==> lex_lt(last_user_key(m), first_user_key(group.memtables[p])),
    ensures
        group_wf(GroupView { epoch: m.epoch, memtables: group.memtables.insert(p, m) }),
{
    let ms = group.memtables;
    let t = ms.insert(p, m);
    assert forall|i: int| 0 <= i < t.len() implies sorted_batch((#[trigger] t[i]).items, m.epoch)
        && t[i].epoch == m.epoch by {
        if i < p {
            assert(t[i] == ms[i]);
        } else if i > p {
            assert(t[i] == ms[i - 1]);
        }
    }
    assert forall|i: int, j: int| 0 <= i < j < t.len() implies lex_lt(
        last_user_key(#[trigger] t[i]),
        first_user_key(#[trigger] t[j]),
    ) by {
        if j == p {
            assert(t[i] == ms[i]);
        } else if i == p {
            assert(t[j] == ms[j - 1]);
            if j - 1 > p {
                let c = ms[p];
                assert(lex_lt(last_user_key(c), first_user_key(ms[j - 1])));
                lemma_user_keys_bounded(c.items, c.epoch, 0);
                lemma_lex_le_lt(last_user_key(m), first_user_key(c), last_user_key(c));
                lemma_lex_transitive(last_user_key(m), last_user_key(c), first_user_key(ms[j - 1]));
            }
        } else {
            let i0 = if i < p { i } else { i - 1 };
            let j0 = if j < p { j } else { j - 1 };
            assert(t[i] == ms[i0]);
            assert(t[j] == ms[j0]);
        }
    }
}

/// A registry whose group `g` gains the memtable `m` at position `p`
/// registers just that memtable more.
proof fn lemma_grown_group_members(reg: RegistryView, g: int, p: int, m: MemtableView)
    requires
        0 <= g < reg.groups.len(),
        0 <= p <= reg.groups[g].memtables.len(),
    ensures
        ({
            let grown = GroupView {
                epoch: m.epoch,
                memtables: reg.groups[g].memtables.insert(p, m),
            };
            let after = RegistryView { groups: reg.groups.update(g, grown) };
            forall|x: MemtableView| after.registered(x) <==> reg.registered(x) || x == m
        }),
{
    let grown = GroupView { epoch: m.epoch, memtables: reg.groups[g].memtables.insert(p, m) };
    let after = RegistryView { groups: reg.groups.update(g, grown) };
    assert forall|x: MemtableView| after.registered(x) implies reg.registered(x) || x == m by {
        let (h, i) = choose|h: int, i: int|
            0 <= h < after.groups.len() && 0 <= i < after.groups[h].memtables.len()
                && #[trigger] after.groups[h].memtables[i] == x;
        if h != g {
            assert(after.groups[h] == reg.groups[h]);
            assert(reg.groups[h].memtables[i] == x);
        } else if i < p {
            assert(reg.groups[g].memtables[i] == x);
        } else if i > p {
            assert(reg.groups[g].memtables[i - 1] == x);
        }
    }
    assert forall|x: MemtableView| reg.registered(x) || x == m implies after.registered(x) by {
        if x == m {
            assert(after.groups[g].memtables[p] == m);
        } else {
            let (h, i) = choose|h: int, i: int|
                0 <= h < reg.groups.len() && 0 <= i < reg.groups[h].memtables.len()
                    && #[trigger] reg.groups[h].memtables[i] == x;
            if h != g {
                assert(after.groups[h] == reg.groups[h]);
                assert(after.groups[h].memtables[i] == x);
            } else {
                let i1 = if i < p { i } else { i + 1 };
                assert(after.groups[g].memtables[i1] == x);
            }
        }
    }
}

/// Putting a fitting memtable into its epoch's group keeps the registry well
/// formed and registers just that memtable more.
proof fn lemma_grown_group(reg: RegistryView, g: int, p: int, m: MemtableView)
    requires
        reg.wf(),
        0 <= g < reg.groups.len(),
        reg.groups[g].epoch == m.epoch,
        sorted_batch(m.items, m.epoch),
        0 <= p <= reg.groups[g].memtables.len(),
        forall|j: int|
            0 <= j < p ==> lex_lt(
                last_user_key(#[trigger] reg.groups[g].memtables[j]),
                first_user_key(m),
            ),
        p < reg.groups[g].memtables.len() ==> lex_lt(
            last_user_key(m),
            first_user_key(reg.groups[g].memtables[p]),
        ),
    ensures
        ({
            let grown = GroupView {
                epoch: m.epoch,
                memtables: reg.groups[g].memtables.insert(p, m),
            };
            let after = RegistryView { groups: reg.groups.update(g, grown) };
            &&& after.wf()
            &&& forall|x: MemtableView| after.registered(x) <==> reg.registered(x) || x == m
        }),
{
    let grown = GroupView { epoch: m.epoch, memtables: reg.groups[g].memtables.insert(p, m) };
    let after = RegistryView { groups: reg.groups.update(g, grown) };
    assert(group_wf(reg.groups[g]));
    lemma_grown_group_wf(reg.groups[g], p, m);
    lemma_grown_group_members(reg, g, p, m);
    assert forall|h: int| 0 <= h < after.groups.len() implies group_wf(
        #[trigger] after.groups[h],
    ) by {
        if h != g {
            assert(after.groups[h] == reg.groups[h]);
        }
    }
    assert forall|a: int, b: int| 0 <= a < b < after.groups.len() implies (
    #[trigger] after.groups[a]).epoch < (#[trigger] after.groups[b]).epoch by {
        assert(after.groups[a].epoch == reg.groups[a].epoch);
        assert(after.groups[b].epoch == reg.groups[b].epoch);
    }
}

/// Putting a memtable into a new group of its own keeps the registry well
/// formed and registers just that memtable more.
proof fn lemma_new_group(reg: RegistryView, g: int, m: MemtableView)
    requires
        reg.wf(),
        0 <= g <= reg.groups.len(),
        sorted_batch(m.items, m.epoch),
        forall|h: int| 0 <= h < g ==> (#[trigger] reg.groups[h]).epoch < m.epoch,
        forall|h: int| g <= h < reg.groups.len() ==> (#[trigger] reg.groups[h]).epoch > m.epoch,
    ensures
        ({
            let fresh = GroupView { epoch: m.epoch, memtables: seq![m] };
            let after = RegistryView { groups: reg.groups.insert(g, fresh) };
            &&& after.wf()
            &&& forall|x: MemtableView| after.registered(x) <==> reg.registered(x) || x == m
        }),
{
    let fresh = GroupView { epoch: m.epoch, memtables: seq![m] };
    let after = RegistryView { groups: reg.groups.insert(g, fresh) };
    assert(group_wf(fresh));
    assert forall|h: int| 0 <= h < after.groups.len() implies group_wf(
        #[trigger] after.groups[h],
    ) by {
        if h < g {
            assert(after.groups[h] == reg.groups[h]);
        } else if h > g {
            assert(after.groups[h] == reg.groups[h - 1]);
        }
    }
    assert forall|a: int, b: int| 0 <= a < b < after.groups.len() implies (
    #[trigger] after.groups[a]).epoch < (#[trigger] after.groups[b]).epoch by {
        let a0 = if a < g { a } else { a - 1 };
        let b0 = if b < g { b } else { b - 1 };
        if a != g {
            assert(after.groups[a] == reg.groups[a0]);
        }
        if b != g {
            assert(after.groups[b] == reg.groups[b0]);
        }
    }
    assert forall|x: MemtableView| after.registered(x) <==> reg.registered(x) || x == m by {
        if after.registered(x) {
            let (h, i) = choose|h: int, i: int|
                0 <= h < after.groups.len() && 0 <= i < after.groups[h].memtables.len()
                    && #[trigger] after.groups[h].memtables[i] == x;
            if h < g {
                assert(after.groups[h] == reg.groups[h]);
                assert(reg.groups[h].memtables[i] == x);
            } else if h > g {
                assert(after.groups[h] == reg.groups[h - 1]);
                assert(reg.groups[h - 1].memtables[i] == x);
            }
        }
        if reg.registered(x) {
            let (h, i) = choose|h: int, i: int|
                0 <= h < reg.groups.len() && 0 <= i < reg.groups[h].memtables.len()
                    && #[trigger] reg.groups[h].memtables[i] == x;
            let h1 = if h < g { h } else { h + 1 };
            assert(after.groups[h1] == reg.groups[h]);
            assert(after.groups[h1].memtables[i] == x);
        }
        if x == m {
            assert(after.groups[g].memtables[0] == m);
        }
    }
}

} // verus!
