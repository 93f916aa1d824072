//! The bounded, ordered, write-buffered cache behind a top-N operator.
//!
//! The cache holds the rows with the smallest keys; the key encoding puts the
//! row that the operator ranks first under the smallest key. Changes are
//! collected in a flush buffer until the next checkpoint. The state never
//! talks to the store itself: it says what to write, and is handed what was
//! scanned.

use bytes::Bytes;
use vstd::prelude::*;
use crate::buf::{bytes_as_slice, bytes_clone, bytes_from_vec, bytes_slice, bytes_view};
use crate::flush_status::{
    after_changes, after_delete, after_insert, lemma_net_outcome, written, Change, FlushStatus,
};
use crate::key::{be_u32, concat_bytes, copy_bytes, lex_lt, serialize_cell_idx, CELL_IDX_LEN};
use crate::ordered::{
    ascending_keys, drop_entry, entries_view, entry_of, has_key, lemma_drop_first_entry,
    lemma_entry_in_map, lemma_head_entries, lemma_put_after_drop, put, put_entry, take,
};

verus! {

/// The mathematical value of a row: its cells, each as it is stored.
pub type RowView = Seq<Seq<u8>>;

/// A row, held as the stored form of each of its cells.
#[derive(Clone, Debug, PartialEq, Eq)]
pub struct Row(pub Vec<Vec<u8>>);

impl View for Row {
    type V = RowView;

    open spec fn view(&self) -> RowView {
        Seq::new(self.0@.len(), |i: int| self.0@[i]@)
    }
}

impl Row {
    /// An owned copy of the row.
    pub fn duplicate(&self) -> (r: Row)
        ensures
            r@ == self@,
    {
        let mut cells: Vec<Vec<u8>> = Vec::new();
        let mut i: usize = 0;
        while i < self.0.len()
            invariant
                i <= self.0@.len(),
                cells@.len() == i,
                forall|j: int| 0 <= j < i ==> (#[trigger] cells@[j])@ == self.0@[j]@,
            decreases self.0.len() - i,
        {
            cells.push(copy_bytes(self.0[i].as_slice()));
            i += 1;
        }
        let r = Row(cells);
        assert(r@ =~= self@);
        r
    }
}

/// A namespace of the store: every key written through it starts with its
/// prefix.
#[derive(Clone, Debug, PartialEq, Eq)]
pub struct Keyspace {
    prefix: Vec<u8>,
}

impl Keyspace {
    /// The prefix of the namespace.
    pub closed spec fn prefix(&self) -> Seq<u8> {
        self.prefix@
    }

    /// The namespace of the given prefix.
    pub fn new(prefix: Vec<u8>) -> (r: Self)
        ensures
            r.prefix() == prefix@,
    {
        Self { prefix }
    }

    /// The stored form of `key`: the prefix, then the key.
    pub fn prefixed_key(&self, key: &[u8]) -> (r: Vec<u8>)
        ensures
            r@ == self.prefix() + key@,
    {
        concat_bytes(self.prefix.as_slice(), key)
    }
}

/// The mathematical value of the state.
pub struct TopNView {
    /// The cached rows, in ascending key order.
    pub cache: Seq<(Seq<u8>, RowView)>,
    /// The pending change of each key touched since the last flush, in
    /// ascending key order.
    pub buffer: Seq<(Seq<u8>, FlushStatus<RowView>)>,
    /// The number of rows in cache and store together.
    pub total_count: usize,
    /// How many rows the cache keeps after a flush, if bounded.
    pub top_n_count: Option<usize>,
    /// The number of cells of a row.
    pub schema_len: u32,
    /// The prefix of every key written to the store.
    pub prefix: Seq<u8>,
}

impl TopNView {
    /// Cache and buffer are in ascending key order, every row has as many
    /// cells as the schema says, and a bounded cache can be filled by one
    /// scan.
    pub open spec fn wf(self) -> bool {
        &&& ascending_keys(self.cache)
        &&& ascending_keys(self.buffer)
        &&& forall|i: int|
            0 <= i < self.cache.len() ==> (#[trigger] self.cache[i]).1.len() == self.schema_len
        &&& forall|i: int|
            0 <= i < self.buffer.len() ==> (written((#[trigger] self.buffer[i]).1) matches Some(row)
                ==> row.len() == self.schema_len)
        &&& self.top_n_count matches Some(n) ==> n * self.schema_len <= usize::MAX
    }

    /// The cache is empty although rows exist: it has to be filled from the
    /// store.
    pub open spec fn drained(self) -> bool {
        self.cache.len() == 0 && self.total_count > 0
    }
}

/// The cache after it is cut down to the bound, if there is one.
pub open spec fn retained(cache: Seq<(Seq<u8>, RowView)>, top_n_count: Option<usize>) -> Seq<
    (Seq<u8>, RowView),
> {
    match top_n_count {
        Some(n) if cache.len() > n => cache.subrange(0, n as int),
        _ => cache,
    }
}

/// The bounded, ordered cache of a top-N operator, with the changes that the
/// next flush will write.
pub struct ManagedTopNState {
    /// Cache.
    top_n: Vec<(Bytes, Row)>,
    /// Buffer for updates.
    flush_buffer: Vec<(Bytes, FlushStatus<Row>)>,
    /// The number of elements in both cache and storage.
    total_count: usize,
    /// Number of entries to retain in memory after each flush.
    top_n_count: Option<usize>,
    /// The keyspace to operate on.
    keyspace: Keyspace,
    /// The number of cells of a row.
    schema_len: u32,
}

impl View for ManagedTopNState {
    type V = TopNView;

    closed spec fn view(&self) -> TopNView {
        TopNView {
            cache: entries_view(self.top_n@),
            buffer: entries_view(self.flush_buffer@),
            total_count: self.total_count,
            top_n_count: self.top_n_count,
            schema_len: self.schema_len,
            prefix: self.keyspace.prefix(),
        }
    }
}

impl ManagedTopNState {
    /// A state with an empty cache and nothing to flush, over a store that
    /// holds `total_count` rows of `schema_len` cells each. The number of
    /// cells is a `u32` because a cell is stored under a four-byte index.
    pub fn new(
        top_n_count: Option<usize>,
        total_count: usize,
        keyspace: Keyspace,
        schema_len: u32,
    ) -> (r: Self)
        requires
            top_n_count matches Some(n) ==> n * schema_len <= usize::MAX,
        ensures
            r@.wf(),
            r@ == (TopNView {
                cache: Seq::empty(),
                buffer: Seq::empty(),
                total_count,
                top_n_count,
                schema_len,
                prefix: keyspace.prefix(),
            }),
    {
        let r = Self {
            top_n: Vec::new(),
            flush_buffer: Vec::new(),
            total_count,
            top_n_count,
            keyspace,
            schema_len,
        };
        assert(r@.cache =~= Seq::empty());
        assert(r@.buffer =~= Seq::empty());
        r
    }

    /// The number of rows in cache and store together.
    pub fn total_count(&self) -> (r: usize)
        ensures
            r == self@.total_count,
    {
        self.total_count
    }

    /// Whether a change waits to be flushed.
    pub fn is_dirty(&self) -> (r: bool)
        ensures
            r == (self@.buffer.len() > 0),
    {
        self.flush_buffer.len() > 0
    }

    /// The number of cached rows.
    pub fn get_cache_len(&self) -> (r: usize)
        ensures
            r == self@.cache.len(),
    {
        self.top_n.len()
    }

    /// Whether the cache is empty although rows exist, so that it has to be
    /// filled from the store.
    pub fn needs_refill(&self) -> (r: bool)
        ensures
            r == self@.drained(),
    {
        self.top_n.len() == 0 && self.total_count > 0
    }

    /// Cuts the cache down to its bound by dropping the rows with the
    /// largest keys.
    pub fn retain_top_n(&mut self)
        requires
            old(self)@.wf(),
        ensures
            final(self)@.wf(),
            final(self)@ == (TopNView {
                cache: retained(old(self)@.cache, old(self)@.top_n_count),
                ..old(self)@
            }),
            final(self)@.top_n_count matches Some(n) ==> final(self)@.cache.len() <= n,
    {
        if let Some(count) = self.top_n_count {
            if self.top_n.len() > count {
                let ghost before = entries_view(self.top_n@);
                self.top_n.truncate(count);
                proof {
                    assert(entries_view(self.top_n@) =~= before.subrange(0, count as int));
                    lemma_head_entries(before, count as int);
                }
            }
        }
    }

    /// The cached row with the smallest key, unless the state holds no row.
    pub fn top_element(&self) -> (r: Option<(&Bytes, &Row)>)
        ensures
            r is Some <==> self@.total_count > 0 && self@.cache.len() > 0,
            r matches Some((k, row)) ==> (bytes_view(*k), row@) == self@.cache[0],
    {
        if self.total_count == 0 || self.top_n.len() == 0 {
            None
        } else {
            Some((&self.top_n[0].0, &self.top_n[0].1))
        }
    }

    /// Puts a row into the cache, notes the insert for the next flush, and
    /// counts the row. Nothing is evicted.
    pub fn insert(&mut self, key: Bytes, value: Row)
        requires
            old(self)@.wf(),
            old(self)@.total_count < usize::MAX,
            value@.len() == old(self)@.schema_len,
        ensures
            final(self)@.wf(),
            final(self)@ == (TopNView {
                cache: put_entry(old(self)@.cache, bytes_view(key), value@),
                buffer: put_entry(
                    old(self)@.buffer,
                    bytes_view(key),
                    after_insert(entry_of(old(self)@.buffer, bytes_view(key)), value@),
                ),
                total_count: (old(self)@.total_count + 1) as usize,
                ..old(self)@
            }),
    {
        let ghost k = bytes_view(key);
        let ghost before = self@;
        put(&mut self.top_n, bytes_clone(&key), value.duplicate());
        let prev = take(&mut self.flush_buffer, bytes_as_slice(&key));
        let status = FlushStatus::do_insert(prev, value);
        put(&mut self.flush_buffer, key, status);
        self.total_count += 1;
        proof {
            lemma_put_after_drop(before.buffer, k, status@);
            lemma_put_keeps_rows(before.cache, k, value@, before.schema_len);
            lemma_put_keeps_statuses(before.buffer, k, status@, before.schema_len);
        }
    }

    /// Takes a cached row out, notes the delete for the next flush, and
    /// lowers the count. If this drains the cache while rows remain, the
    /// caller has to scan the store and hand the cells to [`Self::refill`].
    pub fn delete(&mut self, key: &Bytes) -> (r: Option<Row>)
        requires
            old(self)@.wf(),
            old(self)@.total_count > 0,
            has_key(old(self)@.cache, bytes_view(*key)),
        ensures
            final(self)@.wf(),
            r matches Some(row) && entry_of(old(self)@.cache, bytes_view(*key)) == Some(row@),
            final(self)@ == (TopNView {
                cache: drop_entry(old(self)@.cache, bytes_view(*key)),
                buffer: put_entry(
                    old(self)@.buffer,
                    bytes_view(*key),
                    after_delete(entry_of(old(self)@.buffer, bytes_view(*key))),
                ),
                total_count: (old(self)@.total_count - 1) as usize,
                ..old(self)@
            }),
    {
        let ghost k = bytes_view(*key);
        let ghost before = self@;
        let prev_entry = take(&mut self.top_n, bytes_as_slice(key));
        let prev = take(&mut self.flush_buffer, bytes_as_slice(key));
        let status = FlushStatus::do_delete(prev);
        put(&mut self.flush_buffer, bytes_clone(key), status);
        self.total_count -= 1;
        proof {
            lemma_put_after_drop(before.buffer, k, status@);
            lemma_drop_keeps_rows(before.cache, k, before.schema_len);
            lemma_put_keeps_statuses(before.buffer, k, status@, before.schema_len);
        }
        prev_entry
    }

    /// Takes the row with the smallest key out of the state, as
    /// [`Self::delete`] does. An empty state gives `None`.
    pub fn pop_top_element(&mut self) -> (r: Option<(Bytes, Row)>)
        requires
            old(self)@.wf(),
            old(self)@.total_count > 0 ==> old(self)@.cache.len() > 0,
        ensures
            final(self)@.wf(),
            old(self)@.total_count == 0 ==> r is None && final(self)@ == old(self)@,
            old(self)@.total_count > 0 ==> {
                &&& r matches Some((k, row))
                &&& (bytes_view(k), row@) == old(self)@.cache[0]
                &&& final(self)@ == (TopNView {
                    cache: old(self)@.cache.drop_first(),
                    buffer: put_entry(
                        old(self)@.buffer,
                        old(self)@.cache[0].0,
                        after_delete(entry_of(old(self)@.buffer, old(self)@.cache[0].0)),
                    ),
                    total_count: (old(self)@.total_count - 1) as usize,
                    ..old(self)@
                })
                &&& forall|i: int|
                    0 <= i < final(self)@.cache.len() ==> lex_lt(
                        bytes_view(k),
                        (#[trigger] final(self)@.cache[i]).0,
                    )
            },
    {
        if self.total_count == 0 {
            None
        } else {
            let key = bytes_clone(&self.top_n[0].0);
            proof {
                lemma_entry_in_map(self@.cache, 0);
                lemma_drop_first_entry(self@.cache);
            }
            let ghost before = self@.cache;
            let value = self.delete(&key);
            proof {
                assert forall|i: int| 0 <= i < self@.cache.len() implies lex_lt(
                    bytes_view(key),
                    (#[trigger] self@.cache[i]).0,
                ) by {
                    assert(self@.cache[i] == before[i + 1]);
                    assert(lex_lt(before[0].0, before[i + 1].0));
                }
            }
            Some((key, value.unwrap()))
        }
    }
}

/// The bound on the cache. A cache cut down to a bound of `n` rows holds at
/// most `n` rows, and they are the first rows of the cache as it was.
pub proof fn lemma_retained_bound(cache: Seq<(Seq<u8>, RowView)>, top_n_count: Option<usize>)
    ensures
        top_n_count matches Some(n) ==> retained(cache, top_n_count).len() <= n,
        retained(cache, top_n_count).len() <= cache.len(),
        retained(cache, top_n_count) == cache.subrange(0, retained(cache, top_n_count).len() as int),
{
    assert(cache.subrange(0, cache.len() as int) =~= cache);
}

/// Pops ascend. Taking the first row off an ascending cache again and again
/// gives the rows in strictly ascending key order: the row that the `i`-th
/// pop returns has a smaller key than the row of any later pop.
pub proof fn lemma_pops_ascend(cache: Seq<(Seq<u8>, RowView)>, i: int, j: int)
    requires
        ascending_keys(cache),
        0 <= i < j < cache.len(),
    ensures
        cache.skip(i).first() == cache[i],
        cache.skip(j).first() == cache[j],
        cache.skip(i).drop_first() == cache.skip(i + 1),
        lex_lt(cache.skip(i).first().0, cache.skip(j).first().0),
{
    assert(cache.skip(i).drop_first() =~= cache.skip(i + 1));
}

/// The writes of a flush, one by one. The batch holds as many writes per
/// buffered key as the schema has cells, and the write at position
/// `i * n + c` is the write for cell `c` of the `i`-th buffered key.
pub proof fn lemma_writes_of_index(
    prefix: Seq<u8>,
    n: u32,
    buffer: Seq<(Seq<u8>, FlushStatus<RowView>)>,
    i: int,
    c: int,
)
    requires
        0 <= i < buffer.len(),
        0 <= c < n,
    ensures
        writes_of(prefix, n, buffer).len() == buffer.len() * n,
        0 <= i * n + c < buffer.len() * n,
        writes_of(prefix, n, buffer)[i * n + c] == cell_write(prefix, buffer[i], c),
    decreases buffer.len(),
{
    lemma_writes_of_len(prefix, n, buffer);
    let head = buffer.drop_last();
    lemma_writes_of_len(prefix, n, head);
    assert(head.len() * n + n == buffer.len() * n) by (nonlinear_arith)
        requires
            head.len() + 1 == buffer.len(),
    ;
    if i < buffer.len() - 1 {
        lemma_writes_of_index(prefix, n, head, i, c);
        assert(head[i] == buffer[i]);
    } else {
        assert(i * n == head.len() * n) by (nonlinear_arith)
            requires
                i == head.len(),
        ;
    }
    assert(i * n + c < buffer.len() * n) by (nonlinear_arith)
        requires
            0 <= i < buffer.len(),
            0 <= c < n,
    ;
    assert(0 <= i * n) by (nonlinear_arith)
        requires
            0 <= i,
            0 <= n,
    ;
}

/// What a scan of the keyspace hands back for the writes of a flush that
/// deletes nothing: each stored key without the prefix, with its bytes.
pub open spec fn scanned_back(prefix: Seq<u8>, writes: Seq<WriteView>) -> Seq<CellView> {
    Seq::new(writes.len(), |j: int| (writes[j].0.skip(prefix.len() as int), writes[j].1->0))
}

/// The rows that a buffer writes, where it deletes nothing.
pub open spec fn written_rows(buffer: Seq<(Seq<u8>, FlushStatus<RowView>)>) -> Seq<
    (Seq<u8>, RowView),
> {
    Seq::new(buffer.len(), |i: int| (buffer[i].0, written(buffer[i].1)->0))
}

/// Flush and scan agree. The cells that a flush writes for rows of the
/// schema's length, read back in the order written, make up exactly the rows
/// that were flushed, under the keys they were flushed under.
pub proof fn lemma_flush_round_trip(
    prefix: Seq<u8>,
    n: u32,
    buffer: Seq<(Seq<u8>, FlushStatus<RowView>)>,
)
    requires
        n > 0,
        forall|i: int|
            0 <= i < buffer.len() ==> (written((#[trigger] buffer[i]).1) matches Some(row)
                && row.len() == n),
    ensures
        cells_error(scanned_back(prefix, writes_of(prefix, n, buffer)), n) is None,
        rows_of(scanned_back(prefix, writes_of(prefix, n, buffer)), n) == written_rows(buffer),
{
    let writes = writes_of(prefix, n, buffer);
    let cells = scanned_back(prefix, writes);
    let len = buffer.len() as int;
    let m = n as int;
    lemma_writes_of_len(prefix, n, buffer);
    vstd::arithmetic::div_mod::lemma_fundamental_div_mod_converse(len * m, m, len, 0);
    assert(complete_rows(cells, n));
    assert(row_count(cells, n) == len);
    assert forall|g: int| 0 <= g < len implies (#[trigger] row_key_cell(cells, n, g)).len()
        >= CELL_IDX_LEN && row_at(cells, n, g) == written_rows(buffer)[g] by {
        lemma_writes_of_index(prefix, n, buffer, g, m - 1);
        let stored = prefix + (buffer[g].0 + be_u32((m - 1) as u32));
        assert(cells[g * n + n - 1].0 == stored.skip(prefix.len() as int));
        assert(stored.skip(prefix.len() as int) =~= buffer[g].0 + be_u32((m - 1) as u32));
        let key_cell = row_key_cell(cells, n, g);
        assert(key_cell.subrange(0, key_cell.len() - CELL_IDX_LEN) =~= buffer[g].0);
        let row = written(buffer[g].1)->0;
        assert forall|c: int| 0 <= c < n implies cells[g * n + c].1 == row[c] by {
            lemma_writes_of_index(prefix, n, buffer, g, c);
        }
        assert(row_at(cells, n, g).1 =~= row);
    }
    assert(rows_of(cells, n) =~= written_rows(buffer));
}

/// Flush writes the net outcome. Whatever inserts and deletes were folded
/// into the status of a buffered key, the flush writes for each cell of the
/// key what the last of them asks for: the cell of the row last inserted, or
/// a deletion if the key was deleted last.
pub proof fn lemma_flush_writes_net_outcome(
    prefix: Seq<u8>,
    n: u32,
    buffer: Seq<(Seq<u8>, FlushStatus<RowView>)>,
    i: int,
    c: int,
    prev: Option<FlushStatus<RowView>>,
    changes: Seq<Change<RowView>>,
)
    requires
        0 <= i < buffer.len(),
        0 <= c < n,
        changes.len() > 0,
        after_changes(prev, changes) == Some(buffer[i].1),
    ensures
        0 <= i * n + c < writes_of(prefix, n, buffer).len(),
        writes_of(prefix, n, buffer)[i * n + c].0 == prefix + (buffer[i].0 + be_u32(c as u32)),
        writes_of(prefix, n, buffer)[i * n + c].1 == match changes.last() {
            Change::Insert(row) => Some(row[c]),
            Change::Delete => None,
        },
{
    lemma_writes_of_index(prefix, n, buffer, i, c);
    lemma_net_outcome(prev, changes);
}

/// Storing ascending rows one by one in an empty cache gives the rows.
pub proof fn lemma_put_all_ascending(rows: Seq<(Seq<u8>, RowView)>)
    requires
        ascending_keys(rows),
    ensures
        put_all(Seq::empty(), rows) == rows,
    decreases rows.len(),
{
    if rows.len() == 0 {
        assert(rows =~= Seq::empty());
    } else {
        let head = rows.drop_last();
        let k = rows.last().0;
        assert(ascending_keys(head)) by {
            assert forall|i: int, j: int| 0 <= i < j < head.len() implies lex_lt(
                (#[trigger] head[i]).0,
                (#[trigger] head[j]).0,
            ) by {
                assert(head[i] == rows[i] && head[j] == rows[j]);
            }
        }
        lemma_put_all_ascending(head);
        assert(crate::ordered::is_lower_bound(head, k, head.len() as int)) by {
            assert forall|j: int| 0 <= j < head.len() implies lex_lt((#[trigger] head[j]).0, k) by {
                assert(head[j] == rows[j]);
                assert(lex_lt(rows[j].0, rows[rows.len() - 1].0));
            }
        }
        crate::ordered::lemma_lower_bound_unique(
            head,
            k,
            head.len() as int,
            crate::ordered::lower_bound_of(head, k),
        );
        assert(head.insert(head.len() as int, rows.last()) =~= rows);
    }
}

/// The writes for the first `k` buffered keys are the first writes of the
/// whole buffer.
pub proof fn lemma_writes_of_head(
    prefix: Seq<u8>,
    n: u32,
    buffer: Seq<(Seq<u8>, FlushStatus<RowView>)>,
    k: int,
)
    requires
        n > 0,
        0 <= k <= buffer.len(),
    ensures
        0 <= k * n <= writes_of(prefix, n, buffer).len(),
        writes_of(prefix, n, buffer.subrange(0, k)) == writes_of(prefix, n, buffer).subrange(
            0,
            k * n,
        ),
{
    let head = buffer.subrange(0, k);
    let all = writes_of(prefix, n, buffer);
    let part = writes_of(prefix, n, head);
    let m = n as int;
    lemma_writes_of_len(prefix, n, buffer);
    lemma_writes_of_len(prefix, n, head);
    assert(0 <= k * m <= buffer.len() * m) by (nonlinear_arith)
        requires
            0 <= k <= buffer.len(),
            m > 0,
    ;
    assert forall|j: int| 0 <= j < part.len() implies part[j] == all.subrange(0, k * m)[j] by {
        let i = j / m;
        let c = j % m;
        vstd::arithmetic::div_mod::lemma_fundamental_div_mod(j, m);
        vstd::arithmetic::div_mod::lemma_mod_pos_bound(j, m);
        assert(0 <= i < k) by (nonlinear_arith)
            requires
                0 <= j < k * m,
                m > 0,
                j == m * i + c,
                0 <= c < m,
        ;
        assert(i * m + c == j) by (nonlinear_arith)
            requires
                j == m * i + c,
        ;
        lemma_writes_of_index(prefix, n, head, i, c);
        lemma_writes_of_index(prefix, n, buffer, i, c);
        assert(head[i] == buffer[i]);
    }
    assert(part =~= all.subrange(0, k * m));
}

/// Reload. Say a state is flushed whose cache holds just the rows that the
/// flush writes, and a new state over the same keyspace is filled from a
/// scan that hands back the first `m` of those rows, `m` being no less than
/// the bound on the cache. Then the new cache is the old cache as the flush
/// left it, row for row; so both states show the same top element.
pub proof fn lemma_reload_after_flush(
    prefix: Seq<u8>,
    n: u32,
    top_n_count: Option<usize>,
    buffer: Seq<(Seq<u8>, FlushStatus<RowView>)>,
    m: int,
)
    requires
        n > 0,
        ascending_keys(buffer),
        forall|i: int|
            0 <= i < buffer.len() ==> (written((#[trigger] buffer[i]).1) matches Some(row)
                && row.len() == n),
        retained(written_rows(buffer), top_n_count).len() <= m <= buffer.len(),
    ensures
        ({
            let scan = scanned_back(prefix, writes_of(prefix, n, buffer)).subrange(0, m * n);
            &&& cells_error(scan, n) is None
            &&& retained(put_all(Seq::empty(), rows_of(scan, n)), top_n_count) == retained(
                written_rows(buffer),
                top_n_count,
            )
        }),
{
    let head = buffer.subrange(0, m);
    let writes = writes_of(prefix, n, buffer);
    let scan = scanned_back(prefix, writes).subrange(0, m * n);
    lemma_writes_of_head(prefix, n, buffer, m);
    assert(scan =~= scanned_back(prefix, writes_of(prefix, n, head)));
    assert forall|i: int| 0 <= i < head.len() implies (written((#[trigger] head[i]).1) matches Some(
        row,
    ) && row.len() == n) by {
        assert(head[i] == buffer[i]);
    }
    lemma_flush_round_trip(prefix, n, head);
    let rows = written_rows(buffer);
    let first = written_rows(head);
    assert(first =~= rows.subrange(0, m));
    assert(ascending_keys(first)) by {
        assert forall|i: int, j: int| 0 <= i < j < first.len() implies lex_lt(
            (#[trigger] first[i]).0,
            (#[trigger] first[j]).0,
        ) by {
            assert(lex_lt(buffer[i].0, buffer[j].0));
        }
    }
    lemma_put_all_ascending(first);
    assert(retained(first, top_n_count) =~= retained(rows, top_n_count));
}

/// A flush writes as many cells per buffered key as the schema has.
pub proof fn lemma_writes_of_len(
    prefix: Seq<u8>,
    n: u32,
    buffer: Seq<(Seq<u8>, FlushStatus<RowView>)>,
)
    ensures
        writes_of(prefix, n, buffer).len() == buffer.len() * n,
    decreases buffer.len(),
{
    if buffer.len() > 0 {
        let head = buffer.drop_last();
        lemma_writes_of_len(prefix, n, head);
        assert(head.len() * n + n == buffer.len() * n) by (nonlinear_arith)
            requires
                head.len() + 1 == buffer.len(),
        ;
    } else {
        assert(buffer.len() * n == 0) by (nonlinear_arith)
            requires
                buffer.len() == 0,
        ;
    }
}

/// Storing a row of the right length keeps every row of the right length.
proof fn lemma_put_keeps_rows(s: Seq<(Seq<u8>, RowView)>, k: Seq<u8>, v: RowView, n: u32)
    requires
        ascending_keys(s),
        forall|i: int| 0 <= i < s.len() ==> (#[trigger] s[i]).1.len() == n,
        v.len() == n,
    ensures
        forall|i: int|
            0 <= i < put_entry(s, k, v).len() ==> (#[trigger] put_entry(s, k, v)[i]).1.len() == n,
{
    crate::ordered::lemma_lower_bound_exists(s, k);
    let p = crate::ordered::lower_bound_of(s, k);
    let t = put_entry(s, k, v);
    assert forall|i: int| 0 <= i < t.len() implies (#[trigger] t[i]).1.len() == n by {
        if p < s.len() && s[p].0 == k {
            if i != p {
                assert(t[i] == s[i]);
            }
        } else {
            if i < p {
                assert(t[i] == s[i]);
            } else if i > p {
                assert(t[i] == s[i - 1]);
            }
        }
    }
}

/// Dropping a key keeps every row of the right length.
proof fn lemma_drop_keeps_rows(s: Seq<(Seq<u8>, RowView)>, k: Seq<u8>, n: u32)
    requires
        ascending_keys(s),
        forall|i: int| 0 <= i < s.len() ==> (#[trigger] s[i]).1.len() == n,
    ensures
        forall|i: int|
            0 <= i < drop_entry(s, k).len() ==> (#[trigger] drop_entry(s, k)[i]).1.len() == n,
{
    crate::ordered::lemma_lower_bound_exists(s, k);
    let p = crate::ordered::lower_bound_of(s, k);
    let t = drop_entry(s, k);
    assert forall|i: int| 0 <= i < t.len() implies (#[trigger] t[i]).1.len() == n by {
        if p < s.len() && s[p].0 == k {
            if i < p {
                assert(t[i] == s[i]);
            } else {
                assert(t[i] == s[i + 1]);
            }
        }
    }
}

/// Storing a status whose row has the right length keeps every buffered row
/// of the right length.
proof fn lemma_put_keeps_statuses(
    s: Seq<(Seq<u8>, FlushStatus<RowView>)>,
    k: Seq<u8>,
    v: FlushStatus<RowView>,
    n: u32,
)
    requires
        ascending_keys(s),
        forall|i: int|
            0 <= i < s.len() ==> (written((#[trigger] s[i]).1) matches Some(row) ==> row.len()
                == n),
        written(v) matches Some(row) ==> row.len() == n,
    ensures
        forall|i: int|
            0 <= i < put_entry(s, k, v).len() ==> (written((#[trigger] put_entry(s, k, v)[i]).1)
                matches Some(row) ==> row.len() == n),
{
    crate::ordered::lemma_lower_bound_exists(s, k);
    let p = crate::ordered::lower_bound_of(s, k);
    let t = put_entry(s, k, v);
    assert forall|i: int| 0 <= i < t.len() implies (written((#[trigger] t[i]).1) matches Some(row)
        ==> row.len() == n) by {
        if p < s.len() && s[p].0 == k {
            if i != p {
                assert(t[i] == s[i]);
            }
        } else {
            if i < p {
                assert(t[i] == s[i]);
            } else if i > p {
                assert(t[i] == s[i - 1]);
            }
        }
    }
}

/// Why scanned cells cannot be taken into the cache.
#[derive(Clone, Copy, Debug, PartialEq, Eq, Structural)]
pub enum StateError {
    /// The number of cells is no multiple of the number of cells of a row.
    IncompleteRow,
    /// The key of the last cell of a row is too short to end in a cell
    /// index.
    MalformedCellKey,
    /// The rows do not come in strictly ascending key order.
    UnorderedScan,
    /// A row that the flush buffer does not mention lies below a key that
    /// the flush buffer does mention.
    CursorInvariant,
}

/// The mathematical value of a scanned cell: its key without the keyspace
/// prefix, and its stored bytes.
pub type CellView = (Seq<u8>, Seq<u8>);

/// Scanned cells as mathematical values.
pub open spec fn cells_view(cells: Seq<(Bytes, Bytes)>) -> Seq<CellView> {
    Seq::new(cells.len(), |i: int| (bytes_view(cells[i].0), bytes_view(cells[i].1)))
}

/// The cells make up whole rows of `n` cells each.
pub open spec fn complete_rows(cells: Seq<CellView>, n: u32) -> bool {
    if n == 0 {
        cells.len() == 0
    } else {
        (cells.len() as int) % (n as int) == 0
    }
}

/// The number of whole rows among the cells.
pub open spec fn row_count(cells: Seq<CellView>, n: u32) -> int {
    if n == 0 {
        0
    } else {
        (cells.len() as int) / (n as int)
    }
}

/// The key of the last cell of row `g`.
pub open spec fn row_key_cell(cells: Seq<CellView>, n: u32, g: int) -> Seq<u8> {
    cells[g * n + n - 1].0
}

/// The last cell of every row has room for a cell index.
pub open spec fn proper_cell_keys(cells: Seq<CellView>, n: u32) -> bool {
    forall|g: int|
        0 <= g < row_count(cells, n) ==> (#[trigger] row_key_cell(cells, n, g)).len()
            >= CELL_IDX_LEN
}

/// Row `g` of the cells: its key is the key of its last cell without the
/// cell index, its cells are the stored bytes of `n` cells in a row.
pub open spec fn row_at(cells: Seq<CellView>, n: u32, g: int) -> (Seq<u8>, RowView) {
    let key_cell = row_key_cell(cells, n, g);
    (
        key_cell.subrange(0, key_cell.len() - CELL_IDX_LEN),
        Seq::new(n as nat, |c: int| cells[g * n + c].1),
    )
}

/// The rows that the cells make up, in scan order.
pub open spec fn rows_of(cells: Seq<CellView>, n: u32) -> Seq<(Seq<u8>, RowView)> {
    Seq::new(row_count(cells, n) as nat, |g: int| row_at(cells, n, g))
}

/// Why the cells make up no rows, if they do not.
pub open spec fn cells_error(cells: Seq<CellView>, n: u32) -> Option<StateError> {
    if !complete_rows(cells, n) {
        Some(StateError::IncompleteRow)
    } else if !proper_cell_keys(cells, n) {
        Some(StateError::MalformedCellKey)
    } else {
        None
    }
}

/// What goes into the cache for a scanned row: the buffered value if the
/// buffer writes the key, nothing if the buffer deletes it, the scanned row
/// if the buffer does not mention it.
pub open spec fn merged_row(
    buffer: Seq<(Seq<u8>, FlushStatus<RowView>)>,
    key: Seq<u8>,
    row: RowView,
) -> Option<RowView> {
    match entry_of(buffer, key) {
        Some(status) => written(status),
        None => Some(row),
    }
}

/// A cursor that walks the buffer in step with the scan can decide `key`:
/// the buffer holds the key, or all of the buffer lies below it.
pub open spec fn cursor_passes(buffer: Seq<(Seq<u8>, FlushStatus<RowView>)>, key: Seq<u8>) -> bool {
    has_key(buffer, key) || forall|j: int|
        0 <= j < buffer.len() ==> lex_lt((#[trigger] buffer[j]).0, key)
}

/// The cursor can decide every scanned row.
pub open spec fn cursor_passes_all(
    buffer: Seq<(Seq<u8>, FlushStatus<RowView>)>,
    rows: Seq<(Seq<u8>, RowView)>,
) -> bool {
    forall|i: int| 0 <= i < rows.len() ==> cursor_passes(buffer, (#[trigger] rows[i]).0)
}

/// The rows that go into the cache, in scan order.
pub open spec fn merged_rows(
    buffer: Seq<(Seq<u8>, FlushStatus<RowView>)>,
    rows: Seq<(Seq<u8>, RowView)>,
) -> Seq<(Seq<u8>, RowView)>
    decreases rows.len(),
{
    if rows.len() == 0 {
        Seq::empty()
    } else {
        let head = merged_rows(buffer, rows.drop_last());
        match merged_row(buffer, rows.last().0, rows.last().1) {
            Some(row) => head.push((rows.last().0, row)),
            None => head,
        }
    }
}

/// The cache after each of `rows` is stored in it, in order.
pub open spec fn put_all(cache: Seq<(Seq<u8>, RowView)>, rows: Seq<(Seq<u8>, RowView)>) -> Seq<
    (Seq<u8>, RowView),
>
    decreases rows.len(),
{
    if rows.len() == 0 {
        cache
    } else {
        put_entry(put_all(cache, rows.drop_last()), rows.last().0, rows.last().1)
    }
}

/// Why a scan cannot be merged into the cache, if it cannot.
pub open spec fn scan_error(
    buffer: Seq<(Seq<u8>, FlushStatus<RowView>)>,
    cells: Seq<CellView>,
    n: u32,
) -> Option<StateError> {
    if cells_error(cells, n) is Some {
        cells_error(cells, n)
    } else if !ascending_keys(rows_of(cells, n)) {
        Some(StateError::UnorderedScan)
    } else if !cursor_passes_all(buffer, rows_of(cells, n)) {
        Some(StateError::CursorInvariant)
    } else {
        None
    }
}

/// One write of a flush: the stored key and the bytes to store, or `None`
/// to delete the key.
pub type WriteView = (Seq<u8>, Option<Seq<u8>>);

/// A write batch as mathematical values.
pub open spec fn writes_view(writes: Seq<(Bytes, Option<Bytes>)>) -> Seq<WriteView> {
    Seq::new(
        writes.len(),
        |i: int|
            (
                bytes_view(writes[i].0),
                match writes[i].1 {
                    Some(b) => Some(bytes_view(b)),
                    None => None,
                },
            ),
    )
}

/// The write for cell `c` of a buffered key: the key is the prefix, the
/// row key and the cell index; the value is the cell of the row to write, or
/// `None` where the key is deleted.
pub open spec fn cell_write(
    prefix: Seq<u8>,
    entry: (Seq<u8>, FlushStatus<RowView>),
    c: int,
) -> WriteView {
    (
        prefix + (entry.0 + be_u32(c as u32)),
        match written(entry.1) {
            Some(row) => Some(row[c]),
            None => None,
        },
    )
}

/// The writes for all cells of a buffered key, by ascending cell index.
pub open spec fn entry_writes(
    prefix: Seq<u8>,
    n: u32,
    entry: (Seq<u8>, FlushStatus<RowView>),
) -> Seq<WriteView> {
    Seq::new(n as nat, |c: int| cell_write(prefix, entry, c))
}

/// The writes of a flush: those of each buffered key, in buffer order.
pub open spec fn writes_of(
    prefix: Seq<u8>,
    n: u32,
    buffer: Seq<(Seq<u8>, FlushStatus<RowView>)>,
) -> Seq<WriteView>
    decreases buffer.len(),
{
    if buffer.len() == 0 {
        Seq::empty()
    } else {
        writes_of(prefix, n, buffer.drop_last()) + entry_writes(prefix, n, buffer.last())
    }
}

/// Puts scanned cells together into rows.
pub fn assemble_rows(cells: &Vec<(Bytes, Bytes)>, schema_len: u32) -> (r: Result<
    Vec<(Bytes, Row)>,
    StateError,
>)
    ensures
        match r {
            Ok(rows) => cells_error(cells_view(cells@), schema_len) is None && entries_view(rows@)
                == rows_of(cells_view(cells@), schema_len),
            Err(e) => cells_error(cells_view(cells@), schema_len) == Some(e),
        },
{
    let ghost cv = cells_view(cells@);
    let n: usize = schema_len as usize;
    if n == 0 {
        if cells.len() == 0 {
            let rows: Vec<(Bytes, Row)> = Vec::new();
            assert(entries_view(rows@) =~= rows_of(cv, schema_len));
            return Ok(rows);
        } else {
            return Err(StateError::IncompleteRow);
        }
    }
    if cells.len() % n != 0 {
        return Err(StateError::IncompleteRow);
    }
    let mut rows: Vec<(Bytes, Row)> = Vec::new();
    let mut current: Vec<Vec<u8>> = Vec::new();
    let mut i: usize = 0;
    let ghost mut g: int = 0;
    while i < cells.len()
        invariant
            n > 0,
            n == schema_len,
            cv == cells_view(cells@),
            complete_rows(cv, schema_len),
            i <= cells.len(),
            0 <= g,
            i == g * n + current@.len(),
            current@.len() < n,
            rows@.len() == g,
            forall|h: int|
                0 <= h < g ==> (#[trigger] row_key_cell(cv, schema_len, h)).len() >= CELL_IDX_LEN,
            forall|h: int|
                0 <= h < g ==> (#[trigger] entries_view(rows@)[h]) == row_at(cv, schema_len, h),
            forall|c: int| 0 <= c < current@.len() ==> (#[trigger] current@[c])@ == cv[g * n + c].1,
        decreases cells.len() - i,
    {
        current.push(copy_bytes(bytes_as_slice(&cells[i].1)));
        if current.len() == n {
            let pk = &cells[i].0;
            let len: usize = bytes_as_slice(pk).len();
            proof {
                assert((g + 1) * n == g * n + n) by (nonlinear_arith);
                assert(g < cells@.len() as int / n as int) by (nonlinear_arith)
                    requires
                        (g + 1) * n <= cells@.len(),
                        n > 0,
                        g >= 0,
                ;
                assert(row_key_cell(cv, schema_len, g) == cv[i as int].0);
            }
            if len < CELL_IDX_LEN {
                assert(!proper_cell_keys(cv, schema_len));
                return Err(StateError::MalformedCellKey);
            }
            let key = bytes_slice(pk, 0, len - CELL_IDX_LEN);
            let row = Row(current);
            proof {
                assert(row@ =~= row_at(cv, schema_len, g).1);
            }
            let ghost before = rows@;
            rows.push((key, row));
            proof {
                assert forall|h: int| 0 <= h < g + 1 implies (#[trigger] entries_view(rows@)[h])
                    == row_at(cv, schema_len, h) by {
                    if h < g {
                        assert(entries_view(rows@)[h] == entries_view(before)[h]);
                    }
                }
                g = g + 1;
            }
            current = Vec::new();
        }
        i += 1;
    }
    proof {
        vstd::arithmetic::div_mod::lemma_fundamental_div_mod_converse(
            cells@.len() as int,
            n as int,
            g,
            current@.len() as int,
        );
        assert(entries_view(rows@) =~= rows_of(cv, schema_len));
    }
    Ok(rows)
}

/// Whether the keys of `rows` ascend strictly.
fn rows_ascend(rows: &Vec<(Bytes, Row)>) -> (r: bool)
    ensures
        r == ascending_keys(entries_view(rows@)),
{
    let ghost views = entries_view(rows@);
    let mut i: usize = 1;
    while i < rows.len()
        invariant
            1 <= i,
            views == entries_view(rows@),
            forall|a: int, b: int|
                0 <= a < b < i && b < rows.len() ==> lex_lt(
                    (#[trigger] views[a]).0,
                    (#[trigger] views[b]).0,
                ),
        decreases rows.len() - i,
    {
        match crate::key::compare_bytes(bytes_as_slice(&rows[i - 1].0), bytes_as_slice(&rows[i].0)) {
            crate::key::ByteOrder::Less => {
                assert forall|a: int, b: int| 0 <= a < b < i + 1 && b < rows.len() implies lex_lt(
                    (#[trigger] views[a]).0,
                    (#[trigger] views[b]).0,
                ) by {
                    if b == i && a < i - 1 {
                        crate::key::lemma_lex_transitive(
                            views[a].0,
                            views[i - 1].0,
                            views[i as int].0,
                        );
                    }
                }
            },
            _ => {
                assert(!lex_lt(views[i - 1].0, views[i as int].0));
                return false;
            },
        }
        i += 1;
    }
    true
}

impl ManagedTopNState {
    /// The number of cells to ask the store for when the cache is filled: as
    /// many as the bound on the cache needs, or no limit for an unbounded
    /// cache.
    pub fn fill_limit(&self) -> (r: Option<usize>)
        requires
            self@.wf(),
        ensures
            r == match self@.top_n_count {
                Some(n) => Some((n * self@.schema_len) as usize),
                None => None,
            },
    {
        match self.top_n_count {
            Some(n) => Some(n * (self.schema_len as usize)),
            None => None,
        }
    }

    /// Whether the cursor can decide every row of `rows`.
    fn cursor_decides(&self, rows: &Vec<(Bytes, Row)>) -> (r: bool)
        requires
            self@.wf(),
        ensures
            r == cursor_passes_all(self@.buffer, entries_view(rows@)),
    {
        let ghost buffer = self@.buffer;
        let ghost views = entries_view(rows@);
        let mut i: usize = 0;
        while i < rows.len()
            invariant
                i <= rows.len(),
                self@.wf(),
                buffer == self@.buffer,
                views == entries_view(rows@),
                forall|j: int| 0 <= j < i ==> cursor_passes(buffer, (#[trigger] views[j]).0),
            decreases rows.len() - i,
        {
            let key = bytes_as_slice(&rows[i].0);
            let p = crate::ordered::lower_bound(&self.flush_buffer, key);
            proof {
                crate::ordered::lemma_lower_bound_decides(buffer, key@, p as int);
            }
            if p < self.flush_buffer.len() {
                match crate::key::compare_bytes(bytes_as_slice(&self.flush_buffer[p].0), key) {
                    crate::key::ByteOrder::Equal => {},
                    _ => {
                        assert(!cursor_passes(buffer, views[i as int].0));
                        return false;
                    },
                }
            }
            i += 1;
        }
        true
    }

    /// Merges a scan of the whole keyspace into the cache. The scan is
    /// walked in step with the flush buffer: a row that the buffer deletes
    /// stays out, a row that the buffer writes goes in with the buffered
    /// value, a row that the buffer does not mention goes in as scanned.
    /// Keys that only the buffer holds are not added; they are cached
    /// already. A scan that cannot be merged leaves the state as it is.
    pub fn scan_and_merge(&mut self, cells: &Vec<(Bytes, Bytes)>) -> (r: Result<(), StateError>)
        requires
            old(self)@.wf(),
        ensures
            final(self)@.wf(),
            match r {
                Ok(()) => {
                    &&& scan_error(
                        old(self)@.buffer,
                        cells_view(cells@),
                        old(self)@.schema_len,
                    ) is None
                    &&& final(self)@ == (TopNView {
                        cache: put_all(
                            old(self)@.cache,
                            merged_rows(
                                old(self)@.buffer,
                                rows_of(cells_view(cells@), old(self)@.schema_len),
                            ),
                        ),
                        ..old(self)@
                    })
                },
                Err(e) => {
                    &&& scan_error(old(self)@.buffer, cells_view(cells@), old(self)@.schema_len)
                        == Some(e)
                    &&& final(self)@ == old(self)@
                },
            },
    {
        let rows = match assemble_rows(cells, self.schema_len) {
            Ok(rows) => rows,
            Err(e) => {
                return Err(e);
            },
        };
        if !rows_ascend(&rows) {
            return Err(StateError::UnorderedScan);
        }
        if !self.cursor_decides(&rows) {
            return Err(StateError::CursorInvariant);
        }
        let ghost before = self@;
        let ghost views = entries_view(rows@);
        let mut cursor: usize = 0;
        let mut i: usize = 0;
        while i < rows.len()
            invariant
                i <= rows.len(),
                cursor <= self.flush_buffer@.len(),
                views == entries_view(rows@),
                views == rows_of(cells_view(cells@), before.schema_len),
                ascending_keys(views),
                cursor_passes_all(before.buffer, views),
                before.wf(),
                self@.wf(),
                self@ == (TopNView {
                    cache: put_all(before.cache, merged_rows(before.buffer, views.subrange(0, i as int))),
                    ..before
                }),
                forall|j: int|
                    0 <= j < cursor && i < rows.len() ==> lex_lt(
                        (#[trigger] before.buffer[j]).0,
                        views[i as int].0,
                    ),
            decreases rows.len() - i,
        {
            let key = bytes_as_slice(&rows[i].0);
            let ghost k = views[i as int].0;
            while cursor < self.flush_buffer.len() && crate::key::compare_bytes(
                bytes_as_slice(&self.flush_buffer[cursor].0),
                key,
            ) == crate::key::ByteOrder::Less
                invariant
                    cursor <= self.flush_buffer@.len(),
                    self@.buffer == before.buffer,
                    key@ == k,
                    forall|j: int| 0 <= j < cursor ==> lex_lt((#[trigger] before.buffer[j]).0, k),
                decreases self.flush_buffer@.len() - cursor,
            {
                cursor += 1;
            }
            let ghost done = views.subrange(0, i as int);
            let ghost next = views.subrange(0, i + 1);
            let ghost head = merged_rows(before.buffer, done);
            proof {
                assert(cursor_passes(before.buffer, views[i as int].0));
                lemma_cursor_at_lower_bound(before.buffer, k, cursor as int);
                crate::ordered::lemma_lower_bound_decides(before.buffer, k, cursor as int);
                assert(next.drop_last() =~= done);
                assert(next.last() == views[i as int]);
                assert(views[i as int] == row_at(cells_view(cells@), before.schema_len, i as int));
            }
            let ghost cache_before = self@.cache;
            if cursor == self.flush_buffer.len() {
                put(&mut self.top_n, bytes_clone(&rows[i].0), rows[i].1.duplicate());
                proof {
                    lemma_put_keeps_rows(cache_before, k, views[i as int].1, before.schema_len);
                    let x = (k, views[i as int].1);
                    assert(head.push(x).drop_last() =~= head);
                    assert(merged_rows(before.buffer, next) == head.push(x));
                }
            } else {
                assert(entry_of(before.buffer, k) == Some(before.buffer[cursor as int].1));
                match &self.flush_buffer[cursor].1 {
                    FlushStatus::Delete => {
                        assert(merged_rows(before.buffer, next) == head);
                    },
                    FlushStatus::Insert(row) => {
                        let row = row.duplicate();
                        proof {
                            lemma_put_keeps_rows(cache_before, k, row@, before.schema_len);
                            let x = (k, row@);
                            assert(head.push(x).drop_last() =~= head);
                            assert(merged_rows(before.buffer, next) == head.push(x));
                        }
                        put(&mut self.top_n, bytes_clone(&rows[i].0), row);
                    },
                    FlushStatus::DeleteInsert(row) => {
                        let row = row.duplicate();
                        proof {
                            lemma_put_keeps_rows(cache_before, k, row@, before.schema_len);
                            let x = (k, row@);
                            assert(head.push(x).drop_last() =~= head);
                            assert(merged_rows(before.buffer, next) == head.push(x));
                        }
                        put(&mut self.top_n, bytes_clone(&rows[i].0), row);
                    },
                }
            }
            proof {
                if i + 1 < rows.len() {
                    assert forall|j: int| 0 <= j < cursor implies lex_lt(
                        (#[trigger] before.buffer[j]).0,
                        views[i + 1].0,
                    ) by {
                        crate::key::lemma_lex_transitive(before.buffer[j].0, k, views[i + 1].0);
                    }
                }
            }
            i += 1;
        }
        assert(views.subrange(0, rows@.len() as int) =~= views);
        Ok(())
    }

    /// Fills a drained cache: merges a scan of the whole keyspace into the
    /// cache, as [`Self::scan_and_merge`] does, and cuts the cache down to
    /// its bound.
    pub fn refill(&mut self, cells: &Vec<(Bytes, Bytes)>) -> (r: Result<(), StateError>)
        requires
            old(self)@.wf(),
        ensures
            final(self)@.wf(),
            r is Ok ==> (final(self)@.top_n_count matches Some(n) ==> final(self)@.cache.len()
                <= n),
            match r {
                Ok(()) => {
                    &&& scan_error(
                        old(self)@.buffer,
                        cells_view(cells@),
                        old(self)@.schema_len,
                    ) is None
                    &&& final(self)@ == (TopNView {
                        cache: retained(
                            put_all(
                                old(self)@.cache,
                                merged_rows(
                                    old(self)@.buffer,
                                    rows_of(cells_view(cells@), old(self)@.schema_len),
                                ),
                            ),
                            old(self)@.top_n_count,
                        ),
                        ..old(self)@
                    })
                },
                Err(e) => {
                    &&& scan_error(old(self)@.buffer, cells_view(cells@), old(self)@.schema_len)
                        == Some(e)
                    &&& final(self)@ == old(self)@
                },
            },
    {
        match self.scan_and_merge(cells) {
            Ok(()) => {
                self.retain_top_n();
                Ok(())
            },
            Err(e) => Err(e),
        }
    }

    /// Fills the cache of a state with nothing to flush from a scan of the
    /// first rows of the keyspace: every scanned row is stored in the cache,
    /// then the cache is cut down to its bound. Cells that make up no rows
    /// leave the state as it is.
    pub fn fill_in_cache(&mut self, cells: &Vec<(Bytes, Bytes)>) -> (r: Result<(), StateError>)
        requires
            old(self)@.wf(),
            old(self)@.buffer.len() == 0,
        ensures
            final(self)@.wf(),
            r is Ok ==> (final(self)@.top_n_count matches Some(n) ==> final(self)@.cache.len()
                <= n),
            match r {
                Ok(()) => {
                    &&& cells_error(cells_view(cells@), old(self)@.schema_len) is None
                    &&& final(self)@ == (TopNView {
                        cache: retained(
                            put_all(
                                old(self)@.cache,
                                rows_of(cells_view(cells@), old(self)@.schema_len),
                            ),
                            old(self)@.top_n_count,
                        ),
                        ..old(self)@
                    })
                },
                Err(e) => {
                    &&& cells_error(cells_view(cells@), old(self)@.schema_len) == Some(e)
                    &&& final(self)@ == old(self)@
                },
            },
    {
        let rows = match assemble_rows(cells, self.schema_len) {
            Ok(rows) => rows,
            Err(e) => {
                return Err(e);
            },
        };
        let ghost before = self@;
        let ghost views = entries_view(rows@);
        let mut i: usize = 0;
        while i < rows.len()
            invariant
                i <= rows.len(),
                views == entries_view(rows@),
                views == rows_of(cells_view(cells@), before.schema_len),
                before.wf(),
                self@.wf(),
                self@ == (TopNView {
                    cache: put_all(before.cache, views.subrange(0, i as int)),
                    ..before
                }),
            decreases rows.len() - i,
        {
            proof {
                let done = views.subrange(0, i as int);
                let next = views.subrange(0, i + 1);
                assert(next.drop_last() =~= done);
                assert(next.last() == views[i as int]);
                assert(views.len() == rows@.len());
                assert(views[i as int] == rows_of(cells_view(cells@), before.schema_len)[i as int]);
                assert(views[i as int] == row_at(cells_view(cells@), before.schema_len, i as int));
                lemma_put_keeps_rows(
                    self@.cache,
                    views[i as int].0,
                    views[i as int].1,
                    before.schema_len,
                );
            }
            put(&mut self.top_n, bytes_clone(&rows[i].0), rows[i].1.duplicate());
            i += 1;
        }
        assert(views.subrange(0, rows@.len() as int) =~= views);
        self.retain_top_n();
        Ok(())
    }

    /// Empties the flush buffer into a write batch for the store and cuts
    /// the cache down to its bound. With nothing to flush there is no batch.
    /// Otherwise the batch holds, for each buffered key in ascending order
    /// and each cell of the schema, the stored key and the cell to write, or
    /// `None` where the key is deleted.
    pub fn flush(&mut self) -> (r: Option<Vec<(Bytes, Option<Bytes>)>>)
        requires
            old(self)@.wf(),
        ensures
            final(self)@.wf(),
            final(self)@ == (TopNView {
                cache: retained(old(self)@.cache, old(self)@.top_n_count),
                buffer: Seq::empty(),
                ..old(self)@
            }),
            final(self)@.top_n_count matches Some(n) ==> final(self)@.cache.len() <= n,
            r is Some <==> old(self)@.buffer.len() > 0,
            r matches Some(writes) ==> writes_view(writes@) == writes_of(
                old(self)@.prefix,
                old(self)@.schema_len,
                old(self)@.buffer,
            ),
    {
        let ghost before = self@;
        if !self.is_dirty() {
            self.retain_top_n();
            assert(self@.buffer =~= Seq::empty());
            return None;
        }
        let mut pending: Vec<(Bytes, FlushStatus<Row>)> = Vec::new();
        std::mem::swap(&mut pending, &mut self.flush_buffer);
        assert(self@.buffer =~= Seq::empty());
        let mut write_batches: Vec<(Bytes, Option<Bytes>)> = Vec::new();
        let mut i: usize = 0;
        while i < pending.len()
            invariant
                i <= pending.len(),
                before.wf(),
                entries_view(pending@) == before.buffer,
                self.schema_len == before.schema_len,
                self.keyspace.prefix() == before.prefix,
                writes_view(write_batches@) == writes_of(
                    before.prefix,
                    before.schema_len,
                    before.buffer.subrange(0, i as int),
                ),
            decreases pending.len() - i,
        {
            let ghost done = write_batches@;
            let ghost entry = before.buffer[i as int];
            let pk_buf = bytes_as_slice(&pending[i].0);
            let mut cell_idx: u32 = 0;
            while cell_idx < self.schema_len
                invariant
                    i < pending.len(),
                    cell_idx <= self.schema_len,
                    before.wf(),
                    entries_view(pending@) == before.buffer,
                    entry == before.buffer[i as int],
                    pk_buf@ == entry.0,
                    self.schema_len == before.schema_len,
                    self.keyspace.prefix() == before.prefix,
                    writes_view(write_batches@) == writes_view(done) + entry_writes(
                        before.prefix,
                        before.schema_len,
                        entry,
                    ).subrange(0, cell_idx as int),
                decreases self.schema_len - cell_idx,
            {
                let ghost so_far = write_batches@;
                let suffix = serialize_cell_idx(cell_idx);
                let key_encoded = concat_bytes(pk_buf, suffix.as_slice());
                let key_encoded = bytes_from_vec(self.keyspace.prefixed_key(key_encoded.as_slice()));
                let value: Option<Bytes> = match &pending[i].1 {
                    FlushStatus::Delete => None,
                    FlushStatus::Insert(row) => Some(
                        bytes_from_vec(copy_bytes(row.0[cell_idx as usize].as_slice())),
                    ),
                    FlushStatus::DeleteInsert(row) => Some(
                        bytes_from_vec(copy_bytes(row.0[cell_idx as usize].as_slice())),
                    ),
                };
                write_batches.push((key_encoded, value));
                cell_idx += 1;
                proof {
                    assert(writes_view(write_batches@) =~= writes_view(so_far).push(
                        cell_write(before.prefix, entry, cell_idx - 1),
                    ));
                    assert(writes_view(write_batches@) =~= writes_view(done) + entry_writes(
                        before.prefix,
                        before.schema_len,
                        entry,
                    ).subrange(0, cell_idx as int));
                }
            }
            i += 1;
            proof {
                let part = before.buffer.subrange(0, i as int);
                assert(part.drop_last() =~= before.buffer.subrange(0, i - 1));
                assert(part.last() == entry);
                let all = entry_writes(before.prefix, before.schema_len, entry);
                assert(all.subrange(0, all.len() as int) =~= all);
            }
        }
        assert(before.buffer.subrange(0, pending@.len() as int) =~= before.buffer);
        self.retain_top_n();
        Some(write_batches)
    }
}

/// Where the cursor stops for a key that it can decide stands the lower
/// bound of the key.
proof fn lemma_cursor_at_lower_bound(
    buffer: Seq<(Seq<u8>, FlushStatus<RowView>)>,
    k: Seq<u8>,
    cursor: int,
)
    requires
        ascending_keys(buffer),
        0 <= cursor <= buffer.len(),
        forall|j: int| 0 <= j < cursor ==> lex_lt((#[trigger] buffer[j]).0, k),
        cursor < buffer.len() ==> !lex_lt(buffer[cursor].0, k),
    ensures
        crate::ordered::is_lower_bound(buffer, k, cursor),
{
    assert forall|j: int| cursor <= j < buffer.len() implies !lex_lt((#[trigger] buffer[j]).0, k) by {
        if cursor < j && lex_lt(buffer[j].0, k) {
            assert(lex_lt(buffer[cursor].0, buffer[j].0));
            crate::key::lemma_lex_transitive(buffer[cursor].0, buffer[j].0, k);
        }
    }
}

} // verus!
