//! Byte-string keys: their order, the full-key layout `user_key ‖ epoch`, and
//! the cell-index suffix used when a row is stored cell by cell.

use vstd::prelude::*;

verus! {

/// Number of trailing bytes of a full key that hold the epoch.
pub const EPOCH_LEN: usize = 8;

/// Number of trailing bytes of a cell key that hold the cell index.
pub const CELL_IDX_LEN: usize = 4;

/// Outcome of comparing two byte strings.
#[derive(Clone, Copy, Debug, PartialEq, Eq, Structural)]
pub enum ByteOrder {
    Less,
    Equal,
    Greater,
}

/// `a` is lexicographically smaller than `b`, given that they agree before
/// position `i`.
pub open spec fn lex_lt_from(a: Seq<u8>, b: Seq<u8>, i: int) -> bool
    decreases a.len() - i,
{
    if i >= b.len() {
        false
    } else if i >= a.len() {
        true
    } else if a[i] != b[i] {
        a[i] < b[i]
    } else {
        lex_lt_from(a, b, i + 1)
    }
}

/// Strict lexicographic order on byte strings.
pub open spec fn lex_lt(a: Seq<u8>, b: Seq<u8>) -> bool {
    lex_lt_from(a, b, 0)
}

/// Non-strict lexicographic order on byte strings.
pub open spec fn lex_le(a: Seq<u8>, b: Seq<u8>) -> bool {
    a == b || lex_lt(a, b)
}

proof fn lemma_lex_asym_from(a: Seq<u8>, b: Seq<u8>, i: int)
    requires
        0 <= i,
    ensures
        !(lex_lt_from(a, b, i) && lex_lt_from(b, a, i)),
    decreases a.len() - i,
{
    if i < a.len() && i < b.len() && a[i] == b[i] {
        lemma_lex_asym_from(a, b, i + 1);
    }
}

proof fn lemma_lex_total_from(a: Seq<u8>, b: Seq<u8>, i: int)
    requires
        0 <= i <= a.len(),
        i <= b.len(),
        forall|j: int| 0 <= j < i ==> a[j] == b[j],
    ensures
        lex_lt_from(a, b, i) || lex_lt_from(b, a, i) || a == b,
    decreases a.len() - i,
{
    if i < a.len() && i < b.len() {
        if a[i] == b[i] {
            lemma_lex_total_from(a, b, i + 1);
        }
    } else if i == a.len() && i == b.len() {
        assert(a =~= b);
    }
}

proof fn lemma_lex_trans_from(a: Seq<u8>, b: Seq<u8>, c: Seq<u8>, i: int)
    requires
        0 <= i,
        lex_lt_from(a, b, i),
        lex_lt_from(b, c, i),
    ensures
        lex_lt_from(a, c, i),
    decreases a.len() - i,
{
    if i < a.len() && a[i] == b[i] && b[i] == c[i] {
        lemma_lex_trans_from(a, b, c, i + 1);
    }
}

/// No byte string is smaller than itself, and of two byte strings at most one
/// is smaller than the other.
pub proof fn lemma_lex_asymmetric(a: Seq<u8>, b: Seq<u8>)
    ensures
        !(lex_lt(a, b) && lex_lt(b, a)),
        !lex_lt(a, a),
{
    lemma_lex_asym_from(a, b, 0);
    lemma_lex_asym_from(a, a, 0);
}

/// Any two byte strings are equal or ordered one way round.
pub proof fn lemma_lex_total(a: Seq<u8>, b: Seq<u8>)
    ensures
        lex_lt(a, b) || lex_lt(b, a) || a == b,
{
    lemma_lex_total_from(a, b, 0);
}

/// The lexicographic order is transitive.
pub proof fn lemma_lex_transitive(a: Seq<u8>, b: Seq<u8>, c: Seq<u8>)
    requires
        lex_lt(a, b),
        lex_lt(b, c),
    ensures
        lex_lt(a, c),
{
    lemma_lex_trans_from(a, b, c, 0);
}

/// Mixed transitivity: `a <= b < c` and `a < b <= c` both give `a < c`.
pub proof fn lemma_lex_le_lt(a: Seq<u8>, b: Seq<u8>, c: Seq<u8>)
    requires
        (lex_le(a, b) && lex_lt(b, c)) || (lex_lt(a, b) && lex_le(b, c)),
    ensures
        lex_lt(a, c),
{
    if lex_lt(a, b) && lex_lt(b, c) {
        lemma_lex_transitive(a, b, c);
    }
}

/// The non-strict order is transitive.
pub proof fn lemma_lex_le_transitive(a: Seq<u8>, b: Seq<u8>, c: Seq<u8>)
    requires
        lex_le(a, b),
        lex_le(b, c),
    ensures
        lex_le(a, c),
{
    if lex_lt(a, b) && lex_lt(b, c) {
        lemma_lex_transitive(a, b, c);
    }
}

/// Compares two byte strings lexicographically.
pub fn compare_bytes(a: &[u8], b: &[u8]) -> (r: ByteOrder)
    ensures
        r == ByteOrder::Less <==> lex_lt(a@, b@),
        r == ByteOrder::Equal <==> a@ == b@,
        r == ByteOrder::Greater <==> lex_lt(b@, a@),
{
    let mut i: usize = 0;
    while i < a.len() && i < b.len()
        invariant
            i <= a.len(),
            i <= b.len(),
            forall|j: int| 0 <= j < i ==> a@[j] == b@[j],
            lex_lt(a@, b@) == lex_lt_from(a@, b@, i as int),
            lex_lt(b@, a@) == lex_lt_from(b@, a@, i as int),
        decreases a.len() - i,
    {
        if a[i] < b[i] {
            return ByteOrder::Less;
        }
        if a[i] > b[i] {
            return ByteOrder::Greater;
        }
        i += 1;
    }
    if a.len() < b.len() {
        ByteOrder::Less
    } else if a.len() > b.len() {
        ByteOrder::Greater
    } else {
        assert(a@ =~= b@);
        ByteOrder::Equal
    }
}

/// The four bytes of `x`, most significant first.
pub open spec fn be_u32(x: u32) -> Seq<u8> {
    seq![
        (x / 0x100_0000) as u8,
        ((x / 0x1_0000) % 256) as u8,
        ((x / 0x100) % 256) as u8,
        (x % 256) as u8,
    ]
}

/// The eight bytes of `x`, most significant first.
pub open spec fn be_u64(x: u64) -> Seq<u8> {
    seq![
        (x / 0x100_0000_0000_0000) as u8,
        ((x / 0x1_0000_0000_0000) % 256) as u8,
        ((x / 0x100_0000_0000) % 256) as u8,
        ((x / 0x1_0000_0000) % 256) as u8,
        ((x / 0x100_0000) % 256) as u8,
        ((x / 0x1_0000) % 256) as u8,
        ((x / 0x100) % 256) as u8,
        (x % 256) as u8,
    ]
}

/// The number that eight bytes denote, most significant first.
pub open spec fn be_u64_value(s: Seq<u8>) -> int
    recommends
        s.len() == 8,
{
    s[0] * 0x100_0000_0000_0000 + s[1] * 0x1_0000_0000_0000 + s[2] * 0x100_0000_0000 + s[3]
        * 0x1_0000_0000 + s[4] * 0x100_0000 + s[5] * 0x1_0000 + s[6] * 0x100 + s[7]
}

/// The epoch as it is laid down at the end of a full key: the complement of
/// the epoch, most significant byte first, so that a later epoch gives the
/// smaller suffix.
pub open spec fn epoch_suffix(epoch: u64) -> Seq<u8> {
    be_u64((u64::MAX - epoch) as u64)
}

/// The full key of a user key at an epoch.
pub open spec fn full_key_of(user_key: Seq<u8>, epoch: u64) -> Seq<u8> {
    user_key + epoch_suffix(epoch)
}

/// The user key inside a full key: all but its last eight bytes.
pub open spec fn user_key_of(full_key: Seq<u8>) -> Seq<u8>
    recommends
        full_key.len() >= EPOCH_LEN,
{
    full_key.subrange(0, full_key.len() - EPOCH_LEN)
}

/// The epoch inside a full key.
pub open spec fn epoch_of(full_key: Seq<u8>) -> u64
    recommends
        full_key.len() >= EPOCH_LEN,
{
    (u64::MAX - be_u64_value(
        full_key.subrange(full_key.len() - EPOCH_LEN, full_key.len() as int),
    )) as u64
}

/// The eight bytes of a number denote that number again.
pub proof fn lemma_be_u64_round_trip(x: u64)
    ensures
        be_u64(x).len() == 8,
        be_u64_value(be_u64(x)) == x,
{
    assert(x == (x / 0x100_0000_0000_0000) * 0x100_0000_0000_0000 + ((x / 0x1_0000_0000_0000)
        % 256) * 0x1_0000_0000_0000 + ((x / 0x100_0000_0000) % 256) * 0x100_0000_0000 + ((x
        / 0x1_0000_0000) % 256) * 0x1_0000_0000 + ((x / 0x100_0000) % 256) * 0x100_0000 + ((x
        / 0x1_0000) % 256) * 0x1_0000 + ((x / 0x100) % 256) * 0x100 + (x % 256)) by (bit_vector);
    assert(x / 0x100_0000_0000_0000 < 256) by (bit_vector);
}

/// A full key gives back the user key and the epoch it was made of.
pub proof fn lemma_full_key_parts(user_key: Seq<u8>, epoch: u64)
    ensures
        full_key_of(user_key, epoch).len() == user_key.len() + EPOCH_LEN,
        user_key_of(full_key_of(user_key, epoch)) == user_key,
        epoch_of(full_key_of(user_key, epoch)) == epoch,
{
    let x = (u64::MAX - epoch) as u64;
    let k = full_key_of(user_key, epoch);
    lemma_be_u64_round_trip(x);
    assert(k.subrange(0, k.len() - EPOCH_LEN) =~= user_key);
    assert(k.subrange(k.len() - EPOCH_LEN, k.len() as int) =~= be_u64(x));
}

/// Behind a common prefix the order of two byte strings is the order of what
/// follows the prefix.
pub proof fn lemma_lex_common_prefix(p: Seq<u8>, a: Seq<u8>, b: Seq<u8>)
    ensures
        lex_lt(p + a, p + b) == lex_lt(a, b),
{
    lemma_lex_shift(p, a, b, 0);
    lemma_lex_skip_prefix(p, a, b, 0);
}

proof fn lemma_lex_shift(p: Seq<u8>, a: Seq<u8>, b: Seq<u8>, j: int)
    requires
        0 <= j,
    ensures
        lex_lt_from(p + a, p + b, p.len() + j) == lex_lt_from(a, b, j),
    decreases a.len() - j,
{
    if j < a.len() && j < b.len() {
        assert((p + a)[p.len() + j] == a[j]);
        assert((p + b)[p.len() + j] == b[j]);
        if a[j] == b[j] {
            lemma_lex_shift(p, a, b, j + 1);
        }
    }
}

proof fn lemma_lex_skip_prefix(p: Seq<u8>, a: Seq<u8>, b: Seq<u8>, i: int)
    requires
        0 <= i <= p.len(),
    ensures
        lex_lt_from(p + a, p + b, i) == lex_lt_from(p + a, p + b, p.len() as int),
    decreases p.len() - i,
{
    if i < p.len() {
        assert((p + a)[i] == p[i]);
        assert((p + b)[i] == p[i]);
        lemma_lex_skip_prefix(p, a, b, i + 1);
    }
}

/// The eight bytes of a smaller number come first in the order of byte
/// strings.
pub proof fn lemma_be_u64_ascends(x: u64, y: u64)
    requires
        x < y,
    ensures
        lex_lt(be_u64(x), be_u64(y)),
{
    let a = be_u64(x);
    let b = be_u64(y);
    lemma_be_u64_round_trip(x);
    lemma_be_u64_round_trip(y);
    reveal_with_fuel(lex_lt_from, 9);
    assert(a.len() == 8 && b.len() == 8);
    if a[0] != b[0] {
    } else if a[1] != b[1] {
    } else if a[2] != b[2] {
    } else if a[3] != b[3] {
    } else if a[4] != b[4] {
    } else if a[5] != b[5] {
    } else if a[6] != b[6] {
    } else {
    }
}

/// Under one user key the full key of a later epoch comes first.
pub proof fn lemma_later_epoch_sorts_first(user_key: Seq<u8>, later: u64, earlier: u64)
    requires
        later > earlier,
    ensures
        lex_lt(full_key_of(user_key, later), full_key_of(user_key, earlier)),
{
    lemma_be_u64_ascends((u64::MAX - later) as u64, (u64::MAX - earlier) as u64);
    lemma_lex_common_prefix(user_key, epoch_suffix(later), epoch_suffix(earlier));
}

/// The user key of a full key.
pub fn user_key(full_key: &[u8]) -> (r: &[u8])
    requires
        full_key@.len() >= EPOCH_LEN,
    ensures
        r@ == user_key_of(full_key@),
{
    vstd::slice::slice_subrange(full_key, 0, full_key.len() - EPOCH_LEN)
}

/// The epoch of a full key.
pub fn get_epoch(full_key: &[u8]) -> (r: u64)
    requires
        full_key@.len() >= EPOCH_LEN,
    ensures
        r == epoch_of(full_key@),
{
    let n: usize = full_key.len() - EPOCH_LEN;
    let v: u64 = (full_key[n] as u64) * 0x100_0000_0000_0000 + (full_key[n + 1] as u64)
        * 0x1_0000_0000_0000 + (full_key[n + 2] as u64) * 0x100_0000_0000 + (full_key[n + 3] as u64)
        * 0x1_0000_0000 + (full_key[n + 4] as u64) * 0x100_0000 + (full_key[n + 5] as u64) * 0x1_0000
        + (full_key[n + 6] as u64) * 0x100 + (full_key[n + 7] as u64);
    u64::MAX - v
}

/// Appends the epoch to a user key, giving the full key.
pub fn key_with_epoch(user_key: Vec<u8>, epoch: u64) -> (r: Vec<u8>)
    ensures
        r@ == full_key_of(user_key@, epoch),
{
    let x: u64 = u64::MAX - epoch;
    let mut r = user_key;
    assert(x / 0x100_0000_0000_0000 < 256) by (bit_vector);
    r.push((x / 0x100_0000_0000_0000) as u8);
    r.push(((x / 0x1_0000_0000_0000) % 256) as u8);
    r.push(((x / 0x100_0000_0000) % 256) as u8);
    r.push(((x / 0x1_0000_0000) % 256) as u8);
    r.push(((x / 0x100_0000) % 256) as u8);
    r.push(((x / 0x1_0000) % 256) as u8);
    r.push(((x / 0x100) % 256) as u8);
    r.push((x % 256) as u8);
    assert(r@ =~= full_key_of(user_key@, epoch));
    r
}

/// The four-byte suffix that names a cell of a row.
pub fn serialize_cell_idx(cell_idx: u32) -> (r: Vec<u8>)
    ensures
        r@ == be_u32(cell_idx),
{
    let mut r: Vec<u8> = Vec::new();
    assert(cell_idx / 0x100_0000 < 256) by (bit_vector);
    r.push((cell_idx / 0x100_0000) as u8);
    r.push(((cell_idx / 0x1_0000) % 256) as u8);
    r.push(((cell_idx / 0x100) % 256) as u8);
    r.push((cell_idx % 256) as u8);
    assert(r@ =~= be_u32(cell_idx));
    r
}

/// Copies a byte string.
pub fn copy_bytes(s: &[u8]) -> (r: Vec<u8>)
    ensures
        r@ == s@,
{
    let mut r: Vec<u8> = Vec::new();
    let mut i: usize = 0;
    while i < s.len()
        invariant
            i <= s.len(),
            r@ == s@.subrange(0, i as int),
        decreases s.len() - i,
    {
        r.push(s[i]);
        i += 1;
        assert(r@ =~= s@.subrange(0, i as int));
    }
    assert(s@.subrange(0, s.len() as int) =~= s@);
    r
}

/// Concatenates two byte strings.
pub fn concat_bytes(a: &[u8], b: &[u8]) -> (r: Vec<u8>)
    ensures
        r@ == a@ + b@,
{
    let mut r = copy_bytes(a);
    let mut i: usize = 0;
    while i < b.len()
        invariant
            i <= b.len(),
            r@ == a@ + b@.subrange(0, i as int),
        decreases b.len() - i,
    {
        r.push(b[i]);
        i += 1;
        assert(r@ =~= a@ + b@.subrange(0, i as int));
    }
    assert(b@.subrange(0, b.len() as int) =~= b@);
    r
}

} // verus!
