//! The wire format. A scalar or point is its 32 bytes; a sequence is its
//! element count, as 8 little-endian bytes, followed by its elements; a
//! matrix is its row count followed by each row as a sequence.
use crate::clsag::concat;
use crate::kernel::{point_matrix, point_seq};
use crate::primitives::le_value;
use vstd::prelude::*;

verus! {

broadcast use crate::primitives::lemma_le_nonneg;

/// `256^k`.
pub open spec fn count_bound(k: nat) -> nat
    decreases k,
{
    if k == 0 {
        1
    } else {
        256 * count_bound((k - 1) as nat)
    }
}

/// The `k` little-endian bytes of `n`.
pub open spec fn count_bytes(n: nat, k: nat) -> Seq<u8>
    decreases k,
{
    if k == 0 {
        Seq::empty()
    } else {
        seq![(n % 256) as u8] + count_bytes(n / 256, (k - 1) as nat)
    }
}

/// A sequence of 32-byte elements: its count, then the elements.
pub open spec fn list_bytes(v: Seq<Seq<u8>>) -> Seq<u8> {
    count_bytes(v.len(), 8) + concat(v)
}

/// A matrix: its row count, then each row as a sequence.
pub open spec fn matrix_bytes(m: Seq<Seq<Seq<u8>>>) -> Seq<u8> {
    count_bytes(m.len(), 8) + concat(m.map_values(|row: Seq<Seq<u8>>| list_bytes(row)))
}

/// Reads a count at `pos`: its value and the position after it.
pub open spec fn read_count(b: Seq<u8>, pos: int) -> Option<(nat, int)> {
    if 0 <= pos && pos + 8 <= b.len() {
        Some((le_value(b.subrange(pos, pos + 8)) as nat, pos + 8))
    } else {
        None
    }
}

/// Reads `k` elements of 32 bytes from `pos`.
pub open spec fn read_chunks(b: Seq<u8>, pos: int, k: nat) -> Option<(Seq<Seq<u8>>, int)>
    decreases k,
{
    if k == 0 {
        if 0 <= pos <= b.len() {
            Some((Seq::empty(), pos))
        } else {
            None
        }
    } else {
        match read_chunks(b, pos, (k - 1) as nat) {
            Some((v, p)) => if p + 32 <= b.len() {
                Some((v.push(b.subrange(p, p + 32)), p + 32))
            } else {
                None
            },
            None => None,
        }
    }
}

/// Reads a sequence from `pos`.
pub open spec fn read_list(b: Seq<u8>, pos: int) -> Option<(Seq<Seq<u8>>, int)> {
    match read_count(b, pos) {
        Some((k, p)) => read_chunks(b, p, k),
        None => None,
    }
}

/// Reads `k` rows from `pos`.
pub open spec fn read_rows(b: Seq<u8>, pos: int, k: nat) -> Option<(Seq<Seq<Seq<u8>>>, int)>
    decreases k,
{
    if k == 0 {
        if 0 <= pos <= b.len() {
            Some((Seq::empty(), pos))
        } else {
            None
        }
    } else {
        match read_rows(b, pos, (k - 1) as nat) {
            Some((m, p)) => match read_list(b, p) {
                Some((row, q)) => Some((m.push(row), q)),
                None => None,
            },
            None => None,
        }
    }
}

/// Reads a matrix from `pos`.
pub open spec fn read_matrix(b: Seq<u8>, pos: int) -> Option<(Seq<Seq<Seq<u8>>>, int)> {
    match read_count(b, pos) {
        Some((k, p)) => read_rows(b, p, k),
        None => None,
    }
}

/// Reads 32 bytes from `pos`.
pub open spec fn read_chunk(b: Seq<u8>, pos: int) -> Option<(Seq<u8>, int)> {
    if 0 <= pos && pos + 32 <= b.len() {
        Some((b.subrange(pos, pos + 32), pos + 32))
    } else {
        None
    }
}

/// Every element is 32 bytes long.
pub open spec fn all_chunks(v: Seq<Seq<u8>>) -> bool {
    forall|i: int| 0 <= i < v.len() ==> (#[trigger] v[i]).len() == 32
}

pub proof fn lemma_count_round_trip(n: nat, k: nat)
    requires
        n < count_bound(k),
    ensures
        count_bytes(n, k).len() == k,
        le_value(count_bytes(n, k)) == n,
    decreases k,
{
    if k > 0 {
        lemma_count_round_trip(n / 256, (k - 1) as nat);
        let b = count_bytes(n, k);
        assert(b.subrange(1, b.len() as int) =~= count_bytes(n / 256, (k - 1) as nat));
    }
}

pub proof fn lemma_concat_append(a: Seq<Seq<u8>>, b: Seq<Seq<u8>>)
    ensures
        concat(a + b) == concat(a) + concat(b),
    decreases b.len(),
{
    if b.len() == 0 {
        assert(a + b =~= a);
        assert(concat(a) + concat(b) =~= concat(a));
    } else {
        lemma_concat_append(a, b.drop_last());
        assert((a + b).drop_last() =~= a + b.drop_last());
        assert(concat(a + b) =~= concat(a) + concat(b));
    }
}

pub proof fn lemma_concat_single(x: Seq<u8>)
    ensures
        concat(seq![x]) == x,
{
    assert(seq![x].drop_last() =~= Seq::<Seq<u8>>::empty());
    assert(concat(Seq::<Seq<u8>>::empty()) == Seq::<u8>::empty());
    assert(concat(seq![x]) =~= x);
}

pub proof fn lemma_count_bound_step(k: nat)
    ensures
        count_bound(k) >= 1,
        count_bound(k + 1) == 256 * count_bound(k),
    decreases k,
{
    if k > 0 {
        lemma_count_bound_step((k - 1) as nat);
    }
}

pub proof fn lemma_concat_chunks(v: Seq<Seq<u8>>)
    requires
        all_chunks(v),
    ensures
        concat(v).len() == 32 * v.len(),
        forall|i: int| 0 <= i < v.len() ==> concat(v).subrange(32 * i, 32 * i + 32) == #[trigger] v[i],
    decreases v.len(),
{
    if v.len() > 0 {
        let w = v.drop_last();
        lemma_concat_chunks(w);
        assert(concat(v) == concat(w) + v.last());
        assert forall|i: int| 0 <= i < v.len() implies concat(v).subrange(32 * i, 32 * i + 32)
            == #[trigger] v[i] by {
            if i < w.len() {
                assert(w[i] == v[i]);
                assert(concat(w).subrange(32 * i, 32 * i + 32) == w[i]);
                assert(concat(v).subrange(32 * i, 32 * i + 32) =~= concat(w).subrange(32 * i, 32 * i + 32));
            } else {
                assert(v.last().len() == 32);
                assert(concat(v).subrange(32 * i, 32 * i + 32) =~= v.last());
            }
        }
    }
}

/// Reading `k` elements from where a run of 32-byte elements is laid out
/// gives the first `k` of them.
pub proof fn lemma_read_chunks(b: Seq<u8>, pos: int, v: Seq<Seq<u8>>, k: nat)
    requires
        all_chunks(v),
        k <= v.len(),
        0 <= pos,
        pos + 32 * v.len() <= b.len(),
        b.subrange(pos, pos + 32 * v.len()) == concat(v),
    ensures
        read_chunks(b, pos, k) == Some((v.take(k as int), pos + 32 * k)),
    decreases k,
{
    lemma_concat_chunks(v);
    if k == 0 {
        assert(v.take(0) =~= Seq::<Seq<u8>>::empty());
    } else {
        lemma_read_chunks(b, pos, v, (k - 1) as nat);
        let i = k - 1;
        assert(b.subrange(pos + 32 * i, pos + 32 * i + 32) =~= concat(v).subrange(32 * i, 32 * i + 32));
        assert(v.take(i).push(v[i]) =~= v.take(k as int));
    }
}

/// Reading a sequence where one is laid out gives it back.
pub proof fn lemma_read_list(b: Seq<u8>, pos: int, v: Seq<Seq<u8>>)
    requires
        all_chunks(v),
        v.len() < count_bound(8),
        0 <= pos,
        pos + list_bytes(v).len() <= b.len(),
        b.subrange(pos, pos + list_bytes(v).len()) == list_bytes(v),
    ensures
        read_list(b, pos) == Some((v, pos + list_bytes(v).len())),
        list_bytes(v).len() == 8 + 32 * v.len(),
{
    lemma_count_round_trip(v.len(), 8);
    lemma_concat_chunks(v);
    let lb = list_bytes(v);
    assert(b.subrange(pos, pos + 8) =~= lb.subrange(0, 8));
    assert(lb.subrange(0, 8) =~= count_bytes(v.len(), 8));
    assert(b.subrange(pos + 8, pos + 8 + 32 * v.len()) =~= lb.subrange(8, lb.len() as int));
    assert(lb.subrange(8, lb.len() as int) =~= concat(v));
    lemma_read_chunks(b, pos + 8, v, v.len());
    assert(v.take(v.len() as int) =~= v);
}

/// The rows of a matrix, each as a sequence.
pub open spec fn row_lists(m: Seq<Seq<Seq<u8>>>) -> Seq<Seq<u8>> {
    m.map_values(|row: Seq<Seq<u8>>| list_bytes(row))
}

/// Every row is a run of 32-byte elements short enough to count.
pub open spec fn all_rows(m: Seq<Seq<Seq<u8>>>) -> bool {
    forall|i: int| 0 <= i < m.len() ==> all_chunks(#[trigger] m[i]) && m[i].len() < count_bound(8)
}

/// Reading `k` rows from where a matrix's rows are laid out gives the first
/// `k` of them.
pub proof fn lemma_read_rows(b: Seq<u8>, pos: int, m: Seq<Seq<Seq<u8>>>, k: nat)
    requires
        all_rows(m),
        k <= m.len(),
        0 <= pos,
        pos + concat(row_lists(m)).len() <= b.len(),
        b.subrange(pos, pos + concat(row_lists(m)).len()) == concat(row_lists(m)),
    ensures
        read_rows(b, pos, k) == Some((m.take(k as int), pos + concat(row_lists(m.take(k as int))).len())),
    decreases k,
{
    if k == 0 {
        assert(m.take(0) =~= Seq::<Seq<Seq<u8>>>::empty());
        assert(row_lists(m.take(0)) =~= Seq::<Seq<u8>>::empty());
    } else {
        let i = k - 1;
        lemma_read_rows(b, pos, m, i as nat);
        let front = row_lists(m.take(i));
        let rest = row_lists(m.skip(i));
        assert(row_lists(m) =~= front + rest);
        lemma_concat_append(front, rest);
        assert(rest =~= seq![list_bytes(m[i])] + row_lists(m.skip(k as int)));
        lemma_concat_append(seq![list_bytes(m[i])], row_lists(m.skip(k as int)));
        lemma_concat_single(list_bytes(m[i]));
        let p = pos + concat(front).len();
        let lb = list_bytes(m[i]);
        let whole = concat(row_lists(m));
        assert(whole == concat(front) + (lb + concat(row_lists(m.skip(k as int)))));
        assert(whole.subrange(concat(front).len() as int, (concat(front).len() + lb.len()) as int) =~= lb);
        assert(b.subrange(p, p + lb.len()) =~= concat(row_lists(m)).subrange(
            concat(front).len() as int,
            (concat(front).len() + lb.len()) as int,
        ));
        assert(all_chunks(m[i]));
        lemma_read_list(b, p, m[i]);
        assert(m.take(i).push(m[i]) =~= m.take(k as int));
        assert(row_lists(m.take(k as int)) =~= front + seq![lb]);
        lemma_concat_append(front, seq![lb]);
        lemma_concat_single(lb);
    }
}

/// Reading a matrix where one is laid out gives it back.
pub proof fn lemma_read_matrix(b: Seq<u8>, pos: int, m: Seq<Seq<Seq<u8>>>)
    requires
        all_rows(m),
        m.len() < count_bound(8),
        0 <= pos,
        pos + matrix_bytes(m).len() <= b.len(),
        b.subrange(pos, pos + matrix_bytes(m).len()) == matrix_bytes(m),
    ensures
        read_matrix(b, pos) == Some((m, pos + matrix_bytes(m).len())),
{
    lemma_count_round_trip(m.len(), 8);
    let mb = matrix_bytes(m);
    let body = concat(row_lists(m));
    assert(row_lists(m) == m.map_values(|row: Seq<Seq<u8>>| list_bytes(row)));
    assert(b.subrange(pos, pos + 8) =~= mb.subrange(0, 8));
    assert(mb.subrange(0, 8) =~= count_bytes(m.len(), 8));
    assert(b.subrange(pos + 8, pos + 8 + body.len()) =~= mb.subrange(8, mb.len() as int));
    assert(mb.subrange(8, mb.len() as int) =~= body);
    lemma_read_rows(b, pos + 8, m, m.len());
    assert(m.take(m.len() as int) =~= m);
}

/// Bytes read as a count are that count's encoding.
pub proof fn lemma_count_inverse(x: Seq<u8>)
    ensures
        count_bytes(le_value(x) as nat, x.len()) == x,
        le_value(x) < count_bound(x.len()),
    decreases x.len(),
{
    if x.len() > 0 {
        let rest = x.subrange(1, x.len() as int);
        lemma_count_inverse(rest);
        let v = le_value(x);
        assert(v == x[0] as int + 256 * le_value(rest));
        assert(v % 256 == x[0] as int);
        assert(v / 256 == le_value(rest));
        assert(rest.len() + 1 == x.len());
        lemma_count_bound_step(rest.len());
        assert(count_bytes(v as nat, x.len()) =~= seq![x[0]] + rest);
        assert(seq![x[0]] + rest =~= x);
    } else {
        assert(x =~= Seq::<u8>::empty());
    }
}

/// What reading `k` elements found is laid out where it was read.
pub proof fn lemma_read_chunks_inverse(b: Seq<u8>, pos: int, k: nat)
    requires
        read_chunks(b, pos, k) is Some,
    ensures
        ({
            let (v, q) = read_chunks(b, pos, k).unwrap();
            &&& 0 <= pos <= q <= b.len()
            &&& v.len() == k
            &&& all_chunks(v)
            &&& b.subrange(pos, q) == concat(v)
        }),
    decreases k,
{
    if k == 0 {
        assert(b.subrange(pos, pos) =~= Seq::<u8>::empty());
    } else {
        lemma_read_chunks_inverse(b, pos, (k - 1) as nat);
        let (v, p) = read_chunks(b, pos, (k - 1) as nat).unwrap();
        let c = b.subrange(p, p + 32);
        let w = v.push(c);
        assert(w.drop_last() =~= v);
        assert(b.subrange(pos, p + 32) =~= b.subrange(pos, p) + c);
    }
}

/// What reading a sequence found is laid out where it was read.
pub proof fn lemma_read_list_inverse(b: Seq<u8>, pos: int)
    requires
        read_list(b, pos) is Some,
    ensures
        ({
            let (v, q) = read_list(b, pos).unwrap();
            &&& 0 <= pos <= q <= b.len()
            &&& all_chunks(v)
            &&& v.len() < count_bound(8)
            &&& b.subrange(pos, q) == list_bytes(v)
        }),
{
    let x = b.subrange(pos, pos + 8);
    lemma_count_inverse(x);
    let k = le_value(x) as nat;
    lemma_read_chunks_inverse(b, pos + 8, k);
    let (v, q) = read_list(b, pos).unwrap();
    assert(b.subrange(pos, q) =~= x + b.subrange(pos + 8, q));
}

/// What reading `k` rows found is laid out where it was read.
pub proof fn lemma_read_rows_inverse(b: Seq<u8>, pos: int, k: nat)
    requires
        read_rows(b, pos, k) is Some,
    ensures
        ({
            let (m, q) = read_rows(b, pos, k).unwrap();
            &&& 0 <= pos <= q <= b.len()
            &&& m.len() == k
            &&& all_rows(m)
            &&& b.subrange(pos, q) == concat(row_lists(m))
        }),
    decreases k,
{
    if k == 0 {
        let (m, q) = read_rows(b, pos, k).unwrap();
        assert(row_lists(m) =~= Seq::<Seq<u8>>::empty());
        assert(b.subrange(pos, pos) =~= Seq::<u8>::empty());
    } else {
        lemma_read_rows_inverse(b, pos, (k - 1) as nat);
        let (m, p) = read_rows(b, pos, (k - 1) as nat).unwrap();
        lemma_read_list_inverse(b, p);
        let (row, q) = read_list(b, p).unwrap();
        let w = m.push(row);
        assert(row_lists(w) =~= row_lists(m) + seq![list_bytes(row)]);
        lemma_concat_append(row_lists(m), seq![list_bytes(row)]);
        lemma_concat_single(list_bytes(row));
        assert(b.subrange(pos, q) =~= b.subrange(pos, p) + b.subrange(p, q));
    }
}

/// What reading a matrix found is laid out where it was read.
pub proof fn lemma_read_matrix_inverse(b: Seq<u8>, pos: int)
    requires
        read_matrix(b, pos) is Some,
    ensures
        ({
            let (m, q) = read_matrix(b, pos).unwrap();
            &&& 0 <= pos <= q <= b.len()
            &&& all_rows(m)
            &&& m.len() < count_bound(8)
            &&& b.subrange(pos, q) == matrix_bytes(m)
        }),
{
    let x = b.subrange(pos, pos + 8);
    lemma_count_inverse(x);
    let k = le_value(x) as nat;
    lemma_read_rows_inverse(b, pos + 8, k);
    let (m, q) = read_matrix(b, pos).unwrap();
    assert(row_lists(m) == m.map_values(|row: Seq<Seq<u8>>| list_bytes(row)));
    assert(b.subrange(pos, q) =~= x + b.subrange(pos + 8, q));
}

/// Reads 32 bytes at `pos`.
pub fn read_chunk_at(b: &[u8], pos: usize) -> (r: Option<([u8; 32], usize)>)
    ensures
        match read_chunk(b@, pos as int) {
            Some((c, p)) => r matches Some((x, q)) && x@ == c && q == p,
            None => r is None,
        },
{
    if pos > b.len() || b.len() - pos < 32 {
        return None;
    }
    let mut x = [0u8; 32];
    let mut i: usize = 0;
    while i < 32
        invariant
            pos + 32 <= b.len(),
            b@.len() == b.len(),
            i <= 32,
            forall|k: int| 0 <= k < i ==> x@[k] == b@[pos + k],
        decreases 32 - i,
    {
        x[i] = b[pos + i];
        i = i + 1;
    }
    assert(x@ =~= b@.subrange(pos as int, pos + 32));
    Some((x, pos + 32))
}

/// Reads a count at `pos`.
pub fn read_count_at(b: &[u8], pos: usize) -> (r: Option<(u64, usize)>)
    ensures
        match read_count(b@, pos as int) {
            Some((k, p)) => r matches Some((x, q)) && x as nat == k && q == p,
            None => r is None,
        },
{
    if pos > b.len() || b.len() - pos < 8 {
        return None;
    }
    let ghost x = b@.subrange(pos as int, pos + 8);
    let mut v: u64 = 0;
    let mut i: usize = 8;
    proof {
        assert(x.subrange(8, 8) =~= Seq::<u8>::empty());
        assert(count_bound(0) == 1);
    }
    while i > 0
        invariant
            pos + 8 <= b.len(),
            b@.len() == b.len(),
            x == b@.subrange(pos as int, pos + 8),
            i <= 8,
            v == le_value(x.subrange(i as int, 8)),
            v < count_bound((8 - i) as nat),
        decreases i,
    {
        let ghost suffix = x.subrange(i as int, 8);
        i = i - 1;
        proof {
            let t = x.subrange(i as int, 8);
            assert(t.subrange(1, t.len() as int) =~= suffix);
            assert(t[0] == b@[pos + i]);
            lemma_count_bound_step((8 - i - 1) as nat);
            lemma_count_bound_step((7 - i) as nat);
            lemma_count_bound_64();
            lemma_count_bound_mono((8 - i) as nat, 8);
            assert(v < count_bound((7 - i) as nat));
            assert(count_bound((8 - i) as nat) == 256 * count_bound((7 - i) as nat));
            assert(v * 256 + 255 < count_bound((8 - i) as nat));
        }
        v = v * 256 + b[pos + i] as u64;
    }
    assert(x.subrange(0, 8) =~= x);
    Some((v, pos + 8))
}

pub proof fn lemma_count_bound_64()
    ensures
        count_bound(8) == 0x1_0000_0000_0000_0000,
{
    reveal_with_fuel(count_bound, 9);
}

pub proof fn lemma_count_bound_mono(a: nat, b: nat)
    requires
        a <= b,
    ensures
        count_bound(a) <= count_bound(b),
    decreases b - a,
{
    if a < b {
        lemma_count_bound_mono(a, (b - 1) as nat);
        lemma_count_bound_step((b - 1) as nat);
    }
}

pub proof fn lemma_count_bytes_len(n: nat, k: nat)
    ensures
        count_bytes(n, k).len() == k,
    decreases k,
{
    if k > 0 {
        lemma_count_bytes_len(n / 256, (k - 1) as nat);
    }
}

/// Reading `k` elements needs `32·k` bytes.
pub proof fn lemma_read_chunks_room(b: Seq<u8>, pos: int, k: nat)
    requires
        read_chunks(b, pos, k) is Some,
    ensures
        pos + 32 * k <= b.len(),
{
    lemma_read_chunks_inverse(b, pos, k);
    let (v, q) = read_chunks(b, pos, k).unwrap();
    lemma_concat_chunks(v);
}

/// A matrix's rows take at least a byte each.
pub proof fn lemma_row_lists_len(m: Seq<Seq<Seq<u8>>>)
    ensures
        concat(row_lists(m)).len() >= m.len(),
    decreases m.len(),
{
    if m.len() > 0 {
        let w = m.drop_last();
        lemma_row_lists_len(w);
        assert(row_lists(m) =~= row_lists(w) + seq![list_bytes(m.last())]);
        lemma_concat_append(row_lists(w), seq![list_bytes(m.last())]);
        lemma_concat_single(list_bytes(m.last()));
        lemma_count_bytes_len(m.last().len(), 8);
    }
}

/// Reading `k` rows needs at least `k` bytes.
pub proof fn lemma_read_rows_room(b: Seq<u8>, pos: int, k: nat)
    requires
        read_rows(b, pos, k) is Some,
    ensures
        pos + k <= b.len(),
{
    lemma_read_rows_inverse(b, pos, k);
    let (m, q) = read_rows(b, pos, k).unwrap();
    lemma_row_lists_len(m);
}

/// Reads `k` elements of 32 bytes from `pos`.
pub fn read_chunks_at(b: &[u8], pos: usize, k: usize) -> (r: Option<(Vec<[u8; 32]>, usize)>)
    requires
        pos <= b.len(),
    ensures
        match read_chunks(b@, pos as int, k as nat) {
            Some((v, p)) => r matches Some((x, q)) && point_seq(x@) == v && q == p,
            None => r is None,
        },
{
    let mut x: Vec<[u8; 32]> = Vec::new();
    let mut p = pos;
    let mut t: usize = 0;
    proof {
        assert(point_seq(x@) =~= Seq::<Seq<u8>>::empty());
    }
    while t < k
        invariant
            pos <= b.len(),
            t <= k,
            read_chunks(b@, pos as int, t as nat) == Some((point_seq(x@), p as int)),
        decreases k - t,
    {
        match read_chunk_at(b, p) {
            Some((c, q)) => {
                let ghost before = x@;
                x.push(c);
                p = q;
                assert(point_seq(x@) =~= point_seq(before).push(c@));
            },
            None => {
                proof {
                    lemma_read_chunks_none(b@, pos as int, (t + 1) as nat, k as nat);
                }
                return None;
            },
        }
        t = t + 1;
    }
    Some((x, p))
}

/// Once reading fails, reading more fails too.
pub proof fn lemma_read_chunks_none(b: Seq<u8>, pos: int, k: nat, n: nat)
    requires
        k <= n,
        read_chunks(b, pos, k) is None,
    ensures
        read_chunks(b, pos, n) is None,
    decreases n - k,
{
    if k < n {
        lemma_read_chunks_none(b, pos, k + 1, n);
    }
}

/// Once reading fails, reading more rows fails too.
pub proof fn lemma_read_rows_none(b: Seq<u8>, pos: int, k: nat, n: nat)
    requires
        k <= n,
        read_rows(b, pos, k) is None,
    ensures
        read_rows(b, pos, n) is None,
    decreases n - k,
{
    if k < n {
        lemma_read_rows_none(b, pos, k + 1, n);
    }
}

/// Reads a sequence from `pos`.
pub fn read_list_at(b: &[u8], pos: usize) -> (r: Option<(Vec<[u8; 32]>, usize)>)
    ensures
        match read_list(b@, pos as int) {
            Some((v, p)) => r matches Some((x, q)) && point_seq(x@) == v && q == p,
            None => r is None,
        },
{
    match read_count_at(b, pos) {
        Some((k, p)) => {
            if k > (b.len() - p) as u64 {
                proof {
                    if read_chunks(b@, p as int, k as nat) is Some {
                        lemma_read_chunks_room(b@, p as int, k as nat);
                    }
                }
                return None;
            }
            read_chunks_at(b, p, k as usize)
        },
        None => None,
    }
}

/// Reads a matrix from `pos`.
pub fn read_matrix_at(b: &[u8], pos: usize) -> (r: Option<(Vec<Vec<[u8; 32]>>, usize)>)
    ensures
        match read_matrix(b@, pos as int) {
            Some((m, p)) => r matches Some((x, q)) && point_matrix(x@) == m && q == p,
            None => r is None,
        },
{
    let (k, p0) = match read_count_at(b, pos) {
        Some(kp) => kp,
        None => {
            return None;
        },
    };
    if k > (b.len() - p0) as u64 {
        proof {
            if read_rows(b@, p0 as int, k as nat) is Some {
                lemma_read_rows_room(b@, p0 as int, k as nat);
            }
        }
        return None;
    }
    let k = k as usize;
    let mut x: Vec<Vec<[u8; 32]>> = Vec::new();
    let mut p = p0;
    let mut t: usize = 0;
    proof {
        assert(point_matrix(x@) =~= Seq::<Seq<Seq<u8>>>::empty());
    }
    while t < k
        invariant
            p0 <= b.len(),
            read_count(b@, pos as int) == Some((k as nat, p0 as int)),
            t <= k,
            read_rows(b@, p0 as int, t as nat) == Some((point_matrix(x@), p as int)),
        decreases k - t,
    {
        match read_list_at(b, p) {
            Some((row, q)) => {
                let ghost before = x@;
                x.push(row);
                p = q;
                assert(point_matrix(x@) =~= point_matrix(before).push(point_seq(row@)));
            },
            None => {
                proof {
                    lemma_read_rows_none(b@, p0 as int, (t + 1) as nat, k as nat);
                }
                return None;
            },
        }
        t = t + 1;
    }
    Some((x, p))
}

pub proof fn lemma_point_seq_chunks(v: Seq<[u8; 32]>)
    ensures
        all_chunks(point_seq(v)),
{
}

pub proof fn lemma_point_seq_injective(a: Seq<[u8; 32]>, b: Seq<[u8; 32]>)
    requires
        point_seq(a) == point_seq(b),
    ensures
        a == b,
{
    assert(a.len() == point_seq(a).len());
    assert forall|i: int| 0 <= i < a.len() implies a[i] == b[i] by {
        assert(point_seq(a)[i] == point_seq(b)[i]);
        assert(a[i] =~= b[i]);
    }
    assert(a =~= b);
}

pub proof fn lemma_point_matrix_rows(m: Seq<Vec<[u8; 32]>>)
    requires
        forall|i: int| 0 <= i < m.len() ==> (#[trigger] m[i]).len() < count_bound(8),
    ensures
        all_rows(point_matrix(m)),
{
    assert forall|i: int| 0 <= i < m.len() implies all_chunks(#[trigger] point_matrix(m)[i])
        && point_matrix(m)[i].len() < count_bound(8) by {
        lemma_point_seq_chunks(m[i]@);
    }
}

pub proof fn lemma_point_matrix_injective(a: Seq<Vec<[u8; 32]>>, b: Seq<Vec<[u8; 32]>>)
    requires
        point_matrix(a) == point_matrix(b),
    ensures
        a.len() == b.len(),
        forall|i: int| 0 <= i < a.len() ==> (#[trigger] a[i])@ == b[i]@,
{
    assert(a.len() == point_matrix(a).len());
    assert forall|i: int| 0 <= i < a.len() implies (#[trigger] a[i])@ == b[i]@ by {
        assert(point_matrix(a)[i] == point_matrix(b)[i]);
        lemma_point_seq_injective(a[i]@, b[i]@);
    }
}

/// Appends 32 bytes.
pub fn push_chunk(buf: &mut Vec<u8>, c: &[u8; 32])
    ensures
        final(buf)@ == old(buf)@ + c@,
{
    crate::bytes::append(buf, c.as_slice());
}

/// Appends the 8 little-endian bytes of `n`.
pub fn push_count(buf: &mut Vec<u8>, n: usize)
    ensures
        final(buf)@ == old(buf)@ + count_bytes(n as nat, 8),
{
    let mut v: u64 = n as u64;
    let mut i: usize = 0;
    proof {
        assert(count_bound(0) == 1);
        assert(buf@.subrange(old(buf)@.len() as int, buf@.len() as int) =~= Seq::<u8>::empty());
        assert(buf@.subrange(0, old(buf)@.len() as int) =~= old(buf)@);
        assert(count_bytes(n as nat, 8) =~= Seq::<u8>::empty() + count_bytes(v as nat, 8));
    }
    while i < 8
        invariant
            i <= 8,
            v as nat == (n as nat) / count_bound(i as nat),
            count_bytes(n as nat, 8) == buf@.subrange(old(buf)@.len() as int, buf@.len() as int)
                + count_bytes(v as nat, (8 - i) as nat),
            buf@.len() >= old(buf)@.len(),
            buf@.subrange(0, old(buf)@.len() as int) == old(buf)@,
        decreases 8 - i,
    {
        let ghost before = buf@;
        buf.push((v % 256) as u8);
        proof {
            assert(count_bytes(v as nat, (8 - i) as nat) =~= seq![(v % 256) as u8] + count_bytes(
                (v / 256) as nat,
                (8 - i - 1) as nat,
            ));
            assert(buf@.subrange(old(buf)@.len() as int, buf@.len() as int) =~= before.subrange(
                old(buf)@.len() as int,
                before.len() as int,
            ) + seq![(v % 256) as u8]);
            assert(buf@.subrange(0, old(buf)@.len() as int) =~= before.subrange(0, old(buf)@.len() as int));
            lemma_count_bound_step(i as nat);
            vstd::arithmetic::div_mod::lemma_div_denominator(n as int, count_bound(i as nat) as int, 256);
            assert(count_bound(i as nat) * 256 == count_bound((i + 1) as nat));
        }
        v = v / 256;
        i = i + 1;
    }
    assert(count_bytes(v as nat, 0) =~= Seq::<u8>::empty());
    assert(buf@ =~= old(buf)@ + count_bytes(n as nat, 8));
}

/// Appends a sequence of 32-byte elements.
pub fn push_list(buf: &mut Vec<u8>, v: &Vec<[u8; 32]>)
    ensures
        final(buf)@ == old(buf)@ + list_bytes(point_seq(v@)),
{
    push_count(buf, v.len());
    crate::clsag::push_row(buf, v);
    assert(buf@ =~= old(buf)@ + list_bytes(point_seq(v@)));
}

/// Appends a matrix of 32-byte elements.
pub fn push_matrix(buf: &mut Vec<u8>, m: &Vec<Vec<[u8; 32]>>)
    ensures
        final(buf)@ == old(buf)@ + matrix_bytes(point_matrix(m@)),
{
    push_count(buf, m.len());
    let ghost start = buf@;
    let ghost rows = row_lists(point_matrix(m@));
    let mut i: usize = 0;
    while i < m.len()
        invariant
            i <= m.len(),
            rows == row_lists(point_matrix(m@)),
            buf@ == start + concat(rows.subrange(0, i as int)),
        decreases m.len() - i,
    {
        push_list(buf, &m[i]);
        proof {
            assert(rows.subrange(0, i + 1).drop_last() =~= rows.subrange(0, i as int));
            assert(rows[i as int] == list_bytes(point_seq(m@[i as int]@)));
            assert(buf@ =~= start + concat(rows.subrange(0, i + 1)));
        }
        i = i + 1;
    }
    assert(rows.subrange(0, i as int) =~= rows);
    assert(buf@ =~= old(buf)@ + matrix_bytes(point_matrix(m@)));
}

} // verus!
