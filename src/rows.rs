//! Reshaping and checking the sequences and matrices that signatures carry.
use crate::kernel::{all_scalars, matrix_values, point_matrix, point_seq, scalar_values};
use crate::primitives::{is_point, is_scalar, point_canonical, scalar_canonical};
use vstd::prelude::*;

verus! {

/// Each entry of `s` as a row of its own.
pub open spec fn column<T>(s: Seq<T>) -> Seq<Seq<T>> {
    s.map_values(|x: T| seq![x])
}

/// Every entry is the canonical encoding of a point.
pub open spec fn all_points(s: Seq<[u8; 32]>) -> bool {
    forall|j: int| 0 <= j < s.len() ==> is_point(#[trigger] s[j]@)
}

/// Every row of a matrix is `width` canonical point encodings.
pub open spec fn points_matrix_wf(m: Seq<Vec<[u8; 32]>>, width: int) -> bool {
    forall|i: int| 0 <= i < m.len() ==> (#[trigger] m[i]).len() == width && all_points(m[i]@)
}

/// Every row of a matrix is `width` canonical scalar encodings.
pub open spec fn scalars_matrix_wf(m: Seq<Vec<[u8; 32]>>, width: int) -> bool {
    forall|i: int| 0 <= i < m.len() ==> (#[trigger] m[i]).len() == width && all_scalars(m[i]@)
}

/// Each entry of `v` as a row of its own.
pub fn column_of(v: &Vec<[u8; 32]>) -> (r: Vec<Vec<[u8; 32]>>)
    ensures
        r.len() == v.len(),
        forall|i: int| 0 <= i < v.len() ==> (#[trigger] r@[i])@ == seq![v@[i]],
        point_matrix(r@) == column(point_seq(v@)),
        matrix_values(r@) == column(scalar_values(v@)),
{
    let mut r: Vec<Vec<[u8; 32]>> = Vec::new();
    let mut i: usize = 0;
    while i < v.len()
        invariant
            i <= v.len(),
            r.len() == i,
            forall|k: int| 0 <= k < i ==> (#[trigger] r@[k])@ == seq![v@[k]],
        decreases v.len() - i,
    {
        let mut row: Vec<[u8; 32]> = Vec::new();
        row.push(v[i]);
        assert(row@ =~= seq![v@[i as int]]);
        r.push(row);
        i = i + 1;
    }
    assert(point_matrix(r@) =~~= column(point_seq(v@)));
    assert(matrix_values(r@) =~~= column(scalar_values(v@)));
    r
}

/// The first entry of each row.
pub fn first_column(m: &Vec<Vec<[u8; 32]>>) -> (r: Vec<[u8; 32]>)
    requires
        forall|i: int| 0 <= i < m.len() ==> (#[trigger] m@[i]).len() >= 1,
    ensures
        r.len() == m.len(),
        forall|i: int| 0 <= i < m.len() ==> #[trigger] r@[i] == m@[i]@[0],
{
    let mut r: Vec<[u8; 32]> = Vec::new();
    let mut i: usize = 0;
    while i < m.len()
        invariant
            i <= m.len(),
            r.len() == i,
            forall|k: int| 0 <= k < m.len() ==> (#[trigger] m@[k]).len() >= 1,
            forall|k: int| 0 <= k < i ==> #[trigger] r@[k] == m@[k]@[0],
        decreases m.len() - i,
    {
        r.push(m[i][0]);
        i = i + 1;
    }
    r
}

/// Whether every entry is a canonical scalar encoding.
pub fn check_scalars(v: &Vec<[u8; 32]>) -> (r: bool)
    ensures
        r == all_scalars(v@),
{
    let mut i: usize = 0;
    while i < v.len()
        invariant
            i <= v.len(),
            forall|k: int| 0 <= k < i ==> is_scalar(#[trigger] v@[k]@),
        decreases v.len() - i,
    {
        if !scalar_canonical(v[i]) {
            assert(!is_scalar(v@[i as int]@));
            return false;
        }
        i = i + 1;
    }
    true
}

/// Whether every entry is a canonical point encoding.
pub fn check_points(v: &Vec<[u8; 32]>) -> (r: bool)
    ensures
        r == all_points(v@),
{
    let mut i: usize = 0;
    while i < v.len()
        invariant
            i <= v.len(),
            forall|k: int| 0 <= k < i ==> is_point(#[trigger] v@[k]@),
        decreases v.len() - i,
    {
        if !point_canonical(&v[i]) {
            return false;
        }
        i = i + 1;
    }
    true
}

/// Whether every row has `width` entries, all canonical point encodings.
pub fn check_point_rows(m: &Vec<Vec<[u8; 32]>>, width: usize) -> (r: bool)
    ensures
        r == points_matrix_wf(m@, width as int),
{
    let mut i: usize = 0;
    while i < m.len()
        invariant
            i <= m.len(),
            forall|k: int| 0 <= k < i ==> (#[trigger] m@[k]).len() == width && all_points(m@[k]@),
        decreases m.len() - i,
    {
        if m[i].len() != width || !check_points(&m[i]) {
            return false;
        }
        i = i + 1;
    }
    true
}

/// Whether every row has `width` entries, all canonical scalar encodings.
pub fn check_scalar_rows(m: &Vec<Vec<[u8; 32]>>, width: usize) -> (r: bool)
    ensures
        r == scalars_matrix_wf(m@, width as int),
{
    let mut i: usize = 0;
    while i < m.len()
        invariant
            i <= m.len(),
            forall|k: int| 0 <= k < i ==> (#[trigger] m@[k]).len() == width && all_scalars(m@[k]@),
        decreases m.len() - i,
    {
        if m[i].len() != width || !check_scalars(&m[i]) {
            return false;
        }
        i = i + 1;
    }
    true
}

/// A copy of a matrix of encodings.
pub fn copy_rows(m: &Vec<Vec<[u8; 32]>>) -> (r: Vec<Vec<[u8; 32]>>)
    ensures
        r.len() == m.len(),
        forall|i: int| 0 <= i < m.len() ==> (#[trigger] r@[i])@ == m@[i]@,
{
    let mut r: Vec<Vec<[u8; 32]>> = Vec::new();
    let mut i: usize = 0;
    while i < m.len()
        invariant
            i <= m.len(),
            r.len() == i,
            forall|k: int| 0 <= k < i ==> (#[trigger] r@[k])@ == m@[k]@,
        decreases m.len() - i,
    {
        r.push(copy_row(&m[i]));
        i = i + 1;
    }
    r
}

/// A copy of a sequence of encodings.
pub fn copy_row(v: &Vec<[u8; 32]>) -> (r: Vec<[u8; 32]>)
    ensures
        r@ == v@,
{
    let mut r: Vec<[u8; 32]> = Vec::new();
    let mut i: usize = 0;
    while i < v.len()
        invariant
            i <= v.len(),
            r@ == v@.subrange(0, i as int),
        decreases v.len() - i,
    {
        r.push(v[i]);
        i = i + 1;
        assert(r@ =~= v@.subrange(0, i as int));
    }
    assert(v@.subrange(0, i as int) =~= v@);
    r
}

/// A copy of a byte string.
pub fn to_vec(data: &[u8]) -> (r: Vec<u8>)
    ensures
        r@ == data@,
{
    let mut r: Vec<u8> = Vec::new();
    crate::bytes::append(&mut r, data);
    r
}

} // verus!
