//! Dense row-major tensors.

use vstd::prelude::*;

verus! {

/// The number of elements of a tensor of this shape.
pub open spec fn volume(shape: Seq<usize>) -> nat
    decreases shape.len(),
{
    if shape.len() == 0 {
        1
    } else {
        volume(shape.drop_last()) * shape.last() as nat
    }
}

/// A tensor of any rank, its elements in row-major order.
#[derive(Clone, Debug)]
pub struct NdArray<T> {
    pub shape: Vec<usize>,
    pub data: Vec<T>,
}

impl<T> NdArray<T> {
    /// Whether there are as many elements as the shape says.
    pub open spec fn wf(&self) -> bool {
        self.data@.len() == volume(self.shape@)
    }

    /// Whether this is a tensor of rank 4.
    pub open spec fn is_rank4(&self) -> bool {
        self.shape@.len() == 4
    }

    /// The row `[a, b, c, ..]` of a tensor of rank 4.
    pub open spec fn row4(&self, a: int, b: int, c: int) -> Seq<T> {
        let d = self.shape@[3] as int;
        let at = row4_index(self.shape@, a, b, c) * d;
        self.data@.subrange(at, at + d)
    }
}

/// The position of the row `[a, b, c, ..]` among the rows of a tensor of rank 4.
pub open spec fn row4_index(shape: Seq<usize>, a: int, b: int, c: int) -> int {
    (a * shape[1] + b) * shape[2] + c
}

/// A matrix, its elements in row-major order.
#[derive(Clone, Debug)]
pub struct Matrix<T> {
    pub rows: usize,
    pub cols: usize,
    pub data: Vec<T>,
}

impl<T> Matrix<T> {
    /// Whether there are as many elements as rows and columns say.
    pub open spec fn wf(&self) -> bool {
        self.data@.len() == self.rows * self.cols
    }

    /// The element in row `i` and column `j`.
    pub open spec fn at(&self, i: int, j: int) -> T {
        self.data@[i * self.cols + j]
    }

    /// Row `i`.
    pub open spec fn row(&self, i: int) -> Seq<T> {
        self.data@.subrange(i * self.cols, i * self.cols + self.cols)
    }
}

/// `data` with the `len` elements from `at` on replaced.
pub open spec fn splice<T>(data: Seq<T>, at: int, len: int, by: Seq<T>) -> Seq<T> {
    data.subrange(0, at) + (by + data.subrange(at + len, data.len() as int))
}

/// Replacing one row of a matrix leaves the others as they were.
pub proof fn lemma_row_replaced<T>(before: Matrix<T>, after: Matrix<T>, i: int, by: Seq<T>)
    requires
        before.wf(),
        0 <= i < before.rows,
        by.len() == before.cols,
        after.rows == before.rows,
        after.cols == before.cols,
        after.data@ == splice(before.data@, i * before.cols, before.cols as int, by),
    ensures
        after.wf(),
        after.row(i) == by,
        forall|j: int| 0 <= j < before.cols ==> #[trigger] after.at(i, j) == by[j],
        forall|k: int, j: int|
            0 <= k < before.rows && 0 <= j < before.cols && k != i ==> #[trigger] after.at(k, j)
                == before.at(k, j),
{
    let cols = before.cols as int;
    let rows = before.rows as int;
    assert((i + 1) * cols <= rows * cols) by (nonlinear_arith)
        requires
            i + 1 <= rows,
            0 <= cols,
    ;
    assert((i + 1) * cols == i * cols + cols) by (nonlinear_arith);
    assert(0 <= i * cols) by (nonlinear_arith)
        requires
            0 <= i,
            0 <= cols,
    ;
    assert(after.row(i) =~= by);
    assert forall|k: int, j: int| 0 <= k < rows && 0 <= j < cols && k != i implies #[trigger] after.at(
        k,
        j,
    ) == before.at(k, j) by {
        lemma_cell_in_bounds(k, j, rows, cols);
        if k < i {
            assert((k + 1) * cols <= i * cols) by (nonlinear_arith)
                requires
                    k + 1 <= i,
                    0 <= cols,
            ;
            assert((k + 1) * cols == k * cols + cols) by (nonlinear_arith);
        } else {
            assert((i + 1) * cols <= k * cols) by (nonlinear_arith)
                requires
                    i + 1 <= k,
                    0 <= cols,
            ;
        }
    }
}

impl<T> Matrix<T> {
    /// Row `i`, to be read.
    pub fn row_ref(&self, i: usize) -> (r: &[T])
        requires
            self.wf(),
            i < self.rows,
        ensures
            r@ == self.row(i as int),
            r@.len() == self.cols,
            forall|j: int| 0 <= j < self.cols ==> #[trigger] r@[j] == self.at(i as int, j),
    {
        let cols: usize = self.cols;
        proof {
            assert(self.data.len() == self.data@.len());
            assert((i + 1) * cols <= self.rows * cols) by (nonlinear_arith)
                requires
                    i + 1 <= self.rows,
            ;
            assert((i + 1) * cols == i * cols + cols) by (nonlinear_arith);
            assert(0 <= i * cols) by (nonlinear_arith);
        }
        vstd::slice::slice_subrange(self.data.as_slice(), i * cols, i * cols + cols)
    }

    /// Row `i`, to be written.
    pub fn row_mut(&mut self, i: usize) -> (r: &mut [T])
        requires
            old(self).wf(),
            i < old(self).rows,
        ensures
            r@ == old(self).row(i as int),
            r@.len() == old(self).cols,
            final(self).rows == old(self).rows,
            final(self).cols == old(self).cols,
            final(self).data@ == splice(
                old(self).data@,
                i * old(self).cols,
                old(self).cols as int,
                final(r)@,
            ),
    {
        let cols: usize = self.cols;
        proof {
            assert(self.data.len() == self.data@.len());
            assert((i + 1) * cols <= self.rows * cols) by (nonlinear_arith)
                requires
                    i + 1 <= self.rows,
            ;
            assert((i + 1) * cols == i * cols + cols) by (nonlinear_arith);
            assert(0 <= i * cols) by (nonlinear_arith);
        }
        let (head, tail) = self.data.as_mut_slice().split_at_mut(i * cols);
        let (r, rest) = tail.split_at_mut(cols);
        r
    }
}

impl<T> Matrix<T> {
    /// The rows, from the first to the last.
    pub open spec fn all_rows(&self) -> Seq<Seq<T>> {
        Seq::new(self.rows as nat, |i: int| self.row(i))
    }
}

/// The four extents of a tensor of rank 4 multiply to its volume.
pub proof fn lemma_volume4(shape: Seq<usize>)
    requires
        shape.len() == 4,
    ensures
        volume(shape) == shape[0] * shape[1] * shape[2] * shape[3],
{
    reveal_with_fuel(volume, 5);
    let s3 = shape.drop_last();
    let s2 = s3.drop_last();
    let s1 = s2.drop_last();
    assert(s1.drop_last().len() == 0);
    assert(volume(s1) == 1 * shape[0] as nat);
    assert(volume(s2) == volume(s1) * shape[1] as nat);
    assert(volume(s3) == volume(s2) * shape[2] as nat);
    assert(1 * shape[0] as nat == shape[0] as nat);
}

/// A row of a matrix has its width.
pub proof fn lemma_row_len<T>(a: &Matrix<T>, i: int)
    requires
        a.wf(),
        0 <= i < a.rows,
    ensures
        a.row(i).len() == a.cols,
        forall|j: int| 0 <= j < a.cols ==> #[trigger] a.row(i)[j] == a.at(i, j),
        0 <= i * a.cols,
        i * a.cols + a.cols <= a.data@.len(),
{
    let cols = a.cols as int;
    assert((i + 1) * cols <= a.rows * cols) by (nonlinear_arith)
        requires
            i + 1 <= a.rows,
            0 <= cols,
    ;
    assert((i + 1) * cols == i * cols + cols) by (nonlinear_arith);
    assert(0 <= i * cols) by (nonlinear_arith)
        requires
            0 <= i,
            0 <= cols,
    ;
}

/// A row of a tensor of rank 4 lies within its elements.
pub proof fn lemma_row4_len<T>(q: &NdArray<T>, a: int, b: int, c: int)
    requires
        q.wf(),
        q.is_rank4(),
        0 <= a < q.shape@[0],
        0 <= b < q.shape@[1],
        0 <= c < q.shape@[2],
    ensures
        q.row4(a, b, c).len() == q.shape@[3],
        0 <= a * q.shape@[1] + b,
        0 <= (a * q.shape@[1] + b) * q.shape@[2],
        0 <= row4_index(q.shape@, a, b, c) * q.shape@[3],
        row4_index(q.shape@, a, b, c) * q.shape@[3] + q.shape@[3] <= q.data@.len(),
        row4_index(q.shape@, a, b, c) < q.shape@[0] * q.shape@[1] * q.shape@[2],
{
    let (s0, s1, s2, s3) = (
        q.shape@[0] as int,
        q.shape@[1] as int,
        q.shape@[2] as int,
        q.shape@[3] as int,
    );
    lemma_volume4(q.shape@);
    lemma_cell_in_bounds(a, b, s0, s1);
    lemma_cell_in_bounds(a * s1 + b, c, s0 * s1, s2);
    let r = row4_index(q.shape@, a, b, c);
    assert((r + 1) * s3 <= s0 * s1 * s2 * s3) by (nonlinear_arith)
        requires
            r + 1 <= s0 * s1 * s2,
            0 <= s3,
    ;
    assert((r + 1) * s3 == r * s3 + s3) by (nonlinear_arith);
    assert(0 <= r * s3) by (nonlinear_arith)
        requires
            0 <= r,
            0 <= s3,
    ;
}

/// The rows of one head of a tensor of rank 4 lie within its elements.
pub proof fn lemma_head_fits<T>(q: &NdArray<T>, a: int, b: int)
    requires
        q.wf(),
        q.is_rank4(),
        0 <= a < q.shape@[0],
        0 <= b < q.shape@[1],
    ensures
        q.shape@[2] * q.shape@[3] <= usize::MAX,
{
    let (s2, s3) = (q.shape@[2] as int, q.shape@[3] as int);
    if s2 > 0 {
        lemma_row4_len(q, a, b, s2 - 1);
        let h = a * q.shape@[1] + b;
        let r = row4_index(q.shape@, a, b, s2 - 1);
        assert(h * s2 >= 0);
        assert(r + 1 >= s2);
        assert((r + 1) * s3 >= s2 * s3) by (nonlinear_arith)
            requires
                r + 1 >= s2,
                0 <= s3,
        ;
        assert((r + 1) * s3 == r * s3 + s3) by (nonlinear_arith);
        assert(q.data.len() == q.data@.len());
    } else {
        assert(s2 * s3 == 0) by (nonlinear_arith)
            requires
                s2 == 0,
        ;
    }
}

impl<T> NdArray<T> {
    /// The row `[a, b, c, ..]` of a tensor of rank 4, to be read.
    pub fn row4_ref(&self, a: usize, b: usize, c: usize) -> (r: &[T])
        requires
            self.wf(),
            self.is_rank4(),
            a < self.shape@[0],
            b < self.shape@[1],
            c < self.shape@[2],
        ensures
            r@ == self.row4(a as int, b as int, c as int),
            r@.len() == self.shape@[3],
    {
        proof {
            lemma_row4_len(self, a as int, b as int, c as int);
            assert(self.data.len() == self.data@.len());
            let (s0, s1, s2, s3) = (
                self.shape@[0] as int,
                self.shape@[1] as int,
                self.shape@[2] as int,
                self.shape@[3] as int,
            );
            lemma_row4_steps(a as int, b as int, c as int, s1, s2, s3, self.data@.len() as int);
        }
        let d: usize = self.shape[3];
        if d == 0 {
            let empty = vstd::slice::slice_subrange(self.data.as_slice(), 0, 0);
            assert(empty@ =~= self.row4(a as int, b as int, c as int));
            return empty;
        }
        let at: usize = ((a * self.shape[1] + b) * self.shape[2] + c) * d;
        vstd::slice::slice_subrange(self.data.as_slice(), at, at + d)
    }
}

/// Every step in computing where a row starts stays within the elements.
proof fn lemma_row4_steps(a: int, b: int, c: int, s1: int, s2: int, s3: int, len: int)
    requires
        0 <= a,
        0 <= b < s1,
        0 <= c < s2,
        0 <= s3,
        0 <= a * s1 + b,
        0 <= (a * s1 + b) * s2,
        ((a * s1 + b) * s2 + c) * s3 + s3 <= len,
    ensures
        0 <= a * s1,
        s3 > 0 ==> a * s1 <= len,
        s3 > 0 ==> a * s1 + b <= len,
        s3 > 0 ==> (a * s1 + b) * s2 <= len,
        s3 > 0 ==> (a * s1 + b) * s2 + c <= len,
        s3 == 0 ==> ((a * s1 + b) * s2 + c) * s3 == 0,
{
    assert(0 <= a * s1) by (nonlinear_arith)
        requires
            0 <= a,
            0 < s1,
    ;
    let h = a * s1 + b;
    let r = h * s2 + c;
    assert(h <= h * s2) by (nonlinear_arith)
        requires
            0 <= h,
            1 <= s2,
    ;
    if s3 > 0 {
        assert(r <= r * s3) by (nonlinear_arith)
            requires
                0 <= r,
                1 <= s3,
        ;
    } else {
        assert(r * s3 == 0) by (nonlinear_arith)
            requires
                s3 == 0,
        ;
    }
}

/// Two matrices that agree in every cell of row `i` have the same row there.
pub proof fn lemma_rows_equal<T>(a: Matrix<T>, b: Matrix<T>, i: int)
    requires
        a.wf(),
        b.wf(),
        a.rows == b.rows,
        a.cols == b.cols,
        0 <= i < a.rows,
        forall|j: int| 0 <= j < a.cols ==> #[trigger] b.at(i, j) == a.at(i, j),
    ensures
        b.row(i) == a.row(i),
{
    let cols = a.cols as int;
    assert((i + 1) * cols <= a.rows * cols) by (nonlinear_arith)
        requires
            i + 1 <= a.rows,
            0 <= cols,
    ;
    assert((i + 1) * cols == i * cols + cols) by (nonlinear_arith);
    assert(0 <= i * cols) by (nonlinear_arith)
        requires
            0 <= i,
            0 <= cols,
    ;
    assert forall|j: int| 0 <= j < cols implies b.row(i)[j] == a.row(i)[j] by {
        assert(b.at(i, j) == a.at(i, j));
    }
    assert(b.row(i) =~= a.row(i));
}

/// A tensor without an empty axis has elements.
pub proof fn lemma_volume_positive(shape: Seq<usize>)
    requires
        forall|i: int| 0 <= i < shape.len() ==> #[trigger] shape[i] > 0,
    ensures
        volume(shape) >= 1,
    decreases shape.len(),
{
    if shape.len() > 0 {
        lemma_volume_positive(shape.drop_last());
        let m = volume(shape.drop_last()) as int;
        let n = shape.last() as int;
        assert(m * n >= 1) by (nonlinear_arith)
            requires
                m >= 1,
                n >= 1,
        ;
    }
}

/// A volume is the product over the first axes times that over the others.
pub proof fn lemma_volume_split(shape: Seq<usize>, k: int)
    requires
        0 <= k <= shape.len(),
    ensures
        volume(shape) == volume(shape.take(k)) * volume(shape.skip(k)),
    decreases shape.len(),
{
    if k == shape.len() {
        assert(shape.take(k) =~= shape);
        assert(shape.skip(k).len() == 0);
        assert(volume(shape) * 1 == volume(shape)) by (nonlinear_arith);
    } else {
        let init = shape.drop_last();
        lemma_volume_split(init, k);
        assert(init.take(k) =~= shape.take(k));
        assert(shape.skip(k).drop_last() =~= init.skip(k));
        assert(shape.skip(k).last() == shape.last());
        let a = volume(shape.take(k));
        let b = volume(init.skip(k));
        let c = shape.last() as nat;
        assert((a * b) * c == a * (b * c)) by (nonlinear_arith);
    }
}

/// A volume is the product before an axis, times its extent, times that behind.
pub proof fn lemma_volume_around(shape: Seq<usize>, axis: int)
    requires
        0 <= axis < shape.len(),
    ensures
        volume(shape) == volume(shape.take(axis)) * (shape[axis] as nat
            * volume(shape.skip(axis + 1))),
{
    lemma_volume_split(shape, axis);
    lemma_volume_split(shape.skip(axis), 1);
    let tail = shape.skip(axis);
    assert(tail.take(1).drop_last().len() == 0);
    assert(volume(tail.take(1)) == volume(tail.take(1).drop_last())
        * tail.take(1).last() as nat);
    assert(tail.take(1).last() == shape[axis]);
    assert(1 * shape[axis] as nat == shape[axis] as nat) by (nonlinear_arith);
    assert(tail.skip(1) =~= shape.skip(axis + 1));
}

/// A tensor with an empty axis has no element.
pub proof fn lemma_volume_zero(shape: Seq<usize>, k: int)
    requires
        0 <= k < shape.len(),
        shape[k] == 0,
    ensures
        volume(shape) == 0,
{
    lemma_volume_around(shape, k);
    let a = volume(shape.take(k));
    let b = volume(shape.skip(k + 1));
    assert(a * (0 * b) == 0) by (nonlinear_arith);
}

/// The product of the extents from one axis to another.
pub fn count_elements(shape: &Vec<usize>, from: usize, to: usize) -> (r: usize)
    requires
        from <= to <= shape@.len(),
        volume(shape@.subrange(from as int, to as int)) <= usize::MAX,
    ensures
        r == volume(shape@.subrange(from as int, to as int)),
{
    let ghost whole = shape@.subrange(from as int, to as int);
    let mut i: usize = from;
    while i < to
        invariant
            from <= i <= to <= shape@.len(),
            whole == shape@.subrange(from as int, to as int),
            forall|k: int| 0 <= k < i - from ==> #[trigger] whole[k] > 0,
        decreases to - i,
    {
        if shape[i] == 0 {
            proof {
                lemma_volume_zero(whole, i - from);
            }
            return 0;
        }
        i += 1;
    }
    let mut n: usize = 1;
    let mut i: usize = from;
    assert(whole.take(0).len() == 0);
    while i < to
        invariant
            from <= i <= to <= shape@.len(),
            whole == shape@.subrange(from as int, to as int),
            forall|k: int| 0 <= k < whole.len() ==> #[trigger] whole[k] > 0,
            volume(whole) <= usize::MAX,
            n == volume(whole.take(i - from)),
        decreases to - i,
    {
        proof {
            let part = whole.take(i + 1 - from);
            assert(part.drop_last() =~= whole.take(i - from));
            assert(part.last() == shape@[i as int]);
            let rest = whole.skip(i + 1 - from);
            lemma_volume_split(whole, i + 1 - from);
            assert forall|k: int| 0 <= k < rest.len() implies #[trigger] rest[k] > 0 by {
                assert(rest[k] == whole[k + i + 1 - from]);
            }
            lemma_volume_positive(rest);
            assert(volume(part) <= volume(whole)) by (nonlinear_arith)
                requires
                    volume(whole) == volume(part) * volume(rest),
                    volume(rest) >= 1,
            ;
        }
        n = n * shape[i];
        i += 1;
    }
    assert(whole.take(to - from) =~= whole);
    n
}

/// A cell within its row and a row within the matrix lie within the elements.
pub proof fn lemma_cell_in_bounds(i: int, j: int, rows: int, cols: int)
    requires
        0 <= i < rows,
        0 <= j < cols,
    ensures
        0 <= i * cols,
        0 <= i * cols + j < rows * cols,
        i * cols + cols <= rows * cols,
{
    assert((i + 1) * cols <= rows * cols) by (nonlinear_arith)
        requires
            i + 1 <= rows,
            0 <= cols,
    ;
    assert((i + 1) * cols == i * cols + cols) by (nonlinear_arith);
    assert(0 <= i * cols) by (nonlinear_arith)
        requires
            0 <= i,
            0 <= cols,
    ;
}

/// Two cells of one matrix at one place are one cell.
pub proof fn lemma_cell_unique(i: int, j: int, k: int, l: int, cols: int)
    requires
        0 <= j < cols,
        0 <= l < cols,
        i * cols + j == k * cols + l,
    ensures
        i == k,
        j == l,
{
    assert(i == k) by (nonlinear_arith)
        requires
            0 <= j < cols,
            0 <= l < cols,
            i * cols + j == k * cols + l,
    ;
}

/// The number of elements of a tensor is the product of its extents.
pub proof fn law_volume_is_the_product_of_extents(shape: Seq<usize>, n: usize)
    ensures
        volume(Seq::<usize>::empty()) == 1,
        volume(shape.push(n)) == volume(shape) * n,
        volume(seq![n] + shape) == n * volume(shape),
{
    assert(shape.push(n).drop_last() =~= shape);
    let all = seq![n] + shape;
    lemma_volume_split(all, 1);
    let one = Seq::<usize>::empty().push(n);
    assert(all.take(1) =~= one);
    assert(one.drop_last() =~= Seq::<usize>::empty());
    assert(one.last() == n);
    assert(volume(one) == volume(one.drop_last()) * n);
    assert(1 * n == n);
    assert(all.skip(1) =~= shape);
}

/// Rows lie one behind the other, whether of a matrix or of a tensor of rank 4.
pub proof fn law_rows_lie_in_order<T>(
    m: &Matrix<T>,
    x: &NdArray<T>,
    i: int,
    j: int,
    a: int,
    b: int,
    c: int,
    k: int,
)
    requires
        m.wf(),
        0 <= i < m.rows,
        0 <= j < m.cols,
        x.wf(),
        x.shape@.len() == 4,
        0 <= a < x.shape@[0],
        0 <= b < x.shape@[1],
        0 <= c < x.shape@[2],
        0 <= k < x.shape@[3],
    ensures
        m.at(i, j) == m.data@[i * m.cols + j],
        m.row(i)[j] == m.data@[i * m.cols + j],
        m.row(i).len() == m.cols,
        x.row4(a, b, c).len() == x.shape@[3],
        x.row4(a, b, c)[k] == x.data@[((a * x.shape@[1] + b) * x.shape@[2] + c) * x.shape@[3] + k],
{
    lemma_row_len(m, i);
    lemma_row4_len(x, a, b, c);
}

} // verus!
