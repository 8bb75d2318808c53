//! Matrix transpose, the one data movement that the 2D block transforms need
//! between their row and column passes.
use vstd::prelude::*;
use vstd::arithmetic::div_mod::lemma_fundamental_div_mod_converse;
use vstd::arithmetic::mul::{lemma_mul_inequality, lemma_mul_is_commutative};

verus! {

/// The `cols x rows` matrix whose element `(c, r)` is element `(r, c)` of the
/// `rows x cols` matrix `x`; both are stored row by row.
pub open spec fn transposed<T>(x: Seq<T>, rows: int, cols: int) -> Seq<T> {
    Seq::new((rows * cols) as nat, |i: int| x[(i % rows) * cols + i / rows])
}

proof fn lemma_index_in_range(r: int, c: int, rows: int, cols: int)
    requires
        0 <= r < rows,
        0 <= c < cols,
    ensures
        0 <= r * cols + c < rows * cols,
        0 <= c * rows + r < rows * cols,
{
    lemma_mul_inequality(r, rows - 1, cols);
    lemma_mul_inequality(c, cols - 1, rows);
    lemma_mul_is_commutative(rows, cols);
    assert((rows - 1) * cols == rows * cols - cols) by (nonlinear_arith);
    assert((cols - 1) * rows == rows * cols - rows) by (nonlinear_arith);
    assert(0 <= r * cols) by (nonlinear_arith)
        requires
            0 <= r,
            0 <= cols,
    ;
    assert(0 <= c * rows) by (nonlinear_arith)
        requires
            0 <= c,
            0 <= rows,
    ;
}

/// Transposes the `rows x cols` matrix `input`, stored row by row.
pub fn transpose<T: Copy>(input: &[T], rows: usize, cols: usize) -> (r: Vec<T>)
    requires
        input@.len() == rows * cols,
    ensures
        r@ == transposed(input@, rows as int, cols as int),
{
    let n = input.len();
    let mut out: Vec<T> = Vec::new();
    let mut c: usize = 0;
    while c < cols
        invariant
            input@.len() == rows * cols,
            n == input@.len(),
            c <= cols,
            out@.len() == c * rows,
            forall|i: int|
                0 <= i < out@.len() ==> out@[i] == transposed(input@, rows as int, cols as int)[i],
        decreases cols - c,
    {
        let mut r: usize = 0;
        while r < rows
            invariant
                input@.len() == rows * cols,
                n == input@.len(),
                c < cols,
                r <= rows,
                out@.len() == c * rows + r,
                forall|i: int|
                    0 <= i < out@.len() ==> out@[i] == transposed(input@, rows as int, cols as int)[i],
            decreases rows - r,
        {
            proof {
                lemma_index_in_range(r as int, c as int, rows as int, cols as int);
                lemma_fundamental_div_mod_converse(
                    c * rows + r,
                    rows as int,
                    c as int,
                    r as int,
                );
                lemma_mul_is_commutative(c as int, rows as int);
            }
            out.push(input[r * cols + c]);
            r = r + 1;
        }
        c = c + 1;
        assert(out@.len() == c * rows) by (nonlinear_arith)
            requires
                out@.len() == (c - 1) * rows + rows,
        ;
    }
    proof {
        assert(out@.len() == rows * cols) by (nonlinear_arith)
            requires
                out@.len() == c * rows,
                c == cols,
        ;
    }
    assert(out@ =~= transposed(input@, rows as int, cols as int));
    out
}

/// Transposing twice gives back the matrix, element for element.
pub proof fn lemma_transpose_involutive<T>(x: Seq<T>, rows: int, cols: int)
    requires
        rows >= 0,
        cols >= 0,
        x.len() == rows * cols,
    ensures
        transposed(transposed(x, rows, cols), cols, rows) == x,
{
    let y = transposed(x, rows, cols);
    let z = transposed(y, cols, rows);
    lemma_mul_is_commutative(rows, cols);
    assert forall|i: int| 0 <= i < x.len() implies z[i] == x[i] by {
        let r = i / cols;
        let c = i % cols;
        vstd::arithmetic::div_mod::lemma_fundamental_div_mod(i, cols);
        assert(0 <= c < cols);
        assert(0 <= r < rows) by {
            vstd::arithmetic::div_mod::lemma_div_pos_is_pos(i, cols);
            if r >= rows {
                lemma_mul_inequality(rows, r, cols);
                lemma_mul_is_commutative(rows, cols);
                lemma_mul_is_commutative(r, cols);
            }
        }
        lemma_index_in_range(r, c, rows, cols);
        let j = c * rows + r;
        lemma_fundamental_div_mod_converse(j, rows, c, r);
        lemma_mul_is_commutative(c, rows);
        lemma_mul_is_commutative(r, cols);
        assert(z[i] == y[j]);
        assert(y[j] == x[r * cols + c]);
    }
    assert(z =~= x);
}

} // verus!
