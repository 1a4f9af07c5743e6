use vstd::prelude::*;

verus! {

/// A dense 3-D container: a stack of `k` matrices of identical `i * j`
/// shape, indexed conceptually as `[k][i][j]`. Used for the pairwise
/// state-occupation statistic, which needs one matrix per time step.
pub struct Cube<T: Copy> {
    state: Vec<Vec<Vec<T>>>,
}

impl<T: Copy> View for Cube<T> {
    type V = Seq<Seq<Seq<T>>>;

    closed spec fn view(&self) -> Seq<Seq<Seq<T>>> {
        self.state@.map_values(|m: Vec<Vec<T>>| m@.map_values(|row: Vec<T>| row@))
    }
}

impl<T: Copy> Cube<T> {
    /// A stack of `k` matrices, each `i` rows of `j` copies of `default`.
    pub fn with_dims(i: usize, j: usize, k: usize, default: T) -> (r: Cube<T>)
        ensures
            r@.len() == k,
            forall|a: int| 0 <= a < k ==> (#[trigger] r@[a]).len() == i,
            forall|a: int, b: int|
                0 <= a < k && 0 <= b < i ==> (#[trigger] r@[a][b]).len() == j,
            forall|a: int, b: int, c: int|
                0 <= a < k && 0 <= b < i && 0 <= c < j ==> #[trigger] r@[a][b][c] == default,
    {
        let mut state: Vec<Vec<Vec<T>>> = Vec::new();
        let mut kk: usize = 0;
        while kk < k
            invariant
                0 <= kk <= k,
                state@.len() == kk,
                forall|a: int| 0 <= a < kk ==> (#[trigger] state@[a])@.len() == i,
                forall|a: int, b: int|
                    0 <= a < kk && 0 <= b < i ==> (#[trigger] state@[a]@[b])@.len() == j,
                forall|a: int, b: int, c: int|
                    0 <= a < kk && 0 <= b < i && 0 <= c < j ==> #[trigger] state@[a]@[b]@[c]
                        == default,
            decreases k - kk,
        {
            let mut matrix: Vec<Vec<T>> = Vec::new();
            let mut ii: usize = 0;
            while ii < i
                invariant
                    0 <= ii <= i,
                    matrix@.len() == ii,
                    forall|b: int| 0 <= b < ii ==> (#[trigger] matrix@[b])@.len() == j,
                    forall|b: int, c: int|
                        0 <= b < ii && 0 <= c < j ==> #[trigger] matrix@[b]@[c] == default,
                decreases i - ii,
            {
                let mut row: Vec<T> = Vec::new();
                let mut jj: usize = 0;
                while jj < j
                    invariant
                        0 <= jj <= j,
                        row@.len() == jj,
                        forall|c: int| 0 <= c < jj ==> #[trigger] row@[c] == default,
                    decreases j - jj,
                {
                    row.push(default);
                    jj = jj + 1;
                }
                matrix.push(row);
                ii = ii + 1;
            }
            state.push(matrix);
            kk = kk + 1;
        }
        let r = Cube { state };
        proof {
            assert forall|a: int| 0 <= a < k implies (#[trigger] r@[a]).len()
                == r.state@[a]@.len() by {}
            assert forall|a: int, b: int| 0 <= a < k && 0 <= b < r@[a].len() implies (
            #[trigger] r@[a][b]).len() == r.state@[a]@[b]@.len() by {}
        }
        r
    }

    /// Wrap an already-built stack of matrices.
    pub fn from_stack(state: Vec<Vec<Vec<T>>>) -> (r: Cube<T>)
        ensures
            r@ == state@.map_values(|m: Vec<Vec<T>>| m@.map_values(|row: Vec<T>| row@)),
    {
        Cube { state }
    }

    /// The entry at layer `k`, row `i`, column `j`.
    pub fn get(&self, k: usize, i: usize, j: usize) -> (r: T)
        requires
            k < self@.len(),
            i < self@[k as int].len(),
            j < self@[k as int][i as int].len(),
        ensures
            r == self@[k as int][i as int][j as int],
    {
        self.state[k][i][j]
    }

    /// Replace the entry at layer `k`, row `i`, column `j`.
    pub fn set(&mut self, k: usize, i: usize, j: usize, value: T)
        requires
            k < old(self)@.len(),
            i < old(self)@[k as int].len(),
            j < old(self)@[k as int][i as int].len(),
        ensures
            final(self)@ == old(self)@.update(
                k as int,
                old(self)@[k as int].update(
                    i as int,
                    old(self)@[k as int][i as int].update(j as int, value),
                ),
            ),
    {
        let ghost before = self@;
        let mut row: Vec<T> = Vec::new();
        let src_row = &self.state[k][i];
        let jlen = src_row.len();
        let mut c: usize = 0;
        while c < jlen
            invariant
                0 <= c <= jlen,
                jlen == src_row@.len(),
                row@ == src_row@.take(c as int),
            decreases jlen - c,
        {
            let x = src_row[c];
            row.push(x);
            proof {
                assert(row@ =~= src_row@.take(c + 1));
            }
            c = c + 1;
        }
        proof {
            assert(src_row@.take(jlen as int) =~= src_row@);
        }
        row[j] = value;
        let mut matrix: Vec<Vec<T>> = Vec::new();
        let src_mat = &self.state[k];
        let ilen = src_mat.len();
        let mut b: usize = 0;
        while b < ilen
            invariant
                0 <= b <= ilen,
                i < ilen,
                ilen == src_mat@.len(),
                row@ == src_mat@[i as int]@.update(j as int, value),
                matrix@.len() == b,
                forall|x: int|
                    0 <= x < b && x != i ==> (#[trigger] matrix@[x])@ == src_mat@[x]@,
                i < b ==> matrix@[i as int]@ == src_mat@[i as int]@.update(j as int, value),
            decreases ilen - b,
        {
            if b == i {
                let mut r2: Vec<T> = Vec::new();
                let mut c2: usize = 0;
                while c2 < row.len()
                    invariant
                        0 <= c2 <= row@.len(),
                        r2@ == row@.take(c2 as int),
                    decreases row@.len() - c2,
                {
                    let x = row[c2];
                    r2.push(x);
                    proof {
                        assert(r2@ =~= row@.take(c2 + 1));
                    }
                    c2 = c2 + 1;
                }
                proof {
                    assert(row@.take(row@.len() as int) =~= row@);
                }
                matrix.push(r2);
            } else {
                let mut r2: Vec<T> = Vec::new();
                let src2 = &src_mat[b];
                let mut c2: usize = 0;
                while c2 < src2.len()
                    invariant
                        0 <= c2 <= src2@.len(),
                        r2@ == src2@.take(c2 as int),
                    decreases src2@.len() - c2,
                {
                    let x = src2[c2];
                    r2.push(x);
                    proof {
                        assert(r2@ =~= src2@.take(c2 + 1));
                    }
                    c2 = c2 + 1;
                }
                proof {
                    assert(src2@.take(src2@.len() as int) =~= src2@);
                }
                matrix.push(r2);
            }
            b = b + 1;
        }
        self.state[k] = matrix;
        proof {
            assert(self@ =~~= before.update(
                k as int,
                before[k as int].update(
                    i as int,
                    before[k as int][i as int].update(j as int, value),
                ),
            ));
        }
    }
}

} // verus!
