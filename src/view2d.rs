//! A two-dimensional, row-major view into a slice.
use vstd::prelude::*;
use vstd::string::StringExecFns;

verus! {

/// `items` with `sep` between each two of them.
pub open spec fn join(items: Seq<Seq<char>>, sep: Seq<char>) -> Seq<char>
    decreases items.len(),
{
    if items.len() == 0 {
        Seq::empty()
    } else if items.len() == 1 {
        items[0]
    } else {
        join(items.drop_last(), sep) + sep + items.last()
    }
}

/// Row `r` of a row-major grid with `n_cols` columns.
pub open spec fn grid_row<T>(cells: Seq<T>, n_cols: nat, r: int) -> Seq<T> {
    cells.subrange(r * n_cols, r * n_cols + n_cols)
}

/// The text of a grid: in brackets, the rows separated by `"; "`, the cells
/// of a row separated by `", "`.
pub open spec fn render(cells: Seq<Seq<char>>, n_rows: nat, n_cols: nat) -> Seq<char> {
    seq!['['] + join(
        Seq::new(n_rows, |r: int| join(grid_row(cells, n_cols, r), seq![',', ' '])),
        seq![';', ' '],
    ) + seq![']']
}

proof fn lemma_join_push(items: Seq<Seq<char>>, sep: Seq<char>, x: Seq<char>)
    ensures
        join(items.push(x), sep) == if items.len() == 0 {
            x
        } else {
            join(items, sep) + sep + x
        },
{
    assert(items.push(x).drop_last() =~= items);
}

proof fn lemma_row_index(r: int, n_rows: int, n_cols: int)
    requires
        0 <= r < n_rows,
        0 <= n_cols,
    ensures
        0 <= r * n_cols,
        r * n_cols + n_cols <= n_rows * n_cols,
{
    assert(r * n_cols + n_cols <= n_rows * n_cols) by (nonlinear_arith)
        requires
            0 <= r < n_rows,
            0 <= n_cols,
    ;
    assert(0 <= r * n_cols) by (nonlinear_arith)
        requires
            0 <= r,
            0 <= n_cols,
    ;
}

/// The text of a grid of cell texts, row by row.
pub fn render_grid(cells: &Vec<String>, n_rows: usize, n_cols: usize) -> (r: String)
    requires
        cells@.len() == n_rows * n_cols,
    ensures
        r@ == render(cells@.map_values(|s: String| s@), n_rows as nat, n_cols as nat),
{
    let ghost texts = cells@.map_values(|s: String| s@);
    let ghost rows = Seq::new(
        n_rows as nat,
        |r: int| join(grid_row(texts, n_cols as nat, r), seq![',', ' ']),
    );
    let len: usize = cells.len();
    let mut out = String::new();
    proof {
        reveal_strlit("[");
    }
    out.append("[");
    let mut r: usize = 0;
    while r < n_rows
        invariant
            r <= n_rows,
            cells@.len() == n_rows * n_cols,
            len == cells@.len(),
            texts == cells@.map_values(|s: String| s@),
            rows == Seq::new(
                n_rows as nat,
                |r: int| join(grid_row(texts, n_cols as nat, r), seq![',', ' ']),
            ),
            out@ == seq!['['] + join(rows.take(r as int), seq![';', ' ']),
        decreases n_rows - r,
    {
        if r > 0 {
            proof {
                reveal_strlit("; ");
            }
            out.append("; ");
        }
        proof {
            lemma_row_index(r as int, n_rows as int, n_cols as int);
        }
        let ghost row = grid_row(texts, n_cols as nat, r as int);
        let ghost prefix = out@;
        let mut c: usize = 0;
        while c < n_cols
            invariant
                r < n_rows,
                c <= n_cols,
                cells@.len() == n_rows * n_cols,
                len == cells@.len(),
                0 <= r * n_cols,
                r * n_cols + n_cols <= n_rows * n_cols,
                texts == cells@.map_values(|s: String| s@),
                row == grid_row(texts, n_cols as nat, r as int),
                out@ == prefix + join(row.take(c as int), seq![',', ' ']),
            decreases n_cols - c,
        {
            if c > 0 {
                proof {
                    reveal_strlit(", ");
                }
                out.append(", ");
            }
            let idx: usize = r * n_cols + c;
            out.append(cells[idx].as_str());
            proof {
                assert(row.take(c + 1) =~= row.take(c as int).push(texts[idx as int]));
                lemma_join_push(row.take(c as int), seq![',', ' '], texts[idx as int]);
            }
            c = c + 1;
        }
        proof {
            assert(row.take(n_cols as int) =~= row);
            assert(rows.take(r + 1) =~= rows.take(r as int).push(rows[r as int]));
            lemma_join_push(rows.take(r as int), seq![';', ' '], rows[r as int]);
        }
        r = r + 1;
    }
    proof {
        reveal_strlit("]");
        assert(rows.take(n_rows as int) =~= rows);
    }
    out.append("]");
    out
}

/// Relies on `format!` with `{:?}`: the `Debug` text of one element.
#[verifier::external_body]
fn debug_text<T: std::fmt::Debug>(x: &T) -> String {
    format!("{:?}", x)
}

/// A contiguous, row-major two-dimensional view into a slice.
pub struct View2D<'a, T> {
    data: &'a [T],
    n_rows: usize,
    n_cols: usize,
}

impl<'a, T> View2D<'a, T> {
    pub closed spec fn data(&self) -> Seq<T> {
        self.data@
    }

    pub closed spec fn n_rows(&self) -> nat {
        self.n_rows as nat
    }

    pub closed spec fn n_cols(&self) -> nat {
        self.n_cols as nat
    }

    pub closed spec fn wf(&self) -> bool {
        self.n_rows * self.n_cols == self.data@.len()
    }

    /// A view of `data` as `n_rows` rows of `n_cols` elements.
    pub fn new(data: &'a [T], n_rows: usize, n_cols: usize) -> (r: Self)
        requires
            n_rows * n_cols == data@.len(),
        ensures
            r.wf(),
            r.data() == data@,
            r.n_rows() == n_rows,
            r.n_cols() == n_cols,
    {
        View2D { data, n_rows, n_cols }
    }

    /// The element in row `rc.0` and column `rc.1`.
    pub fn index(&self, rc: (usize, usize)) -> (e: &T)
        requires
            self.wf(),
            rc.0 < self.n_rows(),
            rc.1 < self.n_cols(),
        ensures
            *e == self.data()[rc.1 + rc.0 * self.n_cols()],
    {
        let (r, c) = rc;
        let len: usize = self.data.len();
        proof {
            lemma_row_index(r as int, self.n_rows as int, self.n_cols as int);
            assert(r * self.n_cols == self.n_cols * r) by (nonlinear_arith);
        }
        &self.data[c + r * self.n_cols]
    }

    /// The `Debug` text of the view: in brackets, the rows separated by
    /// `"; "`, the elements of a row separated by `", "`.
    pub fn debug_string(&self) -> (s: String) where T: std::fmt::Debug
        requires
            self.wf(),
        ensures
            exists|cells: Seq<Seq<char>>|
                cells.len() == self.data().len() && s@ == #[trigger] render(
                    cells,
                    self.n_rows(),
                    self.n_cols(),
                ),
    {
        let mut cells: Vec<String> = Vec::new();
        let mut i: usize = 0;
        while i < self.data.len()
            invariant
                i <= self.data@.len(),
                cells@.len() == i,
            decreases self.data@.len() - i,
        {
            cells.push(debug_text(&self.data[i]));
            i = i + 1;
        }
        let s = render_grid(&cells, self.n_rows, self.n_cols);
        let ghost texts = cells@.map_values(|s: String| s@);
        assert(texts.len() == self.data().len());
        assert(s@ == render(texts, self.n_rows(), self.n_cols()));
        s
    }
}

} // verus!
