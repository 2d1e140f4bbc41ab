use vstd::prelude::*;

verus! {

/// A Game of Life board of `h` rows and `w` columns.
/// A cell whose value is above zero is alive.
#[derive(Debug, PartialEq, Clone)]
pub struct GolInstance {
    pub h: usize,
    pub w: usize,
    pub cells: Vec<Vec<i32>>,
}

/// The board's cells as a sequence of rows.
impl View for GolInstance {
    type V = Seq<Seq<i32>>;

    open spec fn view(&self) -> Seq<Seq<i32>> {
        self.cells.deep_view()
    }
}

/// `g` has exactly `h` rows, each of exactly `w` cells.
pub open spec fn is_grid(g: Seq<Seq<i32>>, h: nat, w: nat) -> bool {
    &&& g.len() == h
    &&& forall|i: int| 0 <= i < h ==> #[trigger] g[i].len() == w
}

/// `data` cut into consecutive rows of `w` cells; the last row holds what is
/// left and may be shorter.
pub open spec fn chunks(data: Seq<i32>, w: nat) -> Seq<Seq<i32>>
    decreases data.len(),
{
    if w == 0 || data.len() == 0 {
        Seq::empty()
    } else if data.len() <= w {
        seq![data]
    } else {
        seq![data.take(w as int)] + chunks(data.skip(w as int), w)
    }
}

/// Cuts `data` into rows of `w` cells, as `chunks` says.
fn chunk_rows(data: &Vec<i32>, w: usize) -> (rows: Vec<Vec<i32>>)
    requires
        w > 0,
    ensures
        rows.deep_view() == chunks(data@, w as nat),
{
    let mut rows: Vec<Vec<i32>> = Vec::new();
    let len = data.len();
    let mut start: usize = 0;
    assert(data@.skip(0) =~= data@);
    while start < len
        invariant
            w > 0,
            len == data@.len(),
            start <= len,
            rows.deep_view() + chunks(data@.skip(start as int), w as nat) == chunks(data@, w as nat),
        decreases len - start,
    {
        let end: usize = if len - start > w { start + w } else { len };
        let mut row: Vec<i32> = Vec::new();
        let mut k: usize = start;
        while k < end
            invariant
                start <= k <= end <= len,
                len == data@.len(),
                row@ == data@.subrange(start as int, k as int),
            decreases end - k,
        {
            row.push(data[k]);
            assert(data@.subrange(start as int, k + 1) =~= data@.subrange(start as int, k as int).push(data@[k as int]));
            k = k + 1;
        }
        let ghost rest = data@.skip(start as int);
        let ghost before = rows.deep_view();
        let ghost old_rows = rows@;
        assert(row.deep_view() =~= row@);
        rows.push(row);
        proof {
            assert(rows@ == old_rows.push(row));
            assert(rows.deep_view() =~= before.push(data@.subrange(start as int, end as int)));
            if len - start > w {
                assert(rest.take(w as int) =~= data@.subrange(start as int, end as int));
                assert(rest.skip(w as int) =~= data@.skip(end as int));
                assert(chunks(rest, w as nat) == seq![rest.take(w as int)] + chunks(rest.skip(w as int), w as nat));
            } else {
                assert(rest =~= data@.subrange(start as int, end as int));
                assert(data@.skip(end as int) =~= Seq::<i32>::empty());
                assert(chunks(data@.skip(end as int), w as nat) =~= Seq::<Seq<i32>>::empty());
            }
            assert(before + chunks(rest, w as nat) =~= rows.deep_view() + chunks(data@.skip(end as int), w as nat));
        }
        start = end;
    }
    assert(chunks(data@.skip(len as int), w as nat) =~= Seq::<Seq<i32>>::empty());
    assert(rows.deep_view() + Seq::<Seq<i32>>::empty() =~= rows.deep_view());
    rows
}

/// A board of width `w` whose rows are `data` cut into rows of `w` cells;
/// its height counts only the complete rows.
pub fn from_flat(w: usize, data: Vec<i32>) -> (gol: GolInstance)
    requires
        w > 0,
    ensures
        gol.h == data@.len() / (w as nat),
        gol.w == w,
        gol@ == chunks(data@, w as nat),
{
    let h = data.len() / w;
    GolInstance { h, w, cells: chunk_rows(&data, w) }
}

/// How a cell is drawn: `#` when alive, a space otherwise.
pub open spec fn cell_char(c: i32) -> char {
    if c > 0 {
        '#'
    } else {
        ' '
    }
}

/// The top and bottom border of a drawing `w` cells wide: `O`, `w` dashes,
/// `O`, newline.
pub open spec fn border_line(w: nat) -> Seq<char> {
    seq!['O'] + Seq::new(w, |k: int| '-') + seq!['O', '\n']
}

/// One row drawn between bars, followed by a newline.
pub open spec fn row_line(row: Seq<i32>) -> Seq<char> {
    seq!['|'] + row.map_values(|c: i32| cell_char(c)) + seq!['|', '\n']
}

/// The drawing of a board: the border for width `w`, every row of `g` on a
/// line of its own, and the border again.
pub open spec fn drawing(g: Seq<Seq<i32>>, w: nat) -> Seq<char> {
    border_line(w) + g.map_values(|row: Seq<i32>| row_line(row)).flatten() + border_line(w)
}

/// The character at column `c` of line `r` of the drawing of `g` at width
/// `w`, every line being `w + 3` characters long with its newline.
pub open spec fn drawing_at(g: Seq<Seq<i32>>, w: nat, r: int, c: int) -> char {
    drawing(g, w)[r * (w + 3) + c]
}

/// Flattening rows that all have length `l` puts character `k` of row `i` at
/// position `i * l + k`.
proof fn lemma_flatten_uniform(s: Seq<Seq<char>>, l: nat)
    requires
        forall|i: int| 0 <= i < s.len() ==> #[trigger] s[i].len() == l,
    ensures
        s.flatten().len() == s.len() * l,
        forall|i: int, k: int|
            0 <= i < s.len() && 0 <= k < l ==> s.flatten()[i * l + k] == #[trigger] s[i][k],
    decreases s.len(),
{
    if s.len() > 0 {
        let rest = s.drop_first();
        assert forall|i: int| 0 <= i < rest.len() implies #[trigger] rest[i].len() == l by {
            assert(rest[i] == s[i + 1]);
        }
        lemma_flatten_uniform(rest, l);
        assert(s.flatten() == s[0] + rest.flatten());
        let n = rest.len();
        assert(s.len() * l == l + n * l) by (nonlinear_arith)
            requires
                s.len() == n + 1,
        ;
        assert forall|i: int, k: int| 0 <= i < s.len() && 0 <= k < l implies s.flatten()[i * l + k]
            == #[trigger] s[i][k] by {
            if i > 0 {
                assert(i * l + k - l == (i - 1) * l + k && i * l + k >= l) by (nonlinear_arith)
                    requires
                        i > 0,
                        k >= 0,
                ;
                assert(rest[i - 1] == s[i]);
                assert(s[0].len() == l);
                assert((i - 1) * l + k < n * l) by (nonlinear_arith)
                    requires
                        0 <= i - 1 < n,
                        0 <= k < l,
                ;
                assert(rest.flatten()[(i - 1) * l + k] == rest[i - 1][k]);
                assert(s.flatten()[i * l + k] == rest.flatten()[i * l + k - l]);
            } else {
                assert(i * l + k == k) by (nonlinear_arith)
                    requires
                        i == 0,
                ;
                assert(s[0].len() == l);
                assert(s.flatten()[k] == s[0][k]);
            }
        }
    }
}

/// Line `r` of the drawing of a board of `h` rows of `w` cells is the border
/// when it is the first or the last line, and row `r - 1` drawn otherwise.
proof fn lemma_drawing_at(g: Seq<Seq<i32>>, h: nat, w: nat, r: int, c: int)
    requires
        is_grid(g, h, w),
        0 <= r < h + 2,
        0 <= c < w + 3,
    ensures
        drawing(g, w).len() == (h + 2) * (w + 3),
        drawing_at(g, w, r, c) == if r == 0 || r == h + 1 {
            border_line(w)[c]
        } else {
            row_line(g[r - 1])[c]
        },
{
    let l = (w + 3) as nat;
    let rows = g.map_values(|row: Seq<i32>| row_line(row));
    assert forall|i: int| 0 <= i < rows.len() implies #[trigger] rows[i].len() == l by {
        assert(g[i].len() == w);
    }
    lemma_flatten_uniform(rows, l);
    let f = rows.flatten();
    let b = border_line(w);
    assert(b.len() == l);
    assert(drawing(g, w) == b + f + b);
    assert((h + 2) * l == l + h * l + l) by (nonlinear_arith);
    let p = r * l + c;
    if r == 0 {
        assert(p == c) by (nonlinear_arith)
            requires
                r == 0,
                p == r * l + c,
        ;
    } else if r == h + 1 {
        assert(p == l + h * l + c) by (nonlinear_arith)
            requires
                r == h + 1,
                p == r * l + c,
        ;
    } else {
        assert(p - l == (r - 1) * l + c && l <= p < l + h * l) by (nonlinear_arith)
            requires
                1 <= r <= h,
                0 <= c < l,
                p == r * l + c,
        ;
        assert(rows[r - 1] == row_line(g[r - 1]));
    }
}

/// The layout of the drawing of a board of `h` rows of `w` cells: `h + 2`
/// lines of `w + 3` characters, each ending in a newline. The first and the
/// last line are `O`, `w` dashes, `O`. Line `1 + i` is row `i` between two
/// bars, its cell `(i, j)` at column `1 + j`: `#` when the cell is above
/// zero, a space otherwise.
pub proof fn law_drawing_layout(g: Seq<Seq<i32>>, h: nat, w: nat)
    requires
        is_grid(g, h, w),
    ensures
        drawing(g, w).len() == (h + 2) * (w + 3),
        forall|r: int, c: int|
            0 <= r < h + 2 && c == w + 2 ==> #[trigger] drawing_at(g, w, r, c) == '\n',
        forall|r: int, c: int|
            (r == 0 || r == h + 1) && (c == 0 || c == w + 1) ==> #[trigger] drawing_at(g, w, r, c)
                == 'O',
        forall|r: int, c: int|
            (r == 0 || r == h + 1) && 1 <= c <= w ==> #[trigger] drawing_at(g, w, r, c) == '-',
        forall|r: int, c: int|
            1 <= r <= h && (c == 0 || c == w + 1) ==> #[trigger] drawing_at(g, w, r, c) == '|',
        forall|i: int, j: int|
            0 <= i < h && 0 <= j < w ==> drawing_at(g, w, i + 1, j + 1) == if #[trigger] g[i][j] > 0 {
                '#'
            } else {
                ' '
            },
{
    lemma_drawing_at(g, h, w, 0, 0);
    assert forall|r: int, c: int| 0 <= r < h + 2 && 0 <= c < w + 3 implies #[trigger] drawing_at(
        g,
        w,
        r,
        c,
    ) == if r == 0 || r == h + 1 {
        border_line(w)[c]
    } else {
        row_line(g[r - 1])[c]
    } by {
        lemma_drawing_at(g, h, w, r, c);
    }
    assert forall|i: int, j: int| 0 <= i < h && 0 <= j < w implies drawing_at(g, w, i + 1, j + 1)
        == if #[trigger] g[i][j] > 0 {
        '#'
    } else {
        ' '
    } by {
        lemma_drawing_at(g, h, w, i + 1, j + 1);
        assert(g[i].len() == w);
        assert(row_line(g[i])[j + 1] == cell_char(g[i][j]));
    }
}

/// The border line for width `w`.
fn border(w: usize) -> (line: String)
    ensures
        line@ == border_line(w as nat),
{
    let mut line = String::new();
    line.append("O");
    proof {
        reveal_strlit("O");
        reveal_strlit("-");
        reveal_strlit("O\n");
        assert("O"@ =~= seq!['O']);
        assert("-"@ =~= seq!['-']);
        assert("O\n"@ =~= seq!['O', '\n']);
    }
    for k in 0..w
        invariant
            "-"@ == seq!['-'],
            line@ == seq!['O'] + Seq::new(k as nat, |x: int| '-'),
    {
        line.append("-");
        assert(seq!['O'] + Seq::new((k + 1) as nat, |x: int| '-') =~= seq!['O'] + Seq::new(
            k as nat,
            |x: int| '-',
        ) + seq!['-']);
    }
    line.append("O\n");
    assert(line@ =~= border_line(w as nat));
    line
}

impl GolInstance {
    /// The board drawn as text: a border line, each row between `|` bars
    /// with `#` for a live cell and a space for any other, and the border
    /// line again.
    pub fn show(&self) -> (text: String)
        ensures
            text@ == drawing(self@, self.w as nat),
    {
        let vbar = border(self.w);
        let mut ret = vbar.clone();
        let ghost rows = self@.map_values(|row: Seq<i32>| row_line(row));
        proof {
            reveal_strlit("|");
            reveal_strlit("#");
            reveal_strlit(" ");
            reveal_strlit("|\n");
            assert("|"@ =~= seq!['|']);
            assert("#"@ =~= seq!['#']);
            assert(" "@ =~= seq![' ']);
            assert("|\n"@ =~= seq!['|', '\n']);
        }
        let n = self.cells.len();
        for i in 0..n
            invariant
                n == self.cells@.len(),
                "|"@ == seq!['|'],
                "#"@ == seq!['#'],
                " "@ == seq![' '],
                "|\n"@ == seq!['|', '\n'],
                rows == self@.map_values(|row: Seq<i32>| row_line(row)),
                vbar@ == border_line(self.w as nat),
                ret@ == vbar@ + rows.take(i as int).flatten(),
        {
            let line = &self.cells[i];
            let ghost before = ret@;
            ret.append("|");
            let m = line.len();
            for j in 0..m
                invariant
                    m == line@.len(),
                    "#"@ == seq!['#'],
                    " "@ == seq![' '],
                    ret@ == before + seq!['|'] + line@.take(j as int).map_values(|c: i32| cell_char(c)),
            {
                if line[j] > 0 {
                    ret.append("#");
                } else {
                    ret.append(" ");
                }
                assert(line@.take(j + 1).map_values(|c: i32| cell_char(c)) =~= line@.take(
                    j as int,
                ).map_values(|c: i32| cell_char(c)).push(cell_char(line@[j as int])));
            }
            ret.append("|\n");
            proof {
                assert(line@.take(m as int) =~= line@);
                assert(self@[i as int] =~= line@);
                assert(ret@ =~= before + row_line(self@[i as int]));
                assert(rows.take(i + 1) =~= rows.take(i as int).push(rows[i as int]));
                rows.take(i as int).lemma_flatten_push(rows[i as int]);
            }
        }
        assert(rows.take(n as int) =~= rows);
        ret.append(vbar.as_str());
        ret
    }
}

impl GolInstance {
    /// Replaces the cells by `data` cut into rows of the board's width;
    /// the stated height and width stay as they were.
    pub fn update_flat(&mut self, data: Vec<i32>)
        requires
            old(self).w > 0,
        ensures
            final(self).h == old(self).h,
            final(self).w == old(self).w,
            final(self)@ == chunks(data@, old(self).w as nat),
    {
        self.cells = chunk_rows(&data, self.w);
    }

    /// The rows agree with the stated height and width.
    pub open spec fn wf(&self) -> bool {
        is_grid(self@, self.h as nat, self.w as nat)
    }

    /// All cells, row after row.
    pub fn flatten(&self) -> (flat: Vec<i32>)
        ensures
            flat@ == self@.flatten(),
    {
        let mut flat: Vec<i32> = Vec::new();
        let n = self.cells.len();
        for i in 0..n
            invariant
                n == self.cells@.len(),
                flat@ == self@.take(i as int).flatten(),
        {
            let row = &self.cells[i];
            let m = row.len();
            let ghost before = flat@;
            for j in 0..m
                invariant
                    m == row@.len(),
                    flat@ == before + row@.take(j as int),
            {
                flat.push(row[j]);
                assert(row@.take(j + 1) =~= row@.take(j as int).push(row@[j as int]));
            }
            proof {
                assert(row@.take(m as int) =~= row@);
                assert(self@.take(i + 1) =~= self@.take(i as int).push(self@[i as int]));
                self@.take(i as int).lemma_flatten_push(self@[i as int]);
            }
        }
        assert(self@.take(n as int) =~= self@);
        flat
    }
}

/// Flattening `g` gives `g.len() * w` cells when every row holds `w` cells.
proof fn lemma_flatten_len(g: Seq<Seq<i32>>, w: nat)
    requires
        forall|i: int| 0 <= i < g.len() ==> #[trigger] g[i].len() == w,
    ensures
        g.flatten().len() == g.len() * w,
    decreases g.len(),
{
    if g.len() > 0 {
        let rest = g.drop_first();
        assert forall|i: int| 0 <= i < rest.len() implies #[trigger] rest[i].len() == w by {
            assert(rest[i] == g[i + 1]);
        }
        lemma_flatten_len(rest, w);
        let n = rest.len();
        assert(g.len() * w == n * w + w) by (nonlinear_arith)
            requires
                g.len() == n + 1,
        ;
    }
}

/// Cutting the flattened rows of `g` into rows of `w` cells gives back `g`
/// when every row holds `w` cells.
proof fn lemma_chunks_of_flatten(g: Seq<Seq<i32>>, w: nat)
    requires
        w > 0,
        forall|i: int| 0 <= i < g.len() ==> #[trigger] g[i].len() == w,
    ensures
        chunks(g.flatten(), w) == g,
    decreases g.len(),
{
    if g.len() > 0 {
        let rest = g.drop_first();
        assert forall|i: int| 0 <= i < rest.len() implies #[trigger] rest[i].len() == w by {
            assert(rest[i] == g[i + 1]);
        }
        lemma_chunks_of_flatten(rest, w);
        let f = g.flatten();
        assert(f == g[0] + rest.flatten());
        assert(g[0].len() == w);
        if rest.len() == 0 {
            assert(rest.flatten() =~= Seq::<i32>::empty());
            assert(f =~= g[0]);
            assert(chunks(f, w) == seq![f]);
            assert(g =~= seq![g[0]]);
        } else {
            assert(rest.flatten() == rest[0] + rest.drop_first().flatten());
            assert(rest[0].len() == w);
            assert(f.len() > w);
            assert(f.take(w as int) =~= g[0]);
            assert(f.skip(w as int) =~= rest.flatten());
            assert(g =~= seq![g[0]] + rest);
        }
    }
}

/// How flat data is cut into rows of `w` cells: there are `len / w` rows
/// rounded up; row `i` holds the data from position `i * w` on, `w` cells
/// of it, or what is left when fewer remain; so cell `k` of row `i` is
/// `data[i * w + k]`.
pub proof fn law_chunks_layout(data: Seq<i32>, w: nat)
    requires
        w > 0,
    ensures
        chunks(data, w).len() == (data.len() + w - 1) / (w as int),
        forall|i: int|
            0 <= i < chunks(data, w).len() ==> (#[trigger] chunks(data, w)[i]).len() == if (i + 1) * w
                <= data.len() {
                w as int
            } else {
                data.len() - i * w
            },
        forall|i: int, k: int|
            0 <= i < chunks(data, w).len() && 0 <= k < chunks(data, w)[i].len() ==> #[trigger] chunks(
                data,
                w,
            )[i][k] == data[i * w + k],
    decreases data.len(),
{
    let c = chunks(data, w);
    let len = data.len() as int;
    let wi = w as int;
    if data.len() == 0 {
        assert((0 + wi - 1) / wi == 0) by (nonlinear_arith)
            requires
                wi > 0,
        ;
    } else if data.len() <= w {
        assert((len + wi - 1) / wi == 1) by (nonlinear_arith)
            requires
                0 < len <= wi,
        ;
        assert forall|i: int| 0 <= i < c.len() implies (#[trigger] c[i]).len() == if (i + 1) * w
            <= data.len() {
            w as int
        } else {
            data.len() - i * w
        } by {
            assert(i == 0);
        }
        assert forall|i: int, k: int| 0 <= i < c.len() && 0 <= k < c[i].len() implies #[trigger] c[i][k]
            == data[i * w + k] by {
            assert(i == 0);
        }
    } else {
        let rest = data.skip(wi);
        law_chunks_layout(rest, w);
        let cr = chunks(rest, w);
        assert(c == seq![data.take(wi)] + cr);
        let rl = rest.len() as int;
        assert(rl == len - wi);
        assert((len + wi - 1) / wi == (rl + wi - 1) / wi + 1) by (nonlinear_arith)
            requires
                rl == len - wi,
                wi > 0,
        ;
        assert forall|i: int| 0 <= i < c.len() implies (#[trigger] c[i]).len() == if (i + 1) * w
            <= data.len() {
            w as int
        } else {
            data.len() - i * w
        } by {
            if i > 0 {
                assert(c[i] == cr[i - 1]);
                assert((i + 1) * wi == i * wi + wi && i * wi == (i - 1) * wi + wi) by (nonlinear_arith);
                assert(cr[i - 1].len() == if i * w <= rest.len() {
                    w as int
                } else {
                    rest.len() - (i - 1) * w
                });
            }
        }
        assert forall|i: int, k: int| 0 <= i < c.len() && 0 <= k < c[i].len() implies #[trigger] c[i][k]
            == data[i * w + k] by {
            if i > 0 {
                assert(c[i] == cr[i - 1]);
                assert(cr[i - 1][k] == rest[(i - 1) * w + k]);
                assert(i * wi == (i - 1) * wi + wi) by (nonlinear_arith);
            }
        }
    }
}

/// Rebuilding a board from its flat encoding at its own width gives back the
/// same board: `from_flat(gol.w, gol.flatten())` has the height, width and
/// cells of `gol`, and `update_flat` with `gol.flatten()` leaves its cells as
/// they were.
pub proof fn law_flat_round_trip(gol: GolInstance)
    requires
        gol.wf(),
        gol.w > 0,
    ensures
        chunks(gol@.flatten(), gol.w as nat) == gol@,
        gol@.flatten().len() / (gol.w as nat) == gol.h,
{
    lemma_chunks_of_flatten(gol@, gol.w as nat);
    lemma_flatten_len(gol@, gol.w as nat);
    let h = gol.h as nat;
    let w = gol.w as nat;
    assert((h * w) / w == h) by (nonlinear_arith)
        requires
            w > 0,
    ;
}

/// Cutting any flat data into rows and flattening the rows again gives the
/// data back: `from_flat(w, data).flatten()` is `data`, and so is the
/// flat encoding of a board after `update_flat(data)`.
pub proof fn law_chunks_flatten_back(data: Seq<i32>, w: nat)
    requires
        w > 0,
    ensures
        chunks(data, w).flatten() == data,
    decreases data.len(),
{
    if data.len() == 0 {
    } else if data.len() <= w {
        assert(chunks(data, w) == seq![data]);
        seq![data].lemma_flatten_one_element();
    } else {
        law_chunks_flatten_back(data.skip(w as int), w);
        let c = chunks(data, w);
        assert(c == seq![data.take(w as int)] + chunks(data.skip(w as int), w));
        assert(c.drop_first() =~= chunks(data.skip(w as int), w));
        assert(c.flatten() == data.take(w as int) + c.drop_first().flatten());
        assert(data.take(w as int) + data.skip(w as int) =~= data);
    }
}

/// The flat encoding of a well-formed board holds `h * w` cells.
pub proof fn law_flatten_len(gol: GolInstance)
    requires
        gol.wf(),
    ensures
        gol@.flatten().len() == gol.h * gol.w,
{
    lemma_flatten_len(gol@, gol.w as nat);
}

} // verus!
