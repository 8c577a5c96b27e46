use vstd::prelude::*;
use crate::board::{Board, Grid, grid_wf, has_pos};
use crate::cell::{CellState, glyph};

verus! {

pub open spec fn digit_char(k: nat) -> char {
    if k == 0 { '0' } else if k == 1 { '1' } else if k == 2 { '2' } else if k == 3 { '3' }
    else if k == 4 { '4' } else if k == 5 { '5' } else if k == 6 { '6' } else if k == 7 { '7' }
    else if k == 8 { '8' } else { '9' }
}

/// The decimal digits of `k`, most significant first.
pub open spec fn digits(k: nat) -> Seq<char>
    decreases k,
{
    if k < 10 {
        seq![digit_char(k)]
    } else {
        digits(k / 10) + seq![digit_char(k % 10)]
    }
}

/// The column labels `1` to `k`, joined by `-`.
pub open spec fn labels(k: nat) -> Seq<char>
    decreases k,
{
    if k == 0 {
        Seq::empty()
    } else if k == 1 {
        digits(1)
    } else {
        labels((k - 1) as nat) + seq!['-'] + digits(k)
    }
}

/// The glyph drawn for the cell at 0-based `(r, c)`: the marker where the
/// 1-based position is listed in `marks`, else the cell's own glyph.
pub open spec fn shown(g: Grid, marks: Seq<(usize, usize)>, r: int, c: int) -> char {
    if has_pos(marks, r + 1, c + 1) { '@' } else { glyph(g[r][c]) }
}

/// The glyphs of the first `k` cells of row `r`, joined by `|`.
pub open spec fn row_cells(g: Grid, marks: Seq<(usize, usize)>, r: int, k: nat) -> Seq<char>
    decreases k,
{
    if k == 0 {
        Seq::empty()
    } else if k == 1 {
        seq![shown(g, marks, r, 0)]
    } else {
        row_cells(g, marks, r, (k - 1) as nat) + seq!['|', shown(g, marks, r, k - 1)]
    }
}

/// The rule drawn under each row.
pub open spec fn rule(n: nat) -> Seq<char> {
    Seq::new(2 * n + 1, |i: int| '-')
}

/// The header line and the first `r` rows, each line closed by `|` and a newline,
/// each row followed by its rule.
pub open spec fn lines(g: Grid, n: nat, marks: Seq<(usize, usize)>, r: nat) -> Seq<char>
    decreases r,
{
    if r == 0 {
        seq![' ', '|'] + labels(n) + seq!['|', '\n']
    } else {
        lines(g, n, marks, (r - 1) as nat) + digits(r) + seq!['|'] + row_cells(g, marks, r - 1, n)
            + seq!['|', '\n'] + rule(n) + seq!['|', '\n']
    }
}

/// The text of an `n` by `n` grid with the listed 1-based positions marked.
pub open spec fn render(g: Grid, n: nat, marks: Seq<(usize, usize)>) -> Seq<char> {
    lines(g, n, marks, n).drop_last()
}

/// `a` and `b` have the same length and differ only where `a` holds the marker.
pub open spec fn same_but_marks(a: Seq<char>, b: Seq<char>) -> bool {
    &&& a.len() == b.len()
    &&& forall|i: int| 0 <= i < a.len() && #[trigger] a[i] != b[i] ==> a[i] == '@'
}

proof fn lemma_same_but_marks_concat(a: Seq<char>, b: Seq<char>, c: Seq<char>, d: Seq<char>)
    requires
        same_but_marks(a, b),
        same_but_marks(c, d),
    ensures
        same_but_marks(a + c, b + d),
{
    assert forall|i: int| 0 <= i < (a + c).len() && #[trigger] (a + c)[i] != (b + d)[i] implies (a + c)[i] == '@' by {
        if i >= a.len() {
            assert((a + c)[i] == c[i - a.len()] && (b + d)[i] == d[i - a.len()]);
        } else {
            assert((a + c)[i] == a[i] && (b + d)[i] == b[i]);
        }
    }
}

proof fn lemma_row_cells_marks(g: Grid, marks: Seq<(usize, usize)>, r: int, k: nat)
    ensures
        same_but_marks(row_cells(g, marks, r, k), row_cells(g, Seq::empty(), r, k)),
    decreases k,
{
    assert(!has_pos(Seq::<(usize, usize)>::empty(), r + 1, k - 1 + 1));
    if k > 1 {
        lemma_row_cells_marks(g, marks, r, (k - 1) as nat);
        let a = seq!['|', shown(g, marks, r, k - 1)];
        let b = seq!['|', shown(g, Seq::empty(), r, k - 1)];
        assert(same_but_marks(a, b)) by {
            assert forall|i: int| 0 <= i < a.len() && #[trigger] a[i] != b[i] implies a[i] == '@' by {}
        }
        lemma_same_but_marks_concat(row_cells(g, marks, r, (k - 1) as nat), row_cells(g, Seq::empty(), r, (k - 1) as nat), a, b);
    } else if k == 1 {
        assert(!has_pos(Seq::<(usize, usize)>::empty(), r + 1, 1));
    }
}

proof fn lemma_lines_marks(g: Grid, n: nat, marks: Seq<(usize, usize)>, r: nat)
    ensures
        same_but_marks(lines(g, n, marks, r), lines(g, n, Seq::empty(), r)),
    decreases r,
{
    if r > 0 {
        lemma_lines_marks(g, n, marks, (r - 1) as nat);
        let head = digits(r) + seq!['|'];
        let tail = seq!['|', '\n'] + rule(n) + seq!['|', '\n'];
        lemma_row_cells_marks(g, marks, r - 1, n);
        lemma_same_but_marks_concat(lines(g, n, marks, (r - 1) as nat), lines(g, n, Seq::empty(), (r - 1) as nat), head, head);
        lemma_same_but_marks_concat(lines(g, n, marks, (r - 1) as nat) + head, lines(g, n, Seq::empty(), (r - 1) as nat) + head,
            row_cells(g, marks, r - 1, n), row_cells(g, Seq::empty(), r - 1, n));
        lemma_same_but_marks_concat(lines(g, n, marks, (r - 1) as nat) + head + row_cells(g, marks, r - 1, n),
            lines(g, n, Seq::empty(), (r - 1) as nat) + head + row_cells(g, Seq::empty(), r - 1, n), tail, tail);
        assert(lines(g, n, marks, r) =~= lines(g, n, marks, (r - 1) as nat) + head + row_cells(g, marks, r - 1, n) + tail);
        assert(lines(g, n, Seq::empty(), r) =~= lines(g, n, Seq::empty(), (r - 1) as nat) + head
            + row_cells(g, Seq::empty(), r - 1, n) + tail);
    }
}

/// Marking positions keeps the text's length and changes only characters
/// that become the marker; each cell shows the marker exactly when its
/// 1-based position is listed, and its own glyph otherwise.
pub proof fn lemma_marks_only_change_marked_cells(g: Grid, n: nat, marks: Seq<(usize, usize)>)
    requires
        forall|i: int| 0 <= i < n ==> #[trigger] g[i].len() == n,
        g.len() == n,
    ensures
        same_but_marks(render(g, n, marks), render(g, n, Seq::empty())),
        forall|r: int, c: int| 0 <= r < n && 0 <= c < n ==>
            (#[trigger] shown(g, marks, r, c) == '@' <==> has_pos(marks, r + 1, c + 1)),
        forall|r: int, c: int| 0 <= r < n && 0 <= c < n && !has_pos(marks, r + 1, c + 1) ==>
            #[trigger] shown(g, marks, r, c) == glyph(g[r][c]),
{
    lemma_lines_marks(g, n, marks, n);
    let a = lines(g, n, marks, n);
    let b = lines(g, n, Seq::empty(), n);
    assert forall|i: int| 0 <= i < a.drop_last().len() && #[trigger] a.drop_last()[i] != b.drop_last()[i]
        implies a.drop_last()[i] == '@' by {
        assert(a.drop_last()[i] == a[i] && b.drop_last()[i] == b[i]);
    }
}

/// Relies on `String`'s `FromIterator<&char>`: the string holds the characters in order.
#[verifier::external_body]
fn chars_to_string(v: &Vec<char>) -> (r: String)
    ensures
        r@ == v@,
{
    v.iter().collect()
}

fn digit_char_of(k: usize) -> (r: char)
    requires
        k < 10,
    ensures
        r == digit_char(k as nat),
{
    if k == 0 { '0' } else if k == 1 { '1' } else if k == 2 { '2' } else if k == 3 { '3' }
    else if k == 4 { '4' } else if k == 5 { '5' } else if k == 6 { '6' } else if k == 7 { '7' }
    else if k == 8 { '8' } else { '9' }
}

fn push_digits(k: usize, out: &mut Vec<char>)
    ensures
        final(out)@ == old(out)@ + digits(k as nat),
    decreases k,
{
    if k >= 10 {
        push_digits(k / 10, out);
    }
    out.push(digit_char_of(k % 10));
    proof {
        assert(out@ =~= old(out)@ + digits(k as nat));
    }
}

fn is_marked(marks: &Vec<(usize, usize)>, r: usize, c: usize) -> (res: bool)
    ensures
        res == has_pos(marks@, r as int, c as int),
{
    let mut k: usize = 0;
    while k < marks.len()
        invariant
            k <= marks@.len(),
            forall|m: int| 0 <= m < k ==> !(#[trigger] marks@[m].0 == r && marks@[m].1 == c),
        decreases marks@.len() - k,
    {
        if marks[k].0 == r && marks[k].1 == c {
            return true;
        }
        k = k + 1;
    }
    false
}

impl Board {
    /// The grid drawn as text: a header of column labels, then each row with
    /// its label and a rule under it.
    pub fn to_string(&self) -> (res: String)
        requires
            self.wf(),
        ensures
            res@ == render(self@, self.n() as nat, Seq::empty()),
    {
        let no_marks: Vec<(usize, usize)> = Vec::new();
        self.to_string_with_marks(&no_marks)
    }

    /// The grid drawn as text, with the listed 1-based positions shown as `@`.
    pub fn to_string_with_marks(&self, mark_positions: &Vec<(usize, usize)>) -> (res: String)
        requires
            self.wf(),
        ensures
            res@ == render(self@, self.n() as nat, mark_positions@),
    {
        proof { self.lemma_wf(); }
        let ghost g = self@;
        let ghost marks = mark_positions@;
        let n = self.get_size();
        let ghost nn = n as nat;
        assert(n + 1 <= usize::MAX) by (nonlinear_arith)
            requires n * n <= usize::MAX;
        let mut out: Vec<char> = Vec::new();
        out.push(' ');
        out.push('|');
        let mut k: usize = 1;
        while k <= n
            invariant
                n + 1 <= usize::MAX,
                1 <= k <= n + 1,
                out@ == seq![' ', '|'] + labels((k - 1) as nat),
            decreases n + 1 - k,
        {
            if k > 1 {
                out.push('-');
            }
            push_digits(k, &mut out);
            proof {
                assert(out@ =~= seq![' ', '|'] + labels(k as nat));
            }
            k = k + 1;
        }
        out.push('|');
        out.push('\n');
        proof {
            assert(out@ =~= lines(g, nn, marks, 0));
        }
        let mut r: usize = 0;
        while r < n
            invariant
                self.wf(),
                g == self@,
                n == self.n(),
                grid_wf(g, n as int),
                nn == n,
                marks == mark_positions@,
                n + 1 <= usize::MAX,
                r <= n,
                out@ == lines(g, nn, marks, r as nat),
            decreases n - r,
        {
            let ghost start = out@;
            push_digits(r + 1, &mut out);
            out.push('|');
            let mut c: usize = 0;
            while c < n
                invariant
                    self.wf(),
                    g == self@,
                    n == self.n(),
                    grid_wf(g, n as int),
                    marks == mark_positions@,
                    n + 1 <= usize::MAX,
                    r < n,
                    c <= n,
                    out@ == start + digits((r + 1) as nat) + seq!['|'] + row_cells(g, marks, r as int, c as nat),
                decreases n - c,
            {
                if c > 0 {
                    out.push('|');
                }
                let ch = if is_marked(mark_positions, r + 1, c + 1) { '@' } else { self.get_state(r, c).glyph() };
                out.push(ch);
                proof {
                    assert(out@ =~= start + digits((r + 1) as nat) + seq!['|'] + row_cells(g, marks, r as int, (c + 1) as nat));
                }
                c = c + 1;
            }
            out.push('|');
            out.push('\n');
            let ghost mid = out@;
            out.push('-');
            let mut j: usize = 0;
            while j < n
                invariant
                    j <= n,
                    out@ == mid + Seq::new((2 * j + 1) as nat, |i: int| '-'),
                decreases n - j,
            {
                out.push('-');
                out.push('-');
                proof {
                    assert(out@ =~= mid + Seq::new((2 * (j + 1) + 1) as nat, |i: int| '-'));
                }
                j = j + 1;
            }
            out.push('|');
            out.push('\n');
            proof {
                assert(out@ =~= lines(g, nn, marks, (r + 1) as nat));
            }
            r = r + 1;
        }
        out.pop();
        chars_to_string(&out)
    }
}

} // verus!
