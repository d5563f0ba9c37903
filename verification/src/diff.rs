use crate::sorting::{is_sorted_order, sorted_order};
use crate::text::{bytes_eq, lines, lines_of, seqs, split, split_on};
use vstd::prelude::*;

verus! {

/// The difference between two texts, line by line: the lines of the first
/// that are gone, the lines of the second that are new, and both together
/// ordered by line number, a deletion before an addition on the same line.
#[derive(Debug)]
pub struct Diff {
    pub lineas_eliminadas: Vec<(usize, Vec<u8>)>,
    pub lineas_agregadas: Vec<(usize, Vec<u8>)>,
    pub lineas: Vec<(usize, bool, Vec<u8>)>,
    pub lineas_extra: usize,
}

/// One cell of the table of common lines: the length of the longest common
/// run of lines up to this pair of lines, and whether the two lines match.
#[derive(Clone, Copy, Debug)]
pub struct Celda {
    pub valor: usize,
    pub es_match: bool,
    pub fila: usize,
    pub columna: usize,
}

/// The mathematical value of a line of a diff.
pub open spec fn line_view(l: (usize, bool, Vec<u8>)) -> (usize, bool, Seq<u8>) {
    (l.0, l.1, l.2@)
}

/// The mathematical values of the lines of a diff.
pub open spec fn lines_view(ls: Seq<(usize, bool, Vec<u8>)>) -> Seq<(usize, bool, Seq<u8>)> {
    Seq::new(ls.len(), |i: int| line_view(ls[i]))
}

/// The mathematical values of numbered lines.
pub open spec fn numbered_view(ls: Seq<(usize, Vec<u8>)>) -> Seq<(usize, Seq<u8>)> {
    Seq::new(ls.len(), |i: int| (ls[i].0, ls[i].1@))
}

/// Whether the numbers in `ls` grow from each entry to the next, and each
/// entry holds the line of `text` with its number.
pub open spec fn picks(ls: Seq<(usize, Seq<u8>)>, text: Seq<Seq<u8>>) -> bool {
    &&& forall|k: int|
        0 <= k < ls.len() ==> (#[trigger] ls[k]).0 < text.len() && ls[k].1 == text[ls[k].0 as int]
    &&& forall|a: int, b: int| 0 <= a < b < ls.len() ==> (#[trigger] ls[a]).0 < (#[trigger] ls[b]).0
}

/// Whether the lines of a diff are ordered by number, a deletion before an
/// addition on the same line.
pub open spec fn ordered(ls: Seq<(usize, bool, Seq<u8>)>) -> bool {
    forall|a: int, b: int|
        0 <= a < b < ls.len() ==> (#[trigger] ls[a]).0 < (#[trigger] ls[b]).0 || (ls[a].0
            == ls[b].0 && (!ls[a].1 || ls[b].1))
}

/// The diff that changes nothing.
pub fn empty_diff() -> (r: Diff)
    ensures
        r.lineas_eliminadas@.len() == 0,
        r.lineas_agregadas@.len() == 0,
        r.lineas@.len() == 0,
        r.lineas_extra == 0,
{
    Diff {
        lineas_eliminadas: Vec::new(),
        lineas_agregadas: Vec::new(),
        lineas: Vec::new(),
        lineas_extra: 0,
    }
}

/// Whether the table has `rows` full rows of `cols` cells, and no cell of
/// row `r` holds more than `r + 1`.
pub open spec fn table_ok(matriz: Seq<Vec<Celda>>, rows: int, cols: int) -> bool {
    &&& matriz.len() == rows
    &&& forall|r: int| 0 <= r < rows ==> (#[trigger] matriz[r])@.len() == cols
    &&& forall|r: int, c: int|
        0 <= r < rows && 0 <= c < cols ==> (#[trigger] matriz[r]@[c]).valor <= r + 1
}

/// Whether the table has at least `rows` rows, the first `rows` of them
/// full rows of `cols` cells, and no cell of row `r` among them holds more
/// than `r + 1`. Rows after these do not matter.
pub open spec fn table_covers(matriz: Seq<Vec<Celda>>, rows: int, cols: int) -> bool {
    &&& matriz.len() >= rows
    &&& forall|r: int| 0 <= r < rows ==> (#[trigger] matriz[r])@.len() == cols
    &&& forall|r: int, c: int|
        0 <= r < rows && 0 <= c < cols ==> (#[trigger] matriz[r]@[c]).valor <= r + 1
}

/// The value of a cell whose lines match: one more than that of the cell
/// up and to the left, or 1 at an edge.
fn valor_match(matriz: &Vec<Vec<Celda>>, i: usize, j: usize) -> (r: usize)
    requires
        i == 0 || j == 0 || (i <= matriz@.len() && j <= matriz@[i - 1]@.len() && matriz@[i
            - 1]@[j - 1].valor <= i),
        i < usize::MAX,
    ensures
        r == if i == 0 || j == 0 {
            1
        } else {
            matriz@[i - 1]@[j - 1].valor + 1
        },
        r <= i + 1,
{
    if i == 0 || j == 0 {
        1
    } else {
        matriz[i - 1][j - 1].valor + 1
    }
}

/// The value of a cell whose lines differ: the larger of the values up and
/// to the left, as far as there are such cells.
fn valor_unmatch(matriz: &Vec<Vec<Celda>>, fila: &Vec<Celda>, i: usize, j: usize) -> (r: usize)
    requires
        i == 0 || (i <= matriz@.len() && j < matriz@[i - 1]@.len()),
        j == 0 || j <= fila@.len(),
    ensures
        r == if i == 0 && j == 0 {
            0
        } else if i == 0 {
            fila@[j - 1].valor
        } else if j == 0 {
            matriz@[i - 1]@[j as int].valor
        } else if matriz@[i - 1]@[j as int].valor >= fila@[j - 1].valor {
            matriz@[i - 1]@[j as int].valor
        } else {
            fila@[j - 1].valor
        },
{
    if i == 0 && j == 0 {
        0
    } else if i == 0 {
        fila[j - 1].valor
    } else if j == 0 {
        matriz[i - 1][j].valor
    } else {
        let up: usize = matriz[i - 1][j].valor;
        let left: usize = fila[j - 1].valor;
        if up >= left {
            up
        } else {
            left
        }
    }
}

/// Whether `v` holds `x`.
fn holds(v: &Vec<usize>, x: usize) -> (r: bool)
    ensures
        r == v@.contains(x),
{
    let mut i: usize = 0;
    while i < v.len()
        invariant
            i <= v@.len(),
            forall|j: int| 0 <= j < i ==> v@[j] != x,
        decreases v@.len() - i,
    {
        if v[i] == x {
            return true;
        }
        i = i + 1;
    }
    false
}

/// The numbers up to `last` that are not in `taken`, in growing order.
fn not_taken(taken: &Vec<usize>, last: usize) -> (r: Vec<usize>)
    requires
        last < usize::MAX,
    ensures
        forall|k: int| 0 <= k < r@.len() ==> #[trigger] r@[k] <= last && !taken@.contains(r@[k]),
        forall|a: int, b: int| 0 <= a < b < r@.len() ==> #[trigger] r@[a] < #[trigger] r@[b],
        forall|x: usize| x <= last && !taken@.contains(x) ==> r@.contains(x),
{
    let mut out: Vec<usize> = Vec::new();
    let mut i: usize = 0;
    while i <= last
        invariant
            i <= last + 1,
            last < usize::MAX,
            forall|k: int| 0 <= k < out@.len() ==> #[trigger] out@[k] < i && !taken@.contains(out@[k]),
            forall|a: int, b: int| 0 <= a < b < out@.len() ==> #[trigger] out@[a] < #[trigger] out@[b],
            forall|x: usize| x < i && !taken@.contains(x) ==> out@.contains(x),
        decreases last + 1 - i,
    {
        if !holds(taken, i) {
            let ghost before = out@;
            out.push(i);
            proof {
                assert forall|x: usize| x < i + 1 && !taken@.contains(x) implies out@.contains(
                    x,
                ) by {
                    if x < i {
                        let k = choose|k: int| 0 <= k < before.len() && before[k] == x;
                        assert(out@[k] == x);
                    } else {
                        assert(out@[before.len() as int] == x);
                    }
                }
            }
        }
        i = i + 1;
    }
    out
}

/// The row at or above row `k` in which the walk finds a match in column
/// `i`: it goes up as long as the cell above holds the number `bloque`.
pub open spec fn match_up(m: Seq<Vec<Celda>>, k: int, i: int, bloque: usize) -> Option<int>
    decreases k,
{
    if k < 0 {
        None
    } else if m[k]@[i].es_match {
        Some(k)
    } else if k == 0 || m[k - 1]@[i].valor != bloque {
        None
    } else {
        match_up(m, k - 1, i, bloque)
    }
}

/// The column at or left of column `c` in which the walk finds a match in
/// row `j`: it goes left as long as the cell to the left holds the number
/// `bloque`.
pub open spec fn match_left(m: Seq<Vec<Celda>>, j: int, c: int, bloque: usize) -> Option<int>
    decreases c,
{
    if c < 0 {
        None
    } else if m[j]@[c].es_match {
        Some(c)
    } else if c == 0 || m[j]@[c - 1].valor != bloque {
        None
    } else {
        match_left(m, j, c - 1, bloque)
    }
}

/// One less than `n`, and 0 for 0.
pub open spec fn less(n: usize) -> usize {
    if n > 0 {
        (n - 1) as usize
    } else {
        0
    }
}

/// The matching pairs of lines that the walk back through the table meets
/// from row `j`, column `i` on, `bloque` being the number of the run of
/// common lines that it is in: each pair as the line of the first text and
/// the line of the second. At a match the walk takes the pair and goes up
/// and left. Elsewhere it goes on, along the edge or up and left, where the
/// next cell holds the number of the run; failing that it looks for a
/// match up the column and then left along the row, and ends where it
/// finds none.
pub open spec fn walk(m: Seq<Vec<Celda>>, j: int, i: int, bloque: usize) -> Seq<(usize, usize)>
    decreases i + j,
{
    if j < 0 || i < 0 {
        Seq::empty()
    } else {
        let celda = m[j]@[i];
        if i == 0 && j == 0 {
            if celda.es_match {
                seq![(celda.fila, celda.columna)]
            } else {
                Seq::empty()
            }
        } else if celda.es_match {
            seq![(celda.fila, celda.columna)] + walk(
                m,
                if j > 0 {
                    j - 1
                } else {
                    0
                },
                if i > 0 {
                    i - 1
                } else {
                    0
                },
                less(bloque),
            )
        } else if j == 0 && m[j]@[i - 1].valor == bloque {
            walk(m, j, i - 1, bloque)
        } else if i == 0 && m[j - 1]@[i].valor == bloque {
            walk(m, j - 1, i, bloque)
        } else if i == 0 || j == 0 {
            Seq::empty()
        } else if m[j - 1]@[i - 1].valor == bloque {
            walk(m, j - 1, i - 1, bloque)
        } else {
            match match_up(m, j, i, bloque) {
                Some(k) => if k < 0 || k > j {
                    Seq::empty()
                } else {
                    seq![(m[k]@[i].fila, m[k]@[i].columna)] + walk(
                        m,
                        if k > 0 {
                            k - 1
                        } else {
                            0
                        },
                        i - 1,
                        less(bloque),
                    )
                },
                None => match match_left(m, j, i, bloque) {
                    Some(c) => if c < 0 || c > i {
                        Seq::empty()
                    } else {
                        seq![(m[j]@[c].fila, m[j]@[c].columna)] + walk(
                            m,
                            j - 1,
                            if c > 0 {
                                c - 1
                            } else {
                                0
                            },
                            less(bloque),
                        )
                    },
                    None => Seq::empty(),
                },
            }
        }
    }
}

/// The lines of the first text in the pairs.
pub open spec fn firsts(pairs: Seq<(usize, usize)>) -> Seq<usize> {
    Seq::new(pairs.len(), |k: int| pairs[k].0)
}

/// The lines of the second text in the pairs.
pub open spec fn seconds(pairs: Seq<(usize, usize)>) -> Seq<usize> {
    Seq::new(pairs.len(), |k: int| pairs[k].1)
}

/// Walks the table of common lines back from its last cell and tells which
/// lines of the first text (up to `len_columna`) and of the second (up to
/// `len_fila`) are in no matching pair on the way: the lines that are gone
/// and the lines that are new, each in growing order.
fn get_diff(matriz_coincidencias: &Vec<Vec<Celda>>, len_columna: usize, len_fila: usize) -> (r: (
    Vec<usize>,
    Vec<usize>,
))
    requires
        len_columna < usize::MAX,
        len_fila < usize::MAX,
        table_covers(matriz_coincidencias@, len_columna + 1, len_fila + 1),
    ensures
        forall|k: int| 0 <= k < r.0@.len() ==> #[trigger] r.0@[k] <= len_columna,
        forall|a: int, b: int| 0 <= a < b < r.0@.len() ==> #[trigger] r.0@[a] < #[trigger] r.0@[b],
        forall|k: int| 0 <= k < r.1@.len() ==> #[trigger] r.1@[k] <= len_fila,
        forall|a: int, b: int| 0 <= a < b < r.1@.len() ==> #[trigger] r.1@[a] < #[trigger] r.1@[b],
        ({
            let met = walk(
                matriz_coincidencias@,
                len_columna as int,
                len_fila as int,
                matriz_coincidencias@[len_columna as int]@[len_fila as int].valor,
            );
            &&& forall|x: usize|
                r.0@.contains(x) <==> x <= len_columna && !firsts(met).contains(x)
            &&& forall|x: usize| r.1@.contains(x) <==> x <= len_fila && !seconds(met).contains(x)
        }),
{
    let ghost m = matriz_coincidencias@;
    let mut base_numbers: Vec<usize> = Vec::new();
    let mut new_numbers: Vec<usize> = Vec::new();
    let mut j: usize = len_columna;
    let mut i: usize = len_fila;
    let mut num_bloque_actual: usize = matriz_coincidencias[j][i].valor;
    let ghost met = walk(m, j as int, i as int, num_bloque_actual);
    let ghost mut done: Seq<(usize, usize)> = Seq::empty();
    proof {
        assert(done + met =~= met);
        assert(base_numbers@ =~= firsts(done));
        assert(new_numbers@ =~= seconds(done));
    }
    loop
        invariant_except_break
            met == done + walk(m, j as int, i as int, num_bloque_actual),
        invariant
            j <= len_columna,
            i <= len_fila,
            m == matriz_coincidencias@,
            table_covers(matriz_coincidencias@, len_columna + 1, len_fila + 1),
            base_numbers@ == firsts(done),
            new_numbers@ == seconds(done),
        ensures
            met == done,
            base_numbers@ == firsts(done),
            new_numbers@ == seconds(done),
        decreases i + j,
    {
        let celda = matriz_coincidencias[j][i];
        let ghost here = walk(m, j as int, i as int, num_bloque_actual);
        let ghost had = done;
        if i == 0 && j == 0 {
            if celda.es_match {
                base_numbers.push(celda.fila);
                new_numbers.push(celda.columna);
                proof {
                    done = done.push((celda.fila, celda.columna));
                    assert(base_numbers@ =~= firsts(done));
                    assert(new_numbers@ =~= seconds(done));
                    assert(done =~= had + here);
                }
            } else {
                assert(had + here =~= had);
            }
            break ;
        }
        if celda.es_match {
            base_numbers.push(celda.fila);
            new_numbers.push(celda.columna);
            if num_bloque_actual > 0 {
                num_bloque_actual = num_bloque_actual - 1;
            }
            i = if i > 0 {
                i - 1
            } else {
                0
            };
            j = if j > 0 {
                j - 1
            } else {
                0
            };
            proof {
                done = done.push((celda.fila, celda.columna));
                assert(base_numbers@ =~= firsts(done));
                assert(new_numbers@ =~= seconds(done));
                let rest = walk(m, j as int, i as int, num_bloque_actual);
                assert(had + (seq![(celda.fila, celda.columna)] + rest) =~= done + rest);
            }
        } else {
            if j == 0 && matriz_coincidencias[j][i - 1].valor == num_bloque_actual {
                i = i - 1;
                continue ;
            }
            if i == 0 && matriz_coincidencias[j - 1][i].valor == num_bloque_actual {
                j = j - 1;
                continue ;
            }
            if i == 0 || j == 0 {
                assert(had + here =~= had);
                break ;
            }
            if matriz_coincidencias[j - 1][i - 1].valor == num_bloque_actual {
                i = i - 1;
                j = j - 1;
                continue ;
            }
            let mut found = false;
            let mut k: usize = j;
            loop
                invariant_except_break
                    !found,
                    match_up(m, j as int, i as int, num_bloque_actual) == match_up(
                        m,
                        k as int,
                        i as int,
                        num_bloque_actual,
                    ),
                invariant
                    k <= j <= len_columna,
                    0 < i <= len_fila,
                    0 < j,
                    m == matriz_coincidencias@,
                    table_covers(matriz_coincidencias@, len_columna + 1, len_fila + 1),
                ensures
                    k <= j,
                    found ==> k <= len_columna && 0 < i <= len_fila,
                    match_up(m, j as int, i as int, num_bloque_actual) == if found {
                        Some(k as int)
                    } else {
                        None::<int>
                    },
                decreases k,
            {
                if matriz_coincidencias[k][i].es_match {
                    found = true;
                    break ;
                }
                if k == 0 || matriz_coincidencias[k - 1][i].valor != num_bloque_actual {
                    break ;
                }
                k = k - 1;
            }
            if found {
                let hit = matriz_coincidencias[k][i];
                base_numbers.push(hit.fila);
                new_numbers.push(hit.columna);
                let ghost bloque = num_bloque_actual;
                i = i - 1;
                j = if k > 0 {
                    k - 1
                } else {
                    0
                };
                if num_bloque_actual > 0 {
                    num_bloque_actual = num_bloque_actual - 1;
                }
                proof {
                    done = done.push((hit.fila, hit.columna));
                    assert(base_numbers@ =~= firsts(done));
                    assert(new_numbers@ =~= seconds(done));
                    let rest = walk(m, j as int, i as int, num_bloque_actual);
                    assert(num_bloque_actual == less(bloque));
                    assert(had + (seq![(hit.fila, hit.columna)] + rest) =~= done + rest);
                }
            } else {
                let mut c: usize = i;
                loop
                    invariant_except_break
                        !found,
                        match_left(m, j as int, i as int, num_bloque_actual) == match_left(
                            m,
                            j as int,
                            c as int,
                            num_bloque_actual,
                        ),
                    invariant
                        c <= i <= len_fila,
                        0 < j <= len_columna,
                        0 < i,
                        m == matriz_coincidencias@,
                        table_covers(matriz_coincidencias@, len_columna + 1, len_fila + 1),
                    ensures
                        c <= i,
                        found ==> c <= len_fila && 0 < j <= len_columna,
                        match_left(m, j as int, i as int, num_bloque_actual) == if found {
                            Some(c as int)
                        } else {
                            None::<int>
                        },
                    decreases c,
                {
                    if matriz_coincidencias[j][c].es_match {
                        found = true;
                        break ;
                    }
                    if c == 0 || matriz_coincidencias[j][c - 1].valor != num_bloque_actual {
                        break ;
                    }
                    c = c - 1;
                }
                if !found {
                    assert(had + here =~= had);
                    break ;
                }
                let hit = matriz_coincidencias[j][c];
                base_numbers.push(hit.fila);
                new_numbers.push(hit.columna);
                let ghost bloque = num_bloque_actual;
                i = if c > 0 {
                    c - 1
                } else {
                    0
                };
                j = j - 1;
                if num_bloque_actual > 0 {
                    num_bloque_actual = num_bloque_actual - 1;
                }
                proof {
                    done = done.push((hit.fila, hit.columna));
                    assert(base_numbers@ =~= firsts(done));
                    assert(new_numbers@ =~= seconds(done));
                    let rest = walk(m, j as int, i as int, num_bloque_actual);
                    assert(num_bloque_actual == less(bloque));
                    assert(had + (seq![(hit.fila, hit.columna)] + rest) =~= done + rest);
                }
            }
        }
    }
    let gone = not_taken(&base_numbers, len_columna);
    let fresh = not_taken(&new_numbers, len_fila);
    proof {
        assert forall|x: usize| gone@.contains(x) implies x <= len_columna && !firsts(
            met,
        ).contains(x) by {
            let k = choose|k: int| 0 <= k < gone@.len() && gone@[k] == x;
            assert(gone@[k] <= len_columna && !base_numbers@.contains(gone@[k]));
        }
        assert forall|x: usize| fresh@.contains(x) implies x <= len_fila && !seconds(
            met,
        ).contains(x) by {
            let k = choose|k: int| 0 <= k < fresh@.len() && fresh@[k] == x;
            assert(fresh@[k] <= len_fila && !new_numbers@.contains(fresh@[k]));
        }
    }
    (gone, fresh)
}

/// The number in the cell of the table of common lines for line `r` of
/// the first text and line `c` of the second: where the lines match, one
/// more than the number up and to the left, or 1 at an edge; where they
/// differ, the larger of the numbers up and to the left, as far as there
/// are such cells, and 0 in the first cell.
pub open spec fn cell_value(bl: Seq<Seq<u8>>, nl: Seq<Seq<u8>>, r: int, c: int) -> nat
    decreases r + c,
{
    if r < 0 || c < 0 {
        0
    } else if bl[r] == nl[c] {
        if r == 0 || c == 0 {
            1
        } else {
            cell_value(bl, nl, r - 1, c - 1) + 1
        }
    } else if r == 0 && c == 0 {
        0
    } else if r == 0 {
        cell_value(bl, nl, r, c - 1)
    } else if c == 0 {
        cell_value(bl, nl, r - 1, c)
    } else if cell_value(bl, nl, r - 1, c) >= cell_value(bl, nl, r, c - 1) {
        cell_value(bl, nl, r - 1, c)
    } else {
        cell_value(bl, nl, r, c - 1)
    }
}

/// Whether `m` is the table of common lines of the texts with the lines
/// `bl` and `nl`: a row for each line of the first and a cell in it for
/// each line of the second, each cell with its number, whether its lines
/// match, and its place.
pub open spec fn is_table(m: Seq<Vec<Celda>>, bl: Seq<Seq<u8>>, nl: Seq<Seq<u8>>) -> bool {
    &&& m.len() == bl.len()
    &&& forall|r: int| 0 <= r < m.len() ==> (#[trigger] m[r])@.len() == nl.len()
    &&& forall|r: int, c: int|
        0 <= r < bl.len() && 0 <= c < nl.len() ==> {
            &&& (#[trigger] m[r]@[c]).valor == cell_value(bl, nl, r, c)
            &&& m[r]@[c].es_match == (bl[r] == nl[c])
            &&& m[r]@[c].fila == r
            &&& m[r]@[c].columna == c
        }
}

/// The table of common lines of two texts.
fn build_table(base_lines: &Vec<Vec<u8>>, new_lines: &Vec<Vec<u8>>) -> (r: Vec<Vec<Celda>>)
    ensures
        table_ok(r@, base_lines@.len() as int, new_lines@.len() as int),
        is_table(r@, seqs(base_lines@), seqs(new_lines@)),
{
    let ghost bl = seqs(base_lines@);
    let ghost nl = seqs(new_lines@);
    let mut matriz: Vec<Vec<Celda>> = Vec::new();
    let rows: usize = base_lines.len();
    let mut i: usize = 0;
    while i < rows
        invariant
            i <= rows == base_lines@.len(),
            bl == seqs(base_lines@),
            nl == seqs(new_lines@),
            table_ok(matriz@, i as int, new_lines@.len() as int),
            is_table(matriz@, bl.subrange(0, i as int), nl),
        decreases rows - i,
    {
        let mut fila: Vec<Celda> = Vec::new();
        let mut j: usize = 0;
        while j < new_lines.len()
            invariant
                j <= new_lines@.len(),
                i < rows == base_lines@.len(),
                bl == seqs(base_lines@),
                nl == seqs(new_lines@),
                fila@.len() == j,
                table_ok(matriz@, i as int, new_lines@.len() as int),
                is_table(matriz@, bl.subrange(0, i as int), nl),
                forall|c: int| 0 <= c < j ==> (#[trigger] fila@[c]).valor <= i + 1,
                forall|c: int|
                    0 <= c < j ==> {
                        &&& (#[trigger] fila@[c]).valor == cell_value(bl, nl, i as int, c)
                        &&& fila@[c].es_match == (bl[i as int] == nl[c])
                        &&& fila@[c].fila == i
                        &&& fila@[c].columna == c
                    },
            decreases new_lines@.len() - j,
        {
            let es_match = bytes_eq(base_lines[i].as_slice(), new_lines[j].as_slice());
            proof {
                assert(bl[i as int] == base_lines@[i as int]@);
                assert(nl[j as int] == new_lines@[j as int]@);
                if i > 0 {
                    lemma_cells_above(bl, nl, i as int, j as int);
                    assert(bl.subrange(0, i as int)[i - 1] == bl[i - 1]);
                    assert(matriz@[i - 1]@[j as int].valor == cell_value(
                        bl.subrange(0, i as int),
                        nl,
                        i - 1,
                        j as int,
                    ));
                    if j > 0 {
                        assert(matriz@[i - 1]@[j - 1].valor == cell_value(
                            bl.subrange(0, i as int),
                            nl,
                            i - 1,
                            j - 1,
                        ));
                    }
                }
            }
            let valor: usize = if es_match {
                proof {
                    if i > 0 && j > 0 {
                        assert(matriz@[i - 1]@[j - 1].valor <= i);
                    }
                }
                valor_match(&matriz, i, j)
            } else {
                proof {
                    if i > 0 {
                        assert(matriz@[i - 1]@[j as int].valor <= i);
                    }
                }
                valor_unmatch(&matriz, &fila, i, j)
            };
            fila.push(Celda { valor, es_match, fila: i, columna: j });
            j = j + 1;
        }
        let ghost before = matriz@;
        matriz.push(fila);
        proof {
            let upto = bl.subrange(0, i as int + 1);
            assert forall|r: int, c: int| 0 <= r < upto.len() && 0 <= c < nl.len() implies {
                &&& (#[trigger] matriz@[r]@[c]).valor == cell_value(upto, nl, r, c)
                &&& matriz@[r]@[c].es_match == (upto[r] == nl[c])
                &&& matriz@[r]@[c].fila == r
                &&& matriz@[r]@[c].columna == c
            } by {
                lemma_cells_prefix(bl, nl, i as int + 1, r, c);
                if r < i {
                    assert(matriz@[r] == before[r]);
                    lemma_cells_prefix(bl, nl, i as int, r, c);
                    assert(bl.subrange(0, i as int)[r] == bl[r]);
                    assert(before[r]@[c].valor == cell_value(bl.subrange(0, i as int), nl, r, c));
                }
            }
            assert forall|r: int| 0 <= r < i + 1 implies (#[trigger] matriz@[r])@.len()
                == new_lines@.len() by {
                if r < i {
                    assert(matriz@[r] == before[r]);
                }
            }
            assert forall|r: int, c: int|
                0 <= r < i + 1 && 0 <= c < new_lines@.len() implies (#[trigger] matriz@[r]@[c]).valor
                <= r + 1 by {
                if r < i {
                    assert(matriz@[r] == before[r]);
                    assert(before[r]@[c].valor <= r + 1);
                }
            }
        }
        i = i + 1;
    }
    proof {
        assert(bl.subrange(0, rows as int) =~= bl);
    }
    matriz
}

/// The numbers of the table of the first lines of a text are those of the
/// table of the whole text.
proof fn lemma_cells_prefix(bl: Seq<Seq<u8>>, nl: Seq<Seq<u8>>, n: int, r: int, c: int)
    requires
        0 <= r < n <= bl.len(),
    ensures
        cell_value(bl.subrange(0, n), nl, r, c) == cell_value(bl, nl, r, c),
    decreases r + c,
{
    let pre = bl.subrange(0, n);
    assert(pre[r] == bl[r]);
    if c >= 0 {
        if r > 0 {
            assert(pre[r - 1] == bl[r - 1]);
            lemma_cells_prefix(bl, nl, n, r - 1, c);
            if c > 0 {
                lemma_cells_prefix(bl, nl, n, r - 1, c - 1);
            }
        }
        if c > 0 {
            lemma_cells_prefix(bl, nl, n, r, c - 1);
        }
    }
}

/// The numbers of the row above, in the table of the lines before line
/// `i`, are those of the table of the whole text.
proof fn lemma_cells_above(bl: Seq<Seq<u8>>, nl: Seq<Seq<u8>>, i: int, j: int)
    requires
        0 < i <= bl.len(),
        0 <= j,
    ensures
        cell_value(bl.subrange(0, i), nl, i - 1, j) == cell_value(bl, nl, i - 1, j),
        j > 0 ==> cell_value(bl.subrange(0, i), nl, i - 1, j - 1) == cell_value(
            bl,
            nl,
            i - 1,
            j - 1,
        ),
{
    lemma_cells_prefix(bl, nl, i, i - 1, j);
    if j > 0 {
        lemma_cells_prefix(bl, nl, i, i - 1, j - 1);
    }
}

/// Whether one of the numbered lines `ls` has the number `x`.
pub open spec fn has_number(ls: Seq<(usize, Seq<u8>)>, x: usize) -> bool {
    exists|k: int| 0 <= k < ls.len() && (#[trigger] ls[k]).0 == x
}

/// The lines of `text` whose numbers are in `numbers`, each with its
/// number, in growing order: every such line, and no other.
fn pick_lines(text: &Vec<Vec<u8>>, numbers: &Vec<usize>) -> (r: Vec<(usize, Vec<u8>)>)
    requires
        forall|a: int, b: int|
            0 <= a < b < numbers@.len() ==> #[trigger] numbers@[a] < #[trigger] numbers@[b],
    ensures
        picks(numbered_view(r@), seqs(text@)),
        forall|k: int| 0 <= k < r@.len() ==> numbers@.contains((#[trigger] r@[k]).0),
        forall|x: usize|
            x < text@.len() && numbers@.contains(x) ==> has_number(numbered_view(r@), x),
{
    let mut out: Vec<(usize, Vec<u8>)> = Vec::new();
    let mut i: usize = 0;
    while i < text.len()
        invariant
            i <= text@.len(),
            forall|k: int|
                0 <= k < out@.len() ==> (#[trigger] out@[k]).0 < i && out@[k].1@ == text@[out@[k].0 as int]@
                    && numbers@.contains(out@[k].0),
            forall|a: int, b: int|
                0 <= a < b < out@.len() ==> (#[trigger] out@[a]).0 < (#[trigger] out@[b]).0,
            forall|x: usize| x < i && numbers@.contains(x) ==> has_number(numbered_view(out@), x),
        decreases text@.len() - i,
    {
        let ghost before = numbered_view(out@);
        if holds(numbers, i) {
            out.push((i, text[i].clone()));
            assert(numbered_view(out@)[before.len() as int].0 == i);
        }
        proof {
            assert forall|x: usize| x < i + 1 && numbers@.contains(x) implies has_number(
                numbered_view(out@),
                x,
            ) by {
                if x < i {
                    let k = choose|k: int| 0 <= k < before.len() && (#[trigger] before[k]).0 == x;
                    assert(numbered_view(out@)[k].0 == x);
                }
            }
        }
        i = i + 1;
    }
    proof {
        let nv = numbered_view(out@);
        assert forall|k: int| 0 <= k < nv.len() implies (#[trigger] nv[k]).0 < seqs(text@).len()
            && nv[k].1 == seqs(text@)[nv[k].0 as int] by {
            assert(out@[k].0 < i);
        }
        assert forall|a: int, b: int| 0 <= a < b < nv.len() implies (#[trigger] nv[a]).0 < (
        #[trigger] nv[b]).0 by {
            assert(out@[a].0 < out@[b].0);
        }
    }
    out
}

/// The numbers of the deletions `dels` and then of the additions `adds`,
/// as keys to order them by.
pub open spec fn merge_keys(dels: Seq<(usize, Vec<u8>)>, adds: Seq<(usize, Vec<u8>)>) -> Seq<
    (usize, bool),
> {
    Seq::new(
        dels.len() + adds.len(),
        |p: int|
            (
                if p < dels.len() {
                    dels[p].0
                } else {
                    adds[p - dels.len()].0
                },
                false,
            ),
    )
}

/// Whether `out` holds the deletions `dels` and the additions `adds` in
/// one list, ordered by line number: on one line the deletions before the
/// additions, and each kind in the order that it had.
pub open spec fn merged_in_order(
    dels: Seq<(usize, Vec<u8>)>,
    adds: Seq<(usize, Vec<u8>)>,
    out: Seq<(usize, bool, Vec<u8>)>,
) -> bool {
    exists|order: Seq<usize>|
        #[trigger] is_sorted_order(merge_keys(dels, adds), order) && out.len() == dels.len()
            + adds.len() && forall|m: int|
            0 <= m < out.len() ==> placed(#[trigger] out[m], order[m] as int, dels, adds)
}

/// Deletions and additions in one list, ordered by line number, a deletion
/// before an addition on the same line.
fn merge_lines(dels: &Vec<(usize, Vec<u8>)>, adds: &Vec<(usize, Vec<u8>)>) -> (r: Vec<
    (usize, bool, Vec<u8>),
>)
    ensures
        ordered(lines_view(r@)),
        r@.len() == dels@.len() + adds@.len(),
        merged_in_order(dels@, adds@, r@),
        forall|k: int|
            0 <= k < r@.len() ==> {
                ||| (!(#[trigger] r@[k]).1 && numbered_view(dels@).contains((r@[k].0, r@[k].2@)))
                ||| (r@[k].1 && numbered_view(adds@).contains((r@[k].0, r@[k].2@)))
            },
{
    let ghost nd = dels@.len() as int;
    let mut keys: Vec<(usize, bool)> = Vec::new();
    let mut i: usize = 0;
    while i < dels.len()
        invariant
            i <= dels@.len(),
            keys@.len() == i,
            forall|p: int| 0 <= p < i ==> #[trigger] keys@[p] == (dels@[p].0, false),
        decreases dels@.len() - i,
    {
        keys.push((dels[i].0, false));
        i = i + 1;
    }
    let mut j: usize = 0;
    while j < adds.len()
        invariant
            j <= adds@.len(),
            nd == dels@.len(),
            keys@.len() == nd + j,
            forall|p: int|
                0 <= p < keys@.len() ==> #[trigger] keys@[p] == (
                    if p < nd {
                        dels@[p].0
                    } else {
                        adds@[p - nd].0
                    },
                    false,
                ),
        decreases adds@.len() - j,
    {
        keys.push((adds[j].0, false));
        j = j + 1;
    }
    let order = sorted_order(&keys);
    let mut out: Vec<(usize, bool, Vec<u8>)> = Vec::new();
    let mut k: usize = 0;
    while k < order.len()
        invariant
            k <= order@.len(),
            nd == dels@.len(),
            out@.len() == k,
            keys@.len() == dels@.len() + adds@.len(),
            is_sorted_order(keys@, order@),
            forall|p: int|
                0 <= p < keys@.len() ==> #[trigger] keys@[p] == (
                    if p < nd {
                        dels@[p].0
                    } else {
                        adds@[p - nd].0
                    },
                    false,
                ),
            forall|m: int|
                0 <= m < k ==> placed(#[trigger] out@[m], order@[m] as int, dels@, adds@),
        decreases order@.len() - k,
    {
        let p: usize = order[k];
        assert(p < keys@.len());
        let ghost before = out@;
        if p < dels.len() {
            out.push((dels[p].0, false, dels[p].1.clone()));
        } else {
            out.push((adds[p - dels.len()].0, true, adds[p - dels.len()].1.clone()));
        }
        proof {
            assert forall|m: int| 0 <= m < k + 1 implies placed(
                #[trigger] out@[m],
                order@[m] as int,
                dels@,
                adds@,
            ) by {
                if m < k {
                    assert(out@[m] == before[m]);
                }
            }
        }
        k = k + 1;
    }
    proof {
        assert(keys@ =~= merge_keys(dels@, adds@));
        assert(is_sorted_order(merge_keys(dels@, adds@), order@));
        let lv = lines_view(out@);
        assert forall|a: int, b: int| 0 <= a < b < lv.len() implies (#[trigger] lv[a]).0 < (
        #[trigger] lv[b]).0 || (lv[a].0 == lv[b].0 && (!lv[a].1 || lv[b].1)) by {
            let pa = order@[a] as int;
            let pb = order@[b] as int;
            assert(placed(out@[a], pa, dels@, adds@));
            assert(placed(out@[b], pb, dels@, adds@));
            assert(pa < keys@.len() && pb < keys@.len());
            assert(crate::sorting::key_le(keys@[pa], keys@[pb]));
            if keys@[pa].0 == keys@[pb].0 {
                assert(keys@[pa] == keys@[pb]);
                assert(pa < pb);
            }
        }
        assert forall|m: int| 0 <= m < out@.len() implies {
            ||| (!(#[trigger] out@[m]).1 && numbered_view(dels@).contains((out@[m].0, out@[m].2@)))
            ||| (out@[m].1 && numbered_view(adds@).contains((out@[m].0, out@[m].2@)))
        } by {
            let p = order@[m] as int;
            assert(placed(out@[m], p, dels@, adds@));
            assert(p < keys@.len());
            if p < nd {
                assert(numbered_view(dels@)[p] == (out@[m].0, out@[m].2@));
            } else {
                assert(numbered_view(adds@)[p - nd] == (out@[m].0, out@[m].2@));
            }
        }
    }
    out
}

/// Whether `line` is the entry at place `p` of the deletions followed by the
/// additions.
pub open spec fn placed(
    line: (usize, bool, Vec<u8>),
    p: int,
    dels: Seq<(usize, Vec<u8>)>,
    adds: Seq<(usize, Vec<u8>)>,
) -> bool {
    if p < dels.len() {
        0 <= p && line.0 == dels[p].0 && !line.1 && line.2@ == dels[p].1@
    } else {
        p - dels.len() < adds.len() && line.0 == adds[p - dels.len()].0 && line.1 && line.2@
            == adds[p - dels.len()].1@
    }
}

/// Whether `met` holds the matching pairs of lines that the walk back
/// through the table of common lines of `bl` and `nl` meets: none where
/// one of the texts has no line.
pub open spec fn met_by(bl: Seq<Seq<u8>>, nl: Seq<Seq<u8>>, met: Seq<(usize, usize)>) -> bool {
    if bl.len() == 0 || nl.len() == 0 {
        met == Seq::<(usize, usize)>::empty()
    } else {
        exists|m: Seq<Vec<Celda>>| #[trigger]
            is_table(m, bl, nl) && met == walk(
                m,
                bl.len() - 1,
                nl.len() - 1,
                m[bl.len() - 1]@[nl.len() - 1].valor,
            )
    }
}

/// Whether `diff` is the difference between the texts with the lines `bl`
/// and `nl`: its deletions are the lines of `bl` that are in no matching
/// pair of the walk, its additions the lines of `nl` that are in none,
/// and its lines are both in one list, ordered by number.
pub open spec fn differs(bl: Seq<Seq<u8>>, nl: Seq<Seq<u8>>, diff: Diff) -> bool {
    exists|met: Seq<(usize, usize)>| #[trigger]
        met_by(bl, nl, met) && (forall|x: usize|
            has_number(numbered_view(diff.lineas_eliminadas@), x) <==> x < bl.len() && !firsts(
                met,
            ).contains(x)) && (forall|x: usize|
            has_number(numbered_view(diff.lineas_agregadas@), x) <==> x < nl.len() && !seconds(
                met,
            ).contains(x)) && merged_in_order(
            diff.lineas_eliminadas@,
            diff.lineas_agregadas@,
            diff.lineas@,
        )
}

/// Whether `r` is the difference between the texts `base` and `new`.
/// Between equal texts there is none. Against an empty `base` every piece
/// of `new` between line feeds is an addition. Otherwise `r` is what
/// `differs` says of the lines of the two.
pub open spec fn is_diff_of(base: Seq<u8>, new: Seq<u8>, r: Diff) -> bool {
    &&& r.lineas_extra == 0
    &&& base == new ==> r.lineas@.len() == 0 && r.lineas_eliminadas@.len() == 0
        && r.lineas_agregadas@.len() == 0
    &&& base != new && base.len() == 0 ==> {
        &&& r.lineas_eliminadas@.len() == 0
        &&& r.lineas_agregadas@.len() == 0
        &&& r.lineas@.len() == split_on(new, 10).len()
        &&& forall|i: int|
            0 <= i < r.lineas@.len() ==> line_view(#[trigger] r.lineas@[i]) == (
                i as usize,
                true,
                split_on(new, 10)[i],
            )
    }
    &&& base != new && base.len() > 0 ==> {
        &&& picks(numbered_view(r.lineas_eliminadas@), lines_of(base))
        &&& picks(numbered_view(r.lineas_agregadas@), lines_of(new))
        &&& differs(lines_of(base), lines_of(new), r)
    }
}

impl Diff {
    /// The difference between `base` and `new`. Between equal texts there
    /// is none. Against an empty `base` every piece of `new` between line
    /// feeds is an addition. Otherwise the lines that are gone are lines of
    /// `base`, the lines that are new are lines of `new`, each with its
    /// number and in growing order, and `lineas` holds both, ordered by
    /// number, a deletion before an addition on the same line.
    pub fn new(base: Vec<u8>, new: Vec<u8>) -> (r: Diff)
        ensures
            is_diff_of(base@, new@, r),
            r.lineas_extra == 0,
            base@ == new@ ==> r.lineas@.len() == 0 && r.lineas_eliminadas@.len() == 0
                && r.lineas_agregadas@.len() == 0,
            base@ != new@ && base@.len() == 0 ==> {
                &&& r.lineas_eliminadas@.len() == 0
                &&& r.lineas_agregadas@.len() == 0
                &&& r.lineas@.len() == split_on(new@, 10).len()
                &&& forall|i: int|
                    0 <= i < r.lineas@.len() ==> line_view(#[trigger] r.lineas@[i]) == (
                        i as usize,
                        true,
                        split_on(new@, 10)[i],
                    )
            },
            base@ != new@ && base@.len() > 0 ==> {
                &&& picks(numbered_view(r.lineas_eliminadas@), lines_of(base@))
                &&& picks(numbered_view(r.lineas_agregadas@), lines_of(new@))
                &&& ordered(lines_view(r.lineas@))
                &&& r.lineas@.len() == r.lineas_eliminadas@.len() + r.lineas_agregadas@.len()
                &&& forall|k: int|
                    0 <= k < r.lineas@.len() ==> {
                        ||| (!(#[trigger] r.lineas@[k]).1 && numbered_view(
                            r.lineas_eliminadas@,
                        ).contains((r.lineas@[k].0, r.lineas@[k].2@)))
                        ||| (r.lineas@[k].1 && numbered_view(r.lineas_agregadas@).contains(
                            (r.lineas@[k].0, r.lineas@[k].2@),
                        ))
                    }
                &&& differs(lines_of(base@), lines_of(new@), r)
            },
    {
        if bytes_eq(base.as_slice(), new.as_slice()) {
            return empty_diff();
        }
        if base.len() == 0 {
            let mut only_add_diff = empty_diff();
            let new_lines = split(new.as_slice(), 10u8);
            let mut lineas: Vec<(usize, bool, Vec<u8>)> = Vec::new();
            let mut i: usize = 0;
            while i < new_lines.len()
                invariant
                    i <= new_lines@.len(),
                    lineas@.len() == i,
                    forall|k: int|
                        0 <= k < i ==> line_view(#[trigger] lineas@[k]) == (
                            k as usize,
                            true,
                            seqs(new_lines@)[k],
                        ),
                decreases new_lines@.len() - i,
            {
                lineas.push((i, true, new_lines[i].clone()));
                i = i + 1;
            }
            only_add_diff.lineas = lineas;
            return only_add_diff;
        }
        let base_lines = lines(base.as_slice());
        let new_lines = lines(new.as_slice());
        let ghost bl = seqs(base_lines@);
        let ghost nl = seqs(new_lines@);
        let ghost mut met: Seq<(usize, usize)> = Seq::empty();
        assert(bl.len() > 0);
        let (indices_eliminadas, indices_agregadas) = if base_lines.len() == 0 {
            (Vec::new(), not_taken(&Vec::new(), 0))
        } else if new_lines.len() == 0 {
            let none: Vec<usize> = Vec::new();
            let all = not_taken(&none, base_lines.len() - 1);
            proof {
                assert(met_by(bl, nl, met));
                assert(firsts(met) =~= Seq::<usize>::empty());
                assert(seconds(met) =~= Seq::<usize>::empty());
            }
            (all, Vec::new())
        } else {
            let matriz = build_table(&base_lines, &new_lines);
            proof {
                met = walk(
                    matriz@,
                    bl.len() - 1,
                    nl.len() - 1,
                    matriz@[bl.len() - 1]@[nl.len() - 1].valor,
                );
                assert(is_table(matriz@, bl, nl));
                assert(met_by(bl, nl, met));
            }
            get_diff(&matriz, base_lines.len() - 1, new_lines.len() - 1)
        };
        proof {
            assert(forall|x: usize|
                indices_eliminadas@.contains(x) <==> x < bl.len() && !firsts(met).contains(x));
            assert(forall|x: usize|
                indices_agregadas@.contains(x) <==> x < nl.len() && !seconds(met).contains(x));
        }
        let lineas_eliminadas = pick_lines(&base_lines, &indices_eliminadas);
        let lineas_agregadas = pick_lines(&new_lines, &indices_agregadas);
        proof {
            let dv = numbered_view(lineas_eliminadas@);
            let av = numbered_view(lineas_agregadas@);
            assert forall|x: usize| has_number(dv, x) <==> x < bl.len() && !firsts(met).contains(
                x,
            ) by {
                if has_number(dv, x) {
                    let k = choose|k: int| 0 <= k < dv.len() && (#[trigger] dv[k]).0 == x;
                    assert(indices_eliminadas@.contains(lineas_eliminadas@[k].0));
                }
            }
            assert forall|x: usize| has_number(av, x) <==> x < nl.len() && !seconds(met).contains(
                x,
            ) by {
                if has_number(av, x) {
                    let k = choose|k: int| 0 <= k < av.len() && (#[trigger] av[k]).0 == x;
                    assert(indices_agregadas@.contains(lineas_agregadas@[k].0));
                }
            }
        }
        let lineas = merge_lines(&lineas_eliminadas, &lineas_agregadas);
        let r = Diff { lineas_eliminadas, lineas_agregadas, lineas, lineas_extra: 0 };
        proof {
            assert(met_by(bl, nl, met));
            assert(differs(bl, nl, r));
        }
        r
    }

    /// Whether line `i` of the first text is gone.
    pub fn has_delete_diff(&self, i: usize) -> (r: bool)
        ensures
            r == exists|k: int|
                0 <= k < self.lineas_eliminadas@.len() && (#[trigger] self.lineas_eliminadas@[k]).0
                    == i,
    {
        let mut k: usize = 0;
        while k < self.lineas_eliminadas.len()
            invariant
                k <= self.lineas_eliminadas@.len(),
                forall|m: int| 0 <= m < k ==> (#[trigger] self.lineas_eliminadas@[m]).0 != i,
            decreases self.lineas_eliminadas@.len() - k,
        {
            if self.lineas_eliminadas[k].0 == i {
                return true;
            }
            k = k + 1;
        }
        false
    }

    /// Whether line `i` of the second text is new, and the line if it is
    /// (the first such entry); an empty line otherwise.
    pub fn has_add_diff(&self, i: usize) -> (r: (bool, Vec<u8>))
        ensures
            r.0 == exists|k: int|
                0 <= k < self.lineas_agregadas@.len() && (#[trigger] self.lineas_agregadas@[k]).0
                    == i,
            r.0 ==> exists|k: int|
                0 <= k < self.lineas_agregadas@.len() && (#[trigger] self.lineas_agregadas@[k]).0
                    == i && r.1@ == self.lineas_agregadas@[k].1@ && forall|m: int|
                    0 <= m < k ==> (#[trigger] self.lineas_agregadas@[m]).0 != i,
            !r.0 ==> r.1@.len() == 0,
    {
        let mut k: usize = 0;
        while k < self.lineas_agregadas.len()
            invariant
                k <= self.lineas_agregadas@.len(),
                forall|m: int| 0 <= m < k ==> (#[trigger] self.lineas_agregadas@[m]).0 != i,
            decreases self.lineas_agregadas@.len() - k,
        {
            if self.lineas_agregadas[k].0 == i {
                return (true, self.lineas_agregadas[k].1.clone());
            }
            k = k + 1;
        }
        (false, Vec::new())
    }
}

} // verus!
