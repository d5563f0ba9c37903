use crate::bomberman::error_laberinto::ErrorDeLecturaLaberinto;
use crate::bomberman::piezas::{pieza_of, PiezaView, Piezas};
use crate::text::push_all;
use vstd::prelude::*;

verus! {

/// A maze: a board of pieces, and the length of its side.
#[derive(Debug)]
pub struct Laberinto {
    pub tamanio: usize,
    pub tablero: Vec<Vec<Piezas>>,
}

/// A turn that the blast has yet to take: the direction, the reach that is
/// left, and the cell of the turn.
pub struct Turn {
    pub direc: Vec<u8>,
    pub alcance: u32,
    pub x: usize,
    pub y: usize,
}

/// The mathematical value of a turn.
pub struct TurnView {
    pub direc: Seq<u8>,
    pub alcance: u32,
    pub x: usize,
    pub y: usize,
}

impl View for Turn {
    type V = TurnView;

    open spec fn view(&self) -> TurnView {
        TurnView { direc: self.direc@, alcance: self.alcance, x: self.x, y: self.y }
    }
}

/// The values of a sequence of turns.
pub open spec fn turns_view(turns: Seq<Turn>) -> Seq<TurnView> {
    Seq::new(turns.len(), |i: int| turns[i]@)
}

/// The values of the pieces of a row.
pub open spec fn row_view(row: Seq<Piezas>) -> Seq<PiezaView> {
    Seq::new(row.len(), |c: int| row[c]@)
}

/// The values of the pieces of a board, row by row.
pub open spec fn board_view(rows: Seq<Vec<Piezas>>) -> Seq<Seq<PiezaView>> {
    Seq::new(rows.len(), |r: int| row_view(rows[r]@))
}

/// How many bombs a row holds.
pub open spec fn bombs_in_row(row: Seq<PiezaView>) -> nat
    decreases row.len(),
{
    if row.len() == 0 {
        0
    } else {
        bombs_in_row(row.drop_last()) + if row.last() is Bomba {
            1nat
        } else {
            0nat
        }
    }
}

/// How many bombs the rows of a board hold.
pub open spec fn count(board: Seq<Seq<PiezaView>>) -> nat
    decreases board.len(),
{
    if board.len() == 0 {
        0
    } else {
        count(board.drop_last()) + bombs_in_row(board.last())
    }
}

/// How many bombs a board holds.
pub open spec fn bombs(rows: Seq<Vec<Piezas>>) -> nat {
    count(board_view(rows))
}

/// Whether two boards have as many rows, each of the same length.
pub open spec fn same_shape(a: Seq<Vec<Piezas>>, b: Seq<Vec<Piezas>>) -> bool {
    a.len() == b.len() && forall|r: int| 0 <= r < a.len() ==> (#[trigger] a[r])@.len() == b[r]@.len()
}

/// Whether board `b` can come of board `a` by blasts: the same shape, and
/// no more bombs.
pub open spec fn calmer(a: Seq<Vec<Piezas>>, b: Seq<Vec<Piezas>>) -> bool {
    same_shape(a, b) && bombs(b) <= bombs(a)
}

/// The reach that is left over all the turns to take, and one for each.
pub open spec fn weight(turns: Seq<TurnView>) -> nat
    decreases turns.len(),
{
    if turns.len() == 0 {
        0
    } else {
        weight(turns.drop_last()) + turns.last().alcance as nat + 1
    }
}

/// Whether `after` is `before`, or `before` with one turn more whose reach
/// is below `bound`.
pub open spec fn grown(before: Seq<TurnView>, after: Seq<TurnView>, bound: int) -> bool {
    after == before || (after.len() == before.len() + 1 && after.drop_last() == before
        && after.last().alcance < bound)
}

/// The board with the piece `p` in the cell at row `x`, column `y`.
pub open spec fn put(board: Seq<Seq<PiezaView>>, x: int, y: int, p: PiezaView) -> Seq<
    Seq<PiezaView>,
> {
    board.update(x, board[x].update(y, p))
}

/// A blast on its way: the board, the enemies that it has hurt, by their
/// cells, and the turns that it has yet to take.
pub struct BlastView {
    pub board: Seq<Seq<PiezaView>>,
    pub hit: Seq<(usize, usize)>,
    pub turns: Seq<TurnView>,
}

/// The letter of the direction up.
pub const UP: u8 = 85;

/// The letter of the direction down.
pub const DOWN: u8 = 68;

/// The letter of the direction right.
pub const RIGHT: u8 = 82;

/// The letter of the direction left.
pub const LEFT: u8 = 76;

/// The cell that lies `i` steps from row `x`, column `y` in the direction
/// `dir`, on a board of side `size`; none where the steps lead off the
/// board, or `dir` is no direction.
pub open spec fn target(dir: u8, x: usize, y: usize, i: u32, size: usize) -> Option<(int, int)> {
    if dir == UP {
        if x >= i {
            Some((x - i, y as int))
        } else {
            None
        }
    } else if dir == LEFT {
        if y >= i {
            Some((x as int, y - i))
        } else {
            None
        }
    } else if dir == RIGHT {
        if y < size && i < size - y {
            Some((x as int, y + i))
        } else {
            None
        }
    } else if dir == DOWN {
        if x < size && i < size - x {
            Some((x + i, y as int))
        } else {
            None
        }
    } else {
        None
    }
}

/// What the blast does when it reaches the cell at row `x`, column `y`
/// with `alcance` of its reach left, and whether it goes on beyond the
/// cell. A bomb is set off. An enemy that was not hurt by this blast
/// loses a life, and goes when it had one left. A turn is kept for later,
/// and the blast stops there. A wall stops the blast, and so does a rock
/// unless the blast goes through rocks. A cell off the board, like an empty
/// one, lets it pass.
pub open spec fn reached(s: BlastView, size: usize, x: int, y: int, alcance: u32, traspasa: bool) -> (
    BlastView,
    bool,
)
    decreases count(s.board), 1nat, 0nat,
{
    if x < 0 || y < 0 || x >= s.board.len() || y >= s.board[x].len() {
        (s, true)
    } else {
        match s.board[x][y] {
            PiezaView::Bomba { .. } => (
                BlastView { board: detonated(s.board, size, x, y), hit: s.hit, turns: s.turns },
                true,
            ),
            PiezaView::Enemigo { vidas } => if s.hit.contains((x as usize, y as usize)) {
                (s, true)
            } else if vidas <= 1 {
                (
                    BlastView {
                        board: put(s.board, x, y, PiezaView::Espacio),
                        hit: s.hit,
                        turns: s.turns,
                    },
                    true,
                )
            } else {
                (
                    BlastView {
                        board: put(s.board, x, y, PiezaView::Enemigo { vidas: (vidas - 1) as u32 }),
                        hit: s.hit.push((x as usize, y as usize)),
                        turns: s.turns,
                    },
                    true,
                )
            },
            PiezaView::Desvio { direc } => (
                BlastView {
                    board: s.board,
                    hit: s.hit,
                    turns: s.turns.push(TurnView { direc, alcance, x: x as usize, y: y as usize }),
                },
                false,
            ),
            PiezaView::Roca => (s, traspasa),
            PiezaView::Pared => (s, false),
            PiezaView::Espacio => (s, true),
        }
    }
}

/// The board after the bomb at row `x`, column `y` was set off: the bomb
/// goes, and its blast runs from its cell. The board as it is where there
/// is no bomb in that cell.
pub open spec fn detonated(board: Seq<Seq<PiezaView>>, size: usize, x: int, y: int) -> Seq<
    Seq<PiezaView>,
>
    decreases count(board), 0nat, 0nat,
{
    if 0 <= x < board.len() && 0 <= y < board[x].len() {
        match board[x][y] {
            PiezaView::Bomba { alcance, traspasa } => {
                let cleared = put(board, x, y, PiezaView::Espacio);
                if count(cleared) < count(board) {
                    exploded(cleared, size, x as usize, y as usize, alcance, traspasa)
                } else {
                    cleared
                }
            },
            _ => board,
        }
    } else {
        board
    }
}

/// The blast after it ran from row `x`, column `y` in the direction `dir`,
/// from its `i`-th step on: step by step, until its reach `alcance` is
/// used up, it leaves the board, or a cell stops it.
pub open spec fn ran(
    s: BlastView,
    size: usize,
    x: usize,
    y: usize,
    alcance: u32,
    traspasa: bool,
    dir: u8,
    i: u32,
) -> BlastView
    decreases count(s.board), 2nat, alcance - i + 1,
{
    if i < 1 || i > alcance {
        s
    } else {
        match target(dir, x, y, i, size) {
            None => s,
            Some(cell) => {
                let step = reached(s, size, cell.0, cell.1, (alcance - i) as u32, traspasa);
                if !step.1 || i == alcance || count(step.0.board) > count(s.board) {
                    step.0
                } else {
                    ran(step.0, size, x, y, alcance, traspasa, dir, (i + 1) as u32)
                }
            },
        }
    }
}

/// The blast after it took the turn `t`: it runs from the cell of the turn
/// in the direction that the turn names, with the reach that was left
/// there. A turn that names no direction does nothing.
pub open spec fn turned(s: BlastView, size: usize, t: TurnView, traspasa: bool) -> BlastView
    decreases count(s.board), 3nat, 0nat,
{
    if t.direc.len() == 1 && (t.direc[0] == UP || t.direc[0] == DOWN || t.direc[0] == RIGHT
        || t.direc[0] == LEFT) {
        ran(s, size, t.x, t.y, t.alcance, traspasa, t.direc[0], 1)
    } else {
        s
    }
}

/// The blast after it took all the turns that it had to take, the last
/// one kept first, and those that it met on the way.
pub open spec fn drained(s: BlastView, size: usize, traspasa: bool) -> BlastView
    decreases count(s.board), 4nat, weight(s.turns),
{
    if s.turns.len() == 0 {
        s
    } else {
        let rest = BlastView { board: s.board, hit: s.hit, turns: s.turns.drop_last() };
        let next = turned(rest, size, s.turns.last(), traspasa);
        if count(next.board) < count(s.board) || (count(next.board) == count(s.board) && weight(
            next.turns,
        ) < weight(s.turns)) {
            drained(next, size, traspasa)
        } else {
            next
        }
    }
}

/// The blast after it ran in one more direction; as it was where it holds
/// more bombs than `limit`.
pub open spec fn ran_on(
    s: BlastView,
    limit: nat,
    size: usize,
    x: usize,
    y: usize,
    alcance: u32,
    traspasa: bool,
    dir: u8,
) -> BlastView
    decreases limit, 3nat, 0nat,
{
    if count(s.board) > limit {
        s
    } else {
        ran(s, size, x, y, alcance, traspasa, dir, 1)
    }
}

/// The board after a blast of reach `alcance` ran from row `x`, column
/// `y`: up, left, right and down, and then along the turns that it met.
pub open spec fn exploded(
    board: Seq<Seq<PiezaView>>,
    size: usize,
    x: usize,
    y: usize,
    alcance: u32,
    traspasa: bool,
) -> Seq<Seq<PiezaView>>
    decreases count(board), 5nat, 0nat,
{
    let n = count(board);
    let start = BlastView { board, hit: Seq::empty(), turns: Seq::empty() };
    let up = ran_on(start, n, size, x, y, alcance, traspasa, UP);
    let left = ran_on(up, n, size, x, y, alcance, traspasa, LEFT);
    let right = ran_on(left, n, size, x, y, alcance, traspasa, RIGHT);
    let down = ran_on(right, n, size, x, y, alcance, traspasa, DOWN);
    if count(down.board) > n {
        down.board
    } else {
        drained(down, size, traspasa).board
    }
}

proof fn lemma_row_set(row: Seq<PiezaView>, c: int, p: PiezaView)
    requires
        0 <= c < row.len(),
    ensures
        bombs_in_row(row.update(c, p)) + (if row[c] is Bomba {
            1nat
        } else {
            0nat
        }) == bombs_in_row(row) + (if p is Bomba {
            1nat
        } else {
            0nat
        }),
    decreases row.len(),
{
    let after = row.update(c, p);
    if c == row.len() - 1 {
        assert(after.drop_last() =~= row.drop_last());
    } else {
        assert(after.drop_last() =~= row.drop_last().update(c, p));
        lemma_row_set(row.drop_last(), c, p);
    }
}

proof fn lemma_board_set(board: Seq<Seq<PiezaView>>, r: int, fila: Seq<PiezaView>)
    requires
        0 <= r < board.len(),
    ensures
        count(board.update(r, fila)) + bombs_in_row(board[r]) == count(board) + bombs_in_row(fila),
    decreases board.len(),
{
    let after = board.update(r, fila);
    if r == board.len() - 1 {
        assert(after.drop_last() =~= board.drop_last());
    } else {
        assert(after.drop_last() =~= board.drop_last().update(r, fila));
        lemma_board_set(board.drop_last(), r, fila);
    }
}

/// Putting a piece in a cell changes the number of bombs by what goes and
/// what comes.
proof fn lemma_put(board: Seq<Seq<PiezaView>>, x: int, y: int, p: PiezaView)
    requires
        0 <= x < board.len(),
        0 <= y < board[x].len(),
    ensures
        count(put(board, x, y, p)) + (if board[x][y] is Bomba {
            1nat
        } else {
            0nat
        }) == count(board) + (if p is Bomba {
            1nat
        } else {
            0nat
        }),
{
    lemma_row_set(board[x], y, p);
    lemma_board_set(board, x, board[x].update(y, p));
}

/// The error of the first word of `row`, from the `c`-th on, that stands
/// for no piece; none where all stand for pieces.
pub open spec fn row_error(row: Seq<Vec<u8>>, c: int) -> Option<ErrorDeLecturaLaberinto>
    decreases row.len() - c,
{
    if c < 0 || c >= row.len() {
        None
    } else {
        match pieza_of(row[c]@) {
            Err(e) => Some(e),
            Ok(_) => row_error(row, c + 1),
        }
    }
}

/// The error of the first word of the rows `words`, from the `f`-th row
/// on and row by row, that stands for no piece; none where all stand for
/// pieces.
pub open spec fn board_error(words: Seq<Vec<Vec<u8>>>, f: int) -> Option<ErrorDeLecturaLaberinto>
    decreases words.len() - f,
{
    if f < 0 || f >= words.len() {
        None
    } else {
        match row_error(words[f]@, 0) {
            Some(e) => Some(e),
            None => board_error(words, f + 1),
        }
    }
}

/// The blast that a board, the cells of the enemies hurt and the turns kept
/// make.
pub open spec fn blast(rows: Seq<Vec<Piezas>>, hit: Seq<(usize, usize)>, turns: Seq<Turn>) -> BlastView {
    BlastView { board: board_view(rows), hit, turns: turns_view(turns) }
}

/// Whether `v` holds the pair.
fn holds_pair(v: &Vec<(usize, usize)>, x: usize, y: usize) -> (r: bool)
    ensures
        r == v@.contains((x, y)),
{
    let mut i: usize = 0;
    while i < v.len()
        invariant
            i <= v@.len(),
            forall|k: int| 0 <= k < i ==> v@[k] != (x, y),
        decreases v@.len() - i,
    {
        if v[i].0 == x && v[i].1 == y {
            assert(v@[i as int] == (x, y));
            return true;
        }
        i = i + 1;
    }
    false
}

impl Laberinto {
    /// The maze that the words of `tablero` stand for, with a side of
    /// `tamanio`. Fails with the error of the first word, row by row, that
    /// stands for no piece.
    pub fn crear(tamanio: usize, tablero: Vec<Vec<Vec<u8>>>) -> (r: Result<
        Laberinto,
        ErrorDeLecturaLaberinto,
    >)
        ensures
            match r {
                Ok(lab) => lab.tamanio == tamanio && Laberinto::reads_as(tablero@, lab.tablero@)
                    && board_error(tablero@, 0) is None,
                Err(e) => board_error(tablero@, 0) == Some(e) && exists|f: int, c: int|
                    0 <= f < tablero@.len() && 0 <= c < tablero@[f]@.len() && pieza_of(
                        #[trigger] tablero@[f]@[c]@,
                    ) == Err::<PiezaView, ErrorDeLecturaLaberinto>(e),
            },
    {
        match Laberinto::interpretar_laberinto(tablero) {
            Ok(laberinto_armado) => Ok(Laberinto { tamanio, tablero: laberinto_armado }),
            Err(e) => Err(e),
        }
    }

    /// Whether each piece of `board` is what the word in its place stands for.
    pub open spec fn reads_as(words: Seq<Vec<Vec<u8>>>, board: Seq<Vec<Piezas>>) -> bool {
        &&& board.len() == words.len()
        &&& forall|f: int| 0 <= f < words.len() ==> (#[trigger] board[f])@.len() == words[f]@.len()
        &&& forall|f: int, c: int|
            0 <= f < words.len() && 0 <= c < words[f]@.len() ==> pieza_of(words[f]@[c]@) == Ok::<
                PiezaView,
                ErrorDeLecturaLaberinto,
            >((#[trigger] board[f]@[c])@)
    }

    /// The board that the words of `tablero` stand for; the error of the
    /// first word, row by row, that stands for no piece.
    pub fn interpretar_laberinto(tablero: Vec<Vec<Vec<u8>>>) -> (r: Result<
        Vec<Vec<Piezas>>,
        ErrorDeLecturaLaberinto,
    >)
        ensures
            match r {
                Ok(board) => Laberinto::reads_as(tablero@, board@) && board_error(tablero@, 0)
                    is None,
                Err(e) => board_error(tablero@, 0) == Some(e) && exists|f: int, c: int|
                    0 <= f < tablero@.len() && 0 <= c < tablero@[f]@.len() && pieza_of(
                        #[trigger] tablero@[f]@[c]@,
                    ) == Err::<PiezaView, ErrorDeLecturaLaberinto>(e),
            },
    {
        let mut laberinto: Vec<Vec<Piezas>> = Vec::new();
        let mut f: usize = 0;
        while f < tablero.len()
            invariant
                f <= tablero@.len(),
                board_error(tablero@, 0) == board_error(tablero@, f as int),
                laberinto@.len() == f,
                forall|k: int| 0 <= k < f ==> (#[trigger] laberinto@[k])@.len() == tablero@[k]@.len(),
                forall|k: int, c: int|
                    0 <= k < f && 0 <= c < tablero@[k]@.len() ==> pieza_of(tablero@[k]@[c]@)
                        == Ok::<PiezaView, ErrorDeLecturaLaberinto>((#[trigger] laberinto@[k]@[c])@),
            decreases tablero@.len() - f,
        {
            let mut fila_laberinto: Vec<Piezas> = Vec::new();
            let mut c: usize = 0;
            while c < tablero[f].len()
                invariant
                    f < tablero@.len(),
                    c <= tablero@[f as int]@.len(),
                    board_error(tablero@, 0) == board_error(tablero@, f as int),
                    row_error(tablero@[f as int]@, 0) == row_error(tablero@[f as int]@, c as int),
                    fila_laberinto@.len() == c,
                    forall|k: int|
                        0 <= k < c ==> pieza_of(tablero@[f as int]@[k]@) == Ok::<
                            PiezaView,
                            ErrorDeLecturaLaberinto,
                        >((#[trigger] fila_laberinto@[k])@),
                decreases tablero@[f as int]@.len() - c,
            {
                match Piezas::crear(tablero[f][c].clone()) {
                    Ok(p) => fila_laberinto.push(p),
                    Err(e) => {
                        assert(pieza_of(tablero@[f as int]@[c as int]@) == Err::<
                            PiezaView,
                            ErrorDeLecturaLaberinto,
                        >(e));
                        return Err(e);
                    },
                }
                c = c + 1;
            }
            let ghost before = laberinto@;
            laberinto.push(fila_laberinto);
            proof {
                assert forall|k: int| 0 <= k < f + 1 implies (#[trigger] laberinto@[k])@.len()
                    == tablero@[k]@.len() by {
                    if k < f {
                        assert(laberinto@[k] == before[k]);
                    }
                }
                assert forall|k: int, c: int|
                    0 <= k < f + 1 && 0 <= c < tablero@[k]@.len() implies pieza_of(
                    tablero@[k]@[c]@,
                ) == Ok::<PiezaView, ErrorDeLecturaLaberinto>((#[trigger] laberinto@[k]@[c])@) by {
                    if k < f {
                        assert(laberinto@[k] == before[k]);
                        assert(pieza_of(tablero@[k]@[c]@) == Ok::<
                            PiezaView,
                            ErrorDeLecturaLaberinto,
                        >(before[k]@[c]@));
                    }
                }
            }
            f = f + 1;
        }
        Ok(laberinto)
    }

    /// Whether there is a bomb in the cell at row `x`, column `y`.
    pub open spec fn bomb_at(rows: Seq<Vec<Piezas>>, x: int, y: int) -> bool {
        0 <= x < rows.len() && 0 <= y < rows[x]@.len() && rows[x]@[y] is Bomba
    }

    /// Puts `p` in the cell at row `x`, column `y`.
    fn set_cell(&mut self, x: usize, y: usize, p: Piezas)
        requires
            x < old(self).tablero@.len(),
            y < old(self).tablero@[x as int]@.len(),
        ensures
            final(self).tamanio == old(self).tamanio,
            same_shape(old(self).tablero@, final(self).tablero@),
            board_view(final(self).tablero@) == put(
                board_view(old(self).tablero@),
                x as int,
                y as int,
                p@,
            ),
            bombs(final(self).tablero@) + (if old(self).tablero@[x as int]@[y as int] is Bomba {
                1nat
            } else {
                0nat
            }) == bombs(old(self).tablero@) + (if p is Bomba {
                1nat
            } else {
                0nat
            }),
    {
        let ghost rows = self.tablero@;
        let ghost pv = p@;
        let mut fila = self.tablero.remove(x);
        let ghost row = fila@;
        let gone = fila.remove(y);
        fila.insert(y, p);
        proof {
            assert(fila@ =~= row.update(y as int, p));
        }
        self.tablero.insert(x, fila);
        proof {
            assert(self.tablero@ =~= rows.update(x as int, fila));
            let before = board_view(rows);
            let after = board_view(self.tablero@);
            assert(row_view(fila@) =~= before[x as int].update(y as int, pv));
            assert forall|r: int| 0 <= r < after.len() implies after[r] == put(
                before,
                x as int,
                y as int,
                pv,
            )[r] by {
                if r != x {
                    assert(self.tablero@[r] == rows[r]);
                }
            }
            assert(after =~= put(before, x as int, y as int, pv));
            lemma_put(before, x as int, y as int, pv);
            assert(before[x as int][y as int] == rows[x as int]@[y as int]@);
        }
    }

    /// Sets off the bomb at row `x`, column `y`: the bomb goes, and its
    /// blast runs up, left, right and down as far as it reaches, setting
    /// off the bombs it meets, hurting each enemy once, stopping at walls
    /// and, unless it goes through them, at rocks, and taking the turns it
    /// meets. The board keeps its shape and loses the bomb. Fails with
    /// `PosicionBombaInvalida`, leaving the board as it was, exactly when
    /// there is no bomb in that cell.
    pub fn detonar_bomba(&mut self, x: usize, y: usize) -> (r: Result<(), ErrorDeLecturaLaberinto>)
        ensures
            final(self).tamanio == old(self).tamanio,
            same_shape(old(self).tablero@, final(self).tablero@),
            r is Ok <==> Laberinto::bomb_at(old(self).tablero@, x as int, y as int),
            r is Ok ==> bombs(final(self).tablero@) < bombs(old(self).tablero@),
            r matches Err(e) ==> e == ErrorDeLecturaLaberinto::PosicionBombaInvalida,
            r is Err ==> final(self).tablero@ == old(self).tablero@,
            board_view(final(self).tablero@) == detonated(
                board_view(old(self).tablero@),
                old(self).tamanio,
                x as int,
                y as int,
            ),
        decreases bombs(old(self).tablero@), 0nat,
    {
        let ghost first = board_view(self.tablero@);
        if x >= self.tablero.len() || y >= self.tablero[x].len() {
            return Err(ErrorDeLecturaLaberinto::PosicionBombaInvalida);
        }
        assert(first[x as int][y as int] == self.tablero@[x as int]@[y as int]@);
        let (alcance, traspasa) = match &self.tablero[x][y] {
            Piezas::Bomba { alcance, traspasa } => (*alcance, *traspasa),
            _ => {
                return Err(ErrorDeLecturaLaberinto::PosicionBombaInvalida);
            },
        };
        self.set_cell(x, y, Piezas::Espacio);
        let ghost mid = self.tablero@;
        self.direccionar_explosion(x, y, alcance, traspasa);
        proof {
            assert(same_shape(old(self).tablero@, self.tablero@)) by {
                assert forall|r: int| 0 <= r < old(self).tablero@.len() implies (
                #[trigger] old(self).tablero@[r])@.len() == self.tablero@[r]@.len() by {
                    assert(mid[r]@.len() == self.tablero@[r]@.len());
                }
            }
            assert(count(board_view(mid)) < count(first));
        }
        Ok(())
    }

    /// Lets the blast of a bomb run from row `x`, column `y`.
    fn direccionar_explosion(&mut self, x: usize, y: usize, alcance: u32, traspasa: bool)
        ensures
            final(self).tamanio == old(self).tamanio,
            calmer(old(self).tablero@, final(self).tablero@),
            board_view(final(self).tablero@) == exploded(
                board_view(old(self).tablero@),
                old(self).tamanio,
                x,
                y,
                alcance,
                traspasa,
            ),
        decreases bombs(old(self).tablero@), 4nat,
    {
        let mut enemigos_golpeados: Vec<(usize, usize)> = Vec::new();
        let mut desvios: Vec<Turn> = Vec::new();
        let ghost start = self.tablero@;
        let ghost size = self.tamanio;
        let ghost n = count(board_view(start));
        let ghost s0 = blast(self.tablero@, enemigos_golpeados@, desvios@);
        proof {
            assert(s0.hit =~= Seq::<(usize, usize)>::empty());
            assert(s0.turns =~= Seq::<TurnView>::empty());
        }
        self.direccion_up(x, y, alcance, traspasa, &mut enemigos_golpeados, &mut desvios);
        let ghost b1 = self.tablero@;
        let ghost s1 = blast(self.tablero@, enemigos_golpeados@, desvios@);
        self.direccion_left(x, y, alcance, traspasa, &mut enemigos_golpeados, &mut desvios);
        let ghost b2 = self.tablero@;
        let ghost s2 = blast(self.tablero@, enemigos_golpeados@, desvios@);
        proof {
            lemma_calmer_trans(start, b1, b2);
        }
        self.direccion_right(x, y, alcance, traspasa, &mut enemigos_golpeados, &mut desvios);
        let ghost b3 = self.tablero@;
        let ghost s3 = blast(self.tablero@, enemigos_golpeados@, desvios@);
        proof {
            lemma_calmer_trans(start, b2, b3);
        }
        self.direccion_down(x, y, alcance, traspasa, &mut enemigos_golpeados, &mut desvios);
        let ghost s4 = blast(self.tablero@, enemigos_golpeados@, desvios@);
        proof {
            lemma_calmer_trans(start, b3, self.tablero@);
            assert(s1 == ran_on(s0, n, size, x, y, alcance, traspasa, UP));
            assert(s2 == ran_on(s1, n, size, x, y, alcance, traspasa, LEFT));
            assert(s3 == ran_on(s2, n, size, x, y, alcance, traspasa, RIGHT));
            assert(s4 == ran_on(s3, n, size, x, y, alcance, traspasa, DOWN));
            assert(count(s4.board) <= n);
        }
        while desvios.len() > 0
            invariant
                self.tamanio == old(self).tamanio,
                size == old(self).tamanio,
                start == old(self).tablero@,
                calmer(start, self.tablero@),
                drained(s4, size, traspasa) == drained(
                    blast(self.tablero@, enemigos_golpeados@, desvios@),
                    size,
                    traspasa,
                ),
            ensures
                desvios@.len() == 0,
            decreases weight(turns_view(desvios@)),
        {
            let ghost before = turns_view(desvios@);
            let ghost board = self.tablero@;
            let ghost cur = blast(self.tablero@, enemigos_golpeados@, desvios@);
            let turn = match desvios.pop() {
                Some(turn) => turn,
                None => {
                    break ;
                },
            };
            let ghost rest = turns_view(desvios@);
            let ghost kept = blast(self.tablero@, enemigos_golpeados@, desvios@);
            proof {
                assert(rest =~= before.drop_last());
                assert(before.last() == turn@);
                assert(weight(before) == weight(rest) + turn.alcance as nat + 1);
            }
            self.hacer_desvios(
                (turn.x, turn.y),
                turn.alcance,
                traspasa,
                &mut enemigos_golpeados,
                turn.direc.as_slice(),
                &mut desvios,
            );
            proof {
                lemma_calmer_trans(start, board, self.tablero@);
                let now = blast(self.tablero@, enemigos_golpeados@, desvios@);
                let after = turns_view(desvios@);
                if after != rest {
                    assert(weight(after) == weight(rest) + after.last().alcance as nat + 1);
                }
                assert(now == turned(kept, size, turn@, traspasa));
                assert(kept == BlastView { board: cur.board, hit: cur.hit, turns: rest });
                assert(count(now.board) <= count(cur.board));
                assert(weight(now.turns) < weight(cur.turns));
                assert(drained(cur, size, traspasa) == drained(now, size, traspasa));
            }
        }
        proof {
            let last = blast(self.tablero@, enemigos_golpeados@, desvios@);
            assert(last.turns.len() == 0);
            assert(drained(last, size, traspasa) == last);
        }
    }

    /// Lets the blast run to the left of row `x`, column `y`.
    fn direccion_left(
        &mut self,
        x: usize,
        y: usize,
        alcance: u32,
        traspasa: bool,
        golpeados: &mut Vec<(usize, usize)>,
        desvios: &mut Vec<Turn>,
    )
        ensures
            final(self).tamanio == old(self).tamanio,
            calmer(old(self).tablero@, final(self).tablero@),
            grown(turns_view(old(desvios)@), turns_view(final(desvios)@), alcance as int),
            blast(final(self).tablero@, final(golpeados)@, final(desvios)@) == ran(
                blast(old(self).tablero@, old(golpeados)@, old(desvios)@),
                old(self).tamanio,
                x,
                y,
                alcance,
                traspasa,
                LEFT,
                1,
            ),
        decreases bombs(old(self).tablero@), 2nat,
    {
        let ghost start = blast(self.tablero@, golpeados@, desvios@);
        let ghost size = self.tamanio;
        let mut i: u32 = 1;
        while i <= alcance
            invariant_except_break
                desvios@ == old(desvios)@,
                ran(start, size, x, y, alcance, traspasa, LEFT, 1) == ran(
                    blast(self.tablero@, golpeados@, desvios@),
                    size,
                    x,
                    y,
                    alcance,
                    traspasa,
                    LEFT,
                    i,
                ),
            invariant
                1 <= i,
                size == old(self).tamanio,
                self.tamanio == old(self).tamanio,
                calmer(old(self).tablero@, self.tablero@),
            ensures
                self.tamanio == old(self).tamanio,
                calmer(old(self).tablero@, self.tablero@),
                grown(turns_view(old(desvios)@), turns_view(desvios@), alcance as int),
                blast(self.tablero@, golpeados@, desvios@) == ran(
                    start,
                    size,
                    x,
                    y,
                    alcance,
                    traspasa,
                    LEFT,
                    1,
                ),
            decreases alcance - i + 1,
        {
            let ghost cur = blast(self.tablero@, golpeados@, desvios@);
            if y < i as usize {
                assert(target(LEFT, x, y, i, size) is None);
                assert(ran(cur, size, x, y, alcance, traspasa, LEFT, i) == cur);
                break ;
            }
            let ghost board = self.tablero@;
            let res = self.check_elemento(
                x,
                y - i as usize,
                alcance - i,
                traspasa,
                golpeados,
                desvios,
            );
            proof {
                lemma_calmer_trans(old(self).tablero@, board, self.tablero@);
                let now = blast(self.tablero@, golpeados@, desvios@);
                assert(target(LEFT, x, y, i, size) == Some(((x) as int, (y - i as usize) as int)));
                assert(reached(
                    cur,
                    size,
                    (x) as int,
                    (y - i as usize) as int,
                    (alcance - i) as u32,
                    traspasa,
                ) == (now, res));
                assert(count(now.board) <= count(cur.board));
                assert(ran(cur, size, x, y, alcance, traspasa, LEFT, i) == if !res || i
                    == alcance {
                    now
                } else {
                    ran(now, size, x, y, alcance, traspasa, LEFT, (i + 1) as u32)
                });
            }
            if !res || i == alcance {
                break ;
            }
            i = i + 1;
        }
    }

    /// Lets the blast run to the right of row `x`, column `y`.
    fn direccion_right(
        &mut self,
        x: usize,
        y: usize,
        alcance: u32,
        traspasa: bool,
        golpeados: &mut Vec<(usize, usize)>,
        desvios: &mut Vec<Turn>,
    )
        ensures
            final(self).tamanio == old(self).tamanio,
            calmer(old(self).tablero@, final(self).tablero@),
            grown(turns_view(old(desvios)@), turns_view(final(desvios)@), alcance as int),
            blast(final(self).tablero@, final(golpeados)@, final(desvios)@) == ran(
                blast(old(self).tablero@, old(golpeados)@, old(desvios)@),
                old(self).tamanio,
                x,
                y,
                alcance,
                traspasa,
                RIGHT,
                1,
            ),
        decreases bombs(old(self).tablero@), 2nat,
    {
        let ghost start = blast(self.tablero@, golpeados@, desvios@);
        let ghost size = self.tamanio;
        let mut i: u32 = 1;
        while i <= alcance
            invariant_except_break
                desvios@ == old(desvios)@,
                ran(start, size, x, y, alcance, traspasa, RIGHT, 1) == ran(
                    blast(self.tablero@, golpeados@, desvios@),
                    size,
                    x,
                    y,
                    alcance,
                    traspasa,
                    RIGHT,
                    i,
                ),
            invariant
                1 <= i,
                size == old(self).tamanio,
                self.tamanio == old(self).tamanio,
                calmer(old(self).tablero@, self.tablero@),
            ensures
                self.tamanio == old(self).tamanio,
                calmer(old(self).tablero@, self.tablero@),
                grown(turns_view(old(desvios)@), turns_view(desvios@), alcance as int),
                blast(self.tablero@, golpeados@, desvios@) == ran(
                    start,
                    size,
                    x,
                    y,
                    alcance,
                    traspasa,
                    RIGHT,
                    1,
                ),
            decreases alcance - i + 1,
        {
            let ghost cur = blast(self.tablero@, golpeados@, desvios@);
            if y >= self.tamanio || i as usize >= self.tamanio - y {
                assert(target(RIGHT, x, y, i, size) is None);
                assert(ran(cur, size, x, y, alcance, traspasa, RIGHT, i) == cur);
                break ;
            }
            let ghost board = self.tablero@;
            let res = self.check_elemento(
                x,
                y + i as usize,
                alcance - i,
                traspasa,
                golpeados,
                desvios,
            );
            proof {
                lemma_calmer_trans(old(self).tablero@, board, self.tablero@);
                let now = blast(self.tablero@, golpeados@, desvios@);
                assert(target(RIGHT, x, y, i, size) == Some(((x) as int, (y + i as usize) as int)));
                assert(reached(
                    cur,
                    size,
                    (x) as int,
                    (y + i as usize) as int,
                    (alcance - i) as u32,
                    traspasa,
                ) == (now, res));
                assert(count(now.board) <= count(cur.board));
                assert(ran(cur, size, x, y, alcance, traspasa, RIGHT, i) == if !res || i
                    == alcance {
                    now
                } else {
                    ran(now, size, x, y, alcance, traspasa, RIGHT, (i + 1) as u32)
                });
            }
            if !res || i == alcance {
                break ;
            }
            i = i + 1;
        }
    }

    /// Lets the blast run up from row `x`, column `y`.
    fn direccion_up(
        &mut self,
        x: usize,
        y: usize,
        alcance: u32,
        traspasa: bool,
        golpeados: &mut Vec<(usize, usize)>,
        desvios: &mut Vec<Turn>,
    )
        ensures
            final(self).tamanio == old(self).tamanio,
            calmer(old(self).tablero@, final(self).tablero@),
            grown(turns_view(old(desvios)@), turns_view(final(desvios)@), alcance as int),
            blast(final(self).tablero@, final(golpeados)@, final(desvios)@) == ran(
                blast(old(self).tablero@, old(golpeados)@, old(desvios)@),
                old(self).tamanio,
                x,
                y,
                alcance,
                traspasa,
                UP,
                1,
            ),
        decreases bombs(old(self).tablero@), 2nat,
    {
        let ghost start = blast(self.tablero@, golpeados@, desvios@);
        let ghost size = self.tamanio;
        let mut i: u32 = 1;
        while i <= alcance
            invariant_except_break
                desvios@ == old(desvios)@,
                ran(start, size, x, y, alcance, traspasa, UP, 1) == ran(
                    blast(self.tablero@, golpeados@, desvios@),
                    size,
                    x,
                    y,
                    alcance,
                    traspasa,
                    UP,
                    i,
                ),
            invariant
                1 <= i,
                size == old(self).tamanio,
                self.tamanio == old(self).tamanio,
                calmer(old(self).tablero@, self.tablero@),
            ensures
                self.tamanio == old(self).tamanio,
                calmer(old(self).tablero@, self.tablero@),
                grown(turns_view(old(desvios)@), turns_view(desvios@), alcance as int),
                blast(self.tablero@, golpeados@, desvios@) == ran(
                    start,
                    size,
                    x,
                    y,
                    alcance,
                    traspasa,
                    UP,
                    1,
                ),
            decreases alcance - i + 1,
        {
            let ghost cur = blast(self.tablero@, golpeados@, desvios@);
            if x < i as usize {
                assert(target(UP, x, y, i, size) is None);
                assert(ran(cur, size, x, y, alcance, traspasa, UP, i) == cur);
                break ;
            }
            let ghost board = self.tablero@;
            let res = self.check_elemento(
                x - i as usize,
                y,
                alcance - i,
                traspasa,
                golpeados,
                desvios,
            );
            proof {
                lemma_calmer_trans(old(self).tablero@, board, self.tablero@);
                let now = blast(self.tablero@, golpeados@, desvios@);
                assert(target(UP, x, y, i, size) == Some(((x - i as usize) as int, (y) as int)));
                assert(reached(
                    cur,
                    size,
                    (x - i as usize) as int,
                    (y) as int,
                    (alcance - i) as u32,
                    traspasa,
                ) == (now, res));
                assert(count(now.board) <= count(cur.board));
                assert(ran(cur, size, x, y, alcance, traspasa, UP, i) == if !res || i
                    == alcance {
                    now
                } else {
                    ran(now, size, x, y, alcance, traspasa, UP, (i + 1) as u32)
                });
            }
            if !res || i == alcance {
                break ;
            }
            i = i + 1;
        }
    }

    /// Lets the blast run down from row `x`, column `y`.
    fn direccion_down(
        &mut self,
        x: usize,
        y: usize,
        alcance: u32,
        traspasa: bool,
        golpeados: &mut Vec<(usize, usize)>,
        desvios: &mut Vec<Turn>,
    )
        ensures
            final(self).tamanio == old(self).tamanio,
            calmer(old(self).tablero@, final(self).tablero@),
            grown(turns_view(old(desvios)@), turns_view(final(desvios)@), alcance as int),
            blast(final(self).tablero@, final(golpeados)@, final(desvios)@) == ran(
                blast(old(self).tablero@, old(golpeados)@, old(desvios)@),
                old(self).tamanio,
                x,
                y,
                alcance,
                traspasa,
                DOWN,
                1,
            ),
        decreases bombs(old(self).tablero@), 2nat,
    {
        let ghost start = blast(self.tablero@, golpeados@, desvios@);
        let ghost size = self.tamanio;
        let mut i: u32 = 1;
        while i <= alcance
            invariant_except_break
                desvios@ == old(desvios)@,
                ran(start, size, x, y, alcance, traspasa, DOWN, 1) == ran(
                    blast(self.tablero@, golpeados@, desvios@),
                    size,
                    x,
                    y,
                    alcance,
                    traspasa,
                    DOWN,
                    i,
                ),
            invariant
                1 <= i,
                size == old(self).tamanio,
                self.tamanio == old(self).tamanio,
                calmer(old(self).tablero@, self.tablero@),
            ensures
                self.tamanio == old(self).tamanio,
                calmer(old(self).tablero@, self.tablero@),
                grown(turns_view(old(desvios)@), turns_view(desvios@), alcance as int),
                blast(self.tablero@, golpeados@, desvios@) == ran(
                    start,
                    size,
                    x,
                    y,
                    alcance,
                    traspasa,
                    DOWN,
                    1,
                ),
            decreases alcance - i + 1,
        {
            let ghost cur = blast(self.tablero@, golpeados@, desvios@);
            if x >= self.tamanio || i as usize >= self.tamanio - x {
                assert(target(DOWN, x, y, i, size) is None);
                assert(ran(cur, size, x, y, alcance, traspasa, DOWN, i) == cur);
                break ;
            }
            let ghost board = self.tablero@;
            let res = self.check_elemento(
                x + i as usize,
                y,
                alcance - i,
                traspasa,
                golpeados,
                desvios,
            );
            proof {
                lemma_calmer_trans(old(self).tablero@, board, self.tablero@);
                let now = blast(self.tablero@, golpeados@, desvios@);
                assert(target(DOWN, x, y, i, size) == Some(((x + i as usize) as int, (y) as int)));
                assert(reached(
                    cur,
                    size,
                    (x + i as usize) as int,
                    (y) as int,
                    (alcance - i) as u32,
                    traspasa,
                ) == (now, res));
                assert(count(now.board) <= count(cur.board));
                assert(ran(cur, size, x, y, alcance, traspasa, DOWN, i) == if !res || i
                    == alcance {
                    now
                } else {
                    ran(now, size, x, y, alcance, traspasa, DOWN, (i + 1) as u32)
                });
            }
            if !res || i == alcance {
                break ;
            }
            i = i + 1;
        }
    }

    /// Lets the blast reach the cell at row `x`, column `y`, with `alcance`
    /// of its reach left, and tells whether it goes on beyond it.
    fn check_elemento(
        &mut self,
        x: usize,
        y: usize,
        alcance: u32,
        traspasa: bool,
        golpeados: &mut Vec<(usize, usize)>,
        desvios: &mut Vec<Turn>,
    ) -> (r: bool)
        ensures
            final(self).tamanio == old(self).tamanio,
            calmer(old(self).tablero@, final(self).tablero@),
            r ==> final(desvios)@ == old(desvios)@,
            grown(turns_view(old(desvios)@), turns_view(final(desvios)@), alcance + 1),
            (blast(final(self).tablero@, final(golpeados)@, final(desvios)@), r) == reached(
                blast(old(self).tablero@, old(golpeados)@, old(desvios)@),
                old(self).tamanio,
                x as int,
                y as int,
                alcance,
                traspasa,
            ),
        decreases bombs(old(self).tablero@), 1nat,
    {
        let ghost s = blast(self.tablero@, golpeados@, desvios@);
        if x >= self.tablero.len() || y >= self.tablero[x].len() {
            return true;
        }
        assert(s.board[x as int][y as int] == self.tablero@[x as int]@[y as int]@);
        match &self.tablero[x][y] {
            Piezas::Bomba { .. } => {
                let _ = self.detonar_bomba(x, y);
                true
            },
            Piezas::Enemigo { vidas } => {
                let vidas: u32 = *vidas;
                if holds_pair(golpeados, x, y) {
                    return true;
                }
                if vidas <= 1 {
                    self.set_cell(x, y, Piezas::Espacio);
                } else {
                    golpeados.push((x, y));
                    self.set_cell(x, y, Piezas::Enemigo { vidas: vidas - 1 });
                }
                true
            },
            Piezas::Desvio { direc } => {
                let turn = Turn { direc: direc.clone(), alcance, x, y };
                let ghost before = turns_view(desvios@);
                let ghost tv = turn@;
                desvios.push(turn);
                proof {
                    assert(turns_view(desvios@) =~= before.push(tv));
                    assert(turns_view(desvios@).drop_last() =~= before);
                }
                false
            },
            Piezas::Roca => traspasa,
            Piezas::Pared => false,
            Piezas::Espacio => true,
        }
    }

    /// Lets the blast take a turn at the cell `coords`, in the direction
    /// `direc`: `U` for up, `D` for down, `R` for right, `L` for left.
    fn hacer_desvios(
        &mut self,
        coords: (usize, usize),
        alcance: u32,
        traspasa: bool,
        golpeados: &mut Vec<(usize, usize)>,
        direc: &[u8],
        desvios: &mut Vec<Turn>,
    )
        ensures
            final(self).tamanio == old(self).tamanio,
            calmer(old(self).tablero@, final(self).tablero@),
            grown(turns_view(old(desvios)@), turns_view(final(desvios)@), alcance as int),
            blast(final(self).tablero@, final(golpeados)@, final(desvios)@) == turned(
                blast(old(self).tablero@, old(golpeados)@, old(desvios)@),
                old(self).tamanio,
                TurnView { direc: direc@, alcance, x: coords.0, y: coords.1 },
                traspasa,
            ),
        decreases bombs(old(self).tablero@), 3nat,
    {
        if direc.len() != 1 {
            return ;
        }
        let d: u8 = direc[0];
        if d == UP {
            self.direccion_up(coords.0, coords.1, alcance, traspasa, golpeados, desvios);
        } else if d == DOWN {
            self.direccion_down(coords.0, coords.1, alcance, traspasa, golpeados, desvios);
        } else if d == RIGHT {
            self.direccion_right(coords.0, coords.1, alcance, traspasa, golpeados, desvios);
        } else if d == LEFT {
            self.direccion_left(coords.0, coords.1, alcance, traspasa, golpeados, desvios);
        }
    }

    /// The words of a row, with a space between them.
    pub open spec fn row_text(row: Seq<Piezas>) -> Seq<u8>
        decreases row.len(),
    {
        if row.len() == 0 {
            Seq::empty()
        } else if row.len() == 1 {
            Piezas::word(row[0]@)
        } else {
            Laberinto::row_text(row.drop_last()) + seq![32u8] + Piezas::word(row.last()@)
        }
    }

    /// The rows of a board, each ended by a line feed.
    pub open spec fn board_text(rows: Seq<Vec<Piezas>>) -> Seq<u8>
        decreases rows.len(),
    {
        if rows.len() == 0 {
            Seq::empty()
        } else {
            Laberinto::board_text(rows.drop_last()) + Laberinto::row_text(rows.last()@) + seq![
                10u8,
            ]
        }
    }

    /// The maze as text: a line for each row, the words of its pieces with
    /// a space between them.
    pub fn to_string(&self) -> (r: Vec<u8>)
        ensures
            r@ == Laberinto::board_text(self.tablero@),
    {
        let mut res: Vec<u8> = Vec::new();
        let mut f: usize = 0;
        proof {
            assert(self.tablero@.subrange(0, 0) =~= Seq::<Vec<Piezas>>::empty());
        }
        while f < self.tablero.len()
            invariant
                f <= self.tablero@.len(),
                res@ == Laberinto::board_text(self.tablero@.subrange(0, f as int)),
            decreases self.tablero@.len() - f,
        {
            let fila = &self.tablero[f];
            let ghost head = res@;
            let mut c: usize = 0;
            proof {
                assert(fila@.subrange(0, 0) =~= Seq::<Piezas>::empty());
                assert(res@ =~= head + Laberinto::row_text(fila@.subrange(0, 0)));
            }
            while c < fila.len()
                invariant
                    c <= fila@.len(),
                    res@ == head + Laberinto::row_text(fila@.subrange(0, c as int)),
                decreases fila@.len() - c,
            {
                if c > 0 {
                    res.push(32u8);
                }
                push_all(&mut res, fila[c].to_string().as_slice());
                proof {
                    let after = fila@.subrange(0, c as int + 1);
                    assert(after.drop_last() =~= fila@.subrange(0, c as int));
                    assert(after.last() == fila@[c as int]);
                    if c == 0 {
                        assert(after[0] == fila@[0]);
                    }
                    assert(res@ =~= head + Laberinto::row_text(after));
                }
                c = c + 1;
            }
            res.push(10u8);
            proof {
                assert(fila@.subrange(0, fila@.len() as int) =~= fila@);
                let after = self.tablero@.subrange(0, f as int + 1);
                assert(after.drop_last() =~= self.tablero@.subrange(0, f as int));
                assert(after.last() == self.tablero@[f as int]);
                assert(res@ =~= Laberinto::board_text(after));
            }
            f = f + 1;
        }
        proof {
            assert(self.tablero@.subrange(0, self.tablero@.len() as int) =~= self.tablero@);
        }
        res
    }
}

proof fn lemma_calmer_trans(a: Seq<Vec<Piezas>>, b: Seq<Vec<Piezas>>, c: Seq<Vec<Piezas>>)
    requires
        calmer(a, b),
        calmer(b, c),
    ensures
        calmer(a, c),
{
    assert forall|r: int| 0 <= r < a.len() implies (#[trigger] a[r])@.len() == c[r]@.len() by {
        assert(a[r]@.len() == b[r]@.len());
        assert(b[r]@.len() == c[r]@.len());
    }
}

} // verus!
