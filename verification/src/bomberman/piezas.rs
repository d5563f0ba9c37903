use crate::bomberman::error_laberinto::ErrorDeLecturaLaberinto;
use crate::text::{dec_digits, push_all, to_decimal};
use vstd::prelude::*;

verus! {

/// What can stand in a cell of the maze.
#[derive(PartialEq, Debug)]
pub enum Piezas {
    Bomba { alcance: u32, traspasa: bool },
    Enemigo { vidas: u32 },
    Roca,
    Pared,
    Desvio { direc: Vec<u8> },
    Espacio,
}

/// The mathematical value of a piece.
pub enum PiezaView {
    Bomba { alcance: u32, traspasa: bool },
    Enemigo { vidas: u32 },
    Roca,
    Pared,
    Desvio { direc: Seq<u8> },
    Espacio,
}

impl View for Piezas {
    type V = PiezaView;

    open spec fn view(&self) -> PiezaView {
        match self {
            Piezas::Bomba { alcance, traspasa } => PiezaView::Bomba {
                alcance: *alcance,
                traspasa: *traspasa,
            },
            Piezas::Enemigo { vidas } => PiezaView::Enemigo { vidas: *vidas },
            Piezas::Roca => PiezaView::Roca,
            Piezas::Pared => PiezaView::Pared,
            Piezas::Desvio { direc } => PiezaView::Desvio { direc: direc@ },
            Piezas::Espacio => PiezaView::Espacio,
        }
    }
}

/// The byte at place `pos` of `texto`, as a text of one byte; empty when
/// there is none.
pub open spec fn letter_at(texto: Seq<u8>, pos: int) -> Seq<u8> {
    if 0 <= pos < texto.len() {
        seq![texto[pos]]
    } else {
        Seq::empty()
    }
}

/// The byte at place `pos` of `texto`, as a text of one byte.
pub fn obtener_letra_posicion(texto: &[u8], pos: usize) -> (r: Vec<u8>)
    ensures
        r@ == letter_at(texto@, pos as int),
{
    let mut out: Vec<u8> = Vec::new();
    if pos < texto.len() {
        out.push(texto[pos]);
    }
    out
}

/// The number that a digit from 1 to 9 stands for, and 0 for anything else.
pub open spec fn digit_of(letter: Seq<u8>) -> u32 {
    if letter.len() == 1 && 49 <= letter[0] <= 57 {
        (letter[0] - 48) as u32
    } else {
        0
    }
}

/// The piece that a word of the maze stands for. A word of one byte is a
/// rock (`R`), a wall (`W`) or a space (`_`), and an invalid element
/// otherwise. Of a longer word the first two bytes count: `B` or `S` and a
/// digit from 1 to 9 make a bomb of that reach, which for `S` goes through
/// rocks; `F` and a digit from 1 to 3 make an enemy with so many lives; `D`
/// and any byte make a turn in that direction. Anything else cannot be read.
pub open spec fn pieza_of(valor: Seq<u8>) -> Result<PiezaView, ErrorDeLecturaLaberinto> {
    if valor.len() == 1 {
        if valor[0] == 82 {
            Ok(PiezaView::Roca)
        } else if valor[0] == 87 {
            Ok(PiezaView::Pared)
        } else if valor[0] == 95 {
            Ok(PiezaView::Espacio)
        } else {
            Err(ErrorDeLecturaLaberinto::ElementoInvalido)
        }
    } else if valor.len() == 0 {
        Err(ErrorDeLecturaLaberinto::ErrorDeParseo)
    } else {
        let second = letter_at(valor, 1);
        if (valor[0] == 66 || valor[0] == 83) && digit_of(second) > 0 {
            Ok(PiezaView::Bomba { alcance: digit_of(second), traspasa: valor[0] == 83 })
        } else if valor[0] == 70 && 1 <= digit_of(second) <= 3 {
            Ok(PiezaView::Enemigo { vidas: digit_of(second) })
        } else if valor[0] == 68 {
            Ok(PiezaView::Desvio { direc: second })
        } else {
            Err(ErrorDeLecturaLaberinto::ErrorDeParseo)
        }
    }
}

/// Executable `digit_of`.
fn read_digit(letter: &[u8]) -> (r: u32)
    ensures
        r == digit_of(letter@),
        r <= 9,
{
    if letter.len() == 1 && 49 <= letter[0] && letter[0] <= 57 {
        (letter[0] - 48) as u32
    } else {
        0
    }
}

impl Piezas {
    /// The piece that a word of the maze stands for.
    pub fn crear(valor: Vec<u8>) -> (r: Result<Piezas, ErrorDeLecturaLaberinto>)
        ensures
            match r {
                Ok(p) => pieza_of(valor@) == Ok::<PiezaView, ErrorDeLecturaLaberinto>(p@),
                Err(e) => pieza_of(valor@) == Err::<PiezaView, ErrorDeLecturaLaberinto>(e),
            },
    {
        let letra_inicial = obtener_letra_posicion(valor.as_slice(), 0);
        if valor.len() == 1 {
            let letra: u8 = letra_inicial[0];
            return if letra == 82 {
                Ok(Piezas::Roca)
            } else if letra == 87 {
                Ok(Piezas::Pared)
            } else if letra == 95 {
                Ok(Piezas::Espacio)
            } else {
                Err(ErrorDeLecturaLaberinto::ElementoInvalido)
            };
        }
        if valor.len() == 0 {
            return Err(ErrorDeLecturaLaberinto::ErrorDeParseo);
        }
        let segunda_letra = obtener_letra_posicion(valor.as_slice(), 1);
        let letra: u8 = letra_inicial[0];
        if letra == 66 {
            Piezas::crear_bomba(false, segunda_letra)
        } else if letra == 83 {
            Piezas::crear_bomba(true, segunda_letra)
        } else if letra == 70 {
            Piezas::crear_enemigo(segunda_letra)
        } else if letra == 68 {
            Ok(Piezas::Desvio { direc: segunda_letra })
        } else {
            Err(ErrorDeLecturaLaberinto::ErrorDeParseo)
        }
    }

    /// A bomb whose reach is the digit `alcance`, from 1 to 9.
    pub fn crear_bomba(traspasa: bool, alcance: Vec<u8>) -> (r: Result<
        Piezas,
        ErrorDeLecturaLaberinto,
    >)
        ensures
            match r {
                Ok(p) => digit_of(alcance@) > 0 && p@ == (PiezaView::Bomba {
                    alcance: digit_of(alcance@),
                    traspasa,
                }),
                Err(e) => digit_of(alcance@) == 0 && e == ErrorDeLecturaLaberinto::ErrorDeParseo,
            },
    {
        let num = read_digit(alcance.as_slice());
        if num > 0 {
            Ok(Piezas::Bomba { traspasa, alcance: num })
        } else {
            Err(ErrorDeLecturaLaberinto::ErrorDeParseo)
        }
    }

    /// An enemy whose lives are the digit `vidas`, from 1 to 3.
    pub fn crear_enemigo(vidas: Vec<u8>) -> (r: Result<Piezas, ErrorDeLecturaLaberinto>)
        ensures
            match r {
                Ok(p) => 1 <= digit_of(vidas@) <= 3 && p@ == (PiezaView::Enemigo {
                    vidas: digit_of(vidas@),
                }),
                Err(e) => !(1 <= digit_of(vidas@) <= 3) && e
                    == ErrorDeLecturaLaberinto::ErrorDeParseo,
            },
    {
        let num = read_digit(vidas.as_slice());
        if 1 <= num && num <= 3 {
            Ok(Piezas::Enemigo { vidas: num })
        } else {
            Err(ErrorDeLecturaLaberinto::ErrorDeParseo)
        }
    }

    /// The word that stands for a piece.
    pub open spec fn word(p: PiezaView) -> Seq<u8> {
        match p {
            PiezaView::Bomba { alcance, traspasa } => seq![
                if traspasa {
                    83u8
                } else {
                    66u8
                },
            ] + dec_digits(alcance as nat),
            PiezaView::Enemigo { vidas } => seq![70u8] + dec_digits(vidas as nat),
            PiezaView::Desvio { direc } => seq![68u8] + direc,
            PiezaView::Espacio => seq![95u8],
            PiezaView::Pared => seq![87u8],
            PiezaView::Roca => seq![82u8],
        }
    }

    /// The word that stands for this piece.
    pub fn to_string(&self) -> (r: Vec<u8>)
        ensures
            r@ == Piezas::word(self@),
    {
        let mut out: Vec<u8> = Vec::new();
        match self {
            Piezas::Bomba { alcance, traspasa } => {
                out.push(if *traspasa {
                    83u8
                } else {
                    66u8
                });
                push_all(&mut out, to_decimal(*alcance as usize).as_slice());
            },
            Piezas::Enemigo { vidas } => {
                out.push(70u8);
                push_all(&mut out, to_decimal(*vidas as usize).as_slice());
            },
            Piezas::Desvio { direc } => {
                out.push(68u8);
                push_all(&mut out, direc.as_slice());
            },
            Piezas::Espacio => out.push(95u8),
            Piezas::Pared => out.push(87u8),
            Piezas::Roca => out.push(82u8),
        }
        assert(out@ =~= Piezas::word(self@));
        out
    }
}

/// A word reads back as the piece it stands for, where the piece can be
/// read at all: a bomb of reach 1 to 9, an enemy of 1 to 3 lives, a turn of
/// one byte, a rock, a wall or a space.
pub proof fn lemma_word_reads_back(p: PiezaView)
    requires
        match p {
            PiezaView::Bomba { alcance, traspasa } => 1 <= alcance <= 9,
            PiezaView::Enemigo { vidas } => 1 <= vidas <= 3,
            PiezaView::Desvio { direc } => direc.len() == 1,
            _ => true,
        },
    ensures
        pieza_of(Piezas::word(p)) == Ok::<PiezaView, ErrorDeLecturaLaberinto>(p),
{
    let w = Piezas::word(p);
    match p {
        PiezaView::Bomba { alcance, traspasa } => {
            assert(w.len() == 2);
            assert(letter_at(w, 1) =~= dec_digits(alcance as nat));
        },
        PiezaView::Enemigo { vidas } => {
            assert(w.len() == 2);
            assert(letter_at(w, 1) =~= dec_digits(vidas as nat));
        },
        PiezaView::Desvio { direc } => {
            assert(w.len() == 2);
            assert(letter_at(w, 1) =~= direc);
        },
        _ => {},
    }
}

} // verus!
