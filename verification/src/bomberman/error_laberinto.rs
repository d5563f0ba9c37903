use crate::text::{ascii, bytes_of};
use vstd::prelude::*;

verus! {

/// What can go wrong with a maze.
#[derive(Debug, Clone, Copy, PartialEq, Eq, Structural)]
pub enum ErrorDeLecturaLaberinto {
    ErrorDeParseo,
    ElementoInvalido,
    ErrordeArchivo,
    PosicionBombaInvalida,
}

impl ErrorDeLecturaLaberinto {
    /// The message that tells of the error.
    pub open spec fn message(self) -> Seq<u8> {
        match self {
            ErrorDeLecturaLaberinto::ErrorDeParseo => ascii(
                "ERROR: No se pudo identificar un numero del tablero"@,
            ),
            ErrorDeLecturaLaberinto::ElementoInvalido => ascii(
                "ERROR: Elemento Invalido en el laberinto leido"@,
            ),
            ErrorDeLecturaLaberinto::ErrordeArchivo => ascii(
                "ERROR: No se pudo leer el archivo correspondiente"@,
            ),
            ErrorDeLecturaLaberinto::PosicionBombaInvalida => ascii(
                "ERROR: Posicion de bomba invalida"@,
            ),
        }
    }

    /// The message that tells of the error.
    pub fn to_text(&self) -> (r: Vec<u8>)
        ensures
            r@ == self.message(),
    {
        proof {
            reveal_strlit("ERROR: No se pudo identificar un numero del tablero");
            reveal_strlit("ERROR: Elemento Invalido en el laberinto leido");
            reveal_strlit("ERROR: No se pudo leer el archivo correspondiente");
            reveal_strlit("ERROR: Posicion de bomba invalida");
        }
        match self {
            ErrorDeLecturaLaberinto::ErrorDeParseo => bytes_of(
                "ERROR: No se pudo identificar un numero del tablero",
            ),
            ErrorDeLecturaLaberinto::ElementoInvalido => bytes_of(
                "ERROR: Elemento Invalido en el laberinto leido",
            ),
            ErrorDeLecturaLaberinto::ErrordeArchivo => bytes_of(
                "ERROR: No se pudo leer el archivo correspondiente",
            ),
            ErrorDeLecturaLaberinto::PosicionBombaInvalida => bytes_of(
                "ERROR: Posicion de bomba invalida",
            ),
        }
    }
}

} // verus!
