use gitr::bomberman::entrada::{parse_number, valores_entrada};
use gitr::bomberman::error_laberinto::ErrorDeLecturaLaberinto;
use gitr::bomberman::laberinto::Laberinto;
use gitr::bomberman::piezas::{obtener_letra_posicion, Piezas};

fn words(rows: &[&[&str]]) -> Vec<Vec<Vec<u8>>> {
    rows.iter().map(|row| row.iter().map(|w| w.as_bytes().to_vec()).collect()).collect()
}

#[test]
pub fn test_creacion_lab() {
    let entrada: Vec<Vec<Vec<u8>>> = vec![
        vec![b"_".to_vec(), b"B2".to_vec()],
        vec![b"S2".to_vec(), b"DL".to_vec()],
    ];
    let res: Laberinto = Laberinto::crear(entrada.len(), entrada).unwrap();
    let res_correcto: Vec<Vec<Piezas>> = vec![
        vec![
            Piezas::Espacio,
            Piezas::Bomba {
                alcance: 2,
                traspasa: false,
            },
        ],
        vec![
            Piezas::Bomba {
                alcance: 2,
                traspasa: true,
            },
            Piezas::Desvio {
                direc: b"L".to_vec(),
            },
        ],
    ];
    assert_eq!(res.tablero, res_correcto)
}

#[test]
pub fn test_creacion_lab_bomba_negativa() {
    let entrada: Vec<Vec<Vec<u8>>> = vec![
        vec![b"_".to_vec(), b"B-1".to_vec()],
        vec![b"S-2".to_vec(), b"DL".to_vec()],
    ];
    let res = Laberinto::crear(entrada.len(), entrada);
    assert!(res.is_err());
    assert_eq!(res.unwrap_err(), ErrorDeLecturaLaberinto::ErrorDeParseo);
}

#[test]
pub fn test_creacion_lab_elemento_invalido() {
    let entrada: Vec<Vec<Vec<u8>>> = vec![
        vec![b"_".to_vec(), b"T".to_vec()],
        vec![b"O".to_vec(), b"DL".to_vec()],
    ];
    let res = Laberinto::crear(entrada.len(), entrada);
    assert!(res.is_err());
    assert_eq!(res.unwrap_err(), ErrorDeLecturaLaberinto::ElementoInvalido);
}

#[test]
pub fn test_detonar_bomba() {
    let entrada: Vec<Vec<Vec<u8>>> = vec![
        vec![b"B1".to_vec(), b"B2".to_vec()],
        vec![b"S2".to_vec(), b"DL".to_vec()],
    ];
    let mut res: Laberinto = Laberinto::crear(entrada.len(), entrada).unwrap();
    res.detonar_bomba(0, 0).unwrap();
    let res_correcto: Vec<Vec<Piezas>> = vec![
        vec![Piezas::Espacio, Piezas::Espacio],
        vec![
            Piezas::Espacio,
            Piezas::Desvio {
                direc: b"L".to_vec(),
            },
        ],
    ];
    assert_eq!(res.tablero, res_correcto);
}

#[test]
pub fn test_to_string() {
    let entrada: Vec<Vec<Vec<u8>>> = vec![
        vec![b"B1".to_vec(), b"B2".to_vec()],
        vec![b"S2".to_vec(), b"DL".to_vec()],
    ];
    let res: Laberinto = Laberinto::crear(entrada.len(), entrada).unwrap();
    let res_string = res.to_string();
    let res_correcto = b"B1 B2\nS2 DL\n".to_vec();
    assert_eq!(res_correcto, res_string);
}

#[test]
pub fn test_crear_piezas() {
    let casos: Vec<&str> = vec!["R", "W", "_", "B2", "S3", "DU", "F2"];
    let mut res: Vec<Piezas> = Vec::new();
    for elemento in casos {
        let pieza = Piezas::crear(elemento.as_bytes().to_vec()).unwrap();
        res.push(pieza);
    }
    let caso_correcto: Vec<Piezas> = vec![
        Piezas::Roca,
        Piezas::Pared,
        Piezas::Espacio,
        Piezas::Bomba {
            alcance: 2,
            traspasa: false,
        },
        Piezas::Bomba {
            alcance: 3,
            traspasa: true,
        },
        Piezas::Desvio {
            direc: b"U".to_vec(),
        },
        Piezas::Enemigo { vidas: 2 },
    ];
    assert_eq!(res, caso_correcto);
}

#[test]
pub fn test_piezas_to_string() {
    let mut res: Vec<Vec<u8>> = Vec::new();
    let casos: Vec<Piezas> = vec![
        Piezas::Roca,
        Piezas::Pared,
        Piezas::Espacio,
        Piezas::Bomba {
            alcance: 2,
            traspasa: false,
        },
        Piezas::Bomba {
            alcance: 3,
            traspasa: true,
        },
        Piezas::Desvio {
            direc: b"U".to_vec(),
        },
        Piezas::Enemigo { vidas: 2 },
    ];
    for elemento in casos {
        let pieza_string = elemento.to_string();
        res.push(pieza_string);
    }
    let correcto: Vec<Vec<u8>> =
        vec!["R", "W", "_", "B2", "S3", "DU", "F2"].into_iter().map(|s| s.as_bytes().to_vec()).collect();
    assert_eq!(res, correcto);
}

fn detonate(rows: &[&[&str]], x: usize, y: usize) -> String {
    let board = words(rows);
    let mut lab = Laberinto::crear(board.len(), board).unwrap();
    lab.detonar_bomba(x, y).unwrap();
    String::from_utf8(lab.to_string()).unwrap()
}

#[test]
fn a_blast_hurts_enemies_and_stops_at_walls() {
    let out = detonate(
        &[
            &["B2", "_", "F1", "_"],
            &["F2", "_", "_", "_"],
            &["W", "_", "_", "_"],
            &["F3", "_", "_", "_"],
        ],
        0,
        0,
    );
    assert_eq!(out, "_ _ _ _\nF1 _ _ _\nW _ _ _\nF3 _ _ _\n");
}

#[test]
fn rocks_stop_a_blast_that_does_not_go_through() {
    let plain = detonate(&[&["B3", "R", "F1", "_"]], 0, 0);
    assert_eq!(plain, "_ R F1 _\n");
    let through = detonate(&[&["S3", "R", "F1", "_"], &["_"], &["_"], &["_"]], 0, 0);
    assert_eq!(through, "_ R _ _\n_\n_\n_\n");
}

#[test]
fn a_turn_sends_the_rest_of_the_blast_another_way() {
    let out = detonate(
        &[
            &["B4", "_", "DD", "F1"],
            &["_", "_", "_", "_"],
            &["_", "_", "F1", "_"],
            &["_", "_", "F1", "_"],
        ],
        0,
        0,
    );
    assert_eq!(out, "_ _ DD F1\n_ _ _ _\n_ _ _ _\n_ _ F1 _\n");
}

#[test]
fn an_enemy_is_hurt_once_by_one_bomb() {
    let out = detonate(
        &[
            &["_", "_", "DD", "_"],
            &["B3", "_", "F2", "_"],
            &["_", "_", "_", "_"],
            &["_", "_", "_", "_"],
        ],
        1,
        0,
    );
    assert_eq!(out, "_ _ DD _\n_ _ F1 _\n_ _ _ _\n_ _ _ _\n");
}

#[test]
fn bombs_set_each_other_off() {
    let out = detonate(
        &[
            &["B1", "B1", "B1", "F1"],
            &["_", "_", "_", "_"],
            &["_", "_", "_", "_"],
            &["_", "_", "_", "_"],
        ],
        0,
        0,
    );
    assert_eq!(out, "_ _ _ _\n_ _ _ _\n_ _ _ _\n_ _ _ _\n");
}

#[test]
fn where_there_is_no_bomb_nothing_happens() {
    let board = words(&[&["_", "B2"], &["S2", "DL"]]);
    let mut lab = Laberinto::crear(2, board).unwrap();
    assert_eq!(lab.detonar_bomba(0, 0), Err(ErrorDeLecturaLaberinto::PosicionBombaInvalida));
    assert_eq!(lab.detonar_bomba(1, 1), Err(ErrorDeLecturaLaberinto::PosicionBombaInvalida));
    assert_eq!(lab.detonar_bomba(5, 0), Err(ErrorDeLecturaLaberinto::PosicionBombaInvalida));
    assert_eq!(lab.detonar_bomba(0, 5), Err(ErrorDeLecturaLaberinto::PosicionBombaInvalida));
    assert_eq!(lab.to_string(), b"_ B2\nS2 DL\n".to_vec());
}

#[test]
fn words_that_stand_for_no_piece_are_told_apart() {
    assert_eq!(Piezas::crear(b"B0".to_vec()), Err(ErrorDeLecturaLaberinto::ErrorDeParseo));
    assert_eq!(Piezas::crear(b"F4".to_vec()), Err(ErrorDeLecturaLaberinto::ErrorDeParseo));
    assert_eq!(Piezas::crear(b"F0".to_vec()), Err(ErrorDeLecturaLaberinto::ErrorDeParseo));
    assert_eq!(Piezas::crear(b"X1".to_vec()), Err(ErrorDeLecturaLaberinto::ErrorDeParseo));
    assert_eq!(Piezas::crear(Vec::new()), Err(ErrorDeLecturaLaberinto::ErrorDeParseo));
    assert_eq!(Piezas::crear(b"B".to_vec()), Err(ErrorDeLecturaLaberinto::ElementoInvalido));
    assert_eq!(
        Piezas::crear(b"B97".to_vec()),
        Ok(Piezas::Bomba { alcance: 9, traspasa: false })
    );
    assert_eq!(obtener_letra_posicion(b"DU", 1), b"U".to_vec());
    assert!(obtener_letra_posicion(b"D", 1).is_empty());
}

#[test]
fn errors_have_messages() {
    assert_eq!(
        ErrorDeLecturaLaberinto::PosicionBombaInvalida.to_text(),
        b"ERROR: Posicion de bomba invalida".to_vec()
    );
    assert!(ErrorDeLecturaLaberinto::ErrordeArchivo.to_text().starts_with(b"ERROR: "));
}

#[test]
fn arguments_are_read() {
    let args: Vec<Vec<u8>> =
        ["prog", "lab.txt", "salida/", "2", "-1"].iter().map(|s| s.as_bytes().to_vec()).collect();
    assert_eq!(valores_entrada(&args), Ok((b"lab.txt".to_vec(), b"salida/".to_vec(), 2, -1)));
    let bad_x: Vec<Vec<u8>> =
        ["prog", "lab.txt", "salida/", "x", "1"].iter().map(|s| s.as_bytes().to_vec()).collect();
    assert_eq!(valores_entrada(&bad_x), Err(true));
    let bad_y: Vec<Vec<u8>> =
        ["prog", "lab.txt", "salida/", "1", ""].iter().map(|s| s.as_bytes().to_vec()).collect();
    assert_eq!(valores_entrada(&bad_y), Err(false));
    assert_eq!(valores_entrada(&Vec::new()), Err(true));
    assert_eq!(parse_number(b"+2147483647"), Some(i32::MAX));
    assert_eq!(parse_number(b"-2147483648"), Some(i32::MIN));
    assert_eq!(parse_number(b"2147483648"), None);
    assert_eq!(parse_number(b"-"), None);
    assert_eq!(parse_number(b"007"), Some(7));
}

#[test]
fn the_error_of_a_maze_is_that_of_its_first_bad_cell() {
    let words = |rows: &[&[&[u8]]]| -> Vec<Vec<Vec<u8>>> {
        rows.iter().map(|row| row.iter().map(|w| w.to_vec()).collect()).collect()
    };
    let first_parse = words(&[&[b"_", b"B0"], &[b"B", b"_"]]);
    assert_eq!(
        Laberinto::crear(2, first_parse).unwrap_err(),
        ErrorDeLecturaLaberinto::ErrorDeParseo
    );
    let first_invalid = words(&[&[b"_", b"B"], &[b"B0", b"_"]]);
    assert_eq!(
        Laberinto::crear(2, first_invalid).unwrap_err(),
        ErrorDeLecturaLaberinto::ElementoInvalido
    );
    let in_row_order = words(&[&[b"_", b"_"], &[b"B", b"B0"]]);
    assert_eq!(
        Laberinto::interpretar_laberinto(in_row_order).unwrap_err(),
        ErrorDeLecturaLaberinto::ElementoInvalido
    );
}
