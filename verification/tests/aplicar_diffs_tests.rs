use gitr::commands::command_utils::{_aplicar_diffs, comparar_diffs};
use gitr::diff::Diff;

#[test]
fn aplicar_diff_test_01_cambio_al_inicio() {
    let str_base = b"hola\ncomo\nestas\n".to_vec();
    let str_new = b"new1\ncomo\nestas\n".to_vec();

    let diff_base_branch = Diff::new(str_base.clone(), str_new);
    let _archivo_reconstruido = _aplicar_diffs(str_base, diff_base_branch).unwrap();
    let archivo_esperado = vec![b"new1\n".to_vec(), b"como\n".to_vec(), b"estas\n".to_vec()];

    assert_eq!(_archivo_reconstruido, archivo_esperado);
}

#[test]
fn aplicar_diff_test_02_cambio_en_el_medio() {
    let str_base = b"hola\ncomo\nestas\n".to_vec();
    let str_new = b"hola\nnew1\nestas\n".to_vec();

    let diff_base_branch = Diff::new(str_base.clone(), str_new);
    let _archivo_reconstruido = _aplicar_diffs(str_base, diff_base_branch).unwrap();
    let archivo_esperado = vec![b"hola\n".to_vec(), b"new1\n".to_vec(), b"estas\n".to_vec()];

    assert_eq!(_archivo_reconstruido, archivo_esperado);
}

#[test]
fn aplicar_diff_test_03_cambio_al_final() {
    let str_base = b"hola\ncomo\nestas\n".to_vec();
    let str_new = b"hola\ncomo\nnew1\n".to_vec();

    let diff_base_branch = Diff::new(str_base.clone(), str_new);
    let _archivo_reconstruido = _aplicar_diffs(str_base, diff_base_branch).unwrap();
    let archivo_esperado = vec![b"hola\n".to_vec(), b"como\n".to_vec(), b"new1\n".to_vec()];

    assert_eq!(_archivo_reconstruido, archivo_esperado);
}

#[test]
fn aplicar_diff_test_04_conflict_al_inicio() {
    let str_base = b"hola\ncomo\nestas\n".to_vec();
    let str_origin = b"origin1\ncomo\nestas\n".to_vec();
    let str_new = b"new1\ncomo\nestas\n".to_vec();

    let diff_base_origin = Diff::new(str_base.clone(), str_origin);
    let diff_base_branch = Diff::new(str_base.clone(), str_new);

    let diff_final = comparar_diffs(diff_base_origin, diff_base_branch, 2).unwrap();
    let _archivo_reconstruido = _aplicar_diffs(str_base, diff_final.0).unwrap();
    let archivo_esperado = vec![
        b"<<<<<<< HEAD\norigin1\n=======\nnew1\n>>>>>>> BRANCH\n".to_vec(),
        b"como\n".to_vec(),
        b"estas\n".to_vec(),
    ];

    assert_eq!(_archivo_reconstruido, archivo_esperado);
}

#[test]
fn aplicar_diff_test_05_conflict_al_medio() {
    let str_base = b"hola\ncomo\nestas\n".to_vec();
    let str_origin = b"hola\norigin1\nestas\n".to_vec();
    let str_new = b"hola\nnew1\nestas\n".to_vec();

    let diff_base_origin = Diff::new(str_base.clone(), str_origin);
    let diff_base_branch = Diff::new(str_base.clone(), str_new);

    let diff_final = comparar_diffs(diff_base_origin, diff_base_branch, 2).unwrap();
    let _archivo_reconstruido = _aplicar_diffs(str_base, diff_final.0).unwrap();
    let archivo_esperado = vec![
        b"hola\n".to_vec(),
        b"<<<<<<< HEAD\norigin1\n=======\nnew1\n>>>>>>> BRANCH\n".to_vec(),
        b"estas\n".to_vec(),
    ];

    assert_eq!(_archivo_reconstruido, archivo_esperado);
}

#[test]
fn aplicar_diff_test_06_conflict_al_final() {
    let str_base = b"hola\ncomo\nestas\n".to_vec();
    let str_origin = b"hola\ncomo\norigin1\n".to_vec();
    let str_new = b"hola\ncomo\nnew1\n".to_vec();

    let diff_base_origin = Diff::new(str_base.clone(), str_origin);
    let diff_base_branch = Diff::new(str_base.clone(), str_new);

    let diff_final = comparar_diffs(diff_base_origin, diff_base_branch, 2).unwrap();
    let _archivo_reconstruido = _aplicar_diffs(str_base, diff_final.0).unwrap();
    let archivo_esperado = vec![
        b"hola\n".to_vec(),
        b"como\n".to_vec(),
        b"<<<<<<< HEAD\norigin1\n=======\nnew1\n>>>>>>> BRANCH\n".to_vec(),
    ];

    assert_eq!(_archivo_reconstruido, archivo_esperado);
}

#[test]
fn aplicar_diff_test_07_conflict_multilinea_al_inicio() {
    let str_base = b"hola\ncomo\nestas\n".to_vec();
    let str_new = b"new1\nnew2\ncomo\nestas\n".to_vec();
    let str_origin = b"origin1\norigin2\ncomo\nestas\n".to_vec();

    let diff_base_origin = Diff::new(str_base.clone(), str_origin);
    let diff_base_branch = Diff::new(str_base.clone(), str_new);

    let diff_final = comparar_diffs(diff_base_origin, diff_base_branch, 2).unwrap();
    let _archivo_reconstruido = _aplicar_diffs(str_base, diff_final.0).unwrap();
    let archivo_esperado = vec![
        b"<<<<<<< HEAD\norigin1\norigin2\n=======\nnew1\nnew2\n>>>>>>> BRANCH\n".to_vec(),
        b"como\n".to_vec(),
        b"estas\n".to_vec(),
    ];

    assert_eq!(_archivo_reconstruido, archivo_esperado);
}

#[test]
fn aplicar_diff_test_08_conflict_multiniea_al_medio() {
    let str_base = b"hola\ncomo\nestas\n".to_vec();
    let str_new = b"hola\nnew1\nnew2\nestas\n".to_vec();
    let str_origin = b"hola\norigin1\norigin2\nestas\n".to_vec();

    let diff_base_origin = Diff::new(str_base.clone(), str_origin);
    let diff_base_branch = Diff::new(str_base.clone(), str_new);

    let diff_final = comparar_diffs(diff_base_origin, diff_base_branch, 2).unwrap();
    let _archivo_reconstruido = _aplicar_diffs(str_base, diff_final.0).unwrap();
    let archivo_esperado = vec![
        b"hola\n".to_vec(),
        b"<<<<<<< HEAD\norigin1\norigin2\n=======\nnew1\nnew2\n>>>>>>> BRANCH\n".to_vec(),
        b"estas\n".to_vec(),
    ];

    assert_eq!(_archivo_reconstruido, archivo_esperado);
}

#[test]
fn aplicar_diff_test_09_conflict_multilinea_al_final() {
    let str_base = b"hola\ncomo\nestas\n".to_vec();
    let str_new = b"hola\ncomo\nnew1\nnew2\n".to_vec();
    let str_origin = b"hola\ncomo\norigin1\norigin2\n".to_vec();

    let diff_base_origin = Diff::new(str_base.clone(), str_origin);
    let diff_base_branch = Diff::new(str_base.clone(), str_new);

    let diff_final = comparar_diffs(diff_base_origin, diff_base_branch, 2).unwrap();
    let _archivo_reconstruido = _aplicar_diffs(str_base, diff_final.0).unwrap();
    let archivo_esperado = vec![
        b"hola\n".to_vec(),
        b"como\n".to_vec(),
        b"<<<<<<< HEAD\norigin1\norigin2\n=======\nnew1\nnew2\n>>>>>>> BRANCH\n".to_vec(),
    ];

    assert_eq!(_archivo_reconstruido, archivo_esperado);
}

#[test]
fn aplicar_diff_test_10_conflicts_con_diffs_varios_largos_en_distintos_lugares() {
    //Lo esperado es sacado de replicar el conflict en git real
    let str_base = b"hola\ncomo\nestas\n".to_vec();
    let str_origin =
        b"hola\ncomo\nori1\nori2\nori3\nestas\nori4\niguales\nori5\niguales para cerrar".to_vec();
    let str_new =
        b"hola\ncomo\nnew1\nestas\nnew2\nnew3\niguales\nnew4\niguales para cerrar".to_vec();

    let diff_base_origin = Diff::new(str_base.clone(), str_origin);
    let diff_base_branch = Diff::new(str_base.clone(), str_new);

    let diff_final = comparar_diffs(diff_base_origin, diff_base_branch, 2).unwrap();
    let _archivo_reconstruido = _aplicar_diffs(str_base, diff_final.0).unwrap();
    let archivo_esperado = vec![b"hola\n".to_vec(),
    b"como\n".to_vec(),
    b"<<<<<<< HEAD\nori1\nori2\nori3\n=======\nnew1\n>>>>>>> BRANCH\n".to_vec(),
    b"estas\n".to_vec(),
    b"<<<<<<< HEAD\nori4\niguales\nori5\niguales para cerrar\n=======\nnew2\nnew3\niguales\nnew4\niguales para cerrar\n>>>>>>> BRANCH\n".to_vec(),
    ];

    for i in 0..archivo_esperado.len() {
        assert_eq!(_archivo_reconstruido[i], archivo_esperado[i]);
    }
}

#[test]
fn aplicar_diff_test_11_conflicts_con_diffs_varios_largos_en_distintos_lugares() {
    //Lo esperado es sacado de replicar el conflict en git real
    let str_base = b"hola\ncomo\nestas\n".to_vec();
    let str_origin = b"hola\ncomo\nori1\nori2\nori3\nestas\n".to_vec();
    let str_new = b"hola\ncomo\nnew1\nestas\n".to_vec();

    let diff_base_origin = Diff::new(str_base.clone(), str_origin);
    let diff_base_branch = Diff::new(str_base.clone(), str_new);

    let diff_final = comparar_diffs(diff_base_origin, diff_base_branch, 2).unwrap();
    let _archivo_reconstruido = _aplicar_diffs(str_base, diff_final.0).unwrap();
    let archivo_esperado = vec![
        b"hola\n".to_vec(),
        b"como\n".to_vec(),
        b"<<<<<<< HEAD\nori1\nori2\nori3\n=======\nnew1\n>>>>>>> BRANCH\n".to_vec(),
        b"estas\n".to_vec(),
    ];

    assert_eq!(_archivo_reconstruido, archivo_esperado);
}

#[test]
fn aplicar_diff_test_12_diff_agregando_una_linea_al_medio() {
    let str_base = b"hola\ncomo\nestas\n".to_vec();
    let str_new = b"hola\ncomo\nnew1\nestas\n".to_vec();

    let diff_base_branch = Diff::new(str_base.clone(), str_new);
    let _archivo_reconstruido = _aplicar_diffs(str_base, diff_base_branch).unwrap();
    let archivo_esperado = vec![b"hola\n".to_vec(), b"como\n".to_vec(), b"new1\n".to_vec(), b"estas\n".to_vec()];

    assert_eq!(_archivo_reconstruido, archivo_esperado);
}
