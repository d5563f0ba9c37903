use gitr::commands::command_utils::juntar_consecutivos;
use gitr::diff::Diff;

#[test]
fn juntar_consec_test_01() {
    let str_base = b"hola\ncomo\nestas\n".to_vec();
    let str_new = b"hola\ncomo\nnew1\nnew2\nestas\n".to_vec();

    let diff_base_branch = Diff::new(str_base.clone(), str_new);
    let diff_sin_consec = juntar_consecutivos(diff_base_branch);

    let diff_esperado = vec![(2, true, b"new1\nnew2".to_vec())];

    assert_eq!(diff_sin_consec.lineas, diff_esperado);
}
#[test]
fn juntar_consec_test_02_mezclados() {
    let str_base = b"hola\ncomo\nestas\n".to_vec();
    let str_new = b"hola\ncomo\nnew1\nnew2\nestas\nnew3\nnew4\n".to_vec();

    let diff_base_branch = Diff::new(str_base.clone(), str_new);
    let diff_sin_consec = juntar_consecutivos(diff_base_branch);

    let diff_esperado = vec![
        (2, true, b"new1\nnew2".to_vec()),
        (5, true, b"new3\nnew4".to_vec()),
    ];

    assert_eq!(diff_sin_consec.lineas, diff_esperado);
}

#[test]
fn juntar_consec_test_03_juntar_de_3() {
    let str_base = b"hola\ncomo\nestas\n".to_vec();
    let str_new = b"hola\ncomo\nnew1\nnew2\nnew3\nnew4\nestas\nnew5\n".to_vec();

    let diff_base_branch = Diff::new(str_base.clone(), str_new);
    let diff_sin_consec = juntar_consecutivos(diff_base_branch);

    let diff_esperado = vec![
        (2, true, b"new1\nnew2\nnew3\nnew4".to_vec()),
        (7, true, b"new5".to_vec()),
    ];

    assert_eq!(diff_sin_consec.lineas, diff_esperado);
}

#[test]
fn juntar_consec_test_04_desde_inicio_mismo_len() {
    let str_base = b"hola\ncomo\nestas\n".to_vec();
    let str_new = b"new1\nnew2\nnew3".to_vec();

    let diff_base_branch = Diff::new(str_base.clone(), str_new);
    let diff_sin_consec = juntar_consecutivos(diff_base_branch);

    let diff_esperado = vec![
        (0, false, b"hola".to_vec()),
        (0, true, b"new1\nnew2\nnew3".to_vec()),
        (1, false, b"como".to_vec()),
        (2, false, b"estas".to_vec()),
    ];

    assert_eq!(diff_sin_consec.lineas, diff_esperado);
}
