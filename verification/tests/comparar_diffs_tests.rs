use gitr::commands::command_utils::comparar_diffs;
use gitr::diff::Diff;

#[test]
fn comparar_diffs_test_01_diffs_sin_conflicts_desde_origin() {
    let str_base = b"hola\ncomo\nestas\n".to_vec();
    let str_origin = b"hola\nque\nestas\nbien\ny\nvos\n".to_vec();
    let str_new = b"hola\nque\nestas\n".to_vec();
    let diff_base_origin = Diff::new(str_base.clone(), str_origin);
    let diff_base_branch = Diff::new(str_base.clone(), str_new);

    let diff_final = comparar_diffs(diff_base_origin, diff_base_branch, 2);
    let lineas_esperadas = vec![
        (1, false, b"como".to_vec()),
        (1, true, b"que".to_vec()),
        (3, true, b"bien\ny\nvos".to_vec()),
    ];
    assert_eq!(diff_final.unwrap().0.lineas, lineas_esperadas);
}
#[test]
fn comparar_diffs_test_02_diffs_sin_conflicts_desde_new() {
    let str_base = b"hola\ncomo\nestas\n".to_vec();
    let str_origin = b"hola\nque\nestas\n".to_vec();
    let str_new = b"hola\nque\nestas\nbien\ny\nvos\n".to_vec();
    let diff_base_origin = Diff::new(str_base.clone(), str_origin);
    let diff_base_branch = Diff::new(str_base.clone(), str_new);

    let diff_final = comparar_diffs(diff_base_origin, diff_base_branch, 2);
    let lineas_esperadas = vec![
        (1, false, b"como".to_vec()),
        (1, true, b"que".to_vec()),
        (3, true, b"bien\ny\nvos".to_vec()),
    ];
    assert_eq!(diff_final.unwrap().0.lineas, lineas_esperadas);
}

#[test]
fn comparar_diffs_test_03_diffs_con_conflict() {
    let str_base = b"hola\ncomo\nestas\n".to_vec();
    let str_origin = b"hola\nque\ntal\n".to_vec();
    let str_new = b"hola\nque\ntal\nbien\ny\nvos\n".to_vec();
    let diff_base_origin = Diff::new(str_base.clone(), str_origin);
    let diff_base_branch = Diff::new(str_base.clone(), str_new);

    let diff_final = comparar_diffs(diff_base_origin, diff_base_branch, 2);
    let lineas_esperadas = vec![
        (1, false, b"como".to_vec()),
        (
            1,
            true,
            b"<<<<<<< HEAD\nque\ntal\n=======\nque\ntal\nbien\ny\nvos\n>>>>>>> BRANCH".to_vec(),
        ),
        (2, false, b"estas".to_vec()),
    ];
    assert_eq!(diff_final.unwrap().0.lineas, lineas_esperadas);
}

#[test]
fn comparar_diffs_test_04_diffs_con_1_conflict_en_primera_linea() {
    let str_base = b"hola\ncomo\nestas\n".to_vec();
    let str_origin = b"buenas\ncomo\nestas\n".to_vec();
    let str_new = b"nihao\ncomo\nestas\n".to_vec();
    let diff_base_origin = Diff::new(str_base.clone(), str_origin);
    let diff_base_branch = Diff::new(str_base.clone(), str_new);

    let diff_final = comparar_diffs(diff_base_origin, diff_base_branch, 2);
    let lineas_esperadas = vec![
        (0, false, b"hola".to_vec()),
        (
            0,
            true,
            b"<<<<<<< HEAD\nbuenas\n=======\nnihao\n>>>>>>> BRANCH".to_vec(),
        ),
    ];
    assert_eq!(diff_final.unwrap().0.lineas, lineas_esperadas);
}

#[test]
fn comparar_diffs_test_05_diffs_con_1_conflict_en_la_ultima_linea() {
    let str_base = b"hola\ncomo\nestas\n".to_vec();
    let str_origin = b"hola\ncomo\nandas\n".to_vec();
    let str_new = b"hola\ncomo\ntas\n".to_vec();
    let diff_base_origin = Diff::new(str_base.clone(), str_origin);
    let diff_base_branch = Diff::new(str_base.clone(), str_new);

    let diff_final = comparar_diffs(diff_base_origin, diff_base_branch, 2);
    let lineas_esperadas = vec![
        (2, false, b"estas".to_vec()),
        (
            2,
            true,
            b"<<<<<<< HEAD\nandas\n=======\ntas\n>>>>>>> BRANCH".to_vec(),
        ),
    ];
    assert_eq!(diff_final.unwrap().0.lineas, lineas_esperadas);
}

#[test]
fn comparar_diffs_test_06_diffs_con_1_conflict_en_3_lineas() {
    let str_base = b"hola\ncomo\nestas\n".to_vec();
    let str_origin = b"hola\nromo\nestas\n".to_vec();
    let str_new = b"hola\nfomo\nestas\n".to_vec();
    let diff_base_origin = Diff::new(str_base.clone(), str_origin);
    let diff_base_branch = Diff::new(str_base.clone(), str_new);

    let diff_final = comparar_diffs(diff_base_origin, diff_base_branch, 2);
    let lineas_esperadas = vec![
        (1, false, b"como".to_vec()),
        (
            1,
            true,
            b"<<<<<<< HEAD\nromo\n=======\nfomo\n>>>>>>> BRANCH".to_vec(),
        ),
    ];
    assert_eq!(diff_final.unwrap().0.lineas, lineas_esperadas);
}

#[test]
fn comparar_diffs_test_07_conflicts_en_archivo_de_una_sola_linea() {
    let str_base = b"hola\n".to_vec();
    let str_origin = b"origin\n".to_vec();
    let str_new = b"new\n".to_vec();
    let diff_base_origin = Diff::new(str_base.clone(), str_origin);
    let diff_base_branch = Diff::new(str_base.clone(), str_new);

    let diff_final = comparar_diffs(diff_base_origin, diff_base_branch, 0);
    let lineas_esperadas = vec![
        (0, false, b"hola".to_vec()),
        (
            0,
            true,
            b"<<<<<<< HEAD\norigin\n=======\nnew\n>>>>>>> BRANCH".to_vec(),
        ),
    ];
    assert_eq!(diff_final.unwrap().0.lineas, lineas_esperadas);
}

#[test]
fn comparar_diffs_test_08_conflicts_en_todas_las_lineas_de_archivo_de_dos_lineas() {
    let str_base = b"hola\ncomo\n".to_vec();
    let str_origin = b"origin1\norigin2\n".to_vec();
    let str_new = b"new1\nnew2\n".to_vec();
    let diff_base_origin = Diff::new(str_base.clone(), str_origin);
    let diff_base_branch = Diff::new(str_base.clone(), str_new);

    let diff_final = comparar_diffs(diff_base_origin, diff_base_branch, 1);
    let lineas_esperadas = vec![
        (0, false, b"hola".to_vec()),
        (
            0,
            true,
            b"<<<<<<< HEAD\norigin1\norigin2\n=======\nnew1\nnew2\n>>>>>>> BRANCH".to_vec(),
        ),
        (1, false, b"como".to_vec()),
    ];
    assert_eq!(diff_final.unwrap().0.lineas, lineas_esperadas);
}

#[test]
fn comparar_diffs_test_09_conflicts_en_todas_las_lineas_de_archivo_de_cinco_lineas() {
    let str_base = b"hola\ncomo\nestas\npepe\ngrillo".to_vec();
    let str_origin = b"origin1\norigin2\norigin3\norigin4\norigin5".to_vec();
    let str_new = b"new1\nnew2\nnew3\nnew4\nnew5\n".to_vec();
    let diff_base_origin = Diff::new(str_base.clone(), str_origin);
    let diff_base_branch = Diff::new(str_base.clone(), str_new);

    let diff_final = comparar_diffs(diff_base_origin, diff_base_branch, 4);
    let lineas_esperadas = vec![
        (0,false,b"hola".to_vec()),
        (0,true,b"<<<<<<< HEAD\norigin1\norigin2\norigin3\norigin4\norigin5\n=======\nnew1\nnew2\nnew3\nnew4\nnew5\n>>>>>>> BRANCH".to_vec()),
        (1,false,b"como".to_vec()),
        (2,false,b"estas".to_vec()),
        (3,false,b"pepe".to_vec()),
        (4,false,b"grillo".to_vec()),
    ];
    assert_eq!(diff_final.unwrap().0.lineas, lineas_esperadas);
}

#[test]
fn comparar_diffs_test_10_conflicts_con_diffs_de_distinto_tamanio_mas_lineas_en_branch() {
    let str_base = b"hola\n".to_vec();
    let str_origin = b"hola\norigin1\n".to_vec();
    let str_new = b"hola\ncomo\nnew3\n".to_vec();
    let diff_base_origin = Diff::new(str_base.clone(), str_origin);
    let diff_base_branch = Diff::new(str_base.clone(), str_new);

    let (diff_final, _) = comparar_diffs(diff_base_origin, diff_base_branch, 0).unwrap();
    let lineas_esperadas = vec![(
        1,
        true,
        b"<<<<<<< HEAD\norigin1\n=======\ncomo\nnew3\n>>>>>>> BRANCH".to_vec(),
    )];

    assert_eq!(diff_final.lineas, lineas_esperadas);
}
#[test]
fn comparar_diffs_test_11_conflicts_con_diffs_de_distinto_tamanio_mas_lineas_en_origin() {
    let str_base = b"hola\n".to_vec();
    let str_origin = b"hola\ncomo\norigin\n".to_vec();
    let str_new = b"hola\nnew\n".to_vec();
    let diff_base_origin = Diff::new(str_base.clone(), str_origin);
    let diff_base_branch = Diff::new(str_base.clone(), str_new);

    let diff_final = comparar_diffs(diff_base_origin, diff_base_branch, 0).unwrap();
    let lineas_esperadas = vec![(
        1,
        true,
        b"<<<<<<< HEAD\ncomo\norigin\n=======\nnew\n>>>>>>> BRANCH".to_vec(),
    )];

    assert_eq!(diff_final.0.lineas, lineas_esperadas);
}

#[test]
fn comparar_diffs_test_12_conflicts_con_diffs_varios_largos_en_distintos_lugares() {
    let str_base = b"hola\ncomo\nestas\n".to_vec();
    let str_origin =
        b"hola\ncomo\nori1\nori2\nori3\nestas\nori4\niguales\nori5\niguales para cerrar".to_vec();
    let str_new =
        b"hola\ncomo\nnew1\nestas\nnew2\nnew3\niguales\nnew4\niguales para cerrar".to_vec();

    let diff_base_origin = Diff::new(str_base.clone(), str_origin);
    let diff_base_branch = Diff::new(str_base.clone(), str_new);

    let diff_final = comparar_diffs(diff_base_origin, diff_base_branch, 2).unwrap();
    let lineas_esperadas = vec![
        (2,true,b"<<<<<<< HEAD\nori1\nori2\nori3\n=======\nnew1\n>>>>>>> BRANCH".to_vec()),
        (4,true,b"<<<<<<< HEAD\nori4\niguales\nori5\niguales para cerrar\n=======\nnew2\nnew3\niguales\nnew4\niguales para cerrar\n>>>>>>> BRANCH".to_vec()),
    ];
    assert_eq!(diff_final.0.lineas, lineas_esperadas);
}

#[test]
fn comparar_diffs_test_13_comparar_diffs_distinto_largo_simple() {
    let str_base = b"hola\ncomo\nestas\n".to_vec();
    let str_origin = b"hola\ncomo\nori1\nori2\nori3\nestas\n".to_vec();
    let str_new = b"hola\ncomo\nnew1\nestas\n".to_vec();

    let diff_base_origin = Diff::new(str_base.clone(), str_origin);
    let diff_base_branch = Diff::new(str_base.clone(), str_new);

    let diff_final = comparar_diffs(diff_base_origin, diff_base_branch, 2).unwrap();
    let diff_esperado = vec![(
        2,
        true,
        b"<<<<<<< HEAD\nori1\nori2\nori3\n=======\nnew1\n>>>>>>> BRANCH".to_vec(),
    )];

    assert_eq!(diff_final.0.lineas, diff_esperado);
}
