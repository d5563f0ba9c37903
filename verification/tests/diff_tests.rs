use gitr::diff::Diff;

#[test]
fn test00_diff_entre_string_iguales_esta_vacio() {
    let base = b"hola".to_vec();
    let new = b"hola".to_vec();
    let diff = Diff::new(base, new);
    assert!(diff.lineas_eliminadas.is_empty());
}
