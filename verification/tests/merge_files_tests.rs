use gitr::commands::adding::save_and_add_blob_to_index;
use gitr::commands::checkout::checkout;
use gitr::commands::command_utils::branch_commits_list;
use gitr::commands::merge::{merge_plan, three_way_merge, MergePlan, MergedFile};
use gitr::commands::write_tree::get_tree_entries;
use gitr::file_manager::{init_repository, ObjectStore, Repository};
use gitr::git_transport::pack_file::code;
use gitr::server::server_utils::update_contents;

fn commit_file(repo: &mut Repository, text: &str, message: &[u8]) {
    save_and_add_blob_to_index(b"test/archivo1.txt", text.as_bytes().to_vec(), b"", repo).unwrap();
    get_tree_entries(message, b"None".to_vec(), b"cliente", b"cliente@mail", 1, repo).unwrap();
}

/// The file after the branch that holds `branch` was merged into the one
/// that holds `origin`, both made from `base`.
fn merged_file(base: &str, origin: &str, branch: &str) -> String {
    let mut repo = init_repository(b"test").unwrap();
    commit_file(&mut repo, base, b"\"base\"");
    checkout(&vec![b"-b".to_vec(), b"branch".to_vec()], &mut repo).unwrap();
    commit_file(&mut repo, branch, b"\"branch\"");
    checkout(&vec![b"master".to_vec()], &mut repo).unwrap();
    commit_file(&mut repo, origin, b"\"origin\"");
    let branch_commits = branch_commits_list(b"branch", &repo).unwrap();
    let origin_commits = branch_commits_list(b"master", &repo).unwrap();
    let base_commit = match merge_plan(&branch_commits, &origin_commits) {
        MergePlan::ThreeWay(base_commit) => base_commit,
        other => panic!("{:?}", other),
    };
    let merged =
        three_way_merge(&base_commit, &origin_commits[0], &branch_commits[0], &repo).unwrap();
    assert_eq!(merged.files.len(), 1);
    assert_eq!(merged.files[0].0, b"test/archivo1.txt".to_vec());
    match &merged.files[0].1 {
        MergedFile::Rewritten(lines) => String::from_utf8(lines.concat()).unwrap(),
        other => panic!("{:?}", other),
    }
}

#[test]
fn test07_update_contents_n_get_object() {
    let mut store = ObjectStore::new();
    let ids = vec![
        b"74730d410fcb6603ace96f1dc55ea6196122532d".to_vec(),
        b"5a3f6be755bbb7deae50065988cbfa1ffa9ab68a".to_vec(),
    ];
    let content: Vec<Vec<u8>> = vec![code(b"Hola mundo").unwrap(), code(b"Chau mundo").unwrap()];
    update_contents(ids, content, &mut store).unwrap();
    assert_eq!(
        store.get_object_bytes(b"74730d410fcb6603ace96f1dc55ea6196122532d").unwrap(),
        b"Hola mundo".to_vec()
    );
    assert_eq!(
        store.get_object_bytes(b"5a3f6be755bbb7deae50065988cbfa1ffa9ab68a").unwrap(),
        b"Chau mundo".to_vec()
    );
}

#[test]
fn merge_con_archivos_test_1_conflict_trivial() {
    let base: String = vec![
        "hola\n",
        "\n",
        "\n",
        "\n",
        "linea de base\n",
        "\n",
        "\n",
        "\n",
        "chau\n",
    ]
    .concat();
    let origin: String = vec![
        "hola\n",
        "\n",
        "\n",
        "\n",
        "linea de origin\n",
        "\n",
        "\n",
        "linea agregada de origin\n",
        "chau\n",
    ]
    .concat();
    let branch: String = vec![
        "hola\n",
        "\n",
        "linea agregada de branch\n",
        "\n",
        "linea de branch\n",
        "\n",
        "\n",
        "\n",
        "chau\n",
    ]
    .concat();
    let archivo_esperado: String = vec![
        "hola\n",
        "\n",
        "linea agregada de branch\n",
        "\n",
        "<<<<<<< HEAD\n",
        "linea de origin\n",
        "=======\n",
        "linea de branch\n",
        ">>>>>>> BRANCH\n",
        "\n",
        "\n",
        "linea agregada de origin\n",
        "chau\n",
    ]
    .concat();
    let archivo_mergeado = merged_file(&base, &origin, &branch);
    assert_eq!(archivo_mergeado, archivo_esperado);
}

#[test]
fn merge_con_archivos_test_3_conflict_multilinea() {
    let base: String = vec![
        "hola\n",
        "\n",
        "\n",
        "\n",
        "linea de base 1\n",
        "linea de base 2\n",
        "linea de base 3\n",
        "linea de base 4\n",
        "\n",
        "\n",
        "\n",
        "chau\n",
    ]
    .concat();
    let origin: String = vec![
        "hola\n",
        "\n",
        "\n",
        "\n",
        "linea de origin 1\n",
        "linea de origin 2\n",
        "linea de origin 3\n",
        "\n",
        "\n",
        "\n",
        "chau\n",
    ]
    .concat();
    let branch: String = vec![
        "hola\n",
        "\n",
        "\n",
        "\n",
        "linea de branch 1\n",
        "linea de branch 2\n",
        "linea de branch 3\n",
        "linea de branch 4\n",
        "linea de branch 5\n",
        "\n",
        "\n",
        "\n",
        "chau\n",
    ]
    .concat();
    let archivo_esperado: String = vec![
        "hola\n",
        "\n",
        "\n",
        "\n",
        "<<<<<<< HEAD\n",
        "linea de origin 1\n",
        "linea de origin 2\n",
        "linea de origin 3\n",
        "=======\n",
        "linea de branch 1\n",
        "linea de branch 2\n",
        "linea de branch 3\n",
        "linea de branch 4\n",
        "linea de branch 5\n",
        ">>>>>>> BRANCH\n",
        "\n",
        "\n",
        "chau\n",
    ]
    .concat();
    let archivo_mergeado = merged_file(&base, &origin, &branch);
    assert_eq!(archivo_mergeado, archivo_esperado);
}

#[test]
fn merge_con_archivos_test_4_multiples_conflicts_multilinea() {
    let base: String = vec![
        "hola\n",
        "\n",
        "\n",
        "\n",
        "linea de base 1\n",
        "linea de base 2\n",
        "linea de base 3\n",
        "linea igual para todos\n",
        "linea de base 5\n",
        "linea de base 6\n",
        "linea de base 7\n",
        "\n",
        "chau\n",
    ]
    .concat();
    let origin: String = vec![
        "hola\n",
        "\n",
        "\n",
        "\n",
        "linea de origin 1\n",
        "linea de origin 2\n",
        "linea de origin 3\n",
        "linea igual para todos\n",
        "linea de origin 4\n",
        "linea de origin 5\n",
        "linea de origin 6\n",
        "\n",
        "chau\n",
    ]
    .concat();
    let branch: String = vec![
        "hola\n",
        "\n",
        "\n",
        "\n",
        "linea de branch 1\n",
        "linea de branch 2\n",
        "linea de branch 3\n",
        "linea igual para todos\n",
        "linea de branch 4\n",
        "\n",
        "chau\n",
    ]
    .concat();
    let archivo_esperado: String = vec![
        "hola\n",
        "\n",
        "\n",
        "\n",
        "<<<<<<< HEAD\n",
        "linea de origin 1\n",
        "linea de origin 2\n",
        "linea de origin 3\n",
        "=======\n",
        "linea de branch 1\n",
        "linea de branch 2\n",
        "linea de branch 3\n",
        ">>>>>>> BRANCH\n",
        "linea igual para todos\n",
        "<<<<<<< HEAD\n",
        "linea de origin 4\n",
        "linea de origin 5\n",
        "linea de origin 6\n",
        "=======\n",
        "linea de branch 4\n",
        ">>>>>>> BRANCH\n",
        "\n",
        "chau\n",
    ]
    .concat();
    let archivo_mergeado = merged_file(&base, &origin, &branch);
    assert_eq!(archivo_mergeado, archivo_esperado);
}

#[test]
fn merge_con_archivos_test_5_ejemplo_de_codigo() {
    let base: String = vec![
        "fn main() {\n",
        "    let a = 1;\n",
        "    let b = 2;\n",
        "\n",
        "    if a == b {\n",
        "        println!(\"iguales\");\n",
        "    } else {\n",
        "        println!(\"distintos\");\n",
        "    }\n",
        "}\n",
    ]
    .concat();
    let origin: String = vec![
        "fn main() {\n",
        "    let a = 1;\n",
        "    let origin_variable = 2;\n",
        "\n",
        "    if a == b {\n",
        "        println!(\"iguales\");\n",
        "        let res = origin_function();\n",
        "    } else {\n",
        "        println!(\"distintos\");\n",
        "    }\n",
        "}\n",
    ]
    .concat();
    let branch: String = vec![
        "fn main() {\n",
        "    let a = 1;\n",
        "    let branch_variable = 2;\n",
        "\n",
        "    if a == b {\n",
        "        println!(\"iguales\");\n",
        "        let res = branch_function();\n",
        "        println!(\"res: {}\", res);\n",
        "    } else {\n",
        "        println!(\"distintos\");\n",
        "    }\n",
        "}\n",
    ]
    .concat();
    let archivo_esperado: String = vec![
        "fn main() {\n",
        "    let a = 1;\n",
        "<<<<<<< HEAD\n",
        "    let origin_variable = 2;\n",
        "=======\n",
        "    let branch_variable = 2;\n",
        ">>>>>>> BRANCH\n",
        "\n",
        "    if a == b {\n",
        "        println!(\"iguales\");\n",
        "<<<<<<< HEAD\n",
        "        let res = origin_function();\n",
        "=======\n",
        "        let res = branch_function();\n",
        "        println!(\"res: {}\", res);\n",
        ">>>>>>> BRANCH\n",
        "        let res = origin_function();\n",
        "    } else {\n",
        "        println!(\"distintos\");\n",
        "    }\n",
        "}\n",
    ]
    .concat();
    let archivo_mergeado = merged_file(&base, &origin, &branch);
    assert_eq!(archivo_mergeado, archivo_esperado);
}
