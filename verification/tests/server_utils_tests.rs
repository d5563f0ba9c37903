use gitr::server::server_utils::{
    get_changes, is_valid_pkt_line, split_n_validate_elems, wants_n_haves,
};

#[test]
fn test02_split_n_validate() {
    let pkt_line = b"0033git-upload-pack /project.git\0host=myserver.com\0".to_vec();
    let elems = split_n_validate_elems(&pkt_line).unwrap();
    assert_eq!(elems[0], b"git-upload-pack".to_vec());
    assert_eq!(elems[1], b"project.git".to_vec());
    assert_eq!(elems[2], b"myserver.com".to_vec());
}

#[test]
fn test03_is_valid_pkt_line() {
    assert!(is_valid_pkt_line(b"").is_err());
    assert!(is_valid_pkt_line(b"132").is_err());
    assert!(is_valid_pkt_line(b"0000hola").is_err());
    assert!(is_valid_pkt_line(b"kkkkhola").is_err());
    assert!(is_valid_pkt_line(b"0000").is_ok());
    assert!(is_valid_pkt_line(b"000ahola:)").is_ok());
    assert!(is_valid_pkt_line(b"0000").is_ok());
    assert!(is_valid_pkt_line(b"0032have 0123456789012345678901234567890123456789\n").is_ok());
    assert!(
        is_valid_pkt_line(b"00000032have 0123456789012345678901234567890123456789\n").is_ok()
    );
    assert!(is_valid_pkt_line(b"0033git-upload-pack /project.git\0host=myserver.com\0").is_ok());
}

#[test]
fn test04_wants_n_haves() {
    let input = {
        "0032want 74730d410fcb6603ace96f1dc55ea6196122532d
0032want 7d1665144a3a975c05f1f43902ddaf084e784dbe
0032want 5a3f6be755bbb7deae50065988cbfa1ffa9ab68a
0032want 7e47fe2bd8d01d481f44d7af0531bd93d3b21c01
0032want 74730d410fcb6603ace96f1dc55ea6196122532d
0000
0009done"
    };
    let (wants, haves) = wants_n_haves(input.as_bytes(), Vec::new(), Vec::new()).unwrap();
    assert_eq!(wants[0], b"74730d410fcb6603ace96f1dc55ea6196122532d".to_vec());
    assert_eq!(wants[1], b"7d1665144a3a975c05f1f43902ddaf084e784dbe".to_vec());
    assert_eq!(wants[2], b"5a3f6be755bbb7deae50065988cbfa1ffa9ab68a".to_vec());
    assert_eq!(wants[3], b"7e47fe2bd8d01d481f44d7af0531bd93d3b21c01".to_vec());
    assert_eq!(wants[4], b"74730d410fcb6603ace96f1dc55ea6196122532d".to_vec());
    assert!(haves.is_empty());
}

#[test]
fn test05_get_changes() {
    let input = {
        "00677d1665144a3a975c05f1f43902ddaf084e784dbe 74730d410fcb6603ace96f1dc55ea6196122532d refs/heads/debug
006874730d410fcb6603ace96f1dc55ea6196122532d 5a3f6be755bbb7deae50065988cbfa1ffa9ab68a refs/heads/master
0000"
    };
    let (old, new, names) = get_changes(input.as_bytes()).unwrap();
    assert_eq!(old[0], b"7d1665144a3a975c05f1f43902ddaf084e784dbe".to_vec());
    assert_eq!(old[1], b"74730d410fcb6603ace96f1dc55ea6196122532d".to_vec());
    assert_eq!(new[0], b"74730d410fcb6603ace96f1dc55ea6196122532d".to_vec());
    assert_eq!(new[1], b"5a3f6be755bbb7deae50065988cbfa1ffa9ab68a".to_vec());
    assert_eq!(names[0], b"refs/heads/debug".to_vec());
    assert_eq!(names[1], b"refs/heads/master".to_vec());
}
