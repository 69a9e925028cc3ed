use merkle_store::merkle::Merkle;
use merkle_store::messages::{ClientToServerCommand, ServerToClientResponse};
use merkle_store::server::{find_file, handle_command, list_files};

fn names(v: &[&str]) -> Vec<String> {
    v.iter().map(|s| s.to_string()).collect()
}

#[test]
fn raw_is_echoed() {
    let mut m = Merkle::make_tree();
    let r = handle_command(&mut m, ClientToServerCommand::Raw("hi".to_string()), &vec![], &[]);
    assert_eq!(r, ServerToClientResponse::Raw("hi".to_string()));
    assert_eq!(m.file_count(), 0);
}

#[test]
fn upload_stores_record_and_answers_root() {
    let mut m = Merkle::make_tree();
    let r = handle_command(
        &mut m,
        ClientToServerCommand::Upload("f.txt".to_string(), vec![1, 2, 3]),
        &vec![],
        b"record bytes",
    );
    assert_eq!(m.file_count(), 1);
    assert_eq!(m.files[1].as_deref(), Some(&b"record bytes"[..]));
    let root = m.get_root_hash().unwrap();
    assert_eq!(r, ServerToClientResponse::UploadOk("f.txt".to_string(), root));
}

#[test]
fn get_finds_first_record_with_name() {
    let mut m = Merkle::make_tree();
    m.add_file(b"r0");
    m.add_file(b"r1");
    m.add_file(b"r2");
    let stored = names(&["a", "b", "b"]);
    let r = handle_command(&mut m, ClientToServerCommand::Get("b".to_string()), &stored, &[]);
    let (files, hashes) = m.get_complement_nodes(2);
    assert_eq!(r, ServerToClientResponse::File(files[0].clone(), hashes));
    assert_eq!(files[0], b"r1".to_vec());
}

#[test]
fn get_unknown_name_is_not_found() {
    let mut m = Merkle::make_tree();
    m.add_file(b"r0");
    let r = handle_command(&mut m, ClientToServerCommand::Get("zz".to_string()), &names(&["a"]), &[]);
    assert_eq!(r, ServerToClientResponse::FileNotFound("zz".to_string()));
}

#[test]
fn list_skips_names_that_prefix_the_filter() {
    let mut m = Merkle::make_tree();
    for _ in 0..4 {
        m.add_file(b"r");
    }
    let stored = names(&["/", "/docs", "/docs/a.txt", "other"]);
    let r = handle_command(&mut m, ClientToServerCommand::List("/docs".to_string()), &stored, &[]);
    assert_eq!(r, ServerToClientResponse::FileListing(names(&["/docs/a.txt", "other"])));
}

#[test]
fn find_and_list_helpers() {
    let stored = names(&["x", "y", "x"]);
    assert_eq!(find_file(&stored, &"x".to_string()), Some(0));
    assert_eq!(find_file(&stored, &"y".to_string()), Some(1));
    assert_eq!(find_file(&stored, &"q".to_string()), None);
    assert_eq!(list_files(&stored, &"xy".to_string()), names(&["y"]));
    assert_eq!(list_files(&stored, &"".to_string()), names(&["x", "y", "x"]));
}
