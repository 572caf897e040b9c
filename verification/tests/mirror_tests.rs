use remote_mirror::conflict::ConflictDecision;
use remote_mirror::conflict::ConflictResolver;
use remote_mirror::fsmodel::LocalFs;
use remote_mirror::listing::EntryKind;
use remote_mirror::listing::parse_listing_line;
use remote_mirror::mirror::Action;
use remote_mirror::mirror::Tree;
use remote_mirror::mirror::TransferTask;
use remote_mirror::mirror::apply_plan;
use remote_mirror::mirror::plan_mirror;

fn overwrite_all() -> ConflictResolver {
    ConflictResolver { decision: ConflictDecision::OverwriteAll }
}

fn skip_all() -> ConflictResolver {
    ConflictResolver { decision: ConflictDecision::SkipAll }
}

#[test]
fn structural_mirroring_reproduces_the_remote_shape() {
    let entries = vec![
        Tree::Dir {
            name: b"b".to_vec(),
            children: vec![Tree::File {
                name: b"file.txt".to_vec(),
                content: b"hello".to_vec(),
            }],
        },
        Tree::Dir { name: b"c".to_vec(), children: vec![] },
    ];
    let actions = plan_mirror(&entries, &b"/a".to_vec(), &b"R".to_vec());
    let mut fs = LocalFs::new();
    apply_plan(&mut fs, &actions, &overwrite_all());

    assert!(fs.has_dir(&b"R/b".to_vec()));
    assert!(fs.has_dir(&b"R/c".to_vec()));
    assert_eq!(fs.file_content(&b"R/b/file.txt".to_vec()), Some(b"hello".to_vec()));
    assert!(!fs.has_file(&b"R/c".to_vec()));
}

#[test]
fn plan_follows_listing_order_and_remote_paths() {
    let entries = vec![
        Tree::File { name: b"f1".to_vec(), content: b"one".to_vec() },
        Tree::Dir {
            name: b"d".to_vec(),
            children: vec![Tree::File { name: b"f2".to_vec(), content: b"two".to_vec() }],
        },
    ];
    let actions = plan_mirror(&entries, &b"/root".to_vec(), &b"L".to_vec());
    assert_eq!(actions.len(), 3);
    match &actions[0] {
        Action::Transfer { task, content } => {
            assert_eq!(task.remote_path, b"/root/f1".to_vec());
            assert_eq!(task.local_path, b"L/f1".to_vec());
            assert_eq!(content, &b"one".to_vec());
        },
        _ => panic!("first action should transfer f1"),
    }
    match &actions[1] {
        Action::MakeDir { local } => assert_eq!(local, &b"L/d".to_vec()),
        _ => panic!("second action should create L/d"),
    }
    match &actions[2] {
        Action::Transfer { task, content } => {
            assert_eq!(task.remote_path, b"/root/d/f2".to_vec());
            assert_eq!(task.local_path, b"L/d/f2".to_vec());
            assert_eq!(content, &b"two".to_vec());
        },
        _ => panic!("third action should transfer d/f2"),
    }
}

#[test]
fn mirroring_twice_into_the_same_root_changes_nothing() {
    let entries = vec![
        Tree::Dir {
            name: b"b".to_vec(),
            children: vec![Tree::File {
                name: b"file.txt".to_vec(),
                content: b"payload".to_vec(),
            }],
        },
        Tree::Dir { name: b"c".to_vec(), children: vec![] },
        Tree::File { name: b"top.bin".to_vec(), content: vec![0, 1, 2, 255] },
    ];
    let actions = plan_mirror(&entries, &b"/a".to_vec(), &b"R".to_vec());

    let mut once = LocalFs::new();
    apply_plan(&mut once, &actions, &overwrite_all());
    let mut twice = LocalFs::new();
    apply_plan(&mut twice, &actions, &overwrite_all());
    apply_plan(&mut twice, &actions, &overwrite_all());

    for path in [&b"R/b"[..], &b"R/c"[..]] {
        assert_eq!(once.has_dir(&path.to_vec()), twice.has_dir(&path.to_vec()));
        assert!(twice.has_dir(&path.to_vec()));
    }
    for path in [&b"R/b/file.txt"[..], &b"R/top.bin"[..]] {
        assert_eq!(once.file_content(&path.to_vec()), twice.file_content(&path.to_vec()));
    }
    assert_eq!(twice.file_content(&b"R/top.bin".to_vec()), Some(vec![0, 1, 2, 255]));
}

#[test]
fn listed_directory_and_file_are_mirrored_byte_for_byte() {
    let dir_entry = parse_listing_line(&b"d  dir1".to_vec()).unwrap();
    let file_entry = parse_listing_line(&b"-  file1.bin".to_vec()).unwrap();
    assert_eq!(dir_entry.kind, EntryKind::Directory);
    assert_eq!(file_entry.kind, EntryKind::File);

    let payload: Vec<u8> = vec![0, 155, 7, 42, 0];
    let entries = vec![
        Tree::Dir { name: dir_entry.name, children: vec![] },
        Tree::File { name: file_entry.name, content: payload.clone() },
    ];
    let actions = plan_mirror(&entries, &b"/pub".to_vec(), &b"dl".to_vec());
    let mut fs = LocalFs::new();
    apply_plan(&mut fs, &actions, &overwrite_all());

    assert!(fs.has_dir(&b"dl/dir1".to_vec()));
    assert_eq!(fs.file_content(&b"dl/file1.bin".to_vec()), Some(payload));
}

#[test]
fn skip_all_keeps_every_existing_file() {
    let mut fs = LocalFs::new();
    fs.write_file(&b"R/kept.txt".to_vec(), &b"old".to_vec());

    let actions = vec![
        Action::Transfer {
            task: TransferTask {
                remote_path: b"/a/kept.txt".to_vec(),
                local_path: b"R/kept.txt".to_vec(),
            },
            content: b"new".to_vec(),
        },
        Action::Transfer {
            task: TransferTask {
                remote_path: b"/a/fresh.txt".to_vec(),
                local_path: b"R/fresh.txt".to_vec(),
            },
            content: b"fresh".to_vec(),
        },
    ];
    apply_plan(&mut fs, &actions, &skip_all());
    assert_eq!(fs.file_content(&b"R/kept.txt".to_vec()), Some(b"old".to_vec()));
    assert_eq!(fs.file_content(&b"R/fresh.txt".to_vec()), Some(b"fresh".to_vec()));

    apply_plan(&mut fs, &actions, &overwrite_all());
    assert_eq!(fs.file_content(&b"R/kept.txt".to_vec()), Some(b"new".to_vec()));
}

#[test]
fn make_dir_is_idempotent() {
    let mut fs = LocalFs::new();
    fs.make_dir(&b"R/d".to_vec());
    fs.make_dir(&b"R/d".to_vec());
    assert!(fs.has_dir(&b"R/d".to_vec()));
    assert!(!fs.has_dir(&b"R/other".to_vec()));
}
