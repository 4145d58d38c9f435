use staq_lang::assert_file_contents_equal;
use staq_lang::vfs::{split_path_str, FileStreamMode, FileSystem, IoError, VirtualFileStream, VirtualFileSystem};

#[test]
fn vfs() {
    let mut fs = VirtualFileSystem::new();
    assert_eq!(fs.ls(""), Ok(vec![]));
    assert_eq!(fs.ls("src"), Err(IoError::NotFound));

    let mut f0_w = fs.create_file_stream("my_file.txt").ok().unwrap();
    let first = "This is my file. Isn't that crazy?\n\n";
    let second = "!!!Breaking News!!!\n\tThis is still my file.";
    assert_eq!(fs.write(&mut f0_w, first.as_bytes()), Ok(first.len()));
    assert_eq!(fs.write(&mut f0_w, second.as_bytes()), Ok(second.len()));

    let mut f0_r = fs.open_file_stream("my_file.txt").ok().unwrap();
    let all = format!("{}{}", first, second);
    assert!(assert_file_contents_equal(&mut fs, &mut f0_r, &all));

    assert_eq!(fs.ls(""), Ok(vec!["my_file.txt".to_string()]));
    assert_eq!(fs.remove_file("my_file.txt"), Ok(()));
    assert_eq!(fs.ls(""), Ok(vec![]));
    assert_eq!(fs.remove_file("my_file.txt"), Err(IoError::NotFound));
}

#[test]
fn nested_paths_create_directories() {
    let mut fs = VirtualFileSystem::new();
    assert!(fs.create_file_stream("a/b/c.txt").is_ok());
    assert_eq!(fs.ls("a"), Ok(vec!["b".to_string()]));
    assert_eq!(fs.ls("/a//b/"), Ok(vec!["c.txt".to_string()]));
    assert_eq!(fs.ls("a/b/c.txt"), Err(IoError::InvalidInput));
    assert!(fs.create_file_stream("a/d.txt").is_ok());
    assert_eq!(fs.ls("a"), Ok(vec!["b".to_string(), "d.txt".to_string()]));
}

#[test]
fn create_errors() {
    let mut fs = VirtualFileSystem::new();
    assert!(matches!(fs.create_file_stream(""), Err(IoError::InvalidInput)));
    assert!(matches!(fs.create_file_stream("///"), Err(IoError::InvalidInput)));
    assert!(fs.create_file_stream("dir/file").is_ok());
    assert!(matches!(fs.create_file_stream("dir"), Err(IoError::InvalidInput)));
    assert!(matches!(fs.create_file_stream("dir/file/x"), Err(IoError::InvalidInput)));
}

#[test]
fn create_empties_an_existing_file() {
    let mut fs = VirtualFileSystem::new();
    let mut w = fs.create_file_stream("f").ok().unwrap();
    assert!(fs.write(&mut w, b"old contents").is_ok());
    let mut w2 = fs.create_file_stream("f").ok().unwrap();
    assert!(fs.write(&mut w2, b"new").is_ok());
    assert_eq!(fs.ls(""), Ok(vec!["f".to_string()]));
    let mut r = fs.open_file_stream("f").ok().unwrap();
    assert!(assert_file_contents_equal(&mut fs, &mut r, "new"));
}

#[test]
fn open_errors() {
    let mut fs = VirtualFileSystem::new();
    assert!(matches!(fs.open_file_stream("missing"), Err(IoError::NotFound)));
    assert!(fs.create_file_stream("d/f").is_ok());
    assert!(matches!(fs.open_file_stream("d"), Err(IoError::InvalidInput)));
    assert!(matches!(fs.open_file_stream("d/f/g"), Err(IoError::NotFound)));
}

#[test]
fn streams_keep_their_direction() {
    let mut fs = VirtualFileSystem::new();
    let mut w = fs.create_file_stream("f").ok().unwrap();
    assert_eq!(fs.read(&mut w, 4), Err(IoError::PermissionDenied));
    assert!(fs.write(&mut w, b"abcdef").is_ok());
    let mut r = fs.open_file_stream("f").ok().unwrap();
    assert_eq!(fs.write(&mut r, b"x"), Err(IoError::PermissionDenied));
    assert_eq!(fs.read(&mut r, 4), Ok(b"abcd".to_vec()));
    assert_eq!(fs.read(&mut r, 4), Ok(b"ef".to_vec()));
    assert_eq!(fs.read(&mut r, 4), Ok(vec![]));
}

#[test]
fn removal() {
    let mut fs = VirtualFileSystem::new();
    assert_eq!(fs.remove_file(""), Err(IoError::InvalidInput));
    assert!(fs.create_file_stream("d/f").is_ok());
    let mut r = fs.open_file_stream("d/f").ok().unwrap();
    assert_eq!(fs.remove_file("d/g"), Err(IoError::NotFound));
    assert_eq!(fs.remove_file("d/f"), Ok(()));
    assert_eq!(fs.ls("d"), Ok(vec![]));
    assert!(matches!(fs.open_file_stream("d/f"), Err(IoError::NotFound)));
    // a stream opened before the removal still reads the file
    assert_eq!(fs.read(&mut r, 1), Ok(vec![]));
}

#[test]
fn path_parts() {
    assert_eq!(split_path_str("/a//b/c/"), vec!["a".to_string(), "b".to_string(), "c".to_string()]);
    assert_eq!(split_path_str(""), Vec::<String>::new());
}

#[test]
fn streams_on_missing_nodes_fail() {
    let mut fs = VirtualFileSystem::new();
    let mut r = VirtualFileStream { file: 99, mode: FileStreamMode::ReadOnly, pointer_pos: 0 };
    assert_eq!(fs.read(&mut r, 1), Err(IoError::Other));
    let mut w = VirtualFileStream { file: 0, mode: FileStreamMode::WriteOnly, pointer_pos: 0 };
    assert_eq!(fs.write(&mut w, b"x"), Err(IoError::Other));
}

#[test]
fn create_write_read_remove_leaves_an_empty_root() {
    let mut fs = VirtualFileSystem::new();
    let mut w = fs.create_file_stream("f").ok().unwrap();
    assert!(fs.write(&mut w, b"hi").is_ok());
    let mut r = fs.open_file_stream("f").ok().unwrap();
    assert_eq!(fs.read(&mut r, 10), Ok(b"hi".to_vec()));
    assert_eq!(fs.remove_file("f"), Ok(()));
    assert_eq!(fs.ls(""), Ok(vec![]));
}
