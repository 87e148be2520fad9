use torman::{decode, get_torrent_files, tree_paths, TorrentLogicError};

fn files_of(data: &[u8]) -> Result<Vec<String>, TorrentLogicError> {
    let (torrent, _) = decode(data).unwrap();
    get_torrent_files(&torrent)
}

#[test]
fn single_file_v1() {
    assert_eq!(files_of(b"d4:infod4:name9:movie.mkvee"), Ok(vec!["movie.mkv".to_owned()]));
}

#[test]
fn multi_file_v1() {
    assert_eq!(
        files_of(b"d4:infod5:filesld4:pathl5:a.txteed4:pathl3:dir5:b.txteee4:name4:packee"),
        Ok(vec!["pack/a.txt".to_owned(), "pack/dir/b.txt".to_owned()])
    );
}

#[test]
fn multi_file_v2() {
    assert_eq!(
        files_of(b"d4:infod9:file treed5:b.txtde5:a.txtdee4:name4:packee"),
        Ok(vec!["pack/a.txt".to_owned(), "pack/b.txt".to_owned()])
    );
}

#[test]
fn single_file_v2_has_no_prefix() {
    assert_eq!(files_of(b"d4:infod9:file treed8:solo.isodee4:name4:packee"), Ok(vec!["solo.iso".to_owned()]));
}

#[test]
fn multi_file_v1_without_name() {
    assert_eq!(files_of(b"d4:infod5:filesld4:pathl5:a.txteeeee"), Err(TorrentLogicError::NoTorrentName));
}

#[test]
fn missing_info() {
    assert_eq!(files_of(b"d8:announce3:urle"), Err(TorrentLogicError::NoInfoDict));
}

#[test]
fn path_not_a_list_of_texts() {
    assert_eq!(files_of(b"d4:infod5:filesld4:pathi3eee4:name4:packee"), Err(TorrentLogicError::NoPathList));
    assert_eq!(files_of(b"d4:infod5:filesld4:pathl1:ai3eeee4:name4:packee"), Err(TorrentLogicError::NoPathList));
    assert_eq!(files_of(b"d4:infod5:filesli1ee4:name4:packee"), Err(TorrentLogicError::NoPathList));
}

#[test]
fn empty_file_tree() {
    assert_eq!(files_of(b"d4:infod9:file treede4:name4:packee"), Err(TorrentLogicError::EmptyFileTree));
}

#[test]
fn file_tree_without_name() {
    assert_eq!(files_of(b"d4:infod9:file treed8:solo.isodeeee"), Err(TorrentLogicError::NoTorrentName));
}

#[test]
fn single_file_without_name() {
    assert_eq!(files_of(b"d4:infodee"), Err(TorrentLogicError::NoTorrentName));
}

#[test]
fn tree_paths_one_or_many() {
    let root = "pack".to_owned();
    assert_eq!(tree_paths(&root, vec!["solo.iso".to_owned()]), Ok(vec!["solo.iso".to_owned()]));
    assert_eq!(
        tree_paths(&root, vec!["a".to_owned(), "b".to_owned()]),
        Ok(vec!["pack/a".to_owned(), "pack/b".to_owned()])
    );
    assert_eq!(tree_paths(&root, vec![]), Err(TorrentLogicError::EmptyFileTree));
}

#[test]
fn info_not_a_dict() {
    assert_eq!(files_of(b"d4:infoi1ee"), Err(TorrentLogicError::NoInfoDict));
    assert_eq!(files_of(b"d4:infol4:nameee"), Err(TorrentLogicError::NoInfoDict));
    assert_eq!(files_of(b"i1e"), Err(TorrentLogicError::NoInfoDict));
}
