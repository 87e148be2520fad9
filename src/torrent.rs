use vstd::prelude::*;
use vstd::string::StringExecFns;
use crate::term::Term;
use crate::value::{entry_terms, field, lemma_entry_terms, lemma_terms, string_views, terms, texts_of, ByteString, Value};

verus! {

/// Why a torrent description gives no file list.
#[derive(PartialEq, Eq, Debug, Clone, Copy)]
pub enum TorrentLogicError {
    /// `info.name` is missing or is not text.
    NoTorrentName,
    /// There is no `info` field, or it is not a dictionary.
    NoInfoDict,
    /// An entry of `info.files` has no `path` list of texts.
    NoPathList,
    /// `info.file tree` has no text key.
    EmptyFileTree,
}

/// `root`, then each segment after a `/`.
pub open spec fn join_under(root: Seq<char>, segs: Seq<Seq<char>>) -> Seq<char>
    decreases segs.len(),
{
    if segs.len() == 0 {
        root
    } else {
        join_under(root, segs.drop_last()) + seq!['/'] + segs.last()
    }
}

/// The keys of a dictionary that are text, in key order.
pub open spec fn text_keys(ps: Seq<(Term, Term)>) -> Seq<Seq<char>>
    decreases ps.len(),
{
    if ps.len() == 0 {
        seq![]
    } else {
        text_keys(ps.drop_last()) + if ps.last().0 is Text {
            seq![ps.last().0->Text_0]
        } else {
            seq![]
        }
    }
}

/// `info.name`, when it is text.
pub open spec fn name_of(info: Term) -> Option<Seq<char>> {
    match field(info, "name"@) {
        Some(Term::Text(s)) => Some(s),
        _ => None,
    }
}

/// The path segments of an entry of `info.files`.
pub open spec fn path_segments(entry: Term) -> Option<Seq<Seq<char>>> {
    match field(entry, "path"@) {
        Some(t) => texts_of(t),
        None => None,
    }
}

/// The paths of a file tree with the given names: one name is the whole
/// path; with more, each name stands under `root`.
pub open spec fn tree_paths_of(root: Seq<char>, names: Seq<Seq<char>>) -> Result<
    Seq<Seq<char>>,
    TorrentLogicError,
> {
    if names.len() > 1 {
        Ok(names.map_values(|n: Seq<char>| root + seq!['/'] + n))
    } else if names.len() == 1 {
        Ok(names)
    } else {
        Err(TorrentLogicError::EmptyFileTree)
    }
}

/// The file list of a torrent description: from `info.files` (each path
/// under `info.name`), else from `info.file tree`, else `info.name` alone.
pub open spec fn torrent_files(t: Term) -> Result<Seq<Seq<char>>, TorrentLogicError> {
    match field(t, "info"@) {
        None => Err(TorrentLogicError::NoInfoDict),
        Some(info) if !(info is Dict) => Err(TorrentLogicError::NoInfoDict),
        Some(info) => match field(info, "files"@) {
            Some(Term::List(entries)) => match name_of(info) {
                None => Err(TorrentLogicError::NoTorrentName),
                Some(root) => {
                    if forall|i: int| 0 <= i < entries.len() ==> (#[trigger] path_segments(entries[i])) is Some {
                        Ok(Seq::new(entries.len(), |i: int| join_under(root, path_segments(entries[i])->0)))
                    } else {
                        Err(TorrentLogicError::NoPathList)
                    }
                },
            },
            _ => match field(info, "file tree"@) {
                Some(Term::Dict(tree)) => match name_of(info) {
                    None => Err(TorrentLogicError::NoTorrentName),
                    Some(root) => tree_paths_of(root, text_keys(tree)),
                },
                _ => match name_of(info) {
                    None => Err(TorrentLogicError::NoTorrentName),
                    Some(name) => Ok(seq![name]),
                },
            },
        },
    }
}

pub open spec fn files_outcome(r: Result<Vec<String>, TorrentLogicError>) -> Result<
    Seq<Seq<char>>,
    TorrentLogicError,
> {
    match r {
        Ok(v) => Ok(string_views(v@)),
        Err(e) => Err(e),
    }
}

/// `root` and the segments, joined by `/`.
fn join_path(root: &String, segs: &Vec<String>) -> (r: String)
    ensures
        r@ == join_under(root@, string_views(segs@)),
{
    let ghost sv = string_views(segs@);
    let mut path = root.clone();
    let mut i: usize = 0;
    assert(sv.subrange(0, 0).len() == 0);
    while i < segs.len()
        invariant
            sv == string_views(segs@),
            i <= segs.len(),
            path@ == join_under(root@, sv.subrange(0, i as int)),
        decreases segs.len() - i,
    {
        proof {
            reveal_strlit("/");
            assert(sv.subrange(0, i + 1).drop_last() =~= sv.subrange(0, i as int));
        }
        path.append("/");
        path.append(segs[i].as_str());
        i = i + 1;
    }
    assert(sv.subrange(0, i as int) =~= sv);
    path
}

/// The paths of a v2 file tree whose text keys are `names`: a single key is
/// the whole path, several keys each stand under `root`.
pub fn tree_paths(root: &String, names: Vec<String>) -> (r: Result<Vec<String>, TorrentLogicError>)
    ensures
        files_outcome(r) == tree_paths_of(root@, string_views(names@)),
{
    if names.len() > 1 {
        let mut files: Vec<String> = Vec::new();
        let mut i: usize = 0;
        while i < names.len()
            invariant
                i <= names.len(),
                files@.len() == i,
                forall|j: int| 0 <= j < i ==> (#[trigger] files@[j])@ == root@ + seq!['/'] + names@[j]@,
            decreases names.len() - i,
        {
            let mut path = root.clone();
            proof {
                reveal_strlit("/");
            }
            path.append("/");
            path.append(names[i].as_str());
            files.push(path);
            i = i + 1;
        }
        assert(string_views(files@) =~= string_views(names@).map_values(
            |n: Seq<char>| root@ + seq!['/'] + n,
        ));
        Ok(files)
    } else if names.len() == 1 {
        Ok(names)
    } else {
        Err(TorrentLogicError::EmptyFileTree)
    }
}

/// The text keys of a dictionary's entries, in order.
fn text_keys_of(tree: &Vec<(Value, Value)>) -> (r: Vec<String>)
    ensures
        string_views(r@) == text_keys(entry_terms(tree@)),
{
    let ghost e = entry_terms(tree@);
    proof {
        lemma_entry_terms(tree@);
    }
    let mut names: Vec<String> = Vec::new();
    let mut i: usize = 0;
    assert(string_views(names@) =~= text_keys(e.subrange(0, 0)));
    while i < tree.len()
        invariant
            e == entry_terms(tree@),
            e.len() == tree.len(),
            forall|j: int| 0 <= j < tree.len() ==> #[trigger] e[j] == (tree@[j].0@, tree@[j].1@),
            i <= tree.len(),
            string_views(names@) == text_keys(e.subrange(0, i as int)),
        decreases tree.len() - i,
    {
        proof {
            assert(e.subrange(0, i + 1).drop_last() =~= e.subrange(0, i as int));
            assert(e.subrange(0, i + 1).last() == e[i as int]);
        }
        let ghost before = names@;
        if let Value::String(ByteString::String(s)) = &tree[i].0 {
            names.push(s.clone());
            assert(string_views(names@) =~= string_views(before) + seq![s@]);
        } else {
            assert(string_views(names@) =~= string_views(before) + seq![]);
        }
        i = i + 1;
    }
    assert(e.subrange(0, i as int) =~= e);
    names
}

/// The ordered file list of a decoded torrent description.
pub fn get_torrent_files(torrent: &Value) -> (r: Result<Vec<String>, TorrentLogicError>)
    ensures
        files_outcome(r) == torrent_files(torrent@),
{
    let info = match torrent.get_value("info") {
        Some(info @ Value::Dict(_)) => info,
        _ => {
            return Err(TorrentLogicError::NoInfoDict);
        },
    };
    let mut files: Vec<String> = Vec::new();
    if let Some(file_list_v1) = info.get_list("files") {
        // several files, v1
        let root = match info.get_string("name") {
            Some(root) => root,
            None => {
                return Err(TorrentLogicError::NoTorrentName);
            },
        };
        let ghost xs = terms(file_list_v1@);
        proof {
            lemma_terms(file_list_v1@);
        }
        let mut i: usize = 0;
        while i < file_list_v1.len()
            invariant
                field(torrent@, "info"@) == Some(info@),
                field(info@, "files"@) == Some(Term::List(xs)),
                name_of(info@) == Some(root@),
                xs == terms(file_list_v1@),
                xs.len() == file_list_v1.len(),
                forall|j: int| 0 <= j < file_list_v1.len() ==> #[trigger] xs[j] == file_list_v1@[j]@,
                i <= file_list_v1.len(),
                files@.len() == i,
                forall|j: int|
                    0 <= j < i ==> (#[trigger] path_segments(xs[j])) is Some && files@[j]@ == join_under(
                        root@,
                        path_segments(xs[j])->0,
                    ),
            decreases file_list_v1.len() - i,
        {
            let path_list = match file_list_v1[i].get_string_list("path") {
                Some(path_list) => path_list,
                None => {
                    assert(path_segments(xs[i as int]) is None);
                    return Err(TorrentLogicError::NoPathList);
                },
            };
            let path = join_path(&root, &path_list);
            files.push(path);
            i = i + 1;
        }
        assert(string_views(files@) =~= Seq::new(
            xs.len(),
            |j: int| join_under(root@, path_segments(xs[j])->0),
        ));
    } else if let Some(file_dict_v2) = info.get_dict("file tree") {
        // one file or several, v2
        let root = match info.get_string("name") {
            Some(root) => root,
            None => {
                return Err(TorrentLogicError::NoTorrentName);
            },
        };
        let names = text_keys_of(file_dict_v2);
        return tree_paths(&root, names);
    } else {
        // one file, v1
        let single = match info.get_string("name") {
            Some(single) => single,
            None => {
                return Err(TorrentLogicError::NoTorrentName);
            },
        };
        files.push(single);
        assert(string_views(files@) =~= seq![single@]);
    }
    Ok(files)
}

} // verus!
