//! Finding the files of a directory tree: which entries are descended into,
//! which are kept, which are skipped, and which failure stops the walk.
//!
//! The caller reads the tree from the file system; these functions decide
//! what of it is queued.

use vstd::prelude::*;
use crate::error::SyncError;
use crate::laws::law_walk_lists_every_file;
use crate::text::{chars_of, push_char};

verus! {

/// An entry of a directory as read from the file system.
#[derive(Debug)]
pub enum FsNode {
    /// A regular file, by its name in its directory.
    File(String),
    /// A directory, by its name in its parent, with its entries in listing
    /// order.
    Dir(String, Vec<FsNode>),
    /// Anything else (a socket, a broken link, ...), by its name.
    Other(String),
    /// An entry or a directory that could not be read; the text the system
    /// reported.
    Unreadable(String),
}

/// The paths of the files in `nodes`, depth first in listing order, up to
/// the first entry that could not be read. The path of a file is `prefix`,
/// then the names of the directories it lies in, each followed by `/`, then
/// its own name.
pub open spec fn files_in(nodes: Seq<FsNode>, prefix: Seq<char>) -> Seq<Seq<char>>
    decreases nodes,
{
    if nodes.len() == 0 {
        seq![]
    } else {
        let rest = nodes.drop_first();
        match nodes[0] {
            FsNode::File(n) => seq![prefix + n@] + files_in(rest, prefix),
            FsNode::Dir(n, kids) => files_in(kids@, prefix + n@ + seq!['/']) + files_in(
                rest,
                prefix,
            ),
            FsNode::Other(_) => files_in(rest, prefix),
            FsNode::Unreadable(_) => seq![],
        }
    }
}

/// The first entry of `nodes`, depth first in listing order, that could not
/// be read, by the text the system reported.
pub open spec fn first_unreadable(nodes: Seq<FsNode>) -> Option<Seq<char>>
    decreases nodes,
{
    if nodes.len() == 0 {
        None
    } else {
        let rest = nodes.drop_first();
        match nodes[0] {
            FsNode::File(_) => first_unreadable(rest),
            FsNode::Dir(_, kids) => match first_unreadable(kids@) {
                Some(m) => Some(m),
                None => first_unreadable(rest),
            },
            FsNode::Other(_) => first_unreadable(rest),
            FsNode::Unreadable(m) => Some(m@),
        }
    }
}

/// A name that a directory can list: not empty, and without `/`.
pub open spec fn entry_name(n: Seq<char>) -> bool {
    n.len() > 0 && !n.contains('/')
}

/// Every file and directory in `nodes`, at every depth, has a name that a
/// directory can list.
pub open spec fn names_listable(nodes: Seq<FsNode>) -> bool
    decreases nodes,
{
    nodes.len() == 0 || {
        &&& match nodes[0] {
            FsNode::File(n) => entry_name(n@),
            FsNode::Dir(n, kids) => entry_name(n@) && names_listable(kids@),
            _ => true,
        }
        &&& names_listable(nodes.drop_first())
    }
}

/// A path relative to a directory: not empty, and not starting with `/`.
pub open spec fn relative_path(p: Seq<char>) -> bool {
    p.len() > 0 && p[0] != '/'
}

/// What the path of a file under `root` starts with. Under an absolute
/// root, nothing: the path is relative to the root itself. Under a relative
/// root, the root followed by `/`: the path stays relative, to the directory
/// the root is relative to, as the root was named.
pub open spec fn root_prefix(root: Seq<char>) -> Seq<char> {
    if root.len() == 0 || root[0] == '/' {
        seq![]
    } else if root.last() == '/' {
        root
    } else {
        root + seq!['/']
    }
}

/// The paths by which the files under `root`, whose entries are `entries`,
/// are synced: each one's path below the root, after `root_prefix(root)`.
pub open spec fn listed_paths(root: Seq<char>, entries: Seq<FsNode>) -> Seq<Seq<char>> {
    files_in(entries, seq![]).map_values(|p: Seq<char>| root_prefix(root) + p)
}

/// How many regular files a tree holds, at every depth.
pub open spec fn file_count(nodes: Seq<FsNode>) -> nat
    decreases nodes,
{
    if nodes.len() == 0 {
        0
    } else {
        (match nodes[0] {
            FsNode::File(_) => 1nat,
            FsNode::Dir(_, kids) => file_count(kids@),
            _ => 0nat,
        }) + file_count(nodes.drop_first())
    }
}

/// The texts of some strings.
pub open spec fn texts(v: Seq<String>) -> Seq<Seq<char>> {
    v.map_values(|s: String| s@)
}

/// Every path that `files_in` gives under `prefix` is `prefix` followed by
/// a part that is not empty and does not start with `/`.
pub proof fn lemma_files_in_extend_prefix(nodes: Seq<FsNode>, prefix: Seq<char>)
    requires
        names_listable(nodes),
    ensures
        forall|i: int|
            0 <= i < files_in(nodes, prefix).len() ==> {
                let p = #[trigger] files_in(nodes, prefix)[i];
                &&& p.len() > prefix.len()
                &&& p.take(prefix.len() as int) == prefix
                &&& p[prefix.len() as int] != '/'
            },
    decreases nodes,
{
    if nodes.len() > 0 {
        let rest = nodes.drop_first();
        lemma_files_in_extend_prefix(rest, prefix);
        let all = files_in(nodes, prefix);
        match nodes[0] {
            FsNode::File(n) => {
                let first = prefix + n@;
                assert(all == seq![first] + files_in(rest, prefix));
                assert(first.take(prefix.len() as int) =~= prefix);
                assert(first[prefix.len() as int] == n@[0]);
                assert(n@.contains(n@[0]));
                assert forall|i: int| 0 <= i < all.len() implies {
                    let p = #[trigger] all[i];
                    &&& p.len() > prefix.len()
                    &&& p.take(prefix.len() as int) == prefix
                    &&& p[prefix.len() as int] != '/'
                } by {
                    if i > 0 {
                        assert(all[i] == files_in(rest, prefix)[i - 1]);
                    }
                }
            },
            FsNode::Dir(n, kids) => {
                let inner = prefix + n@ + seq!['/'];
                assert(decreases_to!(nodes => nodes[0]));
                assert(decreases_to!(nodes[0] => kids));
                assert(decreases_to!(kids => kids@));
                lemma_files_in_extend_prefix(kids@, inner);
                let sub = files_in(kids@, inner);
                assert(all == sub + files_in(rest, prefix));
                assert(n@.contains(n@[0]));
                assert forall|i: int| 0 <= i < all.len() implies {
                    let p = #[trigger] all[i];
                    &&& p.len() > prefix.len()
                    &&& p.take(prefix.len() as int) == prefix
                    &&& p[prefix.len() as int] != '/'
                } by {
                    if i < sub.len() {
                        let p = sub[i];
                        assert(all[i] == p);
                        assert(p.take(inner.len() as int) == inner);
                        assert(p.take(prefix.len() as int) =~= inner.take(prefix.len() as int));
                        assert(inner.take(prefix.len() as int) =~= prefix);
                        assert(p[prefix.len() as int] == inner[prefix.len() as int]);
                    } else {
                        assert(all[i] == files_in(rest, prefix)[i - sub.len()]);
                    }
                }
            },
            FsNode::Other(_) => {},
            FsNode::Unreadable(_) => {},
        }
    }
}

/// A path below `root`, after the root's prefix, is still relative.
pub proof fn lemma_root_prefix_keeps_relative(root: Seq<char>, p: Seq<char>)
    requires
        relative_path(p),
    ensures
        relative_path(root_prefix(root) + p),
{
    let q = root_prefix(root);
    if q.len() > 0 {
        assert(q[0] == root[0]);
        assert((q + p)[0] == q[0]);
    } else {
        assert(q + p =~= p);
    }
}

/// The paths by which the files at `files`, below `root`, are synced: each
/// one after `root_prefix(root)`.
pub fn paths_under_root(root: &str, files: &Vec<String>) -> (r: Vec<String>)
    ensures
        texts(r@) == texts(files@).map_values(|p: Seq<char>| root_prefix(root@) + p),
{
    let cs = chars_of(root);
    let mut prefix = String::new();
    if cs.len() > 0 && cs[0] != '/' {
        prefix = String::from_str(root);
        if cs[cs.len() - 1] != '/' {
            push_char(&mut prefix, '/');
        }
    }
    assert(prefix@ =~= root_prefix(root@));
    let mut r: Vec<String> = Vec::new();
    let mut i: usize = 0;
    while i < files.len()
        invariant
            i <= files@.len(),
            prefix@ == root_prefix(root@),
            texts(r@) == texts(files@).map_values(|p: Seq<char>| root_prefix(root@) + p).take(
                i as int,
            ),
        decreases files@.len() - i,
    {
        let ghost before = texts(r@);
        let mut path = prefix.clone();
        path.append(files[i].as_str());
        assert(path@ == root_prefix(root@) + files@[i as int]@);
        r.push(path);
        assert(texts(r@) =~= before.push(root_prefix(root@) + files@[i as int]@));
        i += 1;
        assert(texts(r@) =~= texts(files@).map_values(|p: Seq<char>| root_prefix(root@) + p).take(
            i as int,
        ));
    }
    assert(texts(files@).map_values(|p: Seq<char>| root_prefix(root@) + p).take(i as int)
        =~= texts(files@).map_values(|p: Seq<char>| root_prefix(root@) + p));
    r
}

/// Appends the files of `nodes`, by their paths under `prefix`, to `out`,
/// depth first in listing order, or stops at the first entry that could not
/// be read.
fn collect_into(nodes: &Vec<FsNode>, prefix: &String, out: &mut Vec<String>) -> (r: Result<
    (),
    String,
>)
    ensures
        match first_unreadable(nodes@) {
            Some(m) => r matches Err(e) && e@ == m,
            None => r is Ok && texts(final(out)@) == texts(old(out)@) + files_in(
                nodes@,
                prefix@,
            ),
        },
    decreases nodes@,
{
    let mut i: usize = 0;
    assert(nodes@.skip(0) =~= nodes@);
    while i < nodes.len()
        invariant
            i <= nodes@.len(),
            first_unreadable(nodes@) == first_unreadable(nodes@.skip(i as int)),
            first_unreadable(nodes@) is None ==> texts(out@) + files_in(
                nodes@.skip(i as int),
                prefix@,
            ) == texts(old(out)@) + files_in(nodes@, prefix@),
        decreases nodes@.len() - i,
    {
        let ghost rest = nodes@.skip(i as int);
        let ghost before = texts(out@);
        assert(rest[0] == nodes@[i as int]);
        assert(rest.drop_first() =~= nodes@.skip(i + 1));
        match &nodes[i] {
            FsNode::File(name) => {
                let mut path = prefix.clone();
                path.append(name.as_str());
                out.push(path);
                assert(texts(out@) =~= before.push(prefix@ + name@));
                assert(before.push(prefix@ + name@) + files_in(nodes@.skip(i + 1), prefix@)
                    =~= before + (seq![prefix@ + name@] + files_in(
                    nodes@.skip(i + 1),
                    prefix@,
                )));
            },
            FsNode::Dir(name, kids) => {
                assert(decreases_to!(nodes@ => nodes@[i as int]));
                assert(decreases_to!(nodes@[i as int] => *kids));
                assert(decreases_to!(*kids => kids@));
                assert(decreases_to!(nodes@ => kids@));
                let mut inner = prefix.clone();
                inner.append(name.as_str());
                inner.append("/");
                proof {
                    reveal_strlit("/");
                }
                assert(inner@ =~= prefix@ + name@ + seq!['/']);
                match collect_into(kids, &inner, out) {
                    Ok(()) => {
                        assert(before + files_in(kids@, inner@) + files_in(
                            nodes@.skip(i + 1),
                            prefix@,
                        ) =~= before + (files_in(kids@, inner@) + files_in(
                            nodes@.skip(i + 1),
                            prefix@,
                        )));
                    },
                    Err(e) => {
                        return Err(e);
                    },
                }
            },
            FsNode::Other(_) => {},
            FsNode::Unreadable(m) => {
                return Err(m.clone());
            },
        }
        i += 1;
    }
    assert(nodes@.skip(i as int) =~= Seq::<FsNode>::empty());
    assert(texts(out@) + Seq::<Seq<char>>::empty() =~= texts(out@));
    Ok(())
}

/// The files under the directory `root`, whose entries are `entries`, by
/// their paths relative to `root`: depth first in listing order. A root
/// that is not a directory is an invalid path; an entry that could not be
/// read is a file-system error, the first one in that order.
pub fn files_under(root_is_dir: bool, root: &str, entries: &Vec<FsNode>) -> (r: Result<
    Vec<String>,
    SyncError,
>)
    ensures
        if !root_is_dir {
            r matches Err(SyncError::InvalidPath(p)) && p@ == root@
        } else {
            match first_unreadable(entries@) {
                Some(m) => r matches Err(SyncError::Io(e)) && e@ == m,
                None => r matches Ok(v) && texts(v@) == files_in(entries@, seq![]),
            }
        },
        r matches Ok(v) ==> v@.len() == file_count(entries@),
        r matches Ok(v) ==> (names_listable(entries@) ==> forall|i: int|
            0 <= i < v@.len() ==> relative_path(#[trigger] v@[i]@)),
{
    if !root_is_dir {
        return Err(SyncError::InvalidPath(String::from_str(root)));
    }
    let mut out: Vec<String> = Vec::new();
    let empty = String::new();
    match collect_into(entries, &empty, &mut out) {
        Ok(()) => {
            assert(texts(Seq::<String>::empty()) =~= Seq::<Seq<char>>::empty());
            assert(Seq::<Seq<char>>::empty() + files_in(entries@, seq![]) =~= files_in(
                entries@,
                seq![],
            ));
            assert(empty@ =~= Seq::<char>::empty());
            proof {
                law_walk_lists_every_file(entries@, seq![]);
                if names_listable(entries@) {
                    lemma_files_in_extend_prefix(entries@, seq![]);
                    assert forall|i: int| 0 <= i < out@.len() implies relative_path(
                        #[trigger] out@[i]@,
                    ) by {
                        assert(out@[i]@ == texts(out@)[i]);
                        assert(files_in(entries@, seq![])[i] == out@[i]@);
                    }
                }
            }
            Ok(out)
        },
        Err(m) => Err(SyncError::Io(m)),
    }
}

} // verus!
