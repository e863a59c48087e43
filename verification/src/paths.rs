//! The walk from the root directory that turns directory entries and inodes into files.

use std::collections::BTreeSet;

use vstd::prelude::*;
use vstd::set_lib::*;
use vstd::string::StringExecFns;

use crate::codec::MAX_FILE;
use crate::keys;
use crate::names::Files;
use crate::text;
use crate::tree::{DentModel, Dents};

verus! {

/// What the inodes of an image say: which of them are files, and what these hold.
pub trait InodeModel: Sized {
    /// The size of a regular file, `None` for any other inode.
    spec fn file_size(self, ino: u64) -> Option<usize>;

    /// The contents of a file of the given size.
    spec fn content(self, ino: u64, size: usize) -> Result<Seq<u8>, Seq<char>>;
}

/// The inodes of an image.
pub trait Inodes {
    type Model: InodeModel;

    spec fn model(&self) -> Self::Model;

    spec fn wf(&self) -> bool;

    fn size_of(&self, ino: u64) -> (r: Option<usize>)
        requires
            self.wf(),
        ensures
            r == self.model().file_size(ino),
    ;

    fn read(&self, ino: u64, size: usize) -> (r: Result<Vec<u8>, String>)
        requires
            self.wf(),
        ensures
            text::says(r, self.model().content(ino, size)),
    ;
}

/// Directories still to enter, each with its inode and its path. The last is entered first.
pub type Todo = Seq<(u64, Seq<char>)>;

/// The path of `name` in the directory `prefix`.
pub open spec fn path_in(prefix: Seq<char>, name: Seq<char>) -> Seq<char> {
    if prefix.len() == 0 {
        name
    } else {
        prefix.push('/') + name
    }
}

/// What the entries of a directory add, from entry `i` on: a file for each entry that leads to
/// one, a directory to enter for each other.
pub open spec fn enter<M: InodeModel>(
    m: M,
    dents: Seq<DentModel>,
    i: int,
    parent: u64,
    prefix: Seq<char>,
    todo: Todo,
    files: Map<Seq<char>, Seq<u8>>,
) -> Result<(Todo, Map<Seq<char>, Seq<u8>>), Seq<char>>
    decreases dents.len() - i,
{
    if i >= dents.len() {
        Ok((todo, files))
    } else if dents[i].parent != parent || dents[i].ino == 0 {
        enter(m, dents, i + 1, parent, prefix, todo, files)
    } else {
        let path = path_in(prefix, dents[i].name);
        match m.file_size(dents[i].ino) {
            Some(size) => if size > MAX_FILE {
                Err(path + " is too large"@)
            } else {
                match m.content(dents[i].ino, size) {
                    Ok(data) => enter(
                        m,
                        dents,
                        i + 1,
                        parent,
                        prefix,
                        todo,
                        files.insert(path, data),
                    ),
                    Err(e) => Err(e),
                }
            },
            None => enter(
                m,
                dents,
                i + 1,
                parent,
                prefix,
                todo.push((dents[i].ino, path)),
                files,
            ),
        }
    }
}

/// How many inode numbers there are.
pub open spec fn inode_numbers() -> int {
    0x1_0000_0000_0000_0000
}

/// No set of inode numbers is larger than their number.
pub proof fn lemma_inode_set(seen: Set<u64>)
    ensures
        seen.finite(),
        seen.len() <= inode_numbers(),
{
    let range = set_int_range(0, inode_numbers());
    lemma_int_range(0, inode_numbers());
    let f = |x: u64| x as int;
    let image = seen.map(f);
    assert(image.subset_of(range));
    lemma_len_subset(image, range);
    let back = |x: int| x as u64;
    assert(image.map(back) =~= seen) by {
        assert forall|x: u64| #[trigger] seen.contains(x) implies image.map(back).contains(x) by {
            assert(image.contains(f(x)));
            assert(back(f(x)) == x);
        }
        assert forall|x: u64| #[trigger] image.map(back).contains(x) implies seen.contains(x) by {
            let y = choose|y: int| image.contains(y) && back(y) == x;
            let z = choose|z: u64| seen.contains(z) && f(z) == y;
            assert(back(f(z)) == z);
        }
    }
    lemma_map_size_bound(image, seen, back);
}

/// The files found from the directories `todo` on, where `seen` were entered already.
pub open spec fn walk<M: InodeModel>(
    m: M,
    dents: Seq<DentModel>,
    todo: Todo,
    seen: Set<u64>,
    files: Map<Seq<char>, Seq<u8>>,
) -> Result<Map<Seq<char>, Seq<u8>>, Seq<char>>
    decreases inode_numbers() - seen.len(),
{
    if todo.len() == 0 {
        Ok(files)
    } else {
        let (parent, prefix) = todo.last();
        if seen.contains(parent) {
            Err("Filesystem tree contains a cycle or duplicate reference"@)
        } else {
            match enter(m, dents, 0, parent, prefix, todo.drop_last(), files) {
                Ok((todo2, files2)) => {
                    proof {
                        lemma_inode_set(seen);
                        lemma_inode_set(seen.insert(parent));
                    }
                    walk(m, dents, todo2, seen.insert(parent), files2)
                },
                Err(e) => Err(e),
            }
        }
    }
}

/// The files below the root directory, by path.
pub open spec fn all_files<M: InodeModel>(m: M, dents: Seq<DentModel>) -> Result<
    Map<Seq<char>, Seq<u8>>,
    Seq<char>,
> {
    walk(m, dents, seq![(1u64, Seq::<char>::empty())], Set::empty(), Map::empty())
}

/// The directories still to enter, seen as [`Todo`].
pub open spec fn todo_model(todo: Seq<(u64, String)>) -> Todo {
    Seq::new(todo.len(), |i: int| (todo[i].0, todo[i].1@))
}

fn path_of(prefix: &str, name: &str) -> (r: String)
    ensures
        r@ == path_in(prefix@, name@),
{
    if prefix.is_empty() {
        name.to_owned()
    } else {
        let mut s = prefix.to_owned();
        s.push('/');
        s.append(name);
        s
    }
}

/// Enters one directory: adds its files to `files` and its directories to `todo`.
fn enter_directory<R: Inodes>(
    dents: &Dents,
    inodes: &R,
    parent: u64,
    prefix: &str,
    todo: &mut Vec<(u64, String)>,
    files: &mut Files,
) -> (r: Result<(), String>)
    requires
        inodes.wf(),
        old(files).wf(),
    ensures
        final(files).wf(),
        match (
            r,
            enter(
                inodes.model(),
                dents@,
                0,
                parent,
                prefix@,
                todo_model(old(todo)@),
                old(files)@,
            ),
        ) {
            (Ok(_), Ok((todo2, files2))) => todo_model(final(todo)@) == todo2 && final(files)@
                == files2,
            (Err(e), Err(m)) => e@ == m,
            _ => false,
        },
{
    let mut i: usize = 0;
    while i < dents.len()
        invariant
            i <= dents@.len(),
            inodes.wf(),
            files.wf(),
            enter(
                inodes.model(),
                dents@,
                0,
                parent,
                prefix@,
                todo_model(old(todo)@),
                old(files)@,
            ) == enter(
                inodes.model(),
                dents@,
                i as int,
                parent,
                prefix@,
                todo_model(todo@),
                files@,
            ),
        decreases dents@.len() - i,
    {
        let d = dents.get(i);
        if d.parent == parent && d.ino != 0 {
            let path = path_of(prefix, d.name.as_str());
            match inodes.size_of(d.ino) {
                Some(size) => {
                    if size > MAX_FILE {
                        return Err(text::joined(path.as_str(), " is too large"));
                    }
                    let data = inodes.read(d.ino, size)?;
                    files.insert(path, data);
                },
                None => {
                    let ghost old_todo = todo@;
                    todo.push((d.ino, path));
                    assert(todo_model(todo@) =~= todo_model(old_todo).push((d.ino, path@)));
                },
            }
        }
        i += 1;
    }
    Ok(())
}

/// Reconstructs file paths from directory entries and inode payloads.
pub fn paths<R: Inodes>(dents: &Dents, inodes: &R) -> (r: Result<Files, String>)
    requires
        inodes.wf(),
    ensures
        text::says(r, all_files(inodes.model(), dents@)),
        r matches Ok(files) ==> files.wf(),
{
    proof {
        keys::lemma_ordered_keys();
    }
    let mut result = Files::new();
    let mut todo: Vec<(u64, String)> = Vec::new();
    todo.push((1, String::new()));
    let mut seen: BTreeSet<u64> = BTreeSet::new();
    assert(todo_model(todo@) =~= seq![(1u64, Seq::<char>::empty())]);
    loop
        invariant
            inodes.wf(),
            result.wf(),
            all_files(inodes.model(), dents@) == walk(
                inodes.model(),
                dents@,
                todo_model(todo@),
                seen@,
                result@,
            ),
        decreases inode_numbers() - seen@.len(),
    {
        let ghost stack = todo_model(todo@);
        let (parent, prefix) = match todo.pop() {
            Some(next) => next,
            None => {
                return Ok(result);
            },
        };
        assert(stack.last() == (parent, prefix@));
        assert(stack.drop_last() =~= todo_model(todo@));
        proof {
            lemma_inode_set(seen@);
            lemma_inode_set(seen@.insert(parent));
        }
        if !seen.insert(parent) {
            return Err("Filesystem tree contains a cycle or duplicate reference".to_owned());
        }
        enter_directory(dents, inodes, parent, prefix.as_str(), &mut todo, &mut result)?;
    }
}

/// Two images whose inodes say the same have the same files.
pub proof fn files_follow_from_inodes<A: InodeModel, B: InodeModel>(
    a: A,
    b: B,
    dents: Seq<DentModel>,
)
    requires
        forall|ino: u64| #[trigger] a.file_size(ino) == b.file_size(ino),
        forall|ino: u64, size: usize| #[trigger] a.content(ino, size) == b.content(ino, size),
    ensures
        all_files(a, dents) == all_files(b, dents),
{
    lemma_walk_same(
        a,
        b,
        dents,
        seq![(1u64, Seq::<char>::empty())],
        Set::empty(),
        Map::empty(),
    );
}

proof fn lemma_enter_same<A: InodeModel, B: InodeModel>(
    a: A,
    b: B,
    dents: Seq<DentModel>,
    i: int,
    parent: u64,
    prefix: Seq<char>,
    todo: Todo,
    files: Map<Seq<char>, Seq<u8>>,
)
    requires
        forall|ino: u64| #[trigger] a.file_size(ino) == b.file_size(ino),
        forall|ino: u64, size: usize| #[trigger] a.content(ino, size) == b.content(ino, size),
    ensures
        enter(a, dents, i, parent, prefix, todo, files) == enter(
            b,
            dents,
            i,
            parent,
            prefix,
            todo,
            files,
        ),
    decreases dents.len() - i,
{
    if i < dents.len() {
        if dents[i].parent != parent || dents[i].ino == 0 {
            lemma_enter_same(a, b, dents, i + 1, parent, prefix, todo, files);
        } else {
            let path = path_in(prefix, dents[i].name);
            match a.file_size(dents[i].ino) {
                Some(size) => {
                    if let Ok(data) = a.content(dents[i].ino, size) {
                        lemma_enter_same(
                            a,
                            b,
                            dents,
                            i + 1,
                            parent,
                            prefix,
                            todo,
                            files.insert(path, data),
                        );
                    }
                },
                None => lemma_enter_same(
                    a,
                    b,
                    dents,
                    i + 1,
                    parent,
                    prefix,
                    todo.push((dents[i].ino, path)),
                    files,
                ),
            }
        }
    }
}

proof fn lemma_walk_same<A: InodeModel, B: InodeModel>(
    a: A,
    b: B,
    dents: Seq<DentModel>,
    todo: Todo,
    seen: Set<u64>,
    files: Map<Seq<char>, Seq<u8>>,
)
    requires
        forall|ino: u64| #[trigger] a.file_size(ino) == b.file_size(ino),
        forall|ino: u64, size: usize| #[trigger] a.content(ino, size) == b.content(ino, size),
    ensures
        walk(a, dents, todo, seen, files) == walk(b, dents, todo, seen, files),
    decreases inode_numbers() - seen.len(),
{
    if todo.len() > 0 {
        let (parent, prefix) = todo.last();
        if !seen.contains(parent) {
            lemma_enter_same(a, b, dents, 0, parent, prefix, todo.drop_last(), files);
            if let Ok((todo2, files2)) = enter(
                a,
                dents,
                0,
                parent,
                prefix,
                todo.drop_last(),
                files,
            ) {
                lemma_inode_set(seen);
                lemma_inode_set(seen.insert(parent));
                lemma_walk_same(a, b, dents, todo2, seen.insert(parent), files2);
            }
        }
    }
}

/// The contents of a file have the size that was asked for.
pub open spec fn keeps_sizes<M: InodeModel>(m: M) -> bool {
    forall|ino: u64, size: usize|
        (#[trigger] m.content(ino, size)) matches Ok(d) ==> d.len() == size
}

/// No file is larger than the limit.
pub open spec fn bounded(files: Map<Seq<char>, Seq<u8>>) -> bool {
    forall|path: Seq<char>| #[trigger]
        files.contains_key(path) ==> files[path].len() <= MAX_FILE
}

proof fn lemma_enter_bounded<M: InodeModel>(
    m: M,
    dents: Seq<DentModel>,
    i: int,
    parent: u64,
    prefix: Seq<char>,
    todo: Todo,
    files: Map<Seq<char>, Seq<u8>>,
)
    requires
        keeps_sizes(m),
        bounded(files),
    ensures
        enter(m, dents, i, parent, prefix, todo, files) matches Ok((_, after)) ==> bounded(after),
    decreases dents.len() - i,
{
    if i < dents.len() {
        if dents[i].parent != parent || dents[i].ino == 0 {
            lemma_enter_bounded(m, dents, i + 1, parent, prefix, todo, files);
        } else {
            let path = path_in(prefix, dents[i].name);
            match m.file_size(dents[i].ino) {
                Some(size) => {
                    if let Ok(data) = m.content(dents[i].ino, size) {
                        if size <= MAX_FILE {
                            lemma_enter_bounded(
                                m,
                                dents,
                                i + 1,
                                parent,
                                prefix,
                                todo,
                                files.insert(path, data),
                            );
                        }
                    }
                },
                None => lemma_enter_bounded(
                    m,
                    dents,
                    i + 1,
                    parent,
                    prefix,
                    todo.push((dents[i].ino, path)),
                    files,
                ),
            }
        }
    }
}

proof fn lemma_walk_bounded<M: InodeModel>(
    m: M,
    dents: Seq<DentModel>,
    todo: Todo,
    seen: Set<u64>,
    files: Map<Seq<char>, Seq<u8>>,
)
    requires
        keeps_sizes(m),
        bounded(files),
    ensures
        walk(m, dents, todo, seen, files) matches Ok(after) ==> bounded(after),
    decreases inode_numbers() - seen.len(),
{
    if todo.len() > 0 {
        let (parent, prefix) = todo.last();
        if !seen.contains(parent) {
            lemma_enter_bounded(m, dents, 0, parent, prefix, todo.drop_last(), files);
            if let Ok((todo2, files2)) = enter(
                m,
                dents,
                0,
                parent,
                prefix,
                todo.drop_last(),
                files,
            ) {
                lemma_inode_set(seen);
                lemma_inode_set(seen.insert(parent));
                lemma_walk_bounded(m, dents, todo2, seen.insert(parent), files2);
            }
        }
    }
}

/// No file that the walk gives is larger than the limit.
pub proof fn files_are_bounded<M: InodeModel>(m: M, dents: Seq<DentModel>)
    requires
        keeps_sizes(m),
    ensures
        all_files(m, dents) matches Ok(files) ==> bounded(files),
{
    lemma_walk_bounded(
        m,
        dents,
        seq![(1u64, Seq::<char>::empty())],
        Set::empty(),
        Map::empty(),
    );
}

/// Entry number `j` stands in the directory `parent`, and leads somewhere.
pub open spec fn stands_in(dents: Seq<DentModel>, j: int, parent: u64) -> bool {
    0 <= j < dents.len() && dents[j].parent == parent && dents[j].ino != 0
}

/// Entry number `j` of a directory gives the file `path` with these contents.
pub open spec fn gives_file<M: InodeModel>(
    m: M,
    dents: Seq<DentModel>,
    j: int,
    at: (u64, Seq<char>),
    path: Seq<char>,
    data: Seq<u8>,
) -> bool {
    &&& stands_in(dents, j, at.0)
    &&& m.file_size(dents[j].ino) is Some
    &&& path_in(at.1, dents[j].name) == path
    &&& m.content(dents[j].ino, m.file_size(dents[j].ino)->0) == Ok::<Seq<u8>, Seq<char>>(data)
}

/// Entry number `j` of a directory gives another directory.
pub open spec fn gives_directory<M: InodeModel>(
    m: M,
    dents: Seq<DentModel>,
    j: int,
    at: (u64, Seq<char>),
    next: (u64, Seq<char>),
) -> bool {
    &&& stands_in(dents, j, at.0)
    &&& m.file_size(dents[j].ino) is None
    &&& next == (dents[j].ino, path_in(at.1, dents[j].name))
}

/// The entries `steps` lead from a directory to a file, each but the last to another directory.
pub open spec fn is_route<M: InodeModel>(
    m: M,
    dents: Seq<DentModel>,
    steps: Seq<int>,
    parent: u64,
) -> bool
    decreases steps.len(),
{
    if steps.len() == 0 || !stands_in(dents, steps[0], parent) {
        false
    } else if steps.len() == 1 {
        m.file_size(dents[steps[0]].ino) is Some
    } else {
        m.file_size(dents[steps[0]].ino) is None && is_route(
            m,
            dents,
            steps.skip(1),
            dents[steps[0]].ino,
        )
    }
}

/// The names along `steps`, behind the path that they begin at.
pub open spec fn route_path(dents: Seq<DentModel>, steps: Seq<int>, prefix: Seq<char>) -> Seq<char>
    decreases steps.len(),
{
    if steps.len() == 0 {
        prefix
    } else {
        route_path(dents, steps.skip(1), path_in(prefix, dents[steps[0]].name))
    }
}

/// The contents of the file that `steps` lead to.
pub open spec fn route_data<M: InodeModel>(m: M, dents: Seq<DentModel>, steps: Seq<int>) -> Result<
    Seq<u8>,
    Seq<char>,
> {
    let ino = dents[steps.last()].ino;
    m.content(ino, m.file_size(ino)->0)
}

proof fn lemma_enter_complete<M: InodeModel>(
    m: M,
    dents: Seq<DentModel>,
    i: int,
    parent: u64,
    prefix: Seq<char>,
    todo: Todo,
    files: Map<Seq<char>, Seq<u8>>,
)
    requires
        0 <= i,
        enter(m, dents, i, parent, prefix, todo, files) is Ok,
    ensures
        ({
            let (todo2, files2) = enter(m, dents, i, parent, prefix, todo, files)->Ok_0;
            &&& forall|p: Seq<char>| #[trigger]
                files.contains_key(p) ==> files2.contains_key(p)
            &&& todo.len() <= todo2.len()
            &&& forall|k: int| 0 <= k < todo.len() ==> #[trigger] todo2[k] == todo[k]
            &&& forall|j: int|
                i <= j && #[trigger] stands_in(dents, j, parent) ==> if m.file_size(
                    dents[j].ino,
                ) is Some {
                    files2.contains_key(path_in(prefix, dents[j].name))
                } else {
                    todo2.contains((dents[j].ino, path_in(prefix, dents[j].name)))
                }
        }),
    decreases dents.len() - i,
{
    if i < dents.len() {
        if dents[i].parent != parent || dents[i].ino == 0 {
            lemma_enter_complete(m, dents, i + 1, parent, prefix, todo, files);
        } else {
            let path = path_in(prefix, dents[i].name);
            match m.file_size(dents[i].ino) {
                Some(size) => {
                    let data = m.content(dents[i].ino, size)->Ok_0;
                    let more = files.insert(path, data);
                    lemma_enter_complete(m, dents, i + 1, parent, prefix, todo, more);
                    assert(more.contains_key(path));
                    assert forall|p: Seq<char>| #[trigger] files.contains_key(p) implies enter(
                        m,
                        dents,
                        i,
                        parent,
                        prefix,
                        todo,
                        files,
                    )->Ok_0.1.contains_key(p) by {
                        assert(more.contains_key(p));
                    }
                },
                None => {
                    let more = todo.push((dents[i].ino, path));
                    lemma_enter_complete(m, dents, i + 1, parent, prefix, more, files);
                    let todo2 = enter(m, dents, i, parent, prefix, todo, files)->Ok_0.0;
                    assert(todo2[todo.len() as int] == more[todo.len() as int]);
                    assert(todo2.contains((dents[i].ino, path)));
                    assert forall|k: int| 0 <= k < todo.len() implies #[trigger] todo2[k]
                        == todo[k] by {
                        assert(more[k] == todo[k]);
                    }
                },
            }
        }
    }
}

proof fn lemma_walk_complete<M: InodeModel>(
    m: M,
    dents: Seq<DentModel>,
    todo: Todo,
    seen: Set<u64>,
    files: Map<Seq<char>, Seq<u8>>,
    k: int,
    steps: Seq<int>,
)
    requires
        walk(m, dents, todo, seen, files) is Ok,
        0 <= k < todo.len(),
        is_route(m, dents, steps, todo[k].0),
    ensures
        walk(m, dents, todo, seen, files)->Ok_0.contains_key(
            route_path(dents, steps, todo[k].1),
        ),
    decreases inode_numbers() - seen.len(),
{
    let (parent, prefix) = todo.last();
    lemma_inode_set(seen);
    lemma_inode_set(seen.insert(parent));
    lemma_enter_complete(m, dents, 0, parent, prefix, todo.drop_last(), files);
    let (todo2, files2) = enter(m, dents, 0, parent, prefix, todo.drop_last(), files)->Ok_0;
    let seen2 = seen.insert(parent);
    if k < todo.len() - 1 {
        assert(todo2[k] == todo.drop_last()[k]);
        lemma_walk_complete(m, dents, todo2, seen2, files2, k, steps);
    } else {
        let j = steps[0];
        let path = path_in(prefix, dents[j].name);
        assert(stands_in(dents, j, parent));
        if steps.len() == 1 {
            assert(steps.skip(1) =~= Seq::<int>::empty());
            assert(route_path(dents, steps.skip(1), path) == path);
            lemma_walk_keeps(m, dents, todo2, seen2, files2, path);
        } else {
            let next = (dents[j].ino, path);
            assert(todo2.contains(next));
            let n = choose|n: int| 0 <= n < todo2.len() && todo2[n] == next;
            lemma_walk_complete(m, dents, todo2, seen2, files2, n, steps.skip(1));
        }
    }
}

proof fn lemma_walk_keeps<M: InodeModel>(
    m: M,
    dents: Seq<DentModel>,
    todo: Todo,
    seen: Set<u64>,
    files: Map<Seq<char>, Seq<u8>>,
    path: Seq<char>,
)
    requires
        walk(m, dents, todo, seen, files) is Ok,
        files.contains_key(path),
    ensures
        walk(m, dents, todo, seen, files)->Ok_0.contains_key(path),
    decreases inode_numbers() - seen.len(),
{
    if todo.len() > 0 {
        let (parent, prefix) = todo.last();
        lemma_inode_set(seen);
        lemma_inode_set(seen.insert(parent));
        lemma_enter_complete(m, dents, 0, parent, prefix, todo.drop_last(), files);
        let (todo2, files2) = enter(m, dents, 0, parent, prefix, todo.drop_last(), files)->Ok_0;
        lemma_walk_keeps(m, dents, todo2, seen.insert(parent), files2, path);
    }
}

/// Every file that can be reached from the root directory is among the files, under the path of
/// the names that lead to it.
pub proof fn reachable_files_are_found<M: InodeModel>(
    m: M,
    dents: Seq<DentModel>,
    steps: Seq<int>,
)
    requires
        is_route(m, dents, steps, 1),
    ensures
        all_files(m, dents) matches Ok(files) ==> files.contains_key(
            route_path(dents, steps, Seq::empty()),
        ),
{
    if all_files(m, dents) is Ok {
        lemma_walk_complete(
            m,
            dents,
            seq![(1u64, Seq::<char>::empty())],
            Set::empty(),
            Map::empty(),
            0,
            steps,
        );
    }
}

/// The directory `next`, number `k` of those still to enter, was there before, or is one that an
/// entry gives.
pub open spec fn comes_from<M: InodeModel>(
    m: M,
    dents: Seq<DentModel>,
    at: (u64, Seq<char>),
    todo: Todo,
    k: int,
    next: (u64, Seq<char>),
) -> bool {
    ||| k < todo.len() && todo[k] == next
    ||| exists|j: int| gives_directory(m, dents, j, at, next)
}

proof fn lemma_enter_sound<M: InodeModel>(
    m: M,
    dents: Seq<DentModel>,
    i: int,
    at: (u64, Seq<char>),
    todo: Todo,
    files: Map<Seq<char>, Seq<u8>>,
    todo2: Todo,
    files2: Map<Seq<char>, Seq<u8>>,
)
    requires
        0 <= i,
        enter(m, dents, i, at.0, at.1, todo, files) == Ok::<
            (Todo, Map<Seq<char>, Seq<u8>>),
            Seq<char>,
        >((todo2, files2)),
    ensures
        forall|p: Seq<char>| #[trigger]
            files2.contains_key(p) ==> (files.contains_key(p) && files2[p] == files[p])
                || exists|j: int| gives_file(m, dents, j, at, p, files2[p]),
        forall|k: int|
            0 <= k < todo2.len() ==> #[trigger] comes_from(m, dents, at, todo, k, todo2[k]),
    decreases dents.len() - i,
{
    if i < dents.len() {
        if dents[i].parent != at.0 || dents[i].ino == 0 {
            lemma_enter_sound(m, dents, i + 1, at, todo, files, todo2, files2);
        } else {
            let path = path_in(at.1, dents[i].name);
            match m.file_size(dents[i].ino) {
                Some(size) => {
                    let data = m.content(dents[i].ino, size)->Ok_0;
                    let more = files.insert(path, data);
                    lemma_enter_sound(m, dents, i + 1, at, todo, more, todo2, files2);
                    assert(gives_file(m, dents, i, at, path, data));
                },
                None => {
                    let next = (dents[i].ino, path);
                    let more = todo.push(next);
                    lemma_enter_sound(m, dents, i + 1, at, more, files, todo2, files2);
                    assert(gives_directory(m, dents, i, at, next));
                    assert forall|k: int| 0 <= k < todo2.len() implies #[trigger] comes_from(
                        m,
                        dents,
                        at,
                        todo,
                        k,
                        todo2[k],
                    ) by {
                        assert(comes_from(m, dents, at, more, k, todo2[k]));
                        if k < todo.len() {
                            assert(more[k] == todo[k]);
                        }
                    }
                },
            }
        }
    }
}

/// Some route from a directory still to enter leads to a file of this path and contents.
pub open spec fn is_routed<M: InodeModel>(
    m: M,
    dents: Seq<DentModel>,
    at: (u64, Seq<char>),
    steps: Seq<int>,
    path: Seq<char>,
    data: Seq<u8>,
) -> bool {
    &&& is_route(m, dents, steps, at.0)
    &&& route_path(dents, steps, at.1) == path
    &&& route_data(m, dents, steps) == Ok::<Seq<u8>, Seq<char>>(data)
}

proof fn lemma_walk_sound<M: InodeModel>(
    m: M,
    dents: Seq<DentModel>,
    todo: Todo,
    seen: Set<u64>,
    files: Map<Seq<char>, Seq<u8>>,
    path: Seq<char>,
)
    requires
        walk(m, dents, todo, seen, files) is Ok,
        walk(m, dents, todo, seen, files)->Ok_0.contains_key(path),
    ensures
        ({
            let data = walk(m, dents, todo, seen, files)->Ok_0[path];
            (files.contains_key(path) && files[path] == data) || exists|k: int, steps: Seq<int>|
                0 <= k < todo.len() && #[trigger] is_routed(m, dents, todo[k], steps, path, data)
        }),
    decreases inode_numbers() - seen.len(),
{
    if todo.len() > 0 {
        let at = todo.last();
        let (parent, prefix) = at;
        let data = walk(m, dents, todo, seen, files)->Ok_0[path];
        let last = todo.len() - 1;
        lemma_inode_set(seen);
        lemma_inode_set(seen.insert(parent));
        let (todo2, files2) = enter(m, dents, 0, parent, prefix, todo.drop_last(), files)->Ok_0;
        lemma_enter_sound(m, dents, 0, at, todo.drop_last(), files, todo2, files2);
        lemma_walk_sound(m, dents, todo2, seen.insert(parent), files2, path);
        if files2.contains_key(path) && files2[path] == data {
            if !(files.contains_key(path) && files[path] == data) {
                let j = choose|j: int| gives_file(m, dents, j, at, path, files2[path]);
                let steps = seq![j];
                assert(steps.skip(1) =~= Seq::<int>::empty());
                assert(route_path(dents, steps.skip(1), path) == path);
                assert(is_routed(m, dents, todo[last], steps, path, data));
            }
        } else {
            let (k, steps) = choose|k: int, steps: Seq<int>|
                0 <= k < todo2.len() && #[trigger] is_routed(
                    m,
                    dents,
                    todo2[k],
                    steps,
                    path,
                    data,
                );
            assert(comes_from(m, dents, at, todo.drop_last(), k, todo2[k]));
            if k < last && todo.drop_last()[k] == todo2[k] {
                assert(is_routed(m, dents, todo[k], steps, path, data));
            } else {
                let j = choose|j: int| gives_directory(m, dents, j, at, todo2[k]);
                let longer = seq![j] + steps;
                assert(longer.skip(1) =~= steps);
                assert(is_routed(m, dents, todo[last], longer, path, data));
            }
        }
    }
}

/// Every file has a route from the root directory that gives its path, and its contents are those
/// of the inode that the route leads to.
pub proof fn found_files_are_reachable<M: InodeModel>(
    m: M,
    dents: Seq<DentModel>,
    path: Seq<char>,
)
    requires
        all_files(m, dents) matches Ok(files) && files.contains_key(path),
    ensures
        exists|steps: Seq<int>| #[trigger]
            is_routed(
                m,
                dents,
                (1u64, Seq::<char>::empty()),
                steps,
                path,
                all_files(m, dents)->Ok_0[path],
            ),
{
    let todo = seq![(1u64, Seq::<char>::empty())];
    let data = all_files(m, dents)->Ok_0[path];
    lemma_walk_sound(m, dents, todo, Set::empty(), Map::empty(), path);
    let (k, steps) = choose|k: int, steps: Seq<int>|
        0 <= k < todo.len() && #[trigger] is_routed(m, dents, todo[k], steps, path, data);
    assert(todo[k] == (1u64, Seq::<char>::empty()));
}

} // verus!
