//! What directory entries make of a tree: which names they can have, under which paths files are
//! found, and what keeps a tree from being read.

use vstd::prelude::*;
use vstd::utf8::*;

use crate::paths;
use crate::paths::{InodeModel, Todo};
use crate::tree;
use crate::tree::DentModel;

verus! {

/// A name that a directory entry can have: not empty, without slashes and zero characters, and
/// neither of the two names that stand for directories themselves.
pub open spec fn is_entry_name(name: Seq<char>) -> bool {
    &&& name.len() > 0
    &&& forall|i: int| 0 <= i < name.len() ==> #[trigger] name[i] != '/' && name[i] != '\0'
    &&& name != seq!['.'] && name != seq!['.', '.']
}

/// Exactly the encodings of such names are accepted.
pub proof fn entry_names_are_accepted(raw: Seq<u8>, name: Seq<char>)
    ensures
        tree::entry_name(raw) == Ok::<Seq<char>, Seq<char>>(name) <==> raw == encode_utf8(name)
            && is_entry_name(name),
{
    encode_utf8_valid_utf8(name);
    encode_utf8_decode_utf8(name);
    if valid_utf8(raw) {
        decode_utf8_encode_utf8(raw);
        let s = decode_utf8(raw);
        if is_entry_name(s) {
            assert(!s.contains('/') && !s.contains('\0'));
        }
        if !s.contains('/') && !s.contains('\0') {
            assert forall|i: int| 0 <= i < s.len() implies #[trigger] s[i] != '/' && s[i]
                != '\0' by {
                assert(s.contains(s[i]));
            }
        }
    }
}

/// Names with a slash between two of them.
pub open spec fn joined(names: Seq<Seq<char>>) -> Seq<char>
    decreases names.len(),
{
    if names.len() == 0 {
        Seq::empty()
    } else if names.len() == 1 {
        names[0]
    } else {
        names[0] + seq!['/'] + joined(names.skip(1))
    }
}

/// The names along a route.
pub open spec fn names_along(dents: Seq<DentModel>, steps: Seq<int>) -> Seq<Seq<char>> {
    Seq::new(steps.len(), |i: int| dents[steps[i]].name)
}

proof fn lemma_route_below(dents: Seq<DentModel>, steps: Seq<int>, prefix: Seq<char>)
    requires
        forall|i: int| 0 <= i < steps.len() ==> dents[#[trigger] steps[i]].name.len() > 0,
        prefix.len() > 0,
        steps.len() > 0,
    ensures
        paths::route_path(dents, steps, prefix) == prefix + seq!['/'] + joined(
            names_along(dents, steps),
        ),
    decreases steps.len(),
{
    let name = dents[steps[0]].name;
    let rest = steps.skip(1);
    let below = paths::path_in(prefix, name);
    assert(below =~= prefix + seq!['/'] + name);
    let names = names_along(dents, steps);
    assert(names.skip(1) =~= names_along(dents, rest));
    if rest.len() > 0 {
        assert forall|i: int| 0 <= i < rest.len() implies dents[#[trigger] rest[i]].name.len()
            > 0 by {
            assert(rest[i] == steps[i + 1]);
        }
        lemma_route_below(dents, rest, below);
        assert(paths::route_path(dents, steps, prefix) =~= prefix + seq!['/'] + joined(names));
    } else {
        assert(paths::route_path(dents, rest, below) == below);
        assert(joined(names) == name);
    }
}

/// The path of a file is the names of the directories that lead to it and its own, with a slash
/// between two of them.
pub proof fn path_is_names_with_slashes(dents: Seq<DentModel>, steps: Seq<int>)
    requires
        forall|i: int| 0 <= i < steps.len() ==> dents[#[trigger] steps[i]].name.len() > 0,
    ensures
        paths::route_path(dents, steps, Seq::empty()) == joined(names_along(dents, steps)),
{
    let names = names_along(dents, steps);
    if steps.len() > 0 {
        let name = dents[steps[0]].name;
        let rest = steps.skip(1);
        assert(names.skip(1) =~= names_along(dents, rest));
        assert(paths::path_in(Seq::empty(), name) == name);
        assert(dents[steps[0]].name.len() > 0);
        if rest.len() > 0 {
            assert forall|i: int| 0 <= i < rest.len() implies dents[#[trigger] rest[i]].name.len()
                > 0 by {
                assert(rest[i] == steps[i + 1]);
            }
            lemma_route_below(dents, rest, name);
            assert(joined(names) == name + seq!['/'] + joined(names.skip(1)));
        } else {
            assert(paths::route_path(dents, rest, name) == name);
            assert(joined(names) == name);
        }
        assert(paths::route_path(dents, steps, Seq::empty()) == paths::route_path(
            dents,
            rest,
            name,
        ));
    } else {
        assert(joined(names) =~= Seq::<char>::empty());
    }
}

/// Every file can be read, and none is larger than 16 MiB.
pub open spec fn all_readable<M: InodeModel>(m: M) -> bool {
    forall|ino: u64|
        (#[trigger] m.file_size(ino)) matches Some(size) ==> size <= 0x100_0000 && m.content(
            ino,
            size,
        ) is Ok
}

proof fn lemma_enter_ok<M: InodeModel>(
    m: M,
    dents: Seq<DentModel>,
    i: int,
    parent: u64,
    prefix: Seq<char>,
    todo: Todo,
    files: Map<Seq<char>, Seq<u8>>,
)
    requires
        all_readable(m),
    ensures
        paths::enter(m, dents, i, parent, prefix, todo, files) is Ok,
    decreases dents.len() - i,
{
    if i < dents.len() {
        if dents[i].parent != parent || dents[i].ino == 0 {
            lemma_enter_ok(m, dents, i + 1, parent, prefix, todo, files);
        } else {
            let path = paths::path_in(prefix, dents[i].name);
            match m.file_size(dents[i].ino) {
                Some(size) => {
                    let data = m.content(dents[i].ino, size)->Ok_0;
                    lemma_enter_ok(
                        m,
                        dents,
                        i + 1,
                        parent,
                        prefix,
                        todo,
                        files.insert(path, data),
                    );
                },
                None => lemma_enter_ok(
                    m,
                    dents,
                    i + 1,
                    parent,
                    prefix,
                    todo.push((dents[i].ino, path)),
                    files,
                ),
            }
        }
    }
}

/// No inode is entered twice: what is still to be entered was not entered, and is listed once.
spec fn fresh(todo: Todo, seen: Set<u64>) -> bool {
    &&& forall|k: int|
        0 <= k < todo.len() ==> (#[trigger] todo[k]).0 != 0 && !seen.contains(todo[k].0)
    &&& forall|j: int, k: int|
        0 <= j < k < todo.len() ==> (#[trigger] todo[j]).0 != (#[trigger] todo[k]).0
}

/// Every inode but the root that is listed or was entered is one that an entry of a directory that
/// was entered leads to.
spec fn entered_from(dents: Seq<DentModel>, ino: u64, seen: Set<u64>) -> bool {
    ino == 1 || exists|j: int|
        0 <= j < dents.len() && (#[trigger] dents[j]).ino == ino && seen.contains(dents[j].parent)
}

/// A tree: no directory is led to by two entries, and none leads back to the root.
pub open spec fn is_tree(dents: Seq<DentModel>) -> bool {
    &&& forall|i: int, j: int|
        0 <= i < j < dents.len() && (#[trigger] dents[i]).ino == (#[trigger] dents[j]).ino
            ==> dents[i].ino == 0
    &&& forall|i: int| 0 <= i < dents.len() ==> (#[trigger] dents[i]).ino != 1
}

spec fn state_ok(dents: Seq<DentModel>, todo: Todo, seen: Set<u64>) -> bool {
    &&& fresh(todo, seen)
    &&& forall|k: int| 0 <= k < todo.len() ==> entered_from(dents, (#[trigger] todo[k]).0, seen)
    &&& forall|x: u64| #[trigger] seen.contains(x) ==> entered_from(dents, x, seen)
}

/// While a directory is entered, from entry `i` on: what its entries in front led to is listed.
spec fn mid_ok(dents: Seq<DentModel>, i: int, parent: u64, todo: Todo, seen: Set<u64>) -> bool {
    &&& fresh(todo, seen)
    &&& forall|k: int|
        0 <= k < todo.len() ==> {
            ||| (#[trigger] todo[k]).0 == 1
            ||| exists|j: int|
                0 <= j < dents.len() && (#[trigger] dents[j]).ino == todo[k].0 && seen.contains(
                    dents[j].parent,
                ) && (dents[j].parent == parent ==> j < i)
        }
    &&& forall|x: u64| #[trigger]
        seen.contains(x) ==> x == parent || x == 1 || exists|j: int|
            0 <= j < dents.len() && (#[trigger] dents[j]).ino == x && seen.contains(dents[j].parent)
                && dents[j].parent != parent
}

proof fn lemma_enter_fresh<M: InodeModel>(
    m: M,
    dents: Seq<DentModel>,
    i: int,
    parent: u64,
    prefix: Seq<char>,
    todo: Todo,
    files: Map<Seq<char>, Seq<u8>>,
    seen: Set<u64>,
)
    requires
        0 <= i <= dents.len(),
        is_tree(dents),
        seen.contains(parent),
        forall|j: int| 0 <= j < dents.len() && (#[trigger] dents[j]).ino == parent
            ==> dents[j].parent != parent,
        mid_ok(dents, i, parent, todo, seen),
        paths::enter(m, dents, i, parent, prefix, todo, files) is Ok,
    ensures
        mid_ok(
            dents,
            dents.len() as int,
            parent,
            paths::enter(m, dents, i, parent, prefix, todo, files)->Ok_0.0,
            seen,
        ),
    decreases dents.len() - i,
{
    if i < dents.len() {
        let path = paths::path_in(prefix, dents[i].name);
        if dents[i].parent != parent || dents[i].ino == 0 {
            lemma_mid_next(dents, i, parent, todo, seen);
            lemma_enter_fresh(m, dents, i + 1, parent, prefix, todo, files, seen);
        } else {
            match m.file_size(dents[i].ino) {
                Some(size) => {
                    let data = m.content(dents[i].ino, size)->Ok_0;
                    lemma_mid_next(dents, i, parent, todo, seen);
                    lemma_enter_fresh(
                        m,
                        dents,
                        i + 1,
                        parent,
                        prefix,
                        todo,
                        files.insert(path, data),
                        seen,
                    );
                },
                None => {
                    lemma_mid_push(dents, i, parent, todo, seen, path);
                    lemma_enter_fresh(
                        m,
                        dents,
                        i + 1,
                        parent,
                        prefix,
                        todo.push((dents[i].ino, path)),
                        files,
                        seen,
                    );
                },
            }
        }
    }
}

proof fn lemma_mid_next(dents: Seq<DentModel>, i: int, parent: u64, todo: Todo, seen: Set<u64>)
    requires
        mid_ok(dents, i, parent, todo, seen),
    ensures
        mid_ok(dents, i + 1, parent, todo, seen),
{
    assert forall|k: int| 0 <= k < todo.len() implies {
        ||| (#[trigger] todo[k]).0 == 1
        ||| exists|j: int|
            0 <= j < dents.len() && (#[trigger] dents[j]).ino == todo[k].0 && seen.contains(
                dents[j].parent,
            ) && (dents[j].parent == parent ==> j < i + 1)
    } by {
        if todo[k].0 != 1 {
            let j = choose|j: int|
                0 <= j < dents.len() && (#[trigger] dents[j]).ino == todo[k].0 && seen.contains(
                    dents[j].parent,
                ) && (dents[j].parent == parent ==> j < i);
            assert(dents[j].ino == todo[k].0);
        }
    }
}

proof fn lemma_mid_push(
    dents: Seq<DentModel>,
    i: int,
    parent: u64,
    todo: Todo,
    seen: Set<u64>,
    path: Seq<char>,
)
    requires
        0 <= i < dents.len(),
        is_tree(dents),
        seen.contains(parent),
        dents[i].parent == parent,
        dents[i].ino != 0,
        forall|j: int| 0 <= j < dents.len() && (#[trigger] dents[j]).ino == parent
            ==> dents[j].parent != parent,
        mid_ok(dents, i, parent, todo, seen),
    ensures
        mid_ok(dents, i + 1, parent, todo.push((dents[i].ino, path)), seen),
{
    let x = dents[i].ino;
    let more = todo.push((x, path));
    lemma_mid_next(dents, i, parent, todo, seen);
    assert(x != parent);
    assert(!seen.contains(x)) by {
        if seen.contains(x) {
            let j = choose|j: int|
                0 <= j < dents.len() && (#[trigger] dents[j]).ino == x && seen.contains(
                    dents[j].parent,
                ) && dents[j].parent != parent;
            assert(dents[j].ino == x);
        }
    }
    assert forall|k: int| 0 <= k < todo.len() implies (#[trigger] todo[k]).0 != x by {
        if todo[k].0 == x {
            let j = choose|j: int|
                0 <= j < dents.len() && (#[trigger] dents[j]).ino == todo[k].0 && seen.contains(
                    dents[j].parent,
                ) && (dents[j].parent == parent ==> j < i);
            assert(dents[j].ino == x);
        }
    }
    assert(fresh(more, seen)) by {
        assert forall|k: int| 0 <= k < more.len() implies (#[trigger] more[k]).0 != 0
            && !seen.contains(more[k].0) by {
            if k < todo.len() {
                assert(more[k] == todo[k]);
            }
        }
        assert forall|j: int, k: int| 0 <= j < k < more.len() implies (#[trigger] more[j]).0 != (
        #[trigger] more[k]).0 by {
            assert(more[j] == todo[j]);
            if k < todo.len() {
                assert(more[k] == todo[k]);
            }
        }
    }
    assert forall|k: int| 0 <= k < more.len() implies {
        ||| (#[trigger] more[k]).0 == 1
        ||| exists|j: int|
            0 <= j < dents.len() && (#[trigger] dents[j]).ino == more[k].0 && seen.contains(
                dents[j].parent,
            ) && (dents[j].parent == parent ==> j < i + 1)
    } by {
        if k < todo.len() {
            assert(more[k] == todo[k]);
        } else {
            assert(dents[i].ino == more[k].0);
        }
    }
}

proof fn lemma_walk_tree<M: InodeModel>(
    m: M,
    dents: Seq<DentModel>,
    todo: Todo,
    seen: Set<u64>,
    files: Map<Seq<char>, Seq<u8>>,
)
    requires
        all_readable(m),
        is_tree(dents),
        state_ok(dents, todo, seen),
    ensures
        paths::walk(m, dents, todo, seen, files) is Ok,
    decreases paths::inode_numbers() - seen.len(),
{
    if todo.len() > 0 {
        let (parent, prefix) = todo.last();
        let front = todo.drop_last();
        let seen2 = seen.insert(parent);
        assert(todo[todo.len() - 1].0 != 0 && !seen.contains(todo[todo.len() - 1].0));
        lemma_enter_ok(m, dents, 0, parent, prefix, front, files);
        let (todo2, files2) = paths::enter(m, dents, 0, parent, prefix, front, files)->Ok_0;
        paths::lemma_inode_set(seen);
        paths::lemma_inode_set(seen2);
        assert(entered_from(dents, todo[todo.len() - 1].0, seen));
        assert forall|j: int| 0 <= j < dents.len() && (#[trigger] dents[j]).ino
            == parent implies dents[j].parent != parent by {
            if parent != 1 {
                let i = choose|i: int|
                    0 <= i < dents.len() && (#[trigger] dents[i]).ino == parent && seen.contains(
                        dents[i].parent,
                    );
                assert(i == j);
            }
        }
        lemma_mid_start(dents, todo, seen);
        lemma_enter_fresh(m, dents, 0, parent, prefix, front, files, seen2);
        lemma_mid_end(dents, parent, todo2, seen, seen2);
        lemma_walk_tree(m, dents, todo2, seen2, files2);
    }
}

proof fn lemma_mid_start(dents: Seq<DentModel>, todo: Todo, seen: Set<u64>)
    requires
        todo.len() > 0,
        is_tree(dents),
        state_ok(dents, todo, seen),
    ensures
        mid_ok(
            dents,
            0,
            todo.last().0,
            todo.drop_last(),
            seen.insert(todo.last().0),
        ),
{
    let parent = todo.last().0;
    let front = todo.drop_last();
    let seen2 = seen.insert(parent);
    assert(todo.last() == todo[todo.len() - 1]);
    assert(!seen.contains(parent));
    assert forall|k: int| 0 <= k < front.len() implies (#[trigger] front[k]).0 != 0
        && !seen2.contains(front[k].0) by {
        assert(front[k] == todo[k]);
        assert(todo[k].0 != todo[todo.len() - 1].0);
    }
    assert forall|j: int, k: int| 0 <= j < k < front.len() implies (#[trigger] front[j]).0 != (
    #[trigger] front[k]).0 by {
        assert(front[j] == todo[j] && front[k] == todo[k]);
    }
    assert forall|k: int| 0 <= k < front.len() implies {
        ||| (#[trigger] front[k]).0 == 1
        ||| exists|j: int|
            0 <= j < dents.len() && (#[trigger] dents[j]).ino == front[k].0 && seen2.contains(
                dents[j].parent,
            ) && (dents[j].parent == parent ==> j < 0)
    } by {
        assert(front[k] == todo[k]);
        assert(entered_from(dents, todo[k].0, seen));
        if todo[k].0 != 1 {
            let j = choose|j: int|
                0 <= j < dents.len() && (#[trigger] dents[j]).ino == todo[k].0 && seen.contains(
                    dents[j].parent,
                );
            assert(dents[j].ino == front[k].0);
        }
    }
    assert forall|x: u64| #[trigger] seen2.contains(x) implies x == parent || x == 1 || exists|
        j: int,
    |
        0 <= j < dents.len() && (#[trigger] dents[j]).ino == x && seen2.contains(dents[j].parent)
            && dents[j].parent != parent by {
        if x != parent && x != 1 {
            assert(seen.contains(x));
            assert(entered_from(dents, x, seen));
            let j = choose|j: int|
                0 <= j < dents.len() && (#[trigger] dents[j]).ino == x && seen.contains(
                    dents[j].parent,
                );
            assert(dents[j].ino == x);
        }
    }
}

proof fn lemma_mid_end(
    dents: Seq<DentModel>,
    parent: u64,
    todo: Todo,
    seen: Set<u64>,
    seen2: Set<u64>,
)
    requires
        seen2 == seen.insert(parent),
        mid_ok(dents, dents.len() as int, parent, todo, seen2),
        entered_from(dents, parent, seen),
    ensures
        state_ok(dents, todo, seen2),
{
    assert forall|k: int| 0 <= k < todo.len() implies entered_from(
        dents,
        (#[trigger] todo[k]).0,
        seen2,
    ) by {
        if todo[k].0 != 1 {
            let j = choose|j: int|
                0 <= j < dents.len() && (#[trigger] dents[j]).ino == todo[k].0 && seen2.contains(
                    dents[j].parent,
                ) && (dents[j].parent == parent ==> j < dents.len());
            assert(dents[j].ino == todo[k].0);
        }
    }
    assert forall|x: u64| #[trigger] seen2.contains(x) implies entered_from(dents, x, seen2) by {
        if x == parent && parent != 1 {
            let j = choose|j: int|
                0 <= j < dents.len() && (#[trigger] dents[j]).ino == parent && seen.contains(
                    dents[j].parent,
                );
            assert(dents[j].ino == x);
        } else if x != 1 {
            let j = choose|j: int|
                0 <= j < dents.len() && (#[trigger] dents[j]).ino == x && seen2.contains(
                    dents[j].parent,
                ) && dents[j].parent != parent;
            assert(dents[j].ino == x);
        }
    }
}

/// A tree all of whose files can be read is read.
pub proof fn trees_are_read<M: InodeModel>(m: M, dents: Seq<DentModel>)
    requires
        all_readable(m),
        is_tree(dents),
    ensures
        paths::all_files(m, dents) is Ok,
{
    let todo: Todo = seq![(1u64, Seq::<char>::empty())];
    assert(state_ok(dents, todo, Set::empty()));
    lemma_walk_tree(m, dents, todo, Set::empty(), Map::empty());
}

/// A directory that was entered before is not entered again: a tree that leads to it is refused.
pub proof fn directory_is_entered_once<M: InodeModel>(
    m: M,
    dents: Seq<DentModel>,
    todo: Todo,
    at: (u64, Seq<char>),
    seen: Set<u64>,
    files: Map<Seq<char>, Seq<u8>>,
)
    requires
        seen.contains(at.0),
    ensures
        paths::walk(m, dents, todo.push(at), seen, files) is Err,
{
}

} // verus!
