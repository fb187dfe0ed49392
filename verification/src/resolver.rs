//! Where a request path leads under the document root.
//!
//! A path is read segment by segment. Empty segments and `.` stay where they
//! are, `..` goes up one directory, any other segment goes down into it. A path
//! that does not begin with a slash, or that goes up from the root itself, leads
//! nowhere.

use vstd::prelude::*;
use vstd::slice::slice_to_vec;
use crate::bytes::contents;

verus! {

/// The separator of path segments.
pub const SLASH: u8 = 47;

/// The byte of which `.` and `..` are made.
pub const DOT: u8 = 46;

/// The document root, below the working directory.
pub const WEBROOT: &'static str = "/webroot";

/// The byte strings that a list of buffers holds.
pub open spec fn rows(buffers: Seq<Vec<u8>>) -> Seq<Seq<u8>> {
    buffers.map_values(|buffer: Vec<u8>| buffer@)
}

/// The segment that names the directory itself.
pub open spec fn dot() -> Seq<u8> {
    seq![DOT]
}

/// The segment that names the parent directory.
pub open spec fn dot_dot() -> Seq<u8> {
    seq![DOT, DOT]
}

/// The pieces of `path` between its slashes: one more than it has slashes.
pub open spec fn segments(path: Seq<u8>) -> Seq<Seq<u8>>
    decreases path.len(),
{
    if path.len() == 0 {
        seq![Seq::empty()]
    } else {
        let before = segments(path.drop_last());
        if path.last() == SLASH {
            before.push(Seq::empty())
        } else {
            before.drop_last().push(before.last().push(path.last()))
        }
    }
}

/// The directories below the root after one more segment, from those in
/// `stack`; `None` where the segment goes up from the root.
pub open spec fn enter(stack: Seq<Seq<u8>>, segment: Seq<u8>) -> Option<Seq<Seq<u8>>> {
    if segment.len() == 0 || segment == dot() {
        Some(stack)
    } else if segment == dot_dot() {
        if stack.len() == 0 {
            None
        } else {
            Some(stack.drop_last())
        }
    } else {
        Some(stack.push(segment))
    }
}

/// The directories below the root after all of `segs`, from those in `stack`.
pub open spec fn walk(stack: Seq<Seq<u8>>, segs: Seq<Seq<u8>>) -> Option<Seq<Seq<u8>>>
    decreases segs.len(),
{
    if segs.len() == 0 {
        Some(stack)
    } else {
        match enter(stack, segs.first()) {
            Some(next) => walk(next, segs.drop_first()),
            None => None,
        }
    }
}

/// The names that lead from the root to what `path` denotes.
pub open spec fn resolve(path: Seq<u8>) -> Option<Seq<Seq<u8>>> {
    if path.len() == 0 || path[0] != SLASH {
        None
    } else {
        walk(Seq::empty(), segments(path.skip(1)))
    }
}

/// `root`, followed by each name with a slash before it.
pub open spec fn joined(root: Seq<u8>, names: Seq<Seq<u8>>) -> Seq<u8>
    decreases names.len(),
{
    if names.len() == 0 {
        root
    } else {
        joined(root, names.drop_last()) + seq![SLASH] + names.last()
    }
}

/// The file that `path` denotes under `root`.
pub open spec fn locate(root: Seq<u8>, path: Seq<u8>) -> Option<Seq<u8>> {
    match resolve(path) {
        Some(names) => Some(joined(root, names)),
        None => None,
    }
}

/// A name that goes one directory down: not empty, neither `.` nor `..`, and
/// without a slash.
pub open spec fn is_plain(name: Seq<u8>) -> bool {
    &&& name.len() > 0
    &&& name != dot()
    &&& name != dot_dot()
    &&& !name.contains(SLASH)
}

/// Whether every name goes one directory down.
pub open spec fn all_plain(names: Seq<Seq<u8>>) -> bool {
    forall|i: int| 0 <= i < names.len() ==> is_plain(#[trigger] names[i])
}

/// A path has at least one segment, and no segment holds a slash.
pub proof fn lemma_segments_hold_no_slash(path: Seq<u8>)
    ensures
        segments(path).len() >= 1,
        forall|i: int|
            0 <= i < segments(path).len() ==> !(#[trigger] segments(path)[i]).contains(SLASH),
    decreases path.len(),
{
    if path.len() > 0 {
        lemma_segments_hold_no_slash(path.drop_last());
        let before = segments(path.drop_last());
        if path.last() != SLASH {
            let grown = before.last().push(path.last());
            assert forall|j: int| 0 <= j < grown.len() implies grown[j] != SLASH by {
                if j < before.last().len() {
                    assert(grown[j] == before.last()[j]);
                }
            }
        }
    }
}

/// The segments of a path, each with a slash before it, are the path with a
/// slash before it: nothing is lost in cutting.
pub proof fn lemma_segments_rejoin(path: Seq<u8>)
    ensures
        joined(Seq::empty(), segments(path)) == seq![SLASH] + path,
    decreases path.len(),
{
    if path.len() == 0 {
        let only = seq![Seq::<u8>::empty()];
        assert(only.drop_last() =~= Seq::<Seq<u8>>::empty());
        assert(joined(Seq::<u8>::empty(), only.drop_last()) =~= Seq::<u8>::empty());
        assert(segments(path) =~= only);
        assert(joined(Seq::empty(), only) =~= seq![SLASH] + path);
    } else {
        lemma_segments_rejoin(path.drop_last());
        lemma_segments_hold_no_slash(path.drop_last());
        let before = segments(path.drop_last());
        let glued = joined(Seq::empty(), before);
        assert(glued + seq![path.last()] =~= seq![SLASH] + path);
        if path.last() == SLASH {
            let now = before.push(Seq::empty());
            assert(now.drop_last() =~= before);
            assert(joined(Seq::empty(), now) =~= glued + seq![SLASH]);
        } else {
            let grown = before.last().push(path.last());
            let now = before.drop_last().push(grown);
            assert(now.drop_last() =~= before.drop_last());
            assert(joined(Seq::empty(), now) =~= joined(Seq::empty(), before.drop_last())
                + seq![SLASH] + before.last() + seq![path.last()]);
        }
    }
}

/// Bytes without a slash, put after a path, lengthen its last segment.
pub proof fn lemma_segments_of_extension(path: Seq<u8>, more: Seq<u8>)
    requires
        !more.contains(SLASH),
    ensures
        segments(path + more) == segments(path).drop_last().push(segments(path).last() + more),
    decreases more.len(),
{
    lemma_segments_hold_no_slash(path);
    if more.len() == 0 {
        assert(path + more =~= path);
        assert(segments(path).last() + more =~= segments(path).last());
        assert(segments(path).drop_last().push(segments(path).last()) =~= segments(path));
    } else {
        let shorter = more.drop_last();
        assert forall|j: int| 0 <= j < shorter.len() implies shorter[j] != SLASH by {
            assert(shorter[j] == more[j]);
        }
        lemma_segments_of_extension(path, shorter);
        assert((path + more).drop_last() =~= path + shorter);
        assert((path + more).last() == more.last());
        assert(more.last() == more[more.len() - 1]);
        let before = segments(path + shorter);
        assert(before.drop_last().push(before.last().push(more.last())) =~= segments(
            path,
        ).drop_last().push(segments(path).last() + more)) by {
            assert(before.last().push(more.last()) =~= segments(path).last() + more);
        }
    }
}

/// Plain names, each with a slash before it, are cut into those names again.
pub proof fn lemma_segments_of_joined(names: Seq<Seq<u8>>)
    requires
        names.len() >= 1,
        all_plain(names),
    ensures
        joined(Seq::empty(), names).len() >= 1,
        joined(Seq::empty(), names)[0] == SLASH,
        segments(joined(Seq::empty(), names).skip(1)) == names,
    decreases names.len(),
{
    let first = names.drop_last();
    let name = names.last();
    assert(is_plain(names[names.len() - 1]));
    let path = joined(Seq::empty(), names);
    if first.len() == 0 {
        assert(joined(Seq::<u8>::empty(), first) =~= Seq::empty());
        assert(path.skip(1) =~= Seq::<u8>::empty() + name);
        lemma_segments_of_extension(Seq::empty(), name);
        assert(segments(Seq::<u8>::empty()) =~= seq![Seq::<u8>::empty()]);
        assert(Seq::<u8>::empty() + name =~= name);
        assert(segments(path.skip(1)) =~= names);
    } else {
        assert forall|i: int| 0 <= i < first.len() implies is_plain(#[trigger] first[i]) by {
            assert(first[i] == names[i]);
        }
        lemma_segments_of_joined(first);
        let above = joined(Seq::empty(), first).skip(1);
        assert(path.skip(1) =~= above + seq![SLASH] + name);
        assert((above + seq![SLASH]).drop_last() =~= above);
        assert(segments(above + seq![SLASH]) == segments(above).push(Seq::empty()));
        lemma_segments_of_extension(above + seq![SLASH], name);
        assert(Seq::<u8>::empty() + name =~= name);
        assert(segments(above).push(Seq::empty()).drop_last() =~= segments(above));
        assert(segments(path.skip(1)) =~= names);
    }
}

/// Plain names are entered one after the other.
pub proof fn lemma_walk_of_plain(stack: Seq<Seq<u8>>, names: Seq<Seq<u8>>)
    requires
        all_plain(names),
    ensures
        walk(stack, names) == Some(stack + names),
    decreases names.len(),
{
    if names.len() == 0 {
        assert(stack + names =~= stack);
    } else {
        assert(is_plain(names[0]));
        let rest = names.drop_first();
        assert forall|i: int| 0 <= i < rest.len() implies is_plain(#[trigger] rest[i]) by {
            assert(rest[i] == names[i + 1]);
        }
        lemma_walk_of_plain(stack.push(names.first()), rest);
        assert(stack.push(names.first()) + rest =~= stack + names);
    }
}

/// Where segments without a slash are followed from plain names, only plain
/// names are left.
pub proof fn lemma_walk_keeps_plain(stack: Seq<Seq<u8>>, segs: Seq<Seq<u8>>)
    requires
        all_plain(stack),
        forall|i: int| 0 <= i < segs.len() ==> !(#[trigger] segs[i]).contains(SLASH),
    ensures
        walk(stack, segs) matches Some(names) ==> all_plain(names),
    decreases segs.len(),
{
    if segs.len() > 0 {
        let rest = segs.drop_first();
        assert forall|i: int| 0 <= i < rest.len() implies !(#[trigger] rest[i]).contains(
            SLASH,
        ) by {
            assert(rest[i] == segs[i + 1]);
        }
        match enter(stack, segs.first()) {
            Some(next) => {
                assert(all_plain(next)) by {
                    assert(!segs[0].contains(SLASH));
                    assert forall|i: int| 0 <= i < next.len() implies is_plain(
                        #[trigger] next[i],
                    ) by {
                        if i < stack.len() {
                            assert(next[i] == stack[i]);
                        }
                    }
                }
                lemma_walk_keeps_plain(next, rest);
            },
            None => {},
        }
    }
}

/// The names that a path resolves to are plain: none of them leads up or
/// holds a slash.
pub proof fn lemma_resolved_names_are_plain(path: Seq<u8>)
    ensures
        resolve(path) matches Some(names) ==> all_plain(names),
{
    if path.len() > 0 && path[0] == SLASH {
        lemma_segments_hold_no_slash(path.skip(1));
        lemma_walk_keeps_plain(Seq::empty(), segments(path.skip(1)));
    }
}

/// A path made of plain names, each with a slash before it, resolves to those
/// names.
pub proof fn lemma_plain_path_resolves(names: Seq<Seq<u8>>)
    requires
        names.len() >= 1,
        all_plain(names),
    ensures
        resolve(joined(Seq::empty(), names)) == Some(names),
{
    lemma_segments_of_joined(names);
    lemma_walk_of_plain(Seq::empty(), names);
    assert(Seq::<Seq<u8>>::empty() + names =~= names);
}

/// What is joined to a root begins with the root.
pub proof fn lemma_joined_begins_with_root(root: Seq<u8>, names: Seq<Seq<u8>>)
    ensures
        root.is_prefix_of(joined(root, names)),
    decreases names.len(),
{
    if names.len() > 0 {
        lemma_joined_begins_with_root(root, names.drop_last());
        let above = joined(root, names.drop_last());
        assert(joined(root, names).subrange(0, root.len() as int) =~= above.subrange(
            0,
            root.len() as int,
        ));
    }
}

/// The segments of two paths with a slash between them are those of the
/// first, then those of the second.
pub proof fn lemma_segments_across_slash(before: Seq<u8>, after: Seq<u8>)
    ensures
        segments(before + seq![SLASH] + after) == segments(before) + segments(after),
    decreases after.len(),
{
    let whole = before + seq![SLASH] + after;
    if after.len() == 0 {
        assert(whole.drop_last() =~= before);
        assert(segments(after) =~= seq![Seq::<u8>::empty()]);
        assert(segments(before).push(Seq::empty()) =~= segments(before) + segments(after));
    } else {
        let shorter = after.drop_last();
        lemma_segments_across_slash(before, shorter);
        lemma_segments_hold_no_slash(shorter);
        assert(whole.drop_last() =~= before + seq![SLASH] + shorter);
        assert(whole.last() == after.last());
        let left = segments(before);
        let right = segments(shorter);
        if after.last() == SLASH {
            assert((left + right).push(Seq::empty()) =~= left + right.push(Seq::empty()));
        } else {
            let grown = right.last().push(after.last());
            assert((left + right).last() == right.last());
            assert((left + right).drop_last().push(grown) =~= left + right.drop_last().push(
                grown,
            ));
        }
    }
}

/// A path that begins by going up leaves the root, whatever follows.
pub proof fn lemma_leading_dot_dot_escapes(rest: Seq<u8>)
    ensures
        resolve(seq![SLASH, DOT, DOT]) is None,
        resolve(seq![SLASH, DOT, DOT, SLASH] + rest) is None,
{
    let up = dot_dot();
    lemma_segments_of_extension(Seq::empty(), up);
    assert(segments(Seq::<u8>::empty()) =~= seq![Seq::<u8>::empty()]);
    assert(Seq::<u8>::empty() + up =~= up);
    assert(segments(up) =~= seq![up]);
    assert(seq![SLASH, DOT, DOT].skip(1) =~= up);
    lemma_segments_across_slash(up, rest);
    assert((seq![SLASH, DOT, DOT, SLASH] + rest).skip(1) =~= up + seq![SLASH] + rest);
    let segs = segments(up + seq![SLASH] + rest);
    assert(segs.first() == up);
    assert(up != dot()) by {
        assert(up.len() != dot().len());
    }
}

/// A byte other than the slash that occurs neither in the root nor in any name
/// does not occur in what is joined of them.
pub proof fn lemma_joined_is_free_of(root: Seq<u8>, names: Seq<Seq<u8>>, byte: u8)
    requires
        byte != SLASH,
        !root.contains(byte),
        forall|i: int| 0 <= i < names.len() ==> !(#[trigger] names[i]).contains(byte),
    ensures
        !joined(root, names).contains(byte),
    decreases names.len(),
{
    if names.len() > 0 {
        let above = joined(root, names.drop_last());
        assert forall|i: int| 0 <= i < names.drop_last().len() implies !(
        #[trigger] names.drop_last()[i]).contains(byte) by {
            assert(names.drop_last()[i] == names[i]);
        }
        lemma_joined_is_free_of(root, names.drop_last(), byte);
        let file = joined(root, names);
        assert(!names[names.len() - 1].contains(byte));
        assert forall|j: int| 0 <= j < file.len() implies file[j] != byte by {
            if j < above.len() {
                assert(file[j] == above[j]);
            } else if j == above.len() {
            } else {
                assert(file[j] == names.last()[j - above.len() - 1]);
            }
        }
    }
}

/// A file that a path leads to lies under the root: its name is the root
/// followed by plain names, each with a slash before it.
pub proof fn lemma_located_under_root(root: Seq<u8>, path: Seq<u8>)
    ensures
        locate(root, path) matches Some(file) ==> {
            &&& root.is_prefix_of(file)
            &&& exists|names: Seq<Seq<u8>>| all_plain(names) && file == #[trigger] joined(root, names)
        },
{
    lemma_resolved_names_are_plain(path);
    match resolve(path) {
        Some(names) => {
            lemma_joined_begins_with_root(root, names);
        },
        None => {},
    }
}

/// Cuts `path` at its slashes.
pub fn split_segments(path: &[u8]) -> (segs: Vec<Vec<u8>>)
    ensures
        rows(segs@) == segments(path@),
{
    let mut done: Vec<Vec<u8>> = Vec::new();
    let mut current: Vec<u8> = Vec::new();
    let mut i: usize = 0;
    assert(path@.take(0) =~= Seq::empty());
    assert(rows(done@).push(current@) =~= segments(path@.take(0)));
    while i < path.len()
        invariant
            i <= path.len(),
            rows(done@).push(current@) == segments(path@.take(i as int)),
        decreases path.len() - i,
    {
        let byte: u8 = path[i];
        proof {
            let upto = path@.take(i + 1);
            assert(upto.drop_last() =~= path@.take(i as int));
            assert(upto.last() == byte);
        }
        if byte == SLASH {
            let ghost before = rows(done@).push(current@);
            done.push(current);
            current = Vec::new();
            assert(rows(done@) =~= before);
        } else {
            let ghost before = rows(done@).push(current@);
            current.push(byte);
            assert(rows(done@).push(current@) =~= before.drop_last().push(
                before.last().push(byte),
            ));
        }
        i += 1;
    }
    assert(path@.take(i as int) =~= path@);
    let ghost before = rows(done@).push(current@);
    done.push(current);
    assert(rows(done@) =~= before);
    done
}

/// Follows `segs` down from the root.
pub fn walk_segments(segs: &Vec<Vec<u8>>) -> (names: Option<Vec<Vec<u8>>>)
    ensures
        match names {
            Some(stack) => walk(Seq::empty(), rows(segs@)) == Some(rows(stack@)),
            None => walk(Seq::empty(), rows(segs@)) is None,
        },
{
    let mut stack: Vec<Vec<u8>> = Vec::new();
    let mut i: usize = 0;
    assert(rows(segs@).skip(0) =~= rows(segs@));
    assert(rows(stack@) =~= Seq::empty());
    while i < segs.len()
        invariant
            i <= segs.len(),
            walk(rows(stack@), rows(segs@).skip(i as int)) == walk(
                Seq::empty(),
                rows(segs@),
            ),
        decreases segs.len() - i,
    {
        let segment: &Vec<u8> = &segs[i];
        proof {
            let rest = rows(segs@).skip(i as int);
            assert(rest.first() == segment@);
            assert(rest.drop_first() =~= rows(segs@).skip(i + 1));
        }
        let ghost before = rows(stack@);
        if segment.len() == 0 || (segment.len() == 1 && segment[0] == DOT) {
            assert(segment@.len() == 0 || segment@ =~= dot());
        } else if segment.len() == 2 && segment[0] == DOT && segment[1] == DOT {
            assert(segment@ =~= dot_dot());
            if stack.len() == 0 {
                return None;
            }
            stack.pop();
            assert(rows(stack@) =~= before.drop_last());
        } else {
            assert(segment@ != dot()) by {
                if segment@ == dot() {
                    assert(segment@.len() == 1 && segment@[0] == DOT);
                }
            }
            assert(segment@ != dot_dot()) by {
                if segment@ == dot_dot() {
                    assert(segment@.len() == 2 && segment@[0] == DOT && segment@[1] == DOT);
                }
            }
            stack.push(slice_to_vec(segment.as_slice()));
            assert(rows(stack@) =~= before.push(segment@));
        }
        i += 1;
    }
    Some(stack)
}

/// The names that lead from the root to what `path` denotes; `None` where
/// `path` does not begin with a slash or leaves the root.
pub fn resolve_path(path: &[u8]) -> (names: Option<Vec<Vec<u8>>>)
    ensures
        match names {
            Some(stack) => resolve(path@) == Some(rows(stack@)),
            None => resolve(path@) is None,
        },
{
    if path.len() == 0 || path[0] != SLASH {
        return None;
    }
    let below: &[u8] = &path[1..path.len()];
    assert(below@ == path@.skip(1));
    let segs: Vec<Vec<u8>> = split_segments(below);
    walk_segments(&segs)
}

/// Appends each name to `root`, with a slash before it.
pub fn join_path(root: &[u8], names: &Vec<Vec<u8>>) -> (file: Vec<u8>)
    ensures
        file@ == joined(root@, rows(names@)),
{
    let mut file: Vec<u8> = slice_to_vec(root);
    let mut i: usize = 0;
    assert(rows(names@).take(0) =~= Seq::empty());
    while i < names.len()
        invariant
            i <= names.len(),
            file@ == joined(root@, rows(names@).take(i as int)),
        decreases names.len() - i,
    {
        proof {
            let upto = rows(names@).take(i + 1);
            assert(upto.drop_last() =~= rows(names@).take(i as int));
            assert(upto.last() == names@[i as int]@);
        }
        file.push(SLASH);
        file.extend_from_slice(names[i].as_slice());
        assert(file@ =~= joined(root@, rows(names@).take(i as int)) + seq![SLASH]
            + names@[i as int]@);
        i += 1;
    }
    assert(rows(names@).take(i as int) =~= rows(names@));
    file
}

/// The file that `path` denotes under `root`; `None` where `path` does not
/// begin with a slash or leaves the root.
pub fn locate_file(root: &[u8], path: &[u8]) -> (file: Option<Vec<u8>>)
    ensures
        contents(file) == locate(root@, path@),
{
    match resolve_path(path) {
        Some(names) => Some(join_path(root, &names)),
        None => None,
    }
}

} // verus!
