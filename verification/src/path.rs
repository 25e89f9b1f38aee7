//! Paths as bytes.
//!
//! A path is compared part by part: repeated and trailing slashes do not count, nor
//! does a `.` that is not the first part of a relative path. A `..` stays.

use crate::text::{
    copy_bytes, lemma_split_nonempty, lemma_split_part, lemma_split_whole, same_bytes, split_on,
};
use vstd::prelude::*;

verus! {

/// The byte that stands between the parts of a path.
pub const SLASH: u8 = 0x2f;

/// The byte of a dot.
pub const DOT: u8 = 0x2e;

/// What a path says: whether it starts at the root, and its parts.
#[verifier::ext_equal]
pub struct PathView {
    pub rooted: bool,
    pub parts: Seq<Seq<u8>>,
}

/// The path starts at the root.
pub open spec fn is_rooted(path: Seq<u8>) -> bool {
    path.len() > 0 && path[0] == SLASH
}

/// A segment between slashes counts as a part of the path. `first` says that it
/// comes first in a relative path.
pub open spec fn counts(segment: Seq<u8>, first: bool) -> bool {
    segment.len() > 0 && (segment != seq![DOT] || first)
}

/// The segments that count among the first `n`.
pub open spec fn counted(segments: Seq<Seq<u8>>, rooted: bool, n: int) -> Seq<Seq<u8>>
    decreases n,
{
    if n <= 0 {
        Seq::empty()
    } else if counts(segments[n - 1], n == 1 && !rooted) {
        counted(segments, rooted, n - 1).push(segments[n - 1])
    } else {
        counted(segments, rooted, n - 1)
    }
}

/// What a path says.
pub open spec fn path_view(path: Seq<u8>) -> PathView {
    let segments = split_on(path, SLASH);
    PathView {
        rooted: is_rooted(path),
        parts: counted(segments, is_rooted(path), segments.len() as int),
    }
}

/// `path` taken from the directory `dir`: a path that starts at the root stays.
pub open spec fn joined_path(dir: Seq<u8>, path: Seq<u8>) -> Seq<u8> {
    if is_rooted(path) {
        path
    } else if dir.len() == 0 || dir.last() == SLASH {
        dir + path
    } else {
        dir.push(SLASH) + path
    }
}

/// The name of the file that a path leads to: its last part, unless that is `.` or
/// `..`.
pub open spec fn file_name_of(path: Seq<u8>) -> Option<Seq<u8>> {
    let parts = path_view(path).parts;
    if parts.len() == 0 || parts.last() == seq![DOT] || parts.last() == seq![DOT, DOT] {
        None
    } else {
        Some(parts.last())
    }
}

/// The bytes of a list of byte strings.
pub open spec fn byte_views(parts: Seq<Vec<u8>>) -> Seq<Seq<u8>> {
    parts.map_values(|part: Vec<u8>| part@)
}

#[derive(Debug)]
pub struct PathParts {
    pub rooted: bool,
    pub parts: Vec<Vec<u8>>,
}

impl View for PathParts {
    type V = PathView;

    open spec fn view(&self) -> PathView {
        PathView { rooted: self.rooted, parts: byte_views(self.parts@) }
    }
}

/// Splits bytes at each separator.
fn split_bytes(path: &[u8], sep: u8) -> (r: Vec<Vec<u8>>)
    ensures
        byte_views(r@) == split_on(path@, sep),
{
    let mut parts: Vec<Vec<u8>> = Vec::new();
    let mut part: Vec<u8> = Vec::new();
    let mut i: usize = 0;
    proof {
        assert(path@.take(0) =~= Seq::<u8>::empty());
        assert(byte_views(parts@).push(part@) =~= split_on(path@.take(0), sep));
    }
    while i < path.len()
        invariant
            i <= path@.len(),
            byte_views(parts@).push(part@) == split_on(path@.take(i as int), sep),
        decreases path@.len() - i,
    {
        let ghost done = byte_views(parts@);
        let ghost open = part@;
        proof {
            assert(path@.take(i + 1).drop_last() =~= path@.take(i as int));
            assert(done.push(open).drop_last() =~= done);
        }
        if path[i] == sep {
            parts.push(part);
            part = Vec::new();
            assert(byte_views(parts@) =~= done.push(open));
        } else {
            part.push(path[i]);
        }
        i = i + 1;
    }
    let ghost done = byte_views(parts@);
    let ghost open = part@;
    parts.push(part);
    proof {
        assert(byte_views(parts@) =~= done.push(open));
        assert(path@.take(i as int) =~= path@);
    }
    parts
}

/// The parts of a path.
pub fn path_parts(path: &[u8]) -> (r: PathParts)
    ensures
        r@ == path_view(path@),
{
    let rooted: bool = path.len() > 0 && path[0] == SLASH;
    let segments = split_bytes(path, SLASH);
    let ghost all = byte_views(segments@);
    let mut parts: Vec<Vec<u8>> = Vec::new();
    let mut i: usize = 0;
    assert(byte_views(parts@) =~= counted(all, rooted, 0));
    while i < segments.len()
        invariant
            i <= segments@.len(),
            all == byte_views(segments@),
            byte_views(parts@) == counted(all, rooted, i as int),
        decreases segments@.len() - i,
    {
        let segment = segments[i].as_slice();
        let ghost before = byte_views(parts@);
        assert(all[i as int] == segment@);
        let dot: bool = segment.len() == 1 && segment[0] == DOT;
        assert(dot == (segment@ == seq![DOT])) by {
            if segment@.len() == 1 && segment@[0] == DOT {
                assert(segment@ =~= seq![DOT]);
            }
        }
        if segment.len() > 0 && (!dot || (i == 0 && !rooted)) {
            parts.push(copy_bytes(segment));
            assert(byte_views(parts@) =~= before.push(segment@));
        }
        i = i + 1;
    }
    PathParts { rooted, parts }
}

/// Whether two paths say the same.
pub fn same_path(a: &[u8], b: &[u8]) -> (r: bool)
    ensures
        r == (path_view(a@) == path_view(b@)),
{
    let x = path_parts(a);
    let y = path_parts(b);
    assert(x@.parts.len() == x.parts@.len() && y@.parts.len() == y.parts@.len());
    if x.rooted != y.rooted || x.parts.len() != y.parts.len() {
        return false;
    }
    let mut i: usize = 0;
    while i < x.parts.len()
        invariant
            i <= x.parts@.len(),
            x@ == path_view(a@),
            y@ == path_view(b@),
            x.parts@.len() == y.parts@.len(),
            forall|k: int| 0 <= k < i ==> (#[trigger] x.parts@[k])@ == y.parts@[k]@,
        decreases x.parts@.len() - i,
    {
        if !same_bytes(x.parts[i].as_slice(), y.parts[i].as_slice()) {
            assert(x@.parts[i as int] != y@.parts[i as int]);
            return false;
        }
        i = i + 1;
    }
    assert(x@.parts =~= y@.parts);
    true
}

/// Takes a path from a directory.
pub fn join_path(dir: &[u8], path: &[u8]) -> (r: Vec<u8>)
    ensures
        r@ == joined_path(dir@, path@),
{
    if path.len() > 0 && path[0] == SLASH {
        return copy_bytes(path);
    }
    let mut out: Vec<u8> = copy_bytes(dir);
    if dir.len() > 0 && dir[dir.len() - 1] != SLASH {
        out.push(SLASH);
    }
    out.extend_from_slice(path);
    assert(out@ =~= joined_path(dir@, path@));
    out
}

/// The name of the file that a path leads to.
pub fn file_name(path: &[u8]) -> (r: Option<Vec<u8>>)
    ensures
        match r {
            Some(name) => file_name_of(path@) == Some(name@),
            None => file_name_of(path@) is None,
        },
{
    let mut parts = path_parts(path).parts;
    let ghost all = byte_views(parts@);
    match parts.pop() {
        None => None,
        Some(last) => {
            assert(all.last() == last@);
            let n: usize = last.len();
            if n == 1 && last[0] == DOT {
                assert(last@ =~= seq![DOT]);
                return None;
            }
            if n == 2 && last[0] == DOT && last[1] == DOT {
                assert(last@ =~= seq![DOT, DOT]);
                return None;
            }
            Some(last)
        },
    }
}

proof fn lemma_counted_push(segments: Seq<Seq<u8>>, more: Seq<u8>, rooted: bool, n: int)
    requires
        0 <= n <= segments.len(),
    ensures
        counted(segments.push(more), rooted, n) == counted(segments, rooted, n),
    decreases n,
{
    if n > 0 {
        lemma_counted_push(segments, more, rooted, n - 1);
    }
}

/// A name as directories have them: not empty, without slashes, and not `.`.
pub open spec fn is_plain(name: Seq<u8>) -> bool {
    name.len() > 0 && !name.contains(SLASH) && name != seq![DOT]
}

proof fn lemma_plain_in_dir(dir: Seq<u8>, name: Seq<u8>) -> (head: Seq<Seq<u8>>)
    requires
        is_plain(name),
    ensures
        head == (if dir.len() == 0 {
            Seq::empty()
        } else {
            let above = if dir.last() == SLASH {
                dir.drop_last()
            } else {
                dir
            };
            counted(
                split_on(above, SLASH),
                is_rooted(dir),
                split_on(above, SLASH).len() as int,
            )
        }),
        path_view(joined_path(dir, name)) == (PathView {
            rooted: is_rooted(dir),
            parts: head.push(name),
        }),
{
    assert(!is_rooted(name)) by {
        if is_rooted(name) {
            assert(name.contains(name[0]));
        }
    }
    let path = joined_path(dir, name);
    if dir.len() == 0 {
        assert(path =~= name);
        lemma_split_whole(name, SLASH);
        let segments = split_on(path, SLASH);
        assert(counted(segments, false, 0) =~= Seq::<Seq<u8>>::empty());
        assert(counted(segments, false, 1) =~= Seq::<Seq<u8>>::empty().push(name));
        Seq::empty()
    } else {
        let above = if dir.last() == SLASH {
            dir.drop_last()
        } else {
            dir
        };
        assert(path =~= above.push(SLASH) + name);
        lemma_split_part(above, name, SLASH);
        let segments = split_on(above, SLASH);
        assert(is_rooted(path) == is_rooted(dir));
        lemma_counted_push(segments, name, is_rooted(dir), segments.len() as int);
        lemma_split_nonempty(above, SLASH);
        counted(segments, is_rooted(dir), segments.len() as int)
    }
}

/// Within one directory, plain names lead to one place only if they are equal; and
/// a plain name other than `..` is the name of the file it leads to.
pub proof fn law_plain_names(dir: Seq<u8>, a: Seq<u8>, b: Seq<u8>)
    requires
        is_plain(a),
        is_plain(b),
    ensures
        path_view(joined_path(dir, a)) == path_view(joined_path(dir, b)) <==> a == b,
        a != seq![DOT, DOT] ==> file_name_of(joined_path(dir, a)) == Some(a) && file_name_of(a)
            == Some(a),
{
    let x = lemma_plain_in_dir(dir, a);
    let y = lemma_plain_in_dir(dir, b);
    assert(x.push(a).last() == a && x.push(b).last() == b);
    let none = lemma_plain_in_dir(Seq::empty(), a);
    assert(joined_path(Seq::empty(), a) =~= a) by {
        if is_rooted(a) {
            assert(a.contains(a[0]));
        }
    }
}

/// A plain name taken from a directory is one more part behind those of the directory,
/// and starts at the root if the directory does. A directory of no text has no parts.
pub proof fn law_plain_parts(dir: Seq<u8>, name: Seq<u8>) -> (head: Seq<Seq<u8>>)
    requires
        is_plain(name),
    ensures
        path_view(joined_path(dir, name)).parts == head.push(name),
        path_view(joined_path(dir, name)).rooted == (dir.len() > 0 && dir[0] == 0x2f),
        head == path_view(dir).parts,
        dir.len() == 0 ==> head.len() == 0 && joined_path(dir, name) == name,
{
    let head = lemma_plain_in_dir(dir, name);
    assert(!is_rooted(name)) by {
        if is_rooted(name) {
            assert(name.contains(name[0]));
        }
    }
    if dir.len() == 0 {
        assert(joined_path(dir, name) =~= name);
        law_path_end(name);
        assert(dir =~= Seq::<u8>::empty());
    } else if dir.last() == SLASH {
        let above = dir.drop_last();
        assert(dir =~= above.push(SLASH));
        if above.len() > 0 {
            law_path_end(above);
        } else {
            law_path_end(dir);
            assert(dir =~= seq![0x2fu8]);
            assert(above =~= Seq::<u8>::empty());
            lemma_split_whole(above, SLASH);
            reveal_with_fuel(counted, 2);
        }
    }
    head
}

/// Slashes at the end of a path and a dot behind a slash do not count.
pub proof fn law_path_end(path: Seq<u8>)
    requires
        path.len() > 0,
    ensures
        path_view(path.push(0x2f)) == path_view(path),
        path_view(path + seq![0x2fu8, 0x2eu8]) == path_view(path),
        path_view(seq![0x2fu8]).parts == Seq::<Seq<u8>>::empty(),
        path_view(Seq::<u8>::empty()).parts == Seq::<Seq<u8>>::empty(),
{
    let segments = split_on(path, SLASH);
    lemma_split_nonempty(path, SLASH);
    lemma_split_part(path, Seq::empty(), SLASH);
    assert(path.push(SLASH) + Seq::<u8>::empty() =~= path.push(SLASH));
    lemma_counted_push(segments, Seq::empty(), is_rooted(path), segments.len() as int);
    assert(!seq![DOT].contains(SLASH));
    lemma_split_part(path, seq![DOT], SLASH);
    assert(path.push(SLASH) + seq![DOT] =~= path + seq![0x2fu8, 0x2eu8]);
    lemma_counted_push(segments, seq![DOT], is_rooted(path), segments.len() as int);
    let none = Seq::<u8>::empty();
    lemma_split_whole(none, SLASH);
    lemma_split_part(none, none, SLASH);
    assert(none.push(SLASH) + none =~= seq![SLASH]);
    reveal_with_fuel(counted, 3);
}

/// A dot alone leads to no file, and neither do two.
pub proof fn law_dot_alone()
    ensures
        file_name_of(seq![0x2eu8]) is None,
        file_name_of(seq![0x2eu8, 0x2eu8]) is None,
{
    let dot = seq![DOT];
    assert(!dot.contains(SLASH));
    lemma_split_whole(dot, SLASH);
    reveal_with_fuel(counted, 2);
    assert(counted(split_on(dot, SLASH), false, 1) =~= seq![dot]);
    let two = seq![DOT, DOT];
    assert(!two.contains(SLASH));
    assert(two != dot) by {
        assert(two.len() == 2 && dot.len() == 1);
    }
    let head = law_plain_parts(Seq::empty(), two);
    assert(path_view(two).parts.last() == two);
}

/// A path taken from a directory: one that starts at the root stays as it is, and any other
/// follows the directory, behind a slash where the directory does not end in one.
pub proof fn law_joined_path(dir: Seq<u8>, path: Seq<u8>)
    ensures
        path.len() > 0 && path[0] == 0x2f ==> joined_path(dir, path) == path,
        (path.len() == 0 || path[0] != 0x2f) && dir.len() > 0 && dir.last() != 0x2f
            ==> joined_path(dir, path) == dir + seq![0x2fu8] + path,
        (path.len() == 0 || path[0] != 0x2f) && (dir.len() == 0 || dir.last() == 0x2f)
            ==> joined_path(dir, path) == dir + path,
{
    assert(dir.push(SLASH) + path =~= dir + seq![0x2fu8] + path);
}

/// The directory above another leads to no file, however that one is written.
pub proof fn law_directory_above(dir: Seq<u8>)
    ensures
        file_name_of(joined_path(dir, seq![0x2eu8, 0x2eu8])) is None,
{
    let two = seq![DOT, DOT];
    assert(!two.contains(SLASH));
    assert(two != seq![DOT]) by {
        assert(two.len() == 2 && seq![DOT].len() == 1);
    }
    let head = law_plain_parts(dir, two);
    assert(head.push(two).last() == two);
}

} // verus!
