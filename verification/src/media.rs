//! Media files: which ones to take, in what order, and what their names say.
//!
//! A path is the sequence of its bytes, as on Unix.

use crate::text;
use vstd::prelude::*;

verus! {

/// `/`
pub const SLASH: u8 = 0x2f;

/// `.`
pub const DOT: u8 = 0x2e;

/// Where the last component of a path begins: after its last slash.
pub open spec fn component_start(path: Seq<u8>) -> int
    decreases path.len(),
{
    if path.len() == 0 || path.last() == SLASH {
        path.len() as int
    } else {
        component_start(path.drop_last())
    }
}

/// Where the file name of a path begins and ends.  Slashes and `.` at the end do
/// not count; a path that ends in `..`, and one with no name at all, has none.
pub open spec fn file_span(path: Seq<u8>) -> Option<(int, int)>
    decreases path.len(),
{
    if path.len() == 0 {
        None
    } else if path.last() == SLASH {
        file_span(path.drop_last())
    } else {
        let start = component_start(path);
        let name = path.skip(start);
        if name == seq![DOT] {
            file_span(path.drop_last())
        } else if name == seq![DOT, DOT] {
            None
        } else {
            Some((start, path.len() as int))
        }
    }
}

/// Where the last dot is; -1 if there is none.
pub open spec fn last_dot(name: Seq<u8>) -> int
    decreases name.len(),
{
    if name.len() == 0 {
        -1
    } else if name.last() == DOT {
        name.len() - 1
    } else {
        last_dot(name.drop_last())
    }
}

/// The file name of a path.
pub open spec fn file_name(path: Seq<u8>) -> Option<Seq<u8>> {
    match file_span(path) {
        Some((from, to)) => Some(path.subrange(from, to)),
        None => None,
    }
}

/// The length of a file name without its extension.  A dot at the start begins no
/// extension.
pub open spec fn stem_len(name: Seq<u8>) -> int {
    if last_dot(name) <= 0 {
        name.len() as int
    } else {
        last_dot(name)
    }
}

/// The file name of a path without its extension.
pub open spec fn file_stem(path: Seq<u8>) -> Option<Seq<u8>> {
    match file_name(path) {
        Some(name) => Some(name.take(stem_len(name))),
        None => None,
    }
}

/// The extension of the file name of a path.
pub open spec fn extension(path: Seq<u8>) -> Option<Seq<u8>> {
    match file_name(path) {
        Some(name) => if last_dot(name) <= 0 {
            None
        } else {
            Some(name.skip(last_dot(name) + 1))
        },
        None => None,
    }
}

/// `.srt`
pub open spec fn srt_suffix() -> Seq<u8> {
    seq![0x2eu8, 0x73u8, 0x72u8, 0x74u8]
}

/// Whether a path ends in a file name such as `..mp4`, of which only `..` is left when
/// the extension is taken away.
pub open spec fn ends_in_dots(path: Seq<u8>) -> bool {
    file_span(path) matches Some((from, to)) && to == path.len() && path[from] == DOT && last_dot(
        path.subrange(from, to),
    ) == 1
}

/// The path of the subtitles of a media file: its extension is replaced by `srt`.
/// A path without a file name is left as it is, and of one that ends in a name such
/// as `..mp4` the extension is taken away, which leaves no name to put another one on.
pub open spec fn srt_path(path: Seq<u8>) -> Seq<u8> {
    match file_span(path) {
        Some((from, to)) => if ends_in_dots(path) {
            path.take(from + 2)
        } else {
            path.take(from + stem_len(path.subrange(from, to))) + srt_suffix()
        },
        None => path,
    }
}

pub proof fn lemma_component_start(path: Seq<u8>)
    ensures
        0 <= component_start(path) <= path.len(),
        forall|i: int| component_start(path) <= i < path.len() ==> path[i] != SLASH,
        component_start(path) > 0 ==> path[component_start(path) - 1] == SLASH,
    decreases path.len(),
{
    if path.len() > 0 && path.last() != SLASH {
        let front = path.drop_last();
        lemma_component_start(front);
        assert forall|i: int| component_start(path) <= i < path.len() implies path[i] != SLASH by {
            if i < front.len() {
                assert(front[i] == path[i]);
            }
        }
    }
}

pub proof fn lemma_last_dot(name: Seq<u8>)
    ensures
        -1 <= last_dot(name) < name.len(),
        last_dot(name) >= 0 ==> name[last_dot(name)] == DOT,
        forall|i: int| last_dot(name) < i < name.len() ==> name[i] != DOT,
    decreases name.len(),
{
    if name.len() > 0 && name.last() != DOT {
        let front = name.drop_last();
        lemma_last_dot(front);
        assert forall|i: int| last_dot(name) < i < name.len() implies name[i] != DOT by {
            if i < front.len() {
                assert(front[i] == name[i]);
            }
        }
    }
}

/// The file name lies within the path, is not empty, and is a whole part of it.
pub proof fn lemma_file_span(path: Seq<u8>)
    ensures
        file_span(path) matches Some((from, to)) ==> {
            &&& 0 <= from < to <= path.len()
            &&& from > 0 ==> path[from - 1] == SLASH
            &&& forall|i: int| from <= i < to ==> path[i] != SLASH
        },
    decreases path.len(),
{
    if path.len() > 0 {
        let front = path.drop_last();
        lemma_file_span(front);
        lemma_component_start(path);
        lemma_component_start(front);
        if file_span(front) is Some {
            let (from, to) = file_span(front)->0;
            assert(from > 0 ==> front[from - 1] == path[from - 1]);
            assert forall|i: int| from <= i < to implies path[i] != SLASH by {
                assert(front[i] == path[i]);
            }
        }
    }
}

fn find_file_name(path: &[u8]) -> (span: Option<(usize, usize)>)
    ensures
        match span {
            Some((from, to)) => file_span(path@) == Some((from as int, to as int)) && from < to
                <= path@.len(),
            None => file_span(path@) is None,
        },
{
    let mut to: usize = path.len();
    assert(path@.take(to as int) =~= path@);
    loop
        invariant
            to <= path@.len(),
            file_span(path@.take(to as int)) == file_span(path@),
        decreases to,
    {
        let ghost rest = path@.take(to as int);
        if to == 0 {
            return None;
        }
        assert(rest.drop_last() =~= path@.take(to - 1));
        if path[to - 1] == SLASH {
            to = to - 1;
        } else {
            let mut from: usize = to;
            assert(rest.take(from as int) =~= rest);
            while 0 < from && path[from - 1] != SLASH
                invariant
                    from <= to <= path@.len(),
                    rest == path@.take(to as int),
                    component_start(rest.take(from as int)) == component_start(rest),
                decreases from,
            {
                assert(rest.take(from as int).drop_last() =~= rest.take(from - 1));
                from = from - 1;
            }
            assert(component_start(rest) == from);
            proof {
                lemma_component_start(rest);
            }
            let ghost name = rest.skip(from as int);
            if to - from == 1 && path[from] == DOT {
                assert(name =~= seq![DOT]);
                to = to - 1;
            } else if to - from == 2 && path[from] == DOT && path[from + 1] == DOT {
                assert(name =~= seq![DOT, DOT]);
                return None;
            } else {
                assert(name != seq![DOT]) by {
                    assert(name.len() == to - from);
                    assert(to - from == 1 ==> name[0] == path@[from as int]);
                }
                assert(name != seq![DOT, DOT]) by {
                    assert(name.len() == to - from);
                    assert(to - from == 2 ==> name[0] == path@[from as int] && name[1]
                        == path@[from + 1]);
                }
                return Some((from, to));
            }
        }
    }
}

fn find_last_dot(path: &[u8], from: usize, to: usize) -> (dot: Option<usize>)
    requires
        from <= to <= path@.len(),
    ensures
        match dot {
            Some(d) => from <= d < to && last_dot(path@.subrange(from as int, to as int)) == d
                - from,
            None => last_dot(path@.subrange(from as int, to as int)) == -1,
        },
{
    let ghost name = path@.subrange(from as int, to as int);
    let mut i: usize = to;
    assert(name.take(i - from) =~= name);
    while from < i
        invariant
            from <= i <= to <= path@.len(),
            name == path@.subrange(from as int, to as int),
            last_dot(name.take(i - from)) == last_dot(name),
        decreases i,
    {
        assert(name.take(i - from).drop_last() =~= name.take(i - from - 1));
        assert(name.take(i - from).last() == path@[i - 1]);
        if path[i - 1] == DOT {
            return Some(i - 1);
        }
        i = i - 1;
    }
    None
}

fn copy_bytes(path: &[u8], from: usize, to: usize) -> (out: Vec<u8>)
    requires
        from <= to <= path@.len(),
    ensures
        out@ == path@.subrange(from as int, to as int),
{
    let mut out: Vec<u8> = Vec::new();
    let mut i: usize = from;
    while i < to
        invariant
            from <= i <= to <= path@.len(),
            out@ =~= path@.subrange(from as int, i as int),
        decreases to - i,
    {
        out.push(path[i]);
        i = i + 1;
    }
    out
}

/// `foo/bar/video.mp4` -> `foo/bar/video.srt`
pub fn srt_path_for(media: &[u8]) -> (path: Vec<u8>)
    ensures
        path@ == srt_path(media@),
{
    match find_file_name(media) {
        None => {
            let path = copy_bytes(media, 0, media.len());
            assert(path@ =~= media@);
            path
        },
        Some((from, to)) => {
            let end: usize = match find_last_dot(media, from, to) {
                Some(d) => if d > from {
                    d
                } else {
                    to
                },
                None => to,
            };
            if to == media.len() && media[from] == DOT && end == from + 1 && end < to {
                let path = copy_bytes(media, 0, from + 2);
                assert(path@ =~= media@.take(from + 2));
                return path;
            }
            let mut path = copy_bytes(media, 0, end);
            path.push(0x2e);
            path.push(0x73);
            path.push(0x72);
            path.push(0x74);
            assert(path@ =~= media@.take(end as int) + srt_suffix());
            path
        },
    }
}

/// A byte with ASCII letters in lower case.
pub open spec fn lower_byte(b: u8) -> u8 {
    if 0x41 <= b <= 0x5a {
        (b + 32) as u8
    } else {
        b
    }
}

/// Whether two byte strings are the same but for the case of ASCII letters.
pub open spec fn same_but_case(a: Seq<u8>, b: Seq<u8>) -> bool {
    a.len() == b.len() && forall|i: int|
        0 <= i < a.len() ==> lower_byte(#[trigger] a[i]) == lower_byte(b[i])
}

/// Whether a file has one of the extensions, in either case.
pub open spec fn has_extension(path: Seq<u8>, exts: Seq<Seq<char>>) -> bool {
    extension(path) is Some && exists|i: int|
        0 <= i < exts.len() && same_but_case(
            vstd::utf8::encode_utf8(#[trigger] exts[i]),
            extension(path)->0,
        )
}

fn to_lower_byte(b: u8) -> (r: u8)
    ensures
        r == lower_byte(b),
{
    if 0x41 <= b && b <= 0x5a {
        b + 32
    } else {
        b
    }
}

fn equal_but_case(a: &[u8], path: &[u8], from: usize, to: usize) -> (r: bool)
    requires
        from <= to <= path@.len(),
    ensures
        r == same_but_case(a@, path@.subrange(from as int, to as int)),
{
    let ghost b = path@.subrange(from as int, to as int);
    if a.len() != to - from {
        return false;
    }
    let mut i: usize = 0;
    while i < a.len()
        invariant
            i <= a@.len(),
            from <= to <= path@.len(),
            a@.len() == to - from,
            b == path@.subrange(from as int, to as int),
            forall|k: int| 0 <= k < i ==> lower_byte(#[trigger] a@[k]) == lower_byte(b[k]),
        decreases a@.len() - i,
    {
        if to_lower_byte(a[i]) != to_lower_byte(path[from + i]) {
            assert(lower_byte(a@[i as int]) != lower_byte(b[i as int]));
            return false;
        }
        i = i + 1;
    }
    true
}

/// Whether a file is one to take, by its extension.
pub fn is_media(path: &[u8], exts: &Vec<String>) -> (r: bool)
    ensures
        r == has_extension(path@, text::views(exts@)),
{
    let (from, to) = match find_file_name(path) {
        None => {
            return false;
        },
        Some(span) => span,
    };
    let dot: usize = match find_last_dot(path, from, to) {
        None => {
            return false;
        },
        Some(d) => d,
    };
    if dot == from {
        return false;
    }
    assert(extension(path@) == Some(path@.subrange(dot + 1, to as int))) by {
        let name = path@.subrange(from as int, to as int);
        assert(name.skip(dot - from + 1) =~= path@.subrange(dot + 1, to as int));
    }
    let ghost all = text::views(exts@);
    let mut i: usize = 0;
    while i < exts.len()
        invariant
            i <= exts@.len(),
            all == text::views(exts@),
            dot < to <= path@.len(),
            extension(path@) == Some(path@.subrange(dot + 1, to as int)),
            forall|k: int|
                0 <= k < i ==> !same_but_case(
                    vstd::utf8::encode_utf8(#[trigger] all[k]),
                    extension(path@)->0,
                ),
        decreases exts.len() - i,
    {
        assert(all[i as int] == exts@[i as int]@);
        if equal_but_case(exts[i].as_str().as_bytes(), path, dot + 1, to) {
            return true;
        }
        i = i + 1;
    }
    false
}

/// The parts of a path between its slashes.
pub open spec fn parts(path: Seq<u8>) -> Seq<Seq<u8>>
    decreases path.len(),
{
    if path.len() == 0 {
        seq![Seq::empty()]
    } else {
        let front = parts(path.drop_last());
        if path.last() == SLASH {
            front.push(Seq::empty())
        } else {
            front.update(front.len() - 1, front.last().push(path.last()))
        }
    }
}

/// Bytes as numbers above zero.
pub open spec fn raised(bytes: Seq<u8>) -> Seq<int> {
    Seq::new(bytes.len(), |i: int| bytes[i] as int + 1)
}

/// Part `i` of a path as it counts for the order of paths: empty parts and `.` do
/// not, except for a `.` at the start; `..` comes before every name; names are
/// ordered by their bytes, a name before the longer ones that begin with it.
pub open spec fn part_key(i: int, part: Seq<u8>) -> Seq<int> {
    if part.len() == 0 {
        Seq::empty()
    } else if part == seq![DOT] {
        if i == 0 {
            seq![2int]
        } else {
            Seq::empty()
        }
    } else if part == seq![DOT, DOT] {
        seq![3int]
    } else {
        seq![4int] + raised(part) + seq![0int]
    }
}

/// The first parts of a path, one after the other.
pub open spec fn parts_key(parts: Seq<Seq<u8>>) -> Seq<int>
    decreases parts.len(),
{
    if parts.len() == 0 {
        Seq::empty()
    } else {
        parts_key(parts.drop_last()) + part_key(parts.len() - 1, parts.last())
    }
}

/// What paths are ordered by: part by part, a path from the root first.
pub open spec fn path_key(path: Seq<u8>) -> Seq<int> {
    (if path.len() > 0 && path[0] == SLASH {
        seq![1int]
    } else {
        Seq::empty()
    }) + parts_key(parts(path))
}

/// Whether `a` comes before `b` or is equal to it, number by number.
pub open spec fn not_after(a: Seq<int>, b: Seq<int>) -> bool
    decreases a.len(),
{
    if a.len() == 0 {
        true
    } else if b.len() == 0 {
        false
    } else if a[0] != b[0] {
        a[0] < b[0]
    } else {
        not_after(a.drop_first(), b.drop_first())
    }
}

/// Where `path` goes among paths that are in order: after those that do not come
/// after it.
pub open spec fn place(paths: Seq<Seq<u8>>, path: Seq<u8>) -> int
    decreases paths.len(),
{
    if paths.len() == 0 || not_after(path_key(paths.last()), path_key(path)) {
        paths.len() as int
    } else {
        place(paths.drop_last(), path)
    }
}

/// The files with one of the extensions, in order.
pub open spec fn media_files(found: Seq<Seq<u8>>, exts: Seq<Seq<char>>) -> Seq<Seq<u8>>
    decreases found.len(),
{
    if found.len() == 0 {
        Seq::empty()
    } else {
        let before = media_files(found.drop_last(), exts);
        if has_extension(found.last(), exts) {
            before.insert(place(before, found.last()), found.last())
        } else {
            before
        }
    }
}

/// The bytes of each of several paths.
pub open spec fn byte_views(paths: Seq<Vec<u8>>) -> Seq<Seq<u8>> {
    paths.map_values(|p: Vec<u8>| p@)
}

/// Numbers as integers.
pub open spec fn key_view(key: Seq<u16>) -> Seq<int> {
    key.map_values(|k: u16| k as int)
}

fn push_part(key: &mut Vec<u16>, first: bool, path: &[u8], from: usize, to: usize)
    requires
        from <= to <= path@.len(),
    ensures
        key_view(final(key)@) == key_view(old(key)@) + part_key(
            if first {
                0
            } else {
                1
            },
            path@.subrange(from as int, to as int),
        ),
{
    let ghost part = path@.subrange(from as int, to as int);
    let ghost before = key_view(key@);
    if to - from == 0 {
        assert(key_view(key@) =~= before + part_key(0, part));
        return;
    }
    if to - from == 1 && path[from] == DOT {
        assert(part =~= seq![DOT]);
        if first {
            key.push(2);
        }
        assert(key_view(key@) =~= before + part_key(if first { 0 } else { 1 }, part));
        return;
    }
    if to - from == 2 && path[from] == DOT && path[from + 1] == DOT {
        assert(part =~= seq![DOT, DOT]);
        key.push(3);
        assert(key_view(key@) =~= before + part_key(if first { 0 } else { 1 }, part));
        return;
    }
    assert(part != seq![DOT] && part != seq![DOT, DOT]) by {
        assert(part.len() == to - from);
        assert(to - from == 1 ==> part[0] == path@[from as int]);
        assert(to - from == 2 ==> part[0] == path@[from as int] && part[1] == path@[from + 1]);
    }
    key.push(4);
    assert(key_view(key@) =~= before + seq![4int] + raised(path@.subrange(from as int, from as int)));
    let mut i: usize = from;
    while i < to
        invariant
            from <= i <= to <= path@.len(),
            key_view(key@) == before + seq![4int] + raised(path@.subrange(from as int, i as int)),
        decreases to - i,
    {
        let ghost old_key = key_view(key@);
        key.push(path[i] as u16 + 1);
        assert(key_view(key@) =~= old_key.push(path@[i as int] as int + 1));
        assert(raised(path@.subrange(from as int, i + 1)) =~= raised(
            path@.subrange(from as int, i as int),
        ).push(path@[i as int] as int + 1));
        assert(key_view(key@) =~= before + seq![4int] + raised(
            path@.subrange(from as int, i + 1),
        ));
        i = i + 1;
    }
    let ghost old_key = key_view(key@);
    key.push(0);
    assert(key_view(key@) =~= old_key.push(0));
    assert(key_view(key@) =~= before + part_key(if first { 0 } else { 1 }, part));
}

fn key_of(path: &[u8]) -> (key: Vec<u16>)
    ensures
        key_view(key@) == path_key(path@),
{
    let mut key: Vec<u16> = Vec::new();
    if path.len() > 0 && path[0] == SLASH {
        key.push(1);
    }
    let ghost root = key_view(key@);
    assert(root =~= (if path@.len() > 0 && path@[0] == SLASH {
        seq![1int]
    } else {
        Seq::empty()
    }));
    let ghost mut done: Seq<Seq<u8>> = Seq::empty();
    let mut first: bool = true;
    let mut from: usize = 0;
    let mut i: usize = 0;
    assert(path@.subrange(0, 0) =~= Seq::empty());
    assert(parts(path@.take(0)) =~= done.push(path@.subrange(0, 0)));
    assert(key_view(key@) =~= root + parts_key(done));
    while i < path.len()
        invariant
            from <= i <= path@.len(),
            first == (done.len() == 0),
            parts(path@.take(i as int)) == done.push(path@.subrange(from as int, i as int)),
            key_view(key@) == root + parts_key(done),
        decreases path@.len() - i,
    {
        let ghost part = path@.subrange(from as int, i as int);
        assert(path@.take(i + 1).drop_last() =~= path@.take(i as int));
        if path[i] == SLASH {
            push_part(&mut key, first, path, from, i);
            proof {
                let all = done.push(part);
                assert(all.drop_last() =~= done);
                assert(key_view(key@) =~= root + parts_key(all));
                done = all;
            }
            first = false;
            from = i + 1;
            assert(path@.subrange(from as int, from as int) =~= Seq::empty());
        } else {
            assert(path@.subrange(from as int, i + 1) =~= part.push(path@[i as int]));
            assert(done.push(part).update(done.len() as int, part.push(path@[i as int]))
                =~= done.push(part.push(path@[i as int])));
        }
        i = i + 1;
    }
    assert(path@.take(i as int) =~= path@);
    push_part(&mut key, first, path, from, i);
    proof {
        let all = done.push(path@.subrange(from as int, i as int));
        assert(all.drop_last() =~= done);
        assert(key_view(key@) =~= root + parts_key(all));
    }
    key
}

fn key_not_after(a: &Vec<u16>, b: &Vec<u16>) -> (r: bool)
    ensures
        r == not_after(key_view(a@), key_view(b@)),
{
    let ghost x = key_view(a@);
    let ghost y = key_view(b@);
    let mut i: usize = 0;
    assert(x.skip(0) =~= x);
    assert(y.skip(0) =~= y);
    loop
        invariant
            x == key_view(a@),
            y == key_view(b@),
            i <= a@.len(),
            i <= b@.len(),
            not_after(x.skip(i as int), y.skip(i as int)) == not_after(x, y),
        decreases a@.len() - i,
    {
        if i == a.len() {
            return true;
        }
        if i == b.len() {
            return false;
        }
        assert(x.skip(i as int)[0] == a@[i as int]);
        assert(y.skip(i as int)[0] == b@[i as int]);
        if a[i] != b[i] {
            return a[i] < b[i];
        }
        assert(x.skip(i as int).drop_first() =~= x.skip(i + 1));
        assert(y.skip(i as int).drop_first() =~= y.skip(i + 1));
        i = i + 1;
    }
}

/// Takes the files with one of the extensions, and puts them in order.
pub fn select_media(found: &Vec<Vec<u8>>, exts: &Vec<String>) -> (files: Vec<Vec<u8>>)
    ensures
        byte_views(files@) == media_files(byte_views(found@), text::views(exts@)),
{
    let ghost all = byte_views(found@);
    let ghost e = text::views(exts@);
    let mut files: Vec<Vec<u8>> = Vec::new();
    let mut keys: Vec<Vec<u16>> = Vec::new();
    let mut i: usize = 0;
    assert(byte_views(files@) =~= media_files(all.take(0), e));
    while i < found.len()
        invariant
            all == byte_views(found@),
            e == text::views(exts@),
            i <= found@.len(),
            keys@.len() == files@.len(),
            forall|k: int|
                0 <= k < keys@.len() ==> key_view(#[trigger] keys@[k]@) == path_key(files@[k]@),
            byte_views(files@) == media_files(all.take(i as int), e),
        decreases found.len() - i,
    {
        assert(all.take(i + 1).drop_last() =~= all.take(i as int));
        assert(all.take(i + 1).last() == found@[i as int]@);
        let path = found[i].as_slice();
        if is_media(path, exts) {
            let key = key_of(path);
            let ghost before = byte_views(files@);
            let mut pos: usize = files.len();
            assert(before.take(pos as int) =~= before);
            while 0 < pos && !key_not_after(&keys[pos - 1], &key)
                invariant
                    pos <= files@.len(),
                    keys@.len() == files@.len(),
                    before == byte_views(files@),
                    key_view(key@) == path_key(path@),
                    forall|k: int|
                        0 <= k < keys@.len() ==> key_view(#[trigger] keys@[k]@) == path_key(
                            files@[k]@,
                        ),
                    place(before.take(pos as int), path@) == place(before, path@),
                decreases pos,
            {
                assert(before.take(pos as int).last() == files@[pos - 1]@);
                assert(before.take(pos as int).drop_last() =~= before.take(pos - 1));
                pos = pos - 1;
            }
            assert(pos > 0 ==> before.take(pos as int).last() == files@[pos - 1]@);
            assert(place(before, path@) == pos);
            let copy = copy_bytes(path, 0, path.len());
            assert(copy@ =~= path@);
            files.insert(pos, copy);
            keys.insert(pos, key);
            assert(byte_views(files@) =~= before.insert(pos as int, path@));
        }
        i = i + 1;
    }
    assert(all.take(i as int) =~= all);
    files
}

/// Of two paths, one does not come after the other.
pub proof fn lemma_order_total(a: Seq<int>, b: Seq<int>)
    ensures
        not_after(a, b) || not_after(b, a),
    decreases a.len(),
{
    if a.len() > 0 && b.len() > 0 {
        lemma_order_total(a.drop_first(), b.drop_first());
    }
}

/// The order of paths is transitive.
pub proof fn lemma_order_transitive(a: Seq<int>, b: Seq<int>, c: Seq<int>)
    requires
        not_after(a, b),
        not_after(b, c),
    ensures
        not_after(a, c),
    decreases a.len(),
{
    if a.len() > 0 && b.len() > 0 && c.len() > 0 && a[0] == b[0] && b[0] == c[0] {
        lemma_order_transitive(a.drop_first(), b.drop_first(), c.drop_first());
    }
}

/// Whether no path comes after a later one.
pub open spec fn ordered(paths: Seq<Seq<u8>>) -> bool {
    forall|i: int, j: int|
        0 <= i < j < paths.len() ==> not_after(
            path_key(#[trigger] paths[i]),
            path_key(#[trigger] paths[j]),
        )
}

proof fn lemma_place(paths: Seq<Seq<u8>>, path: Seq<u8>)
    requires
        ordered(paths),
    ensures
        0 <= place(paths, path) <= paths.len(),
        forall|i: int|
            0 <= i < place(paths, path) ==> not_after(path_key(#[trigger] paths[i]), path_key(path)),
        forall|i: int|
            place(paths, path) <= i < paths.len() ==> not_after(
                path_key(path),
                path_key(#[trigger] paths[i]),
            ),
    decreases paths.len(),
{
    if paths.len() > 0 {
        let last = paths.last();
        let front = paths.drop_last();
        if not_after(path_key(last), path_key(path)) {
            assert forall|i: int| 0 <= i < paths.len() implies not_after(
                path_key(#[trigger] paths[i]),
                path_key(path),
            ) by {
                if i < paths.len() - 1 {
                    assert(not_after(path_key(paths[i]), path_key(paths[paths.len() - 1])));
                    lemma_order_transitive(path_key(paths[i]), path_key(last), path_key(path));
                }
            }
        } else {
            assert(ordered(front)) by {
                assert forall|i: int, j: int| 0 <= i < j < front.len() implies not_after(
                    path_key(#[trigger] front[i]),
                    path_key(#[trigger] front[j]),
                ) by {
                    assert(not_after(path_key(paths[i]), path_key(paths[j])));
                }
            }
            lemma_place(front, path);
            lemma_order_total(path_key(last), path_key(path));
            assert forall|i: int| 0 <= i < place(paths, path) implies not_after(
                path_key(#[trigger] paths[i]),
                path_key(path),
            ) by {
                assert(front[i] == paths[i]);
            }
            assert forall|i: int| place(paths, path) <= i < paths.len() implies not_after(
                path_key(path),
                path_key(#[trigger] paths[i]),
            ) by {
                if i < front.len() {
                    assert(front[i] == paths[i]);
                }
            }
        }
    }
}

/// The files taken are in order.
pub proof fn law_media_files_ordered(found: Seq<Seq<u8>>, exts: Seq<Seq<char>>)
    ensures
        ordered(media_files(found, exts)),
    decreases found.len(),
{
    if found.len() > 0 {
        law_media_files_ordered(found.drop_last(), exts);
        let before = media_files(found.drop_last(), exts);
        let path = found.last();
        lemma_place(before, path);
        let k = place(before, path);
        let after = before.insert(k, path);
        assert(ordered(after)) by {
            assert forall|i: int, j: int| 0 <= i < j < after.len() implies not_after(
                path_key(#[trigger] after[i]),
                path_key(#[trigger] after[j]),
            ) by {
                let a = if i < k {
                    i
                } else {
                    i - 1
                };
                let b = if j < k {
                    j
                } else {
                    j - 1
                };
                if i == k {
                    assert(after[j] == before[b]);
                } else if j == k {
                    assert(after[i] == before[a]);
                } else {
                    assert(after[i] == before[a]);
                    assert(after[j] == before[b]);
                    assert(not_after(path_key(before[a]), path_key(before[b])));
                }
            }
        }
    }
}

/// The files taken are those found that have one of the extensions, each as often
/// as it was found.
pub proof fn law_media_files_complete(found: Seq<Seq<u8>>, exts: Seq<Seq<char>>)
    ensures
        media_files(found, exts).to_multiset() == found.filter(
            |p: Seq<u8>| has_extension(p, exts),
        ).to_multiset(),
    decreases found.len(),
{
    broadcast use vstd::seq_lib::group_to_multiset_ensures;

    let keep = |p: Seq<u8>| has_extension(p, exts);
    if found.len() == 0 {
        assert(found.filter(keep) =~= Seq::empty()) by {
            reveal(Seq::filter);
        }
    } else {
        let front = found.drop_last();
        law_media_files_complete(front, exts);
        law_media_files_ordered(front, exts);
        let before = media_files(front, exts);
        lemma_place(before, found.last());
        let k = place(before, found.last());
        assert(found.filter(keep) == if keep(found.last()) {
            front.filter(keep).push(found.last())
        } else {
            front.filter(keep)
        }) by {
            reveal(Seq::filter);
        }
        if keep(found.last()) {
            vstd::seq_lib::to_multiset_insert(before, k, found.last());
        }
    }
}

/// The extensions of media files that are taken by default.
pub open spec fn default_extension_list() -> Seq<Seq<char>> {
    seq![
        "mp4"@,
        "mkv"@,
        "mov"@,
        "avi"@,
        "webm"@,
        "m4v"@,
        "mpg"@,
        "mpeg"@,
        "ts"@,
        "m2ts"@,
        "flv"@,
        "mp3"@,
        "wav"@,
        "flac"@,
        "m4a"@,
        "aac"@,
        "opus"@,
        "ogg"@,
        "oga"@,
        "wma"@,
        "amr"@,
    ]
}

/// The extensions of media files that are taken by default.
pub fn default_extensions() -> (exts: Vec<String>)
    ensures
        text::views(exts@) == default_extension_list(),
{
    let mut v: Vec<String> = Vec::new();
    v.push("mp4".to_owned());
    v.push("mkv".to_owned());
    v.push("mov".to_owned());
    v.push("avi".to_owned());
    v.push("webm".to_owned());
    v.push("m4v".to_owned());
    v.push("mpg".to_owned());
    v.push("mpeg".to_owned());
    v.push("ts".to_owned());
    v.push("m2ts".to_owned());
    v.push("flv".to_owned());
    v.push("mp3".to_owned());
    v.push("wav".to_owned());
    v.push("flac".to_owned());
    v.push("m4a".to_owned());
    v.push("aac".to_owned());
    v.push("opus".to_owned());
    v.push("ogg".to_owned());
    v.push("oga".to_owned());
    v.push("wma".to_owned());
    v.push("amr".to_owned());
    assert(text::views(v@) =~= default_extension_list());
    v
}

/// The language that a word in a file name stands for.
pub open spec fn language_of(word: Seq<char>) -> Option<Seq<char>> {
    if word == "zh"@ || word == "chinese"@ || word == "cn"@ || word == "mandarin"@ || word
        == "cantonese"@ {
        Some("zh"@)
    } else if word == "ja"@ || word == "jp"@ || word == "japanese"@ {
        Some("ja"@)
    } else if word == "en"@ || word == "english"@ {
        Some("en"@)
    } else if word == "ko"@ || word == "korean"@ {
        Some("ko"@)
    } else if word == "fr"@ || word == "french"@ {
        Some("fr"@)
    } else if word == "de"@ || word == "german"@ {
        Some("de"@)
    } else if word == "es"@ || word == "spanish"@ {
        Some("es"@)
    } else if word == "ru"@ || word == "russian"@ {
        Some("ru"@)
    } else {
        None
    }
}

/// The language of the first word that stands for one.
pub open spec fn first_language(words: Seq<Seq<char>>) -> Option<Seq<char>>
    decreases words.len(),
{
    if words.len() == 0 {
        None
    } else if language_of(words[0]) is Some {
        language_of(words[0])
    } else {
        first_language(words.drop_first())
    }
}

/// The words of a text: what stands between the characters that are neither
/// alphabetic nor numeric.
pub open spec fn words_of(s: Seq<char>) -> Seq<Seq<char>> {
    text::pieces(s, s.map_values(|c: char| !text::is_alphanumeric(c)))
}

/// The language that the name of a media file gives, in lower case and word by
/// word; none if the name is not valid UTF-8.
pub open spec fn name_language(path: Seq<u8>) -> Option<Seq<char>> {
    match file_stem(path) {
        Some(stem) => if vstd::utf8::valid_utf8(stem) {
            first_language(words_of(text::lower_case(vstd::utf8::decode_utf8(stem))))
        } else {
            None
        },
        None => None,
    }
}

fn find_language(word: &str) -> (code: Option<&'static str>)
    ensures
        match code {
            Some(c) => language_of(word@) == Some(c@),
            None => language_of(word@) is None,
        },
{
    if text::same(word, "zh") || text::same(word, "chinese") || text::same(word, "cn")
        || text::same(word, "mandarin") || text::same(word, "cantonese") {
        Some("zh")
    } else if text::same(word, "ja") || text::same(word, "jp") || text::same(word, "japanese") {
        Some("ja")
    } else if text::same(word, "en") || text::same(word, "english") {
        Some("en")
    } else if text::same(word, "ko") || text::same(word, "korean") {
        Some("ko")
    } else if text::same(word, "fr") || text::same(word, "french") {
        Some("fr")
    } else if text::same(word, "de") || text::same(word, "german") {
        Some("de")
    } else if text::same(word, "es") || text::same(word, "spanish") {
        Some("es")
    } else if text::same(word, "ru") || text::same(word, "russian") {
        Some("ru")
    } else {
        None
    }
}

/// Whether an optional string is this optional text.
pub open spec fn holds(s: Option<String>, t: Option<Seq<char>>) -> bool {
    match s {
        Some(x) => t == Some(x@),
        None => t is None,
    }
}

/// The language of the first word that stands for one.
pub fn lang_from_words(words: &Vec<String>) -> (code: Option<String>)
    ensures
        holds(code, first_language(text::views(words@))),
{
    let ghost all = text::views(words@);
    let mut i: usize = 0;
    assert(all.skip(0) =~= all);
    while i < words.len()
        invariant
            all == text::views(words@),
            i <= words@.len(),
            first_language(all.skip(i as int)) == first_language(all),
        decreases words.len() - i,
    {
        assert(all.skip(i as int)[0] == words@[i as int]@);
        assert(all.skip(i as int).drop_first() =~= all.skip(i + 1));
        if let Some(code) = find_language(words[i].as_str()) {
            return Some(code.to_owned());
        }
        i = i + 1;
    }
    None
}

/// Finds a language in the name of a media file: `talk.zh.mp4` -> `zh`,
/// `movie_[ja].mkv` -> `ja`.
pub fn lang_from_name(media: &[u8]) -> (code: Option<String>)
    ensures
        holds(code, name_language(media@)),
{
    let (from, to) = match find_file_name(media) {
        None => {
            return None;
        },
        Some(span) => span,
    };
    let end: usize = match find_last_dot(media, from, to) {
        Some(d) => if d > from {
            d
        } else {
            to
        },
        None => to,
    };
    let bytes = copy_bytes(media, from, end);
    assert(file_stem(media@) == Some(bytes@)) by {
        let name = media@.subrange(from as int, to as int);
        assert(name.take(end - from) =~= bytes@);
    }
    let stem = match text::decode(bytes.as_slice()) {
        None => {
            return None;
        },
        Some(s) => s,
    };
    let lower = text::to_lower_case(stem.as_str());
    let chars = text::chars_of(lower.as_str());
    let mut seps: Vec<bool> = Vec::new();
    let ghost want = chars@.map_values(|c: char| !text::is_alphanumeric(c));
    let mut i: usize = 0;
    while i < chars.len()
        invariant
            i <= chars@.len(),
            want == chars@.map_values(|c: char| !text::is_alphanumeric(c)),
            seps@ =~= want.take(i as int),
        decreases chars.len() - i,
    {
        seps.push(!text::alphanumeric(chars[i]));
        i = i + 1;
    }
    assert(seps@ =~= want);
    let words = text::split_where(&chars, &seps);
    lang_from_words(&words)
}

proof fn lemma_srt_path(path: Seq<u8>)
    requires
        !ends_in_dots(path),
    ensures
        file_span(path) matches Some((from, to)) ==> {
            let srt = srt_path(path);
            let name = path.subrange(from, to);
            &&& file_span(srt) == Some((from, srt.len() as int))
            &&& last_dot(srt.subrange(from, srt.len() as int)) == stem_len(name)
            &&& stem_len(name) > 0
            &&& extension(srt) == Some(srt_suffix().skip(1))
            &&& file_stem(srt) == file_stem(path)
            &&& srt.take(from) == path.take(from)
        },
{
    lemma_file_span(path);
    if let Some((from, to)) = file_span(path) {
        let name = path.subrange(from, to);
        let srt = srt_path(path);
        let end = from + stem_len(name);
        lemma_last_dot(name);
        assert forall|i: int| from <= i < srt.len() implies srt[i] != SLASH by {
            if i < end {
                assert(srt[i] == path[i]);
            } else {
                assert(srt[i] == srt_suffix()[i - end]);
            }
        }
        lemma_component_start(srt);
        let start = component_start(srt);
        assert(start == from) by {
            if start < from {
                assert(srt[from - 1] == path[from - 1]);
            }
        }
        let srt_name = srt.skip(from);
        assert(srt_name.len() >= 5);
        assert(srt.subrange(from, srt.len() as int) =~= srt_name);
        lemma_last_dot(srt_name);
        let dot = stem_len(name);
        assert(srt_name[dot] == srt_suffix()[0]);
        assert(last_dot(srt_name) == dot) by {
            let d = last_dot(srt_name);
            if d > dot {
                assert(srt_name[d] == srt_suffix()[d - dot]);
            }
        }
        assert(srt_name.skip(dot + 1) =~= srt_suffix().skip(1));
        assert(srt_name.take(dot) =~= name.take(dot));
        assert(srt.take(from) =~= path.take(from));
    }
}

/// The path of the subtitles differs from that of the media file in the extension
/// alone, and that is `srt`, unless the name is one such as `..mp4`.
pub proof fn law_srt_path(path: Seq<u8>)
    requires
        !ends_in_dots(path),
    ensures
        file_span(path) matches Some((from, to)) ==> {
            let srt = srt_path(path);
            &&& extension(srt) == Some(srt_suffix().skip(1))
            &&& file_stem(srt) == file_stem(path)
            &&& srt.take(from) == path.take(from)
        },
{
    lemma_srt_path(path);
}

/// Subtitles of subtitles are the same file, unless its name is `..srt`.
pub proof fn law_srt_path_idempotent(path: Seq<u8>)
    requires
        !ends_in_dots(srt_path(path)),
    ensures
        srt_path(srt_path(path)) == srt_path(path),
{
    lemma_file_span(path);
    let srt = srt_path(path);
    if ends_in_dots(path) {
        let (from, to) = file_span(path)->0;
        lemma_last_dot(path.subrange(from, to));
        assert(path[from + 1] == path.subrange(from, to)[1]);
        lemma_component_start(srt);
        assert(component_start(srt) == from) by {
            let start = component_start(srt);
            if start < from {
                assert(srt[from - 1] == path[from - 1]);
            } else if start > from {
                assert(srt[start - 1] == path[start - 1]);
            }
        }
        assert(srt.skip(from) =~= seq![DOT, DOT]);
    } else if let Some((from, to)) = file_span(path) {
        lemma_srt_path(path);
        let name = path.subrange(from, to);
        lemma_last_dot(name);
        assert(srt.take(from + stem_len(name)) =~= path.take(from + stem_len(name)));
    }
}

/// Whether a text is the code of a supported language.
pub open spec fn is_supported(code: Seq<char>) -> bool {
    code == "zh"@ || code == "ja"@ || code == "en"@ || code == "ko"@ || code == "fr"@ || code
        == "de"@ || code == "es"@ || code == "ru"@
}

/// A word stands for a supported language or for none, and the code of a supported
/// language stands for that language.
pub proof fn law_languages(word: Seq<char>)
    ensures
        language_of(word) matches Some(code) ==> is_supported(code),
        is_supported(word) ==> language_of(word) == Some(word),
{
    reveal_strlit("zh");
    reveal_strlit("ja");
    reveal_strlit("en");
    reveal_strlit("ko");
    reveal_strlit("fr");
    reveal_strlit("de");
    reveal_strlit("es");
    reveal_strlit("ru");
    assert("zh"@.len() == 2 && "zh"@[0] == 'z' && "zh"@[1] == 'h');
    assert("ja"@.len() == 2 && "ja"@[0] == 'j' && "ja"@[1] == 'a');
    assert("en"@.len() == 2 && "en"@[0] == 'e' && "en"@[1] == 'n');
    assert("ko"@.len() == 2 && "ko"@[0] == 'k' && "ko"@[1] == 'o');
    assert("fr"@.len() == 2 && "fr"@[0] == 'f' && "fr"@[1] == 'r');
    assert("de"@.len() == 2 && "de"@[0] == 'd' && "de"@[1] == 'e');
    assert("es"@.len() == 2 && "es"@[0] == 'e' && "es"@[1] == 's');
    assert("ru"@.len() == 2 && "ru"@[0] == 'r' && "ru"@[1] == 'u');
    reveal_strlit("cn");
    reveal_strlit("jp");
    assert("cn"@[0] == 'c');
    assert("jp"@[0] == 'j' && "jp"@[1] == 'p');
    reveal_strlit("chinese");
    reveal_strlit("mandarin");
    reveal_strlit("cantonese");
    reveal_strlit("japanese");
    reveal_strlit("english");
    reveal_strlit("korean");
    reveal_strlit("french");
    reveal_strlit("german");
    reveal_strlit("spanish");
    reveal_strlit("russian");
}

proof fn lemma_first_language(words: Seq<Seq<char>>)
    ensures
        first_language(words) matches Some(code) ==> is_supported(code),
    decreases words.len(),
{
    if words.len() > 0 {
        law_languages(words[0]);
        lemma_first_language(words.drop_first());
    }
}

/// The language in the name of a file is a supported one.
pub proof fn law_name_language(path: Seq<u8>)
    ensures
        name_language(path) matches Some(code) ==> is_supported(code),
{
    if let Some(stem) = file_stem(path) {
        lemma_first_language(words_of(text::lower_case(vstd::utf8::decode_utf8(stem))));
    }
}

} // verus!
