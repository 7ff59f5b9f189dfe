//! Unix paths as sequences of components, the way `std::path::Path` reads them, and the
//! path rules of backups and restores built on them.

use vstd::prelude::*;

use crate::text::{chars_of, lacks, split, split_spec, string_of, sub_vec, views};

verus! {

/// A component of a path.
pub enum Component {
    RootDir,
    CurDir,
    ParentDir,
    Normal(Seq<char>),
}

/// A component of a path, in executable form.
pub enum PathPart {
    RootDir,
    CurDir,
    ParentDir,
    Normal(Vec<char>),
}

impl View for PathPart {
    type V = Component;

    open spec fn view(&self) -> Component {
        match self {
            PathPart::RootDir => Component::RootDir,
            PathPart::CurDir => Component::CurDir,
            PathPart::ParentDir => Component::ParentDir,
            PathPart::Normal(name) => Component::Normal(name@),
        }
    }
}

/// The views of some path parts.
pub open spec fn parts_view(parts: Seq<PathPart>) -> Seq<Component> {
    parts.map_values(|p: PathPart| p@)
}

/// The components that the pieces between separators stand for: empty pieces and `.` are
/// dropped, `..` is the parent directory.
pub open spec fn piece_components(pieces: Seq<Seq<char>>) -> Seq<Component>
    decreases pieces.len(),
{
    if pieces.len() == 0 {
        Seq::empty()
    } else {
        let rest = piece_components(pieces.drop_first());
        let p = pieces[0];
        if p.len() == 0 || p == seq!['.'] {
            rest
        } else if p == seq!['.', '.'] {
            seq![Component::ParentDir] + rest
        } else {
            seq![Component::Normal(p)] + rest
        }
    }
}

/// The components of a path, as `Path::components` yields them: a leading `/` is the root,
/// a leading `.` of a relative path is the current directory, and repeated separators, `.`
/// pieces and a trailing separator are ignored.
pub open spec fn components(path: Seq<char>) -> Seq<Component> {
    let pieces = split_spec(path, '/');
    if path.len() > 0 && path[0] == '/' {
        seq![Component::RootDir] + piece_components(pieces.drop_first())
    } else if pieces[0] == seq!['.'] {
        seq![Component::CurDir] + piece_components(pieces.drop_first())
    } else {
        piece_components(pieces)
    }
}

/// `a` followed by `part`, the way `PathBuf::push` joins a relative part: with a separator
/// unless `a` is empty or already ends with one.
pub open spec fn join(a: Seq<char>, part: Seq<char>) -> Seq<char> {
    if a.len() == 0 {
        part
    } else if a.last() == '/' {
        a + part
    } else {
        a + seq!['/'] + part
    }
}

/// `base` with the names pushed one after another.
pub open spec fn join_all(base: Seq<char>, names: Seq<Seq<char>>) -> Seq<char>
    decreases names.len(),
{
    if names.len() == 0 {
        base
    } else {
        join(join_all(base, names.drop_last()), names.last())
    }
}

/// Whether a component is a name.
pub open spec fn is_normal(c: Component) -> bool {
    c is Normal
}

/// The name of a component that is a name.
pub open spec fn name_of(c: Component) -> Seq<char> {
    match c {
        Component::Normal(name) => name,
        _ => Seq::empty(),
    }
}

/// The names of some components.
pub open spec fn names(cs: Seq<Component>) -> Seq<Seq<char>> {
    cs.map_values(|c: Component| name_of(c))
}

proof fn lemma_split_first_piece(path: Seq<char>)
    ensures
        split_spec(path, '/').len() >= 1,
        path.len() > 0 && path[0] == '/' ==> split_spec(path, '/')[0].len() == 0,
{
    crate::text::lemma_split_nonempty(path, '/');
    if path.len() > 0 && path[0] == '/' {
        crate::text::lemma_first_index_of(path, '/');
    }
}

fn is_dot(p: &[char]) -> (r: bool)
    ensures
        r == (p@ == seq!['.']),
{
    if p.len() == 1 && p[0] == '.' {
        assert(p@ =~= seq!['.']);
        true
    } else {
        assert(p@.len() != 1 || p@[0] != '.');
        false
    }
}

fn is_dot_dot(p: &[char]) -> (r: bool)
    ensures
        r == (p@ == seq!['.', '.']),
{
    if p.len() == 2 && p[0] == '.' && p[1] == '.' {
        assert(p@ =~= seq!['.', '.']);
        true
    } else {
        assert(p@.len() != 2 || p@[0] != '.' || p@[1] != '.');
        false
    }
}

/// The components of a path.
pub fn path_components(path: &str) -> (r: Vec<PathPart>)
    ensures
        parts_view(r@) == components(path@),
{
    let chars = chars_of(path);
    let pieces = split(chars.as_slice(), '/');
    let ghost pv = split_spec(path@, '/');
    proof {
        lemma_split_first_piece(path@);
        assert(views(pieces@)[0] == pieces@[0]@);
    }
    let mut r: Vec<PathPart> = Vec::new();
    let first: usize;
    if chars.len() > 0 && chars[0] == '/' {
        r.push(PathPart::RootDir);
        first = 1;
    } else if is_dot(pieces[0].as_slice()) {
        r.push(PathPart::CurDir);
        first = 1;
    } else {
        first = 0;
    }
    let ghost head = parts_view(r@);
    assert(pv.skip(first as int) == (if first == 1 { pv.drop_first() } else { pv }));
    let mut i: usize = pieces.len();
    let mut tail: Vec<PathPart> = Vec::new();
    assert(pv.skip(i as int) =~= Seq::<Seq<char>>::empty());
    while i > first
        invariant
            first <= i <= pieces@.len(),
            views(pieces@) == pv,
            parts_view(tail@).reverse() == piece_components(pv.skip(i as int)),
        decreases i,
    {
        i -= 1;
        let piece = &pieces[i];
        proof {
            assert(views(pieces@)[i as int] == piece@);
            assert(pv.skip(i as int).drop_first() =~= pv.skip(i + 1));
            assert(pv.skip(i as int)[0] == piece@);
        }
        let ghost before = parts_view(tail@);
        if piece.len() == 0 || is_dot(piece.as_slice()) {
        } else if is_dot_dot(piece.as_slice()) {
            tail.push(PathPart::ParentDir);
            assert(parts_view(tail@) =~= before.push(Component::ParentDir));
            assert(before.push(Component::ParentDir).reverse() =~= seq![Component::ParentDir] + before.reverse());
        } else {
            let name = sub_vec(piece.as_slice(), 0, piece.len());
            assert(name@ =~= piece@);
            tail.push(PathPart::Normal(name));
            assert(parts_view(tail@) =~= before.push(Component::Normal(piece@)));
            assert(before.push(Component::Normal(piece@)).reverse() =~= seq![Component::Normal(piece@)] + before.reverse());
        }
    }
    let mut j: usize = tail.len();
    while j > 0
        invariant
            j <= tail@.len(),
            parts_view(r@) == head + parts_view(tail@).reverse().take(tail@.len() - j),
        decreases j,
    {
        j -= 1;
        let part = match &tail[j] {
            PathPart::RootDir => PathPart::RootDir,
            PathPart::CurDir => PathPart::CurDir,
            PathPart::ParentDir => PathPart::ParentDir,
            PathPart::Normal(name) => PathPart::Normal(sub_vec(name.as_slice(), 0, name.len())),
        };
        assert(part@ == tail@[j as int]@) by {
            if let PathPart::Normal(name) = &tail@[j as int] {
                assert(name@.subrange(0, name@.len() as int) =~= name@);
            }
        }
        let ghost before = parts_view(r@);
        r.push(part);
        proof {
            let rv = parts_view(tail@).reverse();
            assert(rv[tail@.len() - 1 - j] == parts_view(tail@)[j as int]);
            assert(rv.take(tail@.len() - j) =~= rv.take(tail@.len() - j - 1).push(rv[tail@.len() - 1 - j]));
            assert(parts_view(r@) =~= before.push(part@));
        }
    }
    assert(parts_view(tail@).reverse().take(tail@.len() as int) =~= parts_view(tail@).reverse());
    r
}

/// Pushes a relative part onto a path, as `PathBuf::push` does.
pub fn push_part(path: &mut Vec<char>, part: &[char])
    ensures
        final(path)@ == join(old(path)@, part@),
{
    if path.len() > 0 && path[path.len() - 1] != '/' {
        path.push('/');
    }
    let ghost before = path@;
    let mut i: usize = 0;
    while i < part.len()
        invariant
            i <= part@.len(),
            path@ == before + part@.take(i as int),
        decreases part@.len() - i,
    {
        path.push(part[i]);
        i += 1;
        assert(path@ =~= before + part@.take(i as int));
    }
    assert(part@.take(i as int) =~= part@);
    assert(final(path)@ =~= join(old(path)@, part@));
}

/// Whether all components from `from` on are names.
pub open spec fn all_normal_from(cs: Seq<Component>, from: int) -> bool {
    forall|i: int| from <= i < cs.len() ==> is_normal(#[trigger] cs[i])
}

/// The absolute path of a file from its path in a data archive (which must be a relative
/// path of names only), or `None` for an invalid archive path.
pub open spec fn file_path_from_tar_spec(tar_path: Seq<char>) -> Option<Seq<char>> {
    let cs = components(tar_path);
    if cs.len() > 0 && all_normal_from(cs, 0) {
        Some(join_all(seq!['/'], names(cs)))
    } else {
        None
    }
}

/// Where a file (an absolute path of names) is restored under `restore_dir`, or `None` for an
/// invalid file path.
pub open spec fn restore_path_spec(restore_dir: Seq<char>, file_path: Seq<char>) -> Option<Seq<char>> {
    let cs = components(file_path);
    if cs.len() >= 2 && cs[0] == Component::RootDir && all_normal_from(cs, 1) {
        Some(join_all(restore_dir, names(cs.drop_first())))
    } else {
        None
    }
}

fn append_message(out: &mut Vec<char>, s: &str)
    ensures
        final(out)@ == old(out)@ + s@,
{
    let chars = chars_of(s);
    let mut i: usize = 0;
    while i < chars.len()
        invariant
            i <= chars@.len(),
            chars@ == s@,
            out@ == old(out)@ + chars@.take(i as int),
        decreases chars@.len() - i,
    {
        out.push(chars[i]);
        i += 1;
        assert(out@ =~= old(out)@ + chars@.take(i as int));
    }
    assert(chars@.take(i as int) =~= chars@);
}

/// A message made of a text and the quoted path.
pub fn message_with_path(text: &str, path: &str) -> (r: String)
    ensures
        r@ == text@ + crate::text::debug_quoted(path@),
{
    let mut out: Vec<char> = Vec::new();
    append_message(&mut out, text);
    let quoted = crate::text::debug_str(path);
    append_message(&mut out, quoted.as_str());
    assert(out@ =~= text@ + crate::text::debug_quoted(path@));
    string_of(out.as_slice())
}

/// The absolute path of a file from its path in a data archive.
pub fn get_file_path_from_tar_path(tar_path: &str) -> (r: Result<String, String>)
    ensures
        r is Ok <==> file_path_from_tar_spec(tar_path@) is Some,
        r matches Ok(p) ==> file_path_from_tar_spec(tar_path@) == Some(p@),
        r matches Err(e) ==> e@ == "Got an invalid file path from archive: "@ + crate::text::debug_quoted(tar_path@),
{
    let cs = path_components(tar_path);
    let ghost cv = components(tar_path@);
    let mut path: Vec<char> = Vec::new();
    path.push('/');
    let mut i: usize = 0;
    while i < cs.len()
        invariant
            i <= cs@.len(),
            parts_view(cs@) == cv,
            cv == components(tar_path@),
            all_normal_from(cv.take(i as int), 0),
            path@ == join_all(seq!['/'], names(cv.take(i as int))),
        decreases cs@.len() - i,
    {
        proof {
            assert(parts_view(cs@)[i as int] == cs@[i as int]@);
            let t = cv.take(i + 1);
            assert(t.drop_last() =~= cv.take(i as int));
            assert(names(t).drop_last() =~= names(cv.take(i as int)));
        }
        match &cs[i] {
            PathPart::Normal(name) => {
                push_part(&mut path, name.as_slice());
                i += 1;
                assert(names(cv.take(i as int)).last() == name@);
            },
            _ => {
                assert(!is_normal(cv[i as int]));
                return Err(message_with_path("Got an invalid file path from archive: ", tar_path));
            },
        }
    }
    assert(cv.take(i as int) =~= cv);
    if cs.len() == 0 {
        return Err(message_with_path("Got an invalid file path from archive: ", tar_path));
    }
    Ok(string_of(path.as_slice()))
}

/// Where a file (given by its absolute path) is restored under `restore_dir`.
pub fn get_restore_path(restore_dir: &str, file_path: &str) -> (r: Result<String, String>)
    ensures
        r is Ok <==> restore_path_spec(restore_dir@, file_path@) is Some,
        r matches Ok(p) ==> restore_path_spec(restore_dir@, file_path@) == Some(p@),
        r matches Err(e) ==> e@ == "Invalid restoring file path: "@ + crate::text::debug_quoted(file_path@),
{
    let cs = path_components(file_path);
    let ghost cv = components(file_path@);
    if cs.len() < 2 {
        return Err(message_with_path("Invalid restoring file path: ", file_path));
    }
    proof {
        assert(parts_view(cs@)[0] == cs@[0]@);
    }
    match &cs[0] {
        PathPart::RootDir => {},
        _ => {
            return Err(message_with_path("Invalid restoring file path: ", file_path));
        },
    }
    let ghost rest = cv.drop_first();
    let mut path = chars_of(restore_dir);
    let mut i: usize = 1;
    while i < cs.len()
        invariant
            1 <= i <= cs@.len(),
            parts_view(cs@) == cv,
            cv == components(file_path@),
            rest == cv.drop_first(),
            all_normal_from(cv.take(i as int), 1),
            path@ == join_all(restore_dir@, names(rest.take(i - 1))),
        decreases cs@.len() - i,
    {
        proof {
            assert(parts_view(cs@)[i as int] == cs@[i as int]@);
            let t = rest.take(i as int);
            assert(t.drop_last() =~= rest.take(i - 1));
            assert(names(t).drop_last() =~= names(rest.take(i - 1)));
        }
        match &cs[i] {
            PathPart::Normal(name) => {
                push_part(&mut path, name.as_slice());
                i += 1;
                assert(names(rest.take(i - 1)).last() == name@);
                assert forall|k: int| 1 <= k < cv.take(i as int).len() implies is_normal(#[trigger] cv.take(i as int)[k]) by {
                    if k < i - 1 {
                        assert(cv.take(i as int)[k] == cv.take(i - 1)[k]);
                    }
                }
            },
            _ => {
                assert(!is_normal(cv[i as int]));
                return Err(message_with_path("Invalid restoring file path: ", file_path));
            },
        }
    }
    assert(cv.take(i as int) =~= cv);
    assert(rest.take(i - 1) =~= rest);
    Ok(string_of(path.as_slice()))
}

/// Whether the components of `base` start the components of `path`.
pub open spec fn starts_with_spec(path: Seq<char>, base: Seq<char>) -> bool {
    components(base).is_prefix_of(components(path))
}

fn same_part(a: &PathPart, b: &PathPart) -> (r: bool)
    ensures
        r == (a@ == b@),
{
    match (a, b) {
        (PathPart::RootDir, PathPart::RootDir) => true,
        (PathPart::CurDir, PathPart::CurDir) => true,
        (PathPart::ParentDir, PathPart::ParentDir) => true,
        (PathPart::Normal(x), PathPart::Normal(y)) => {
            if x.len() != y.len() {
                return false;
            }
            let mut i: usize = 0;
            while i < x.len()
                invariant
                    i <= x@.len(),
                    x@.len() == y@.len(),
                    a@ == Component::Normal(x@),
                    b@ == Component::Normal(y@),
                    forall|j: int| 0 <= j < i ==> x@[j] == y@[j],
                decreases x@.len() - i,
            {
                if x[i] != y[i] {
                    assert(x@[i as int] != y@[i as int]);
                    return false;
                }
                i += 1;
            }
            assert(x@ =~= y@);
            true
        },
        _ => false,
    }
}

/// Whether `path` is `base` or lies under it, comparing whole components as
/// `Path::starts_with` does.
pub fn path_starts_with(path: &str, base: &str) -> (r: bool)
    ensures
        r == starts_with_spec(path@, base@),
{
    let pc = path_components(path);
    let bc = path_components(base);
    let ghost pv = components(path@);
    let ghost bv = components(base@);
    if bc.len() > pc.len() {
        return false;
    }
    let mut i: usize = 0;
    while i < bc.len()
        invariant
            i <= bc@.len() <= pc@.len(),
            parts_view(pc@) == pv,
            parts_view(bc@) == bv,
            pv == components(path@),
            bv == components(base@),
            forall|j: int| 0 <= j < i ==> bv[j] == pv[j],
        decreases bc@.len() - i,
    {
        proof {
            assert(parts_view(pc@)[i as int] == pc@[i as int]@);
            assert(parts_view(bc@)[i as int] == bc@[i as int]@);
        }
        if !same_part(&pc[i], &bc[i]) {
            return false;
        }
        i += 1;
    }
    true
}


/// Whether a piece of a path is a name: not empty, not `.` or `..`, and without a separator.
pub open spec fn plain_name(p: Seq<char>) -> bool {
    &&& p.len() > 0
    &&& p != seq!['.']
    &&& p != seq!['.', '.']
    &&& lacks(p, '/')
}

/// Some names with separators between them.
pub open spec fn separated(ns: Seq<Seq<char>>) -> Seq<char>
    decreases ns.len(),
{
    if ns.len() <= 1 {
        if ns.len() == 1 { ns[0] } else { seq![] }
    } else {
        separated(ns.drop_last()) + seq!['/'] + ns.last()
    }
}

/// The pieces of a split lack the separator.
proof fn lemma_split_pieces_lack(s: Seq<char>, c: char)
    ensures
        forall|k: int| 0 <= k < split_spec(s, c).len() ==> lacks(#[trigger] split_spec(s, c)[k], c),
    decreases s.len(),
{
    crate::text::lemma_first_index_of(s, c);
    let i = crate::text::first_index_of(s, c);
    if i < s.len() {
        lemma_split_pieces_lack(s.skip(i + 1), c);
        let rest = split_spec(s.skip(i + 1), c);
        assert forall|k: int| 0 <= k < split_spec(s, c).len() implies lacks(#[trigger] split_spec(s, c)[k], c) by {
            if k > 0 {
                assert(split_spec(s, c)[k] == rest[k - 1]);
            }
        }
    }
}

/// The names among the components of some pieces without separators are plain names.
proof fn lemma_piece_names(pieces: Seq<Seq<char>>)
    requires
        forall|k: int| 0 <= k < pieces.len() ==> lacks(#[trigger] pieces[k], '/'),
    ensures
        forall|k: int| 0 <= k < piece_components(pieces).len() && is_normal(#[trigger] piece_components(pieces)[k])
            ==> plain_name(name_of(piece_components(pieces)[k])),
    decreases pieces.len(),
{
    if pieces.len() > 0 {
        let rest = pieces.drop_first();
        assert forall|k: int| 0 <= k < rest.len() implies lacks(#[trigger] rest[k], '/') by {
            assert(rest[k] == pieces[k + 1]);
        }
        lemma_piece_names(rest);
        assert(lacks(pieces[0], '/'));
        let pc = piece_components(pieces);
        let rc = piece_components(rest);
        let p = pieces[0];
        assert forall|k: int| 0 <= k < pc.len() && is_normal(#[trigger] pc[k]) implies plain_name(name_of(pc[k])) by {
            if p.len() == 0 || p == seq!['.'] {
                assert(pc[k] == rc[k]);
            } else if k > 0 {
                assert(pc[k] == rc[k - 1]);
            }
        }
    }
}

/// The components of plain names are those names.
proof fn lemma_plain_piece_components(ns: Seq<Seq<char>>)
    requires
        forall|k: int| 0 <= k < ns.len() ==> plain_name(#[trigger] ns[k]),
    ensures
        piece_components(ns) == ns.map_values(|p: Seq<char>| Component::Normal(p)),
    decreases ns.len(),
{
    if ns.len() > 0 {
        let rest = ns.drop_first();
        assert forall|k: int| 0 <= k < rest.len() implies plain_name(#[trigger] rest[k]) by {
            assert(rest[k] == ns[k + 1]);
        }
        lemma_plain_piece_components(rest);
        assert(plain_name(ns[0]));
        assert(piece_components(ns) =~= ns.map_values(|p: Seq<char>| Component::Normal(p)));
    }
}

/// Splitting `a`, `c`, `b` where `b` lacks `c` gives the pieces of `a` and then `b`.
proof fn lemma_split_snoc(a: Seq<char>, c: char, b: Seq<char>)
    requires
        lacks(b, c),
    ensures
        split_spec(a + seq![c] + b, c) == split_spec(a, c).push(b),
    decreases a.len(),
{
    crate::text::lemma_first_index_of(a, c);
    let i = crate::text::first_index_of(a, c);
    if i >= a.len() {
        assert(lacks(a, c));
        crate::text::lemma_split_after(a, c, b);
        crate::text::lemma_split_whole(b, c, 0);
        crate::text::lemma_split_whole(a, c, 0);
        assert(seq![a] + seq![b] =~= seq![a].push(b));
    } else {
        let head = a.take(i);
        let tail = a.skip(i + 1);
        assert(lacks(head, c));
        assert(a =~= head + seq![c] + tail);
        assert(a + seq![c] + b =~= head + seq![c] + (tail + seq![c] + b));
        crate::text::lemma_split_after(head, c, tail + seq![c] + b);
        crate::text::lemma_split_after(head, c, tail);
        lemma_split_snoc(tail, c, b);
        assert(seq![head] + split_spec(tail, c).push(b) =~= (seq![head] + split_spec(tail, c)).push(b));
    }
}

/// Plain names with separators between them split back into the names, and end with the
/// last name's last character.
proof fn lemma_separated(ns: Seq<Seq<char>>)
    requires
        ns.len() > 0,
        forall|k: int| 0 <= k < ns.len() ==> plain_name(#[trigger] ns[k]),
    ensures
        split_spec(separated(ns), '/') == ns,
        separated(ns).len() > 0,
        separated(ns).last() == ns.last().last(),
    decreases ns.len(),
{
    if ns.len() == 1 {
        assert(plain_name(ns[0]));
        crate::text::lemma_split_whole(ns[0], '/', 0);
        assert(seq![ns[0]] =~= ns);
    } else {
        let init = ns.drop_last();
        assert forall|k: int| 0 <= k < init.len() implies plain_name(#[trigger] init[k]) by {
            assert(init[k] == ns[k]);
        }
        lemma_separated(init);
        assert(plain_name(ns.last()));
        lemma_split_snoc(separated(init), '/', ns.last());
        assert(init.push(ns.last()) =~= ns);
    }
}

/// Pushing plain names onto `/` puts a separator before each.
proof fn lemma_join_root(ns: Seq<Seq<char>>)
    requires
        ns.len() > 0,
        forall|k: int| 0 <= k < ns.len() ==> plain_name(#[trigger] ns[k]),
    ensures
        join_all(seq!['/'], ns) == seq!['/'] + separated(ns),
    decreases ns.len(),
{
    if ns.len() == 1 {
        assert(join_all(seq!['/'], ns.drop_last()) == seq!['/']);
    } else {
        let init = ns.drop_last();
        assert forall|k: int| 0 <= k < init.len() implies plain_name(#[trigger] init[k]) by {
            assert(init[k] == ns[k]);
        }
        lemma_join_root(init);
        lemma_separated(init);
        let a = seq!['/'] + separated(init);
        assert(a.last() == separated(init).last());
        assert(plain_name(init.last()));
        assert(init.last().last() != '/');
        assert(seq!['/'] + separated(ns) =~= a + seq!['/'] + ns.last());
    }
}

/// An archive entry is restored at its archive path under the restore directory: the
/// restore path of the file path of an archive path is the restore directory with the
/// names of the archive path pushed onto it, one after another.
pub proof fn lemma_restore_path_of_archive_path(restore_dir: Seq<char>, tar_path: Seq<char>)
    requires
        file_path_from_tar_spec(tar_path) is Some,
    ensures
        restore_path_spec(restore_dir, file_path_from_tar_spec(tar_path)->0)
            == Some(join_all(restore_dir, names(components(tar_path)))),
{
    let cs = components(tar_path);
    let pieces = split_spec(tar_path, '/');
    lemma_split_first_piece(tar_path);
    assert(is_normal(cs[0]));
    assert(cs == piece_components(pieces));
    lemma_split_pieces_lack(tar_path, '/');
    lemma_piece_names(pieces);
    let ns = names(cs);
    assert forall|k: int| 0 <= k < ns.len() implies plain_name(#[trigger] ns[k]) by {
        assert(is_normal(cs[k]));
    }
    assert(cs =~= ns.map_values(|p: Seq<char>| Component::Normal(p))) by {
        assert forall|k: int| 0 <= k < cs.len() implies cs[k] == Component::Normal(ns[k]) by {
            assert(is_normal(cs[k]));
        }
    }
    lemma_join_root(ns);
    lemma_separated(ns);
    let fp = seq!['/'] + separated(ns);
    assert(fp =~= Seq::<char>::empty() + seq!['/'] + separated(ns));
    crate::text::lemma_split_after(Seq::<char>::empty(), '/', separated(ns));
    assert(split_spec(fp, '/').drop_first() =~= ns);
    lemma_plain_piece_components(ns);
    let fcs = components(fp);
    assert(fcs == seq![Component::RootDir] + ns.map_values(|p: Seq<char>| Component::Normal(p)));
    assert(names(fcs.drop_first()) =~= ns);
    assert(all_normal_from(fcs, 1));
}

} // verus!
