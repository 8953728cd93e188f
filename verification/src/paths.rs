//! Paths as texts with `/` between their parts.

use vstd::prelude::*;

use crate::text::{self, append, chars_of, decimal_of, last_position, string_of};

verus! {

/// `part` below `dir`; a part that begins with `/` stands for itself.
pub open spec fn joined_path(dir: Seq<char>, part: Seq<char>) -> Seq<char> {
    if part.len() > 0 && part[0] == '/' {
        part
    } else if dir.len() > 0 && dir.last() != '/' {
        dir.push('/') + part
    } else {
        dir + part
    }
}

/// `part` below `dir`.
pub fn join_path(dir: &str, part: &str) -> (r: String)
    ensures
        r@ == joined_path(dir@, part@),
{
    let tail = chars_of(part);
    if tail.len() > 0 && tail[0] == '/' {
        return part.to_string();
    }
    let mut out = chars_of(dir);
    if out.len() > 0 && out[out.len() - 1] != '/' {
        out.push('/');
    }
    append(&mut out, tail.as_slice());
    string_of(out.as_slice())
}

/// `path` up to the end of its last part: without slashes at its end and
/// without `.` parts there.
pub open spec fn bare(path: Seq<char>) -> Seq<char>
    decreases path.len(),
{
    let n = path.len() as int;
    if n > 0 && path[n - 1] == '/' {
        bare(path.drop_last())
    } else if n > 1 && path[n - 1] == '.' && path[n - 2] == '/' {
        bare(path.drop_last())
    } else {
        path
    }
}

/// Where the last part of a bare path begins.
pub open spec fn name_start(path: Seq<char>) -> int {
    text::last_index_of(path, '/') + 1
}

/// Whether the last part of a bare path names a file.
pub open spec fn has_name(path: Seq<char>) -> bool {
    let name = path.skip(name_start(path));
    name.len() > 0 && name != "."@ && name != ".."@
}

/// Where the extension of a bare path begins, with its dot: at the last dot
/// of its last part, unless that dot begins the part or there is none.
pub open spec fn stem_end(path: Seq<char>) -> int {
    let dot = text::last_index_of(path, '.');
    if dot > name_start(path) {
        dot
    } else {
        path.len() as int
    }
}

/// The extension of a path, without its dot.
pub open spec fn extension(path: Seq<char>) -> Option<Seq<char>> {
    let p = bare(path);
    if has_name(p) && stem_end(p) < p.len() {
        Some(p.skip(stem_end(p) + 1))
    } else {
        None
    }
}

/// The name of a file without its extension.
pub open spec fn stem_text(path: Seq<char>) -> Option<Seq<char>> {
    let p = bare(path);
    if has_name(p) {
        Some(p.subrange(name_start(p), stem_end(p)))
    } else {
        None
    }
}

/// `path` with the extension `ext` in place of its own, or without one where
/// `ext` is empty; a path that names no file is kept.
pub open spec fn extended(path: Seq<char>, ext: Seq<char>) -> Seq<char> {
    let p = bare(path);
    if !has_name(p) {
        path
    } else if ext.len() == 0 {
        p.take(stem_end(p))
    } else {
        p.take(stem_end(p)) + seq!['.'] + ext
    }
}

/// A path with another extension is beside the path: it has that extension,
/// and the directory and the rest of the name stay.
pub proof fn new_extension_keeps_the_rest(path: Seq<char>, ext: Seq<char>)
    requires
        has_name(bare(path)),
        ext.len() > 0,
        forall|i: int| 0 <= i < ext.len() ==> #[trigger] ext[i] != '/' && ext[i] != '.',
    ensures
        extension(extended(path, ext)) == Some(ext),
        stem_text(extended(path, ext)) == stem_text(path),
        name_start(extended(path, ext)) == name_start(bare(path)),
        extended(path, ext).take(name_start(bare(path))) == bare(path).take(
            name_start(bare(path)),
        ),
{
    let p = bare(path);
    let out = extended(path, ext);
    let start = name_start(p);
    let e = stem_end(p);
    text::lemma_last_index_of(p, '/');
    text::lemma_last_index_of(p, '.');
    text::lemma_last_index_of(out, '/');
    text::lemma_last_index_of(out, '.');
    assert(start < e <= p.len());
    assert(forall|i: int| 0 <= i < e ==> #[trigger] out[i] == p[i]);
    assert(out[e] == '.');
    assert forall|i: int| e < i < out.len() implies #[trigger] out[i] != '/' && out[i] != '.' by {
        assert(out[i] == ext[i - e - 1]);
    }
    assert forall|i: int| start <= i < out.len() implies #[trigger] out[i] != '/' by {
        if i < e {
            assert(out[i] == p[i]);
        }
    }
    if start > 0 {
        assert(out[start - 1] == p[start - 1]);
    }
    assert(name_start(out) == start);
    assert(text::last_index_of(out, '.') == e);
    assert(out[out.len() - 1] == ext[ext.len() - 1]);
    assert(bare(out) == out);
    reveal_strlit(".");
    reveal_strlit("..");
    assert(out.skip(start).len() >= 3);
    assert(stem_end(out) == e);
    assert(out.skip(e + 1) =~= ext);
    assert(out.subrange(start, e) =~= p.subrange(start, e));
    assert(out.take(start) =~= p.take(start));
}

fn bare_end(path: &[char]) -> (r: usize)
    ensures
        r <= path@.len(),
        path@.take(r as int) == bare(path@),
{
    let mut n: usize = path.len();
    assert(path@.take(n as int) =~= path@);
    while n > 0 && (path[n - 1] == '/' || (n > 1 && path[n - 1] == '.' && path[n - 2] == '/'))
        invariant
            n <= path@.len(),
            bare(path@) == bare(path@.take(n as int)),
        decreases n,
    {
        assert(path@.take(n as int).drop_last() =~= path@.take(n - 1));
        n = n - 1;
    }
    n
}

/// The parts of a bare path: where its extension begins, if it names a file.
fn find_stem(p: &[char]) -> (r: Option<usize>)
    ensures
        r is Some <==> has_name(p@),
        r matches Some(i) ==> i == stem_end(p@) && i <= p@.len(),
{
    proof {
        text::lemma_last_index_of(p@, '/');
        text::lemma_last_index_of(p@, '.');
        reveal_strlit(".");
        reveal_strlit("..");
    }
    let n: usize = p.len();
    let start: usize = match last_position(p, '/') {
        Some(i) => i + 1,
        None => 0,
    };
    let name = &p[start..n];
    assert(name@ =~= p@.skip(start as int));
    if name.len() == 0 || (name.len() == 1 && name[0] == '.') || (name.len() == 2 && name[0] == '.'
        && name[1] == '.') {
        assert(name@.len() == 1 ==> name@ =~= "."@);
        assert(name@.len() == 2 ==> name@ =~= ".."@);
        return None;
    }
    match last_position(p, '.') {
        Some(dot) if dot > start => Some(dot),
        _ => Some(n),
    }
}

/// The extension of a path, without its dot.
pub fn extension_of(path: &str) -> (r: Option<String>)
    ensures
        text::opt_view(r) == extension(path@),
{
    let all = chars_of(path);
    let n = bare_end(all.as_slice());
    let p = &all.as_slice()[0..n];
    assert(p@ =~= bare(path@));
    match find_stem(p) {
        Some(i) => if i < p.len() {
            Some(string_of(&p[i + 1..p.len()]))
        } else {
            None
        },
        None => None,
    }
}

/// The name of a file without its extension.
pub fn stem_of(path: &str) -> (r: Option<String>)
    ensures
        text::opt_view(r) == stem_text(path@),
{
    let all = chars_of(path);
    let n = bare_end(all.as_slice());
    let p = &all.as_slice()[0..n];
    assert(p@ =~= bare(path@));
    proof {
        text::lemma_last_index_of(p@, '/');
    }
    match find_stem(p) {
        Some(i) => {
            let start: usize = match last_position(p, '/') {
                Some(k) => k + 1,
                None => 0,
            };
            let name = &p[start..i];
            assert(name@ =~= p@.subrange(start as int, i as int));
            Some(string_of(name))
        },
        None => None,
    }
}

/// `path` with the extension `ext` in place of its own.
pub fn with_extension(path: &str, ext: &str) -> (r: String)
    ensures
        r@ == extended(path@, ext@),
{
    let all = chars_of(path);
    let n = bare_end(all.as_slice());
    let p = &all.as_slice()[0..n];
    assert(p@ =~= bare(path@));
    match find_stem(p) {
        Some(i) => {
            let mut out: Vec<char> = Vec::new();
            append(&mut out, &p[0..i]);
            assert(out@ =~= p@.take(i as int));
            let tail = chars_of(ext);
            if tail.len() > 0 {
                out.push('.');
                append(&mut out, tail.as_slice());
                assert(out@ =~= p@.take(i as int) + seq!['.'] + ext@);
            }
            string_of(out.as_slice())
        },
        None => path.to_string(),
    }
}

/// The sidecar of `dest` that holds its part `i`.
pub open spec fn sidecar(dest: Seq<char>, i: nat) -> Seq<char> {
    dest + ".part"@ + text::decimal(i)
}

/// `<dest>.part<i>` sidecar path.
pub fn part_path(dest: &str, i: usize) -> (r: String)
    ensures
        r@ == sidecar(dest@, i as nat),
{
    let mut out = chars_of(dest);
    append(&mut out, chars_of(".part").as_slice());
    append(&mut out, decimal_of(i as u128).as_slice());
    string_of(out.as_slice())
}

/// A part below a directory stands behind it, with one slash between the two;
/// below nothing it stands for itself, and so does a part that begins with a
/// slash.
pub proof fn parts_are_joined_by_one_slash(dir: Seq<char>, part: Seq<char>)
    requires
        part.len() > 0 ==> part[0] != '/',
        dir.len() > 0 ==> dir[dir.len() - 1] != '/',
    ensures
        dir.len() > 0 ==> joined_path(dir, part) == dir + seq!['/'] + part,
        joined_path(dir + seq!['/'], part) == dir + seq!['/'] + part,
        joined_path(Seq::empty(), part) == part,
        joined_path(dir, seq!['/'] + part) == seq!['/'] + part,
{
    assert(dir.push('/') + part =~= dir + seq!['/'] + part);
    assert((dir + seq!['/']).last() == '/');
    assert(Seq::<char>::empty() + part =~= part);
    assert((seq!['/'] + part)[0] == '/');
}

/// The sidecars of the parts of a file are all different, and each begins with
/// the path of the file.
pub proof fn sidecars_differ(dest: Seq<char>, i: nat, j: nat)
    ensures
        sidecar(dest, i) == sidecar(dest, j) <==> i == j,
        text::stands_at(sidecar(dest, i), dest, 0),
        sidecar(dest, i) != dest,
{
    reveal_strlit(".part");
    text::decimal_reads_back(i);
    text::decimal_reads_back(j);
    let n = dest.len() as int + 5;
    assert(sidecar(dest, i).skip(n) =~= text::decimal(i));
    assert(sidecar(dest, j).skip(n) =~= text::decimal(j));
    assert(sidecar(dest, i).len() > dest.len());
}

/// A path has the extension behind the last dot of its last part, and the stem
/// before that dot; slashes at its end do not matter. A part that has its only
/// dot at its beginning has no extension.
pub proof fn extension_and_stem_are_the_name(dir: Seq<char>, stem: Seq<char>, ext: Seq<char>)
    requires
        dir.len() > 0 ==> dir[dir.len() - 1] == '/',
        stem.len() > 0,
        forall|i: int| 0 <= i < stem.len() ==> #[trigger] stem[i] != '/',
        ext.len() > 0,
        forall|i: int| 0 <= i < ext.len() ==> #[trigger] ext[i] != '/' && ext[i] != '.',
    ensures
        extension(dir + stem + seq!['.'] + ext) == Some(ext),
        stem_text(dir + stem + seq!['.'] + ext) == Some(stem),
        extension(dir + stem + seq!['.'] + ext + seq!['/']) == Some(ext),
        extension(dir + ext) is None,
        stem_text(dir + ext) == Some(ext),
        extension(dir + seq!['.'] + ext) is None,
{
    let path = dir + stem + seq!['.'] + ext;
    let start = dir.len() as int;
    let dot = start + stem.len();
    reveal_strlit(".");
    reveal_strlit("..");
    assert(path[path.len() - 1] == ext[ext.len() - 1]);
    assert(bare(path) == path);
    let slashed = path + seq!['/'];
    assert(slashed.last() == '/');
    assert(slashed.drop_last() =~= path);
    text::lemma_last_index_of(path, '/');
    text::lemma_last_index_of(path, '.');
    assert forall|j: int| start <= j < path.len() implies path[j] != '/' by {
        if j < dot {
            assert(path[j] == stem[j - start]);
        } else if j > dot {
            assert(path[j] == ext[j - dot - 1]);
        }
    }
    if start > 0 {
        assert(path[start - 1] == dir[start - 1]);
    }
    assert(name_start(path) == start);
    assert(path[dot] == '.');
    assert forall|j: int| dot < j < path.len() implies path[j] != '.' by {
        assert(path[j] == ext[j - dot - 1]);
    }
    assert(text::last_index_of(path, '.') == dot);
    assert(path.skip(start).len() >= 3);
    assert(path.skip(dot + 1) =~= ext);
    assert(path.subrange(start, dot) =~= stem);
    lemma_plain_name(dir, ext);
    lemma_dotted_name(dir, ext);
}

proof fn lemma_plain_name(dir: Seq<char>, name: Seq<char>)
    requires
        dir.len() > 0 ==> dir[dir.len() - 1] == '/',
        name.len() > 0,
        forall|i: int| 0 <= i < name.len() ==> #[trigger] name[i] != '/' && name[i] != '.',
    ensures
        extension(dir + name) is None,
        stem_text(dir + name) == Some(name),
{
    let path = dir + name;
    let start = dir.len() as int;
    reveal_strlit(".");
    reveal_strlit("..");
    assert(path[path.len() - 1] == name[name.len() - 1]);
    assert(bare(path) == path);
    text::lemma_last_index_of(path, '/');
    text::lemma_last_index_of(path, '.');
    assert forall|j: int| start <= j < path.len() implies path[j] != '/' && path[j] != '.' by {
        assert(path[j] == name[j - start]);
    }
    if start > 0 {
        assert(path[start - 1] == dir[start - 1]);
    }
    assert(name_start(path) == start);
    let own = path.skip(start);
    assert(own =~= name);
    assert(name[0] != '.');
    assert(text::last_index_of(path, '.') < start);
    assert(path.subrange(start, path.len() as int) =~= name);
}

proof fn lemma_dotted_name(dir: Seq<char>, name: Seq<char>)
    requires
        dir.len() > 0 ==> dir[dir.len() - 1] == '/',
        name.len() > 0,
        forall|i: int| 0 <= i < name.len() ==> #[trigger] name[i] != '/' && name[i] != '.',
    ensures
        extension(dir + seq!['.'] + name) is None,
{
    let path = dir + seq!['.'] + name;
    let start = dir.len() as int;
    assert(path[path.len() - 1] == name[name.len() - 1]);
    assert(bare(path) == path);
    text::lemma_last_index_of(path, '/');
    text::lemma_last_index_of(path, '.');
    assert(path[start] == '.');
    assert forall|j: int| start < j < path.len() implies path[j] != '/' && path[j] != '.' by {
        assert(path[j] == name[j - start - 1]);
    }
    if start > 0 {
        assert(path[start - 1] == dir[start - 1]);
    }
    assert(name_start(path) == start);
    assert(text::last_index_of(path, '.') == start);
}

} // verus!
