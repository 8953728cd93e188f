//! Names: of files, of categories, of downloads, and where a file goes.

use vstd::prelude::*;

use crate::paths::{self, join_path};
use crate::speed_limiter::{self, now_ms};
use crate::text::{
    self, append, chars_of, control, decimal_of, last_position, list_has, lowered, space, string_of,
    trimmed, trimmed_start, until, CharClass,
};
use crate::urls::{self, parse_url, UrlParts, UrlView};

verus! {

/// The last of a list of texts that is not empty; the empty text where all
/// are.
pub open spec fn last_filled(list: Seq<Seq<char>>) -> Seq<char>
    decreases list.len(),
{
    if list.len() == 0 {
        Seq::empty()
    } else if list.last().len() > 0 {
        list.last()
    } else {
        last_filled(list.drop_last())
    }
}

/// The file name that a URL suggests: the last part of its path that is not
/// empty, and `download.bin` where there is none.
pub open spec fn guessed(parsed: Result<UrlView, Seq<char>>) -> Seq<char> {
    let last = match parsed {
        Ok(u) => match u.segments {
            Some(list) => last_filled(list),
            None => Seq::empty(),
        },
        Err(_) => Seq::empty(),
    };
    let name = text::trim(text::before(last, CharClass::Either('?', '#')));
    if name.len() == 0 {
        "download.bin"@
    } else {
        name
    }
}

/// The file name that a parsed URL suggests.
pub fn name_from_url(parsed: &Result<UrlParts, String>) -> (r: String)
    ensures
        r@ == guessed(urls::parts_view(*parsed)),
{
    let mut last: Vec<char> = Vec::new();
    if let Ok(u) = parsed {
        if let Some(list) = &u.segments {
            let ghost all = text::views(list@);
            let mut n: usize = list.len();
            assert(all.take(n as int) =~= all);
            while n > 0 && last.len() == 0
                invariant
                    n <= list.len(),
                    all == text::views(list@),
                    last@.len() == 0 ==> last_filled(all) == last_filled(all.take(n as int)),
                    last@.len() > 0 ==> last_filled(all) == last@,
                decreases n,
            {
                assert(all.take(n as int).drop_last() =~= all.take(n - 1));
                n = n - 1;
                last = chars_of(list[n].as_str());
                assert(all.take(n + 1).last() == last@);
            }
            assert(last@.len() == 0 ==> last@ =~= Seq::empty());
            assert(last@ == last_filled(all));
        }
    }
    assert(last@.len() == 0 ==> last@ =~= Seq::empty());
    let name = trimmed(until(last.as_slice(), CharClass::Either('?', '#')));
    if name.len() == 0 {
        "download.bin".to_string()
    } else {
        string_of(name)
    }
}

/// Guess a file name from a URL's path, e.g.
/// `https://host/dir/file.zip?x=1` -> `file.zip`.
/// Falls back to `"download.bin"` when nothing usable is found.
pub fn guess_file_name(url: &str) -> (r: String)
    ensures
        r@ == guessed(urls::url_parse(url@)),
{
    name_from_url(&parse_url(url))
}

/// An id made of a prefix, a time and a process.
pub open spec fn id_text(prefix: Seq<char>, millis: nat, pid: nat) -> Seq<char> {
    prefix + "-"@ + text::decimal(millis) + "-"@ + text::decimal(pid)
}

/// The id `{prefix}-{millis}-{pid}`.
pub fn id_at(prefix: &str, millis: u128, pid: u32) -> (r: String)
    ensures
        r@ == id_text(prefix@, millis as nat, pid as nat),
{
    let dash = chars_of("-");
    let mut out = chars_of(prefix);
    append(&mut out, dash.as_slice());
    append(&mut out, decimal_of(millis).as_slice());
    append(&mut out, dash.as_slice());
    append(&mut out, decimal_of(pid as u128).as_slice());
    string_of(out.as_slice())
}

/// Unique-enough id of the process `pid` (millis + pid).
pub fn new_id(prefix: &str, pid: u32) -> (r: String)
    ensures
        exists|t: std::time::SystemTime|
            r@ == id_text(prefix@, #[trigger] speed_limiter::clock_millis(t), pid as nat),
{
    let millis = now_ms();
    id_at(prefix, millis, pid)
}

/// Characters that a file name cannot have on Windows or Unix.
pub open spec fn is_forbidden(c: char) -> bool {
    text::is_control(c) || c == '<' || c == '>' || c == ':' || c == '"' || c == '/' || c == '\\' || c
        == '|' || c == '?' || c == '*'
}

fn forbidden(c: char) -> (r: bool)
    ensures
        r == is_forbidden(c),
{
    control(c) || c == '<' || c == '>' || c == ':' || c == '"' || c == '/' || c == '\\' || c == '|'
        || c == '?' || c == '*'
}

/// `s` with `_` in place of every forbidden character.
pub open spec fn cleaned(s: Seq<char>) -> Seq<char> {
    Seq::new(
        s.len(),
        |i: int|
            if is_forbidden(s[i]) {
                '_'
            } else {
                s[i]
            },
    )
}

/// `s` without dots and white space at its end.
pub open spec fn without_tail(s: Seq<char>) -> Seq<char>
    decreases s.len(),
{
    if s.len() > 0 && (s.last() == '.' || text::is_space(s.last())) {
        without_tail(s.drop_last())
    } else {
        s
    }
}

/// A file name made safe.
pub open spec fn sanitized(name: Seq<char>) -> Seq<char> {
    let safe = text::trim_start(without_tail(cleaned(name)));
    if safe.len() == 0 {
        "download.bin"@
    } else {
        safe
    }
}

/// Make a server-provided file name safe to use on Windows and Unix:
/// `< > : " / \ | ? *` and control characters become `_`, trailing
/// dots/spaces (illegal on Windows) are stripped, white space of any kind
/// among them, leading white space too, and an empty result falls back to
/// `"download.bin"`.
pub fn sanitize_file_name(name: &str) -> (r: String)
    ensures
        r@ == sanitized(name@),
{
    let all = chars_of(name);
    let mut out: Vec<char> = Vec::new();
    let mut i: usize = 0;
    while i < all.len()
        invariant
            i <= all.len(),
            all@ == name@,
            out@ == cleaned(all@).take(i as int),
        decreases all.len() - i,
    {
        assert(cleaned(all@).take(i + 1) =~= out@.push(cleaned(all@)[i as int]));
        if forbidden(all[i]) {
            out.push('_');
        } else {
            out.push(all[i]);
        }
        i = i + 1;
    }
    assert(out@ =~= cleaned(name@));
    let mut n: usize = out.len();
    assert(out@.take(n as int) =~= out@);
    while n > 0 && (out[n - 1] == '.' || space(out[n - 1]))
        invariant
            n <= out.len(),
            without_tail(out@) == without_tail(out@.take(n as int)),
        decreases n,
    {
        assert(out@.take(n as int).drop_last() =~= out@.take(n - 1));
        n = n - 1;
    }
    let kept = trimmed_start(&out.as_slice()[0..n]);
    assert(kept@ == text::trim_start(without_tail(out@)));
    if kept.len() == 0 {
        "download.bin".to_string()
    } else {
        string_of(kept)
    }
}

proof fn lemma_tail(s: Seq<char>)
    ensures
        without_tail(s).len() <= s.len(),
        without_tail(s) == s.take(without_tail(s).len() as int),
        without_tail(s).len() > 0 ==> without_tail(s).last() != '.' && !text::is_space(
            without_tail(s).last(),
        ),
    decreases s.len(),
{
    if s.len() > 0 && (s.last() == '.' || text::is_space(s.last())) {
        lemma_tail(s.drop_last());
        let n = without_tail(s).len() as int;
        assert(s.drop_last().take(n) =~= s.take(n));
    } else {
        assert(s.take(s.len() as int) =~= s);
    }
}

proof fn lemma_trim_start(s: Seq<char>)
    ensures
        text::trim_start(s).len() <= s.len(),
        text::trim_start(s) == s.skip(s.len() - text::trim_start(s).len()),
        text::trim_start(s).len() > 0 ==> !text::is_space(text::trim_start(s)[0]),
    decreases s.len(),
{
    if s.len() > 0 && text::is_space(s[0]) {
        lemma_trim_start(s.skip(1));
        let k = s.len() - text::trim_start(s).len();
        assert(s.skip(1).skip(k - 1) =~= s.skip(k));
    } else {
        assert(s.skip(0) =~= s);
    }
}

/// A sanitized name can be used as it is: it is not empty, holds no forbidden
/// character, neither begins nor ends with white space, and does not end with
/// a dot.
pub proof fn sanitized_name_is_safe(name: Seq<char>)
    ensures
        sanitized(name).len() > 0,
        forall|i: int|
            0 <= i < sanitized(name).len() ==> !is_forbidden(#[trigger] sanitized(name)[i]),
        !text::is_space(sanitized(name)[0]),
        !text::is_space(sanitized(name).last()),
        sanitized(name).last() != '.',
{
    let kept = without_tail(cleaned(name));
    let safe = text::trim_start(kept);
    reveal_strlit("download.bin");
    lemma_tail(cleaned(name));
    lemma_trim_start(kept);
    if safe.len() > 0 {
        let k = kept.len() - safe.len();
        assert forall|i: int| 0 <= i < safe.len() implies !is_forbidden(#[trigger] safe[i]) by {
            assert(safe[i] == kept[k + i]);
            assert(kept[k + i] == cleaned(name)[k + i]);
        }
        assert(safe.last() == kept.last());
    }
}

/// Sanitizing a sanitized name again changes nothing.
pub proof fn sanitizing_twice_is_once(name: Seq<char>)
    ensures
        sanitized(sanitized(name)) == sanitized(name),
{
    let safe = sanitized(name);
    sanitized_name_is_safe(name);
    assert(cleaned(safe) =~= safe);
    assert(without_tail(safe) == safe);
    assert(text::trim_start(safe) == safe);
}

/// File category used for sorting into subfolders.
#[derive(Debug, Clone)]
pub struct Category {
    /// Display name, e.g. `"Video"`.
    pub name: String,
    /// File extensions (lowercase, without dot).
    pub extensions: Vec<String>,
}

/// The texts of a [`Category`].
#[verifier::ext_equal]
pub struct CategoryView {
    pub name: Seq<char>,
    pub extensions: Seq<Seq<char>>,
}

impl View for Category {
    type V = CategoryView;

    open spec fn view(&self) -> CategoryView {
        CategoryView { name: self.name@, extensions: text::views(self.extensions@) }
    }
}

pub open spec fn categories_view(v: Seq<Category>) -> Seq<CategoryView> {
    Seq::new(v.len(), |i: int| v[i]@)
}

/// The extension of a name, in lower case: the text behind its last dot; none
/// for a name without a dot.
pub open spec fn ext_key(name: Seq<char>) -> Option<Seq<char>> {
    let dot = text::last_index_of(name, '.');
    if dot >= 0 {
        Some(text::lower(name.skip(dot + 1)))
    } else {
        None
    }
}

/// The extension of a name, in lower case.
pub fn lower_ext(name: &str) -> (r: Option<String>)
    ensures
        text::opt_view(r) == ext_key(name@),
{
    let all = chars_of(name);
    let n: usize = all.len();
    match last_position(all.as_slice(), '.') {
        Some(i) => Some(string_of(lowered(&all.as_slice()[i + 1..n]).as_slice())),
        None => None,
    }
}

/// The first category that lists the extension of a name; the length of the
/// list where there is none.
pub open spec fn category_index(list: Seq<CategoryView>, ext: Seq<char>) -> nat
    decreases list.len(),
{
    if list.len() == 0 {
        0
    } else if list[0].extensions.contains(ext) {
        0
    } else {
        1 + category_index(list.skip(1), ext)
    }
}

/// The category of a name, where there is one; a name without an extension has
/// none.
pub open spec fn category_of(list: Seq<CategoryView>, name: Seq<char>) -> Option<CategoryView> {
    match ext_key(name) {
        Some(ext) => {
            let i = category_index(list, ext) as int;
            if i < list.len() {
                Some(list[i])
            } else {
                None
            }
        },
        None => None,
    }
}

/// The category found lists the extension, and none before it does; where
/// none is found, none does.
pub proof fn first_category_is_found(list: Seq<CategoryView>, ext: Seq<char>)
    ensures
        category_index(list, ext) <= list.len(),
        category_index(list, ext) < list.len() ==> list[category_index(
            list,
            ext,
        ) as int].extensions.contains(ext),
        forall|i: int|
            0 <= i < category_index(list, ext) ==> !(#[trigger] list[i]).extensions.contains(ext),
    decreases list.len(),
{
    if list.len() > 0 && !list[0].extensions.contains(ext) {
        first_category_is_found(list.skip(1), ext);
        assert(forall|i: int| 0 < i < list.len() ==> list.skip(1)[i - 1] == #[trigger] list[i]);
    }
}

fn category(name: &str, extensions: Vec<&str>) -> (r: Category)
    ensures
        r@.name == name@,
        r@.extensions == Seq::new(extensions@.len(), |i: int| extensions@[i]@),
{
    let mut list: Vec<String> = Vec::new();
    let mut i: usize = 0;
    while i < extensions.len()
        invariant
            i <= extensions.len(),
            list@.len() == i,
            forall|j: int| 0 <= j < i ==> (#[trigger] list@[j])@ == extensions@[j]@,
        decreases extensions.len() - i,
    {
        list.push(extensions[i].to_string());
        i = i + 1;
    }
    let r = Category { name: name.to_string(), extensions: list };
    assert(r@.extensions =~= Seq::new(extensions@.len(), |i: int| extensions@[i]@));
    r
}

/// The default set of categories.
pub open spec fn default_set() -> Seq<CategoryView> {
    seq![
        CategoryView {
            name: "Documents"@,
            extensions: seq![
                "pdf"@,
                "doc"@,
                "docx"@,
                "xls"@,
                "xlsx"@,
                "ppt"@,
                "pptx"@,
                "txt"@,
                "rtf"@,
                "odt"@,
            ],
        },
        CategoryView {
            name: "Video"@,
            extensions: seq![
                "mp4"@,
                "mkv"@,
                "avi"@,
                "mov"@,
                "wmv"@,
                "flv"@,
                "webm"@,
                "m4v"@,
            ],
        },
        CategoryView {
            name: "Audio"@,
            extensions: seq!["mp3"@, "wav"@, "flac"@, "ogg"@, "m4a"@, "opus"@],
        },
        CategoryView {
            name: "Compressed"@,
            extensions: seq!["zip"@, "rar"@, "7z"@, "tar"@, "gz"@, "bz2"@, "xz"@],
        },
        CategoryView {
            name: "Programs"@,
            extensions: seq!["exe"@, "msi"@, "dmg"@, "pkg"@, "deb"@, "rpm"@, "apk"@],
        },
        CategoryView {
            name: "Images"@,
            extensions: seq!["jpg"@, "jpeg"@, "png"@, "gif"@, "bmp"@, "svg"@, "webp"@],
        },
    ]
}

impl Category {
    /// Default set: Documents, Video, Audio, Compressed, Programs, Images.
    pub fn default_categories() -> (r: Vec<Self>)
        ensures
            categories_view(r@) == default_set(),
    {
        let documents = category(
            "Documents",
            vec!["pdf", "doc", "docx", "xls", "xlsx", "ppt", "pptx", "txt", "rtf", "odt"],
        );
        assert(documents@ =~= default_set()[0]);
        let video = category(
            "Video",
            vec!["mp4", "mkv", "avi", "mov", "wmv", "flv", "webm", "m4v"],
        );
        assert(video@ =~= default_set()[1]);
        let audio = category("Audio", vec!["mp3", "wav", "flac", "ogg", "m4a", "opus"]);
        assert(audio@ =~= default_set()[2]);
        let compressed = category("Compressed", vec!["zip", "rar", "7z", "tar", "gz", "bz2", "xz"]);
        assert(compressed@ =~= default_set()[3]);
        let programs = category("Programs", vec!["exe", "msi", "dmg", "pkg", "deb", "rpm", "apk"]);
        assert(programs@ =~= default_set()[4]);
        let images = category("Images", vec!["jpg", "jpeg", "png", "gif", "bmp", "svg", "webp"]);
        assert(images@ =~= default_set()[5]);
        let r = vec![documents, video, audio, compressed, programs, images];
        assert(categories_view(r@) =~= default_set());
        r
    }

    /// Find the category matching a file name's extension.
    pub fn for_file_name<'a>(categories: &'a [Self], file_name: &str) -> (r: Option<&'a Self>)
        ensures
            (match r {
                Some(c) => Some(c@),
                None => None,
            }) == category_of(categories_view(categories@), file_name@),
    {
        let ext = match lower_ext(file_name) {
            Some(ext) => ext,
            None => {
                return None;
            },
        };
        let ghost all = categories_view(categories@);
        let mut i: usize = 0;
        assert(all.skip(0) =~= all);
        while i < categories.len()
            invariant
                i <= categories.len(),
                all == categories_view(categories@),
                ext_key(file_name@) == Some(ext@),
                category_index(all, ext@) == i + category_index(all.skip(i as int), ext@),
            decreases categories.len() - i,
        {
            assert(all.skip(i as int)[0] == categories@[i as int]@);
            assert(all.skip(i as int).skip(1) =~= all.skip(i + 1));
            if list_has(&categories[i].extensions, ext.as_str()) {
                return Some(&categories[i]);
            }
            i = i + 1;
        }
        None
    }
}

/// Where a file goes: `<dir>/<Category>/<name>` when organizing is on and the
/// extension matches a category, else `<dir>/<name>`, the name sanitized.
pub open spec fn destination(
    dir: Seq<char>,
    file_name: Seq<char>,
    categories: Seq<CategoryView>,
    organize: bool,
) -> Seq<char> {
    let safe = sanitized(file_name);
    match category_of(categories, safe) {
        Some(c) if organize => paths::joined_path(paths::joined_path(dir, c.name), safe),
        _ => paths::joined_path(dir, safe),
    }
}

/// Destination for a file: `<dir>/<Category>/<name>` when organizing is on
/// and the extension matches a category, else `<dir>/<name>`. The name is
/// sanitized first.
pub fn resolve_dest(
    download_dir: &str,
    file_name: &str,
    categories: &[Category],
    organize: bool,
) -> (r: String)
    ensures
        r@ == destination(download_dir@, file_name@, categories_view(categories@), organize),
{
    let safe = sanitize_file_name(file_name);
    if organize {
        if let Some(category) = Category::for_file_name(categories, safe.as_str()) {
            let dir = join_path(download_dir, category.name.as_str());
            return join_path(dir.as_str(), safe.as_str());
        }
    }
    join_path(download_dir, safe.as_str())
}

/// Whatever name a server provides, the destination is a file of the
/// sanitized name directly in the directory that was chosen for it.
pub proof fn destination_is_one_file(
    dir: Seq<char>,
    file_name: Seq<char>,
    categories: Seq<CategoryView>,
    organize: bool,
)
    ensures
        ({
            let dest = destination(dir, file_name, categories, organize);
            let at = paths::name_start(dest);
            let folder = match category_of(categories, sanitized(file_name)) {
                Some(c) if organize => paths::joined_path(dir, c.name),
                _ => dir,
            };
            &&& dest.skip(at) == sanitized(file_name)
            &&& dest.take(at) == (if folder.len() > 0 && folder.last() != '/' {
                folder.push('/')
            } else {
                folder
            })
        }),
{
    let safe = sanitized(file_name);
    let folder = match category_of(categories, safe) {
        Some(c) if organize => paths::joined_path(dir, c.name),
        _ => dir,
    };
    let dest = paths::joined_path(folder, safe);
    sanitized_name_is_safe(file_name);
    let head = if folder.len() > 0 && folder.last() != '/' {
        folder.push('/')
    } else {
        folder
    };
    assert(!is_forbidden(safe[0]));
    assert(dest =~= head + safe);
    text::lemma_last_index_of(dest, '/');
    let at = paths::name_start(dest);
    assert forall|j: int| head.len() <= j < dest.len() implies dest[j] != '/' by {
        assert(dest[j] == safe[j - head.len()]);
        assert(!is_forbidden(safe[j - head.len()]));
    }
    if head.len() > 0 {
        assert(dest[head.len() - 1] == '/');
    }
    assert(at == head.len());
    assert(dest.skip(at) =~= safe);
    assert(dest.take(at) =~= head);
}

/// The name that a URL suggests is the last part of its path that is not empty,
/// whole: the parts behind it being empty, and without white space at its ends.
/// Without such a part the name is the fallback.
pub proof fn last_path_part_is_the_name(
    u: UrlView,
    head: Seq<Seq<char>>,
    name: Seq<char>,
    tail: Seq<Seq<char>>,
    message: Seq<char>,
)
    requires
        forall|i: int| 0 <= i < tail.len() ==> (#[trigger] tail[i]).len() == 0,
        name.len() > 0,
        text::free_of(name, CharClass::Either('?', '#')),
        !text::is_space(name[0]),
        !text::is_space(name[name.len() - 1]),
    ensures
        u.segments == Some(head.push(name) + tail) ==> guessed(Ok(u)) == name,
        u.segments == Some(tail) ==> guessed(Ok(u)) == "download.bin"@,
        u.segments is None ==> guessed(Ok(u)) == "download.bin"@,
        guessed(Err(message)) == "download.bin"@,
{
    lemma_last_filled(head.push(name), tail);
    lemma_last_filled(Seq::empty(), tail);
    assert(Seq::<Seq<char>>::empty() + tail =~= tail);
    let none = Seq::<char>::empty();
    text::cut_at_the_first(name, '?', none, CharClass::Either('?', '#'));
    text::trimming_keeps_the_core(none, name, none);
    text::cut_at_the_first(none, '?', none, CharClass::Either('?', '#'));
    text::trimming_keeps_the_core(none, none, none);
    assert(head.push(name).last() == name);
}

proof fn lemma_last_filled(head: Seq<Seq<char>>, tail: Seq<Seq<char>>)
    requires
        forall|i: int| 0 <= i < tail.len() ==> (#[trigger] tail[i]).len() == 0,
    ensures
        last_filled(head + tail) == last_filled(head),
    decreases tail.len(),
{
    if tail.len() > 0 {
        let init = tail.drop_last();
        assert forall|i: int| 0 <= i < init.len() implies (#[trigger] init[i]).len() == 0 by {
            assert(init[i] == tail[i]);
        }
        lemma_last_filled(head, init);
        assert((head + tail).last() == tail[tail.len() - 1]);
        assert((head + tail).drop_last() =~= head + init);
    } else {
        assert(head + tail =~= head);
    }
}

/// What a file name cannot have is control characters and the nine characters
/// that separate or match paths, and nothing else.
pub proof fn forbidden_characters(c: char)
    ensures
        is_forbidden(c) <==> (c as int) < 32 || 127 <= c as int <= 159 || c == '<' || c == '>' || c
            == ':' || c == '"' || c == '/' || c == '\\' || c == '|' || c == '?' || c == '*',
{
}

/// Sanitizing keeps every character that a file name can have, in its place, and
/// puts `_` for every other, as long as there is nothing to strip at the ends; a
/// name that is safe already is kept.
pub proof fn sanitizing_keeps_what_is_safe(name: Seq<char>)
    requires
        name.len() > 0,
        !text::is_space(name[0]) || is_forbidden(name[0]),
        !text::is_space(name[name.len() - 1]) || is_forbidden(name[name.len() - 1]),
        name[name.len() - 1] != '.',
    ensures
        sanitized(name).len() == name.len(),
        forall|i: int|
            0 <= i < name.len() ==> #[trigger] sanitized(name)[i] == if is_forbidden(name[i]) {
                '_'
            } else {
                name[i]
            },
        (forall|i: int| 0 <= i < name.len() ==> !is_forbidden(#[trigger] name[i])) ==> sanitized(
            name,
        ) == name,
{
    let c = cleaned(name);
    assert(c.last() == c[name.len() - 1]);
    assert(without_tail(c) == c);
    assert(text::trim_start(c) == c);
    if forall|i: int| 0 <= i < name.len() ==> !is_forbidden(#[trigger] name[i]) {
        assert(c =~= name);
    }
}

/// Dots at the end of a name do not matter, nor does white space there of the kind
/// that a name can have.
pub proof fn ends_of_a_name_do_not_matter(name: Seq<char>, c: char)
    requires
        c == '.' || text::is_space(c) && !is_forbidden(c),
    ensures
        sanitized(name.push(c)) == sanitized(name),
{
    let a = cleaned(name.push(c));
    assert(a.drop_last() =~= cleaned(name));
    assert(a.last() == c);
}

/// The extension of a name is what stands behind its last dot, in lower case; a
/// name without a dot has none.
pub proof fn extension_stands_behind_the_last_dot(stem: Seq<char>, ext: Seq<char>)
    requires
        forall|i: int| 0 <= i < ext.len() ==> #[trigger] ext[i] != '.',
    ensures
        ext_key(stem + seq!['.'] + ext) == Some(text::lower(ext)),
        ext_key(ext) is None,
{
    let name = stem + seq!['.'] + ext;
    text::lemma_last_index_of(name, '.');
    text::lemma_last_index_of(ext, '.');
    let dot = text::last_index_of(name, '.');
    assert(name[stem.len() as int] == '.');
    assert forall|j: int| stem.len() < j < name.len() implies name[j] != '.' by {
        assert(name[j] == ext[j - stem.len() - 1]);
    }
    assert(dot == stem.len());
    assert(name.skip(dot + 1) =~= ext);
    if text::last_index_of(ext, '.') >= 0 {
        assert(ext[text::last_index_of(ext, '.')] == '.');
    }
}

/// The category of a name is the first that lists its extension, in any case;
/// there is none where none lists it.
pub proof fn category_lists_the_extension(
    list: Seq<CategoryView>,
    stem: Seq<char>,
    ext: Seq<char>,
)
    requires
        forall|i: int| 0 <= i < ext.len() ==> #[trigger] ext[i] != '.',
    ensures
        match category_of(list, stem + seq!['.'] + ext) {
            Some(c) => exists|i: int|
                {
                    &&& 0 <= i < list.len()
                    &&& #[trigger] list[i] == c
                    &&& c.extensions.contains(text::lower(ext))
                    &&& forall|j: int|
                        0 <= j < i ==> !(#[trigger] list[j]).extensions.contains(text::lower(ext))
                },
            None => forall|j: int|
                0 <= j < list.len() ==> !(#[trigger] list[j]).extensions.contains(text::lower(ext)),
        },
        category_of(list, ext) is None,
{
    extension_stands_behind_the_last_dot(stem, ext);
    first_category_is_found(list, text::lower(ext));
    let i = category_index(list, text::lower(ext)) as int;
    if i < list.len() {
        assert(list[i] == category_of(list, stem + seq!['.'] + ext)->0);
    }
}

/// A destination is the directory, the folder of the category where files are
/// organized and there is one, and the sanitized name, with slashes between
/// them.
pub proof fn destination_is_in_its_folder(
    dir: Seq<char>,
    file_name: Seq<char>,
    categories: Seq<CategoryView>,
    organize: bool,
)
    requires
        dir.len() > 0,
        dir[dir.len() - 1] != '/',
    ensures
        ({
            let safe = sanitized(file_name);
            let dest = destination(dir, file_name, categories, organize);
            &&& !organize || category_of(categories, safe) is None ==> dest == dir + seq!['/'] + safe
            &&& organize ==> (category_of(categories, safe) matches Some(c) ==> c.name.len() > 0
                && c.name[0] != '/' && c.name[c.name.len() - 1] != '/' ==> dest == dir + seq!['/']
                + c.name + seq!['/'] + safe)
        }),
{
    let safe = sanitized(file_name);
    sanitized_name_is_safe(file_name);
    assert(!is_forbidden(safe[0]));
    assert(dir.push('/') + safe =~= dir + seq!['/'] + safe);
    if let Some(c) = category_of(categories, safe) {
        if c.name.len() > 0 && c.name[0] != '/' && c.name[c.name.len() - 1] != '/' {
            let folder = dir.push('/') + c.name;
            assert(folder.last() == c.name[c.name.len() - 1]);
            assert(folder.push('/') + safe =~= dir + seq!['/'] + c.name + seq!['/'] + safe);
        }
    }
}

/// Ids of one prefix differ where the times or the processes do.
pub proof fn ids_differ(prefix: Seq<char>, millis: nat, pid: nat, millis2: nat, pid2: nat)
    ensures
        id_text(prefix, millis, pid) == id_text(prefix, millis2, pid2) <==> millis == millis2 && pid
            == pid2,
        text::stands_at(id_text(prefix, millis, pid), prefix, 0),
{
    reveal_strlit("-");
    let a = text::decimal(millis);
    let b = text::decimal(pid);
    let c = text::decimal(millis2);
    let d = text::decimal(pid2);
    text::decimal_reads_back(millis);
    text::decimal_reads_back(pid);
    text::decimal_reads_back(millis2);
    text::decimal_reads_back(pid2);
    let x = id_text(prefix, millis, pid);
    let y = id_text(prefix, millis2, pid2);
    if x == y {
        let n = prefix.len() as int + 1;
        assert(x.skip(n) =~= a + seq!['-'] + b);
        assert(y.skip(n) =~= c + seq!['-'] + d);
        let dash = CharClass::One('-');
        assert forall|i: int| 0 <= i < a.len() implies !dash.has(#[trigger] a[i]) by {
            assert('0' <= a[i] <= '9');
        }
        assert forall|i: int| 0 <= i < c.len() implies !dash.has(#[trigger] c[i]) by {
            assert('0' <= c[i] <= '9');
        }
        text::cut_at_the_first(a, '-', b, dash);
        text::cut_at_the_first(c, '-', d, dash);
        assert(a == c);
        assert((a + seq!['-'] + b).skip(a.len() as int + 1) =~= b);
        assert((c + seq!['-'] + d).skip(c.len() as int + 1) =~= d);
    }
}

proof fn lemma_tail_behind(c: char, t: Seq<char>)
    requires
        text::is_space(c),
    ensures
        without_tail(seq![c] + t) == (if without_tail(t).len() == 0 {
            Seq::empty()
        } else {
            seq![c] + without_tail(t)
        }),
    decreases t.len(),
{
    let s = seq![c] + t;
    if t.len() > 0 {
        assert(s.last() == t.last());
        assert(s.drop_last() =~= seq![c] + t.drop_last());
        if t.last() == '.' || text::is_space(t.last()) {
            lemma_tail_behind(c, t.drop_last());
        }
    } else {
        assert(s.last() == c);
        assert(s.drop_last() =~= Seq::empty());
        assert(without_tail(s.drop_last()) =~= Seq::empty());
    }
}

/// White space at the beginning of a name, of the kind that a name can have, does
/// not matter.
pub proof fn beginning_of_a_name_does_not_matter(c: char, name: Seq<char>)
    requires
        text::is_space(c),
        !is_forbidden(c),
    ensures
        sanitized(seq![c] + name) == sanitized(name),
{
    let t = cleaned(name);
    let s = cleaned(seq![c] + name);
    assert(s =~= seq![c] + t);
    lemma_tail_behind(c, t);
    let kept = without_tail(t);
    if kept.len() > 0 {
        let k = seq![c] + kept;
        assert(k[0] == c);
        assert(k.skip(1) =~= kept);
    } else {
        assert(kept =~= Seq::empty());
    }
}

/// The default categories list the usual extensions, each category its own.
pub proof fn usual_extensions_have_a_category()
    ensures
        default_set().len() == 6,
        ({
            let c = default_set()[0];
            &&& c.name == "Documents"@
            &&& c.extensions.contains("pdf"@) && c.extensions.contains("doc"@)
            &&& c.extensions.contains("docx"@) && c.extensions.contains("xls"@)
            &&& c.extensions.contains("xlsx"@) && c.extensions.contains("ppt"@)
            &&& c.extensions.contains("pptx"@) && c.extensions.contains("txt"@)
            &&& c.extensions.contains("rtf"@) && c.extensions.contains("odt"@)
            &&& c.extensions.len() == 10
        }),
        ({
            let c = default_set()[1];
            &&& c.name == "Video"@
            &&& c.extensions.contains("mp4"@) && c.extensions.contains("mkv"@)
            &&& c.extensions.contains("avi"@) && c.extensions.contains("mov"@)
            &&& c.extensions.contains("wmv"@) && c.extensions.contains("flv"@)
            &&& c.extensions.contains("webm"@) && c.extensions.contains("m4v"@)
            &&& c.extensions.len() == 8
        }),
        ({
            let c = default_set()[2];
            &&& c.name == "Audio"@
            &&& c.extensions.contains("mp3"@) && c.extensions.contains("wav"@)
            &&& c.extensions.contains("flac"@) && c.extensions.contains("ogg"@)
            &&& c.extensions.contains("m4a"@) && c.extensions.contains("opus"@)
            &&& c.extensions.len() == 6
        }),
        ({
            let c = default_set()[3];
            &&& c.name == "Compressed"@
            &&& c.extensions.contains("zip"@) && c.extensions.contains("rar"@)
            &&& c.extensions.contains("7z"@) && c.extensions.contains("tar"@)
            &&& c.extensions.contains("gz"@) && c.extensions.contains("bz2"@)
            &&& c.extensions.contains("xz"@)
            &&& c.extensions.len() == 7
        }),
        ({
            let c = default_set()[4];
            &&& c.name == "Programs"@
            &&& c.extensions.contains("exe"@) && c.extensions.contains("msi"@)
            &&& c.extensions.contains("dmg"@) && c.extensions.contains("pkg"@)
            &&& c.extensions.contains("deb"@) && c.extensions.contains("rpm"@)
            &&& c.extensions.contains("apk"@)
            &&& c.extensions.len() == 7
        }),
        ({
            let c = default_set()[5];
            &&& c.name == "Images"@
            &&& c.extensions.contains("jpg"@) && c.extensions.contains("jpeg"@)
            &&& c.extensions.contains("png"@) && c.extensions.contains("gif"@)
            &&& c.extensions.contains("bmp"@) && c.extensions.contains("svg"@)
            &&& c.extensions.contains("webp"@)
            &&& c.extensions.len() == 7
        }),
{
    let d = default_set()[0].extensions;
    assert(d[0] == "pdf"@ && d[1] == "doc"@ && d[2] == "docx"@ && d[3] == "xls"@ && d[4] == "xlsx"@);
    assert(d[5] == "ppt"@ && d[6] == "pptx"@ && d[7] == "txt"@ && d[8] == "rtf"@ && d[9] == "odt"@);
    let v = default_set()[1].extensions;
    assert(v[0] == "mp4"@ && v[1] == "mkv"@ && v[2] == "avi"@ && v[3] == "mov"@);
    assert(v[4] == "wmv"@ && v[5] == "flv"@ && v[6] == "webm"@ && v[7] == "m4v"@);
    let a = default_set()[2].extensions;
    assert(a[0] == "mp3"@ && a[1] == "wav"@ && a[2] == "flac"@ && a[3] == "ogg"@ && a[4] == "m4a"@
        && a[5] == "opus"@);
    let z = default_set()[3].extensions;
    assert(z[0] == "zip"@ && z[1] == "rar"@ && z[2] == "7z"@ && z[3] == "tar"@ && z[4] == "gz"@ && z[5]
        == "bz2"@ && z[6] == "xz"@);
    let e = default_set()[4].extensions;
    assert(e[0] == "exe"@ && e[1] == "msi"@ && e[2] == "dmg"@ && e[3] == "pkg"@ && e[4] == "deb"@
        && e[5] == "rpm"@ && e[6] == "apk"@);
    let i = default_set()[5].extensions;
    assert(i[0] == "jpg"@ && i[1] == "jpeg"@ && i[2] == "png"@ && i[3] == "gif"@ && i[4] == "bmp"@
        && i[5] == "svg"@ && i[6] == "webp"@);
}

/// A query or a fragment that stands behind a name in a path is not part of the
/// name.
pub proof fn query_is_not_part_of_the_name(
    u: UrlView,
    name: Seq<char>,
    mark: char,
    rest: Seq<char>,
)
    requires
        u.segments == Some(seq![name + seq![mark] + rest]),
        mark == '?' || mark == '#',
        name.len() > 0,
        text::free_of(name, CharClass::Either('?', '#')),
        !text::is_space(name[0]),
        !text::is_space(name[name.len() - 1]),
    ensures
        guessed(Ok(u)) == name,
{
    let part = name + seq![mark] + rest;
    let list = seq![part];
    assert(list.last() == part);
    text::cut_at_the_first(name, mark, rest, CharClass::Either('?', '#'));
    text::trimming_keeps_the_core(Seq::empty(), name, Seq::empty());
}

} // verus!
