//! Text primitives on characters.
//!
//! A text is read once into a vector of characters; everything after that
//! works on character slices, and a result is written back as a `String`.

use vstd::prelude::*;

verus! {

/// `String::push` appends the character to the end of the string.
pub assume_specification[ String::push ](s: &mut String, c: char)
    ensures
        final(s)@ == old(s)@.push(c),
;

/// The characters with the Unicode property `White_Space`.
pub open spec fn is_space(c: char) -> bool {
    let n = c as int;
    ||| 9 <= n <= 13
    ||| n == 32
    ||| n == 0x85
    ||| n == 0xa0
    ||| n == 0x1680
    ||| 0x2000 <= n <= 0x200a
    ||| n == 0x2028
    ||| n == 0x2029
    ||| n == 0x202f
    ||| n == 0x205f
    ||| n == 0x3000
}

/// The white space of ASCII: tab, line feed, form feed, carriage return, space.
pub open spec fn is_ascii_space(c: char) -> bool {
    c == '\t' || c == '\n' || c == '\x0c' || c == '\r' || c == ' '
}

/// The characters of the general category `Cc`.
pub open spec fn is_control(c: char) -> bool {
    let n = c as int;
    n < 32 || 127 <= n < 160
}

/// A set of characters that a text is searched for or split at.
#[derive(Clone, Copy)]
pub enum CharClass {
    One(char),
    Either(char, char),
    /// ASCII white space.
    AsciiSpace,
    /// ASCII white space and one more character.
    AsciiSpaceOr(char),
    /// ASCII white space and two more characters.
    AsciiSpaceOrEither(char, char),
    /// Unicode white space.
    Space,
}

impl CharClass {
    /// Whether the class holds `c`.
    pub open spec fn has(self, c: char) -> bool {
        match self {
            CharClass::One(a) => c == a,
            CharClass::Either(a, b) => c == a || c == b,
            CharClass::AsciiSpace => is_ascii_space(c),
            CharClass::AsciiSpaceOr(a) => is_ascii_space(c) || c == a,
            CharClass::AsciiSpaceOrEither(a, b) => is_ascii_space(c) || c == a || c == b,
            CharClass::Space => is_space(c),
        }
    }

    pub fn matches(self, c: char) -> (r: bool)
        ensures
            r == self.has(c),
    {
        match self {
            CharClass::One(a) => c == a,
            CharClass::Either(a, b) => c == a || c == b,
            CharClass::AsciiSpace => ascii_space(c),
            CharClass::AsciiSpaceOr(a) => ascii_space(c) || c == a,
            CharClass::AsciiSpaceOrEither(a, b) => ascii_space(c) || c == a || c == b,
            CharClass::Space => space(c),
        }
    }
}

pub fn space(c: char) -> (r: bool)
    ensures
        r == is_space(c),
{
    let n: u32 = c as u32;
    (9 <= n && n <= 13) || n == 32 || n == 0x85 || n == 0xa0 || n == 0x1680 || (0x2000 <= n && n
        <= 0x200a) || n == 0x2028 || n == 0x2029 || n == 0x202f || n == 0x205f || n == 0x3000
}

pub fn ascii_space(c: char) -> (r: bool)
    ensures
        r == is_ascii_space(c),
{
    c == '\t' || c == '\n' || c == '\x0c' || c == '\r' || c == ' '
}

pub fn control(c: char) -> (r: bool)
    ensures
        r == is_control(c),
{
    let n: u32 = c as u32;
    n < 32 || (127 <= n && n < 160)
}

/// The characters of `s`.
pub fn chars_of(s: &str) -> (v: Vec<char>)
    ensures
        v@ == s@,
{
    let mut v: Vec<char> = Vec::new();
    for c in it: s.chars()
        invariant
            it.seq() == s@,
            v@ == it.seq().take(it.index() as int),
    {
        v.push(c);
    }
    v
}

/// The string made of the characters of `s`.
pub fn string_of(s: &[char]) -> (r: String)
    ensures
        r@ == s@,
{
    let mut r = String::new();
    let mut i: usize = 0;
    while i < s.len()
        invariant
            i <= s.len(),
            r@ == s@.take(i as int),
        decreases s.len() - i,
    {
        r.push(s[i]);
        i = i + 1;
    }
    r
}

/// `s` without its leading white space.
pub open spec fn trim_start(s: Seq<char>) -> Seq<char>
    decreases s.len(),
{
    if s.len() > 0 && is_space(s[0]) {
        trim_start(s.skip(1))
    } else {
        s
    }
}

/// `s` without its trailing white space.
pub open spec fn trim_end(s: Seq<char>) -> Seq<char>
    decreases s.len(),
{
    if s.len() > 0 && is_space(s.last()) {
        trim_end(s.drop_last())
    } else {
        s
    }
}

/// `s` without its leading and trailing white space.
pub open spec fn trim(s: Seq<char>) -> Seq<char> {
    trim_end(trim_start(s))
}

pub fn trimmed_start(s: &[char]) -> (r: &[char])
    ensures
        r@ == trim_start(s@),
{
    let mut a: usize = 0;
    assert(s@.skip(0) == s@);
    while a < s.len() && space(s[a])
        invariant
            a <= s.len(),
            trim_start(s@) == trim_start(s@.skip(a as int)),
        decreases s.len() - a,
    {
        assert(s@.skip(a as int).skip(1) == s@.skip(a + 1));
        a = a + 1;
    }
    &s[a..s.len()]
}

pub fn trimmed_end(s: &[char]) -> (r: &[char])
    ensures
        r@ == trim_end(s@),
{
    let mut b: usize = s.len();
    assert(s@.take(b as int) == s@);
    while b > 0 && space(s[b - 1])
        invariant
            b <= s.len(),
            trim_end(s@) == trim_end(s@.take(b as int)),
        decreases b,
    {
        assert(s@.take(b as int).drop_last() == s@.take(b - 1));
        b = b - 1;
    }
    &s[0..b]
}

pub fn trimmed(s: &[char]) -> (r: &[char])
    ensures
        r@ == trim(s@),
{
    trimmed_end(trimmed_start(s))
}

/// The position of the first character of `s` in `class`, or the length of
/// `s` when there is none.
pub open spec fn index_of(s: Seq<char>, class: CharClass) -> nat
    decreases s.len(),
{
    if s.len() == 0 || class.has(s[0]) {
        0
    } else {
        1 + index_of(s.skip(1), class)
    }
}

/// What the position returned by `index_of` is.
pub proof fn lemma_index_of(s: Seq<char>, class: CharClass)
    ensures
        index_of(s, class) <= s.len(),
        forall|i: int| 0 <= i < index_of(s, class) ==> !class.has(#[trigger] s[i]),
        index_of(s, class) < s.len() ==> class.has(s[index_of(s, class) as int]),
    decreases s.len(),
{
    if s.len() == 0 || class.has(s[0]) {
    } else {
        let t = s.skip(1);
        lemma_index_of(t, class);
        assert forall|i: int| 0 <= i < index_of(s, class) implies !class.has(#[trigger] s[i]) by {
            if i > 0 {
                assert(t[i - 1] == s[i]);
            }
        }
    }
}

pub fn position(s: &[char], class: CharClass) -> (r: usize)
    ensures
        r == index_of(s@, class),
        r <= s@.len(),
{
    let mut i: usize = 0;
    assert(s@.skip(0) == s@);
    while i < s.len() && !class.matches(s[i])
        invariant
            i <= s.len(),
            index_of(s@, class) == i + index_of(s@.skip(i as int), class),
        decreases s.len() - i,
    {
        assert(s@.skip(i as int).skip(1) == s@.skip(i + 1));
        i = i + 1;
    }
    i
}

/// The last position of `c` in `s`; -1 where there is none.
pub open spec fn last_index_of(s: Seq<char>, c: char) -> int
    decreases s.len(),
{
    if s.len() == 0 {
        -1
    } else if s.last() == c {
        s.len() - 1
    } else {
        last_index_of(s.drop_last(), c)
    }
}

/// What is found is `c`, and no `c` follows it.
pub proof fn lemma_last_index_of(s: Seq<char>, c: char)
    ensures
        -1 <= last_index_of(s, c) < s.len(),
        last_index_of(s, c) >= 0 ==> s[last_index_of(s, c)] == c,
        forall|j: int| last_index_of(s, c) < j < s.len() ==> s[j] != c,
    decreases s.len(),
{
    if s.len() > 0 && s.last() != c {
        lemma_last_index_of(s.drop_last(), c);
        assert(forall|j: int| 0 <= j < s.len() - 1 ==> s.drop_last()[j] == s[j]);
    }
}

pub fn last_position(s: &[char], c: char) -> (r: Option<usize>)
    ensures
        (match r {
            Some(i) => i as int,
            None => -1,
        }) == last_index_of(s@, c),
        r matches Some(i) ==> i < s@.len(),
{
    let mut n: usize = s.len();
    assert(s@.take(n as int) =~= s@);
    while n > 0
        invariant
            n <= s@.len(),
            last_index_of(s@, c) == last_index_of(s@.take(n as int), c),
        decreases n,
    {
        assert(s@.take(n as int).drop_last() =~= s@.take(n - 1));
        if s[n - 1] == c {
            return Some(n - 1);
        }
        n = n - 1;
    }
    None
}

/// `s` without its leading characters in `class`.
pub open spec fn skip_run(s: Seq<char>, class: CharClass) -> Seq<char>
    decreases s.len(),
{
    if s.len() > 0 && class.has(s[0]) {
        skip_run(s.skip(1), class)
    } else {
        s
    }
}

/// What is left is an end of `s` that does not begin in `class`.
pub proof fn lemma_skip_run(s: Seq<char>, class: CharClass)
    ensures
        skip_run(s, class).len() <= s.len(),
        skip_run(s, class).len() > 0 ==> !class.has(skip_run(s, class)[0]),
    decreases s.len(),
{
    if s.len() > 0 && class.has(s[0]) {
        lemma_skip_run(s.skip(1), class);
    }
}

pub fn after_run(s: &[char], class: CharClass) -> (r: &[char])
    ensures
        r@ == skip_run(s@, class),
        r@.len() <= s@.len(),
        r@.len() > 0 ==> !class.has(r@[0]),
{
    let mut a: usize = 0;
    assert(s@.skip(0) == s@);
    while a < s.len() && class.matches(s[a])
        invariant
            a <= s.len(),
            skip_run(s@, class) == skip_run(s@.skip(a as int), class),
        decreases s.len() - a,
    {
        assert(s@.skip(a as int).skip(1) == s@.skip(a + 1));
        a = a + 1;
    }
    &s[a..s.len()]
}

/// `s` without the characters of `class` at its end.
pub open spec fn drop_end(s: Seq<char>, class: CharClass) -> Seq<char>
    decreases s.len(),
{
    if s.len() > 0 && class.has(s.last()) {
        drop_end(s.drop_last(), class)
    } else {
        s
    }
}

/// `s` without the characters of `class` at its beginning and its end.
pub open spec fn strip(s: Seq<char>, class: CharClass) -> Seq<char> {
    drop_end(skip_run(s, class), class)
}

pub fn stripped(s: &[char], class: CharClass) -> (r: &[char])
    ensures
        r@ == strip(s@, class),
{
    let rest = after_run(s, class);
    let mut n: usize = rest.len();
    assert(rest@.take(n as int) =~= rest@);
    while n > 0 && class.matches(rest[n - 1])
        invariant
            n <= rest@.len(),
            drop_end(rest@, class) == drop_end(rest@.take(n as int), class),
        decreases n,
    {
        assert(rest@.take(n as int).drop_last() =~= rest@.take(n - 1));
        n = n - 1;
    }
    &rest[0..n]
}

/// The characters of `s` before the first one in `class`.
pub open spec fn before(s: Seq<char>, class: CharClass) -> Seq<char> {
    s.take(index_of(s, class) as int)
}

pub fn until(s: &[char], class: CharClass) -> (r: &[char])
    ensures
        r@ == before(s@, class),
{
    let i = position(s, class);
    &s[0..i]
}

/// Whether `s` begins with `pat`.
pub fn starts_with(s: &[char], pat: &str) -> (r: bool)
    ensures
        r == pat@.is_prefix_of(s@),
{
    let mut i: usize = 0;
    for c in it: pat.chars()
        invariant
            it.seq() == pat@,
            i == it.index(),
            i <= s.len(),
            forall|j: int| 0 <= j < i ==> s@[j] == pat@[j],
    {
        if i >= s.len() || s[i] != c {
            assert(pat@[i as int] == c);
            return false;
        }
        i = i + 1;
    }
    true
}

/// Whether `s` ends with `pat`.
pub fn ends_with(s: &[char], pat: &str) -> (r: bool)
    ensures
        r == pat@.is_suffix_of(s@),
{
    let p = chars_of(pat);
    let n = p.len();
    if n > s.len() {
        return false;
    }
    let from: usize = s.len() - n;
    let mut i: usize = 0;
    while i < n
        invariant
            n == p.len(),
            p@ == pat@,
            i <= n,
            n <= s.len(),
            from == s.len() - n,
            forall|j: int| 0 <= j < i ==> s@[from + j] == pat@[j],
        decreases n - i,
    {
        if s[from + i] != p[i] {
            assert(s@.subrange(from as int, s.len() as int)[i as int] != pat@[i as int]);
            return false;
        }
        i = i + 1;
    }
    true
}

/// Whether `s` is the text `pat`.
pub fn same(s: &[char], pat: &str) -> (r: bool)
    ensures
        r == (s@ == pat@),
{
    let mut i: usize = 0;
    for c in it: pat.chars()
        invariant
            it.seq() == pat@,
            i == it.index(),
            i <= s.len(),
            forall|j: int| 0 <= j < i ==> s@[j] == pat@[j],
    {
        if i >= s.len() || s[i] != c {
            assert(pat@[i as int] == c);
            return false;
        }
        i = i + 1;
    }
    assert(i == s.len() ==> s@ =~= pat@);
    i == s.len()
}

/// Whether the two texts are equal.
pub fn same_text(a: &str, b: &str) -> (r: bool)
    ensures
        r == (a@ == b@),
{
    same(chars_of(a).as_slice(), b)
}

/// `s` without the prefix `pat`, when it has that prefix.
pub open spec fn strip_prefix(s: Seq<char>, pat: Seq<char>) -> Option<Seq<char>> {
    if pat.is_prefix_of(s) {
        Some(s.skip(pat.len() as int))
    } else {
        None
    }
}

/// What an optional slice holds.
pub open spec fn slice_view(s: Option<&[char]>) -> Option<Seq<char>> {
    match s {
        Some(v) => Some(v@),
        None => None,
    }
}

/// What an optional string holds.
pub open spec fn opt_view(s: Option<String>) -> Option<Seq<char>> {
    match s {
        Some(v) => Some(v@),
        None => None,
    }
}

/// What an optional text holds.
pub open spec fn str_view(s: Option<&str>) -> Option<Seq<char>> {
    match s {
        Some(v) => Some(v@),
        None => None,
    }
}

/// The texts that a list of strings holds.
pub open spec fn views(v: Seq<String>) -> Seq<Seq<char>> {
    Seq::new(v.len(), |i: int| v[i]@)
}

pub fn copy_opt(s: &Option<String>) -> (r: Option<String>)
    ensures
        opt_view(r) == opt_view(*s),
{
    match s {
        Some(v) => Some(v.clone()),
        None => None,
    }
}

pub fn copy_list(v: &Vec<String>) -> (r: Vec<String>)
    ensures
        views(r@) == views(v@),
{
    let mut out: Vec<String> = Vec::new();
    let mut i: usize = 0;
    while i < v.len()
        invariant
            i <= v.len(),
            views(out@) == views(v@).take(i as int),
        decreases v.len() - i,
    {
        let ghost done = out@;
        out.push(v[i].clone());
        assert(views(out@) =~= views(done).push(v@[i as int]@));
        assert(views(v@).take(i + 1) =~= views(v@).take(i as int).push(v@[i as int]@));
        i = i + 1;
    }
    assert(views(v@).take(i as int) =~= views(v@));
    out
}

/// Whether `list` holds the text `s`.
pub fn list_has(list: &Vec<String>, s: &str) -> (r: bool)
    ensures
        r == views(list@).contains(s@),
{
    let mut i: usize = 0;
    while i < list.len()
        invariant
            i <= list.len(),
            forall|j: int| 0 <= j < i ==> #[trigger] views(list@)[j] != s@,
        decreases list.len() - i,
    {
        if same_text(list[i].as_str(), s) {
            assert(views(list@)[i as int] == s@);
            return true;
        }
        i = i + 1;
    }
    false
}

pub fn without_prefix<'a>(s: &'a [char], pat: &str) -> (r: Option<&'a [char]>)
    ensures
        slice_view(r) == strip_prefix(s@, pat@),
{
    if starts_with(s, pat) {
        let n = chars_of(pat).len();
        Some(&s[n..s.len()])
    } else {
        None
    }
}

/// The position of the first occurrence of `pat` in `s`.
pub open spec fn find(s: Seq<char>, pat: Seq<char>) -> Option<int>
    decreases s.len(),
{
    if pat.is_prefix_of(s) {
        Some(0)
    } else if s.len() == 0 {
        None
    } else {
        match find(s.skip(1), pat) {
            Some(i) => Some(i + 1),
            None => None,
        }
    }
}

/// Where `find` finds something, the pattern stands there.
pub proof fn lemma_find(s: Seq<char>, pat: Seq<char>)
    ensures
        find(s, pat) matches Some(i) ==> 0 <= i && i + pat.len() <= s.len() && s.subrange(
            i,
            i + pat.len(),
        ) == pat,
    decreases s.len(),
{
    if pat.is_prefix_of(s) {
        assert(s.subrange(0, pat.len() as int) == pat);
    } else if s.len() > 0 {
        lemma_find(s.skip(1), pat);
        if let Some(i) = find(s.skip(1), pat) {
            assert(s.subrange(i + 1, i + 1 + pat.len()) == s.skip(1).subrange(i, i + pat.len()));
        }
    }
}

pub open spec fn opt_index(i: Option<usize>) -> Option<int> {
    match i {
        Some(n) => Some(n as int),
        None => None,
    }
}

pub fn find_text(s: &[char], pat: &str) -> (r: Option<usize>)
    ensures
        opt_index(r) == find(s@, pat@),
        r matches Some(i) ==> i + pat@.len() <= s@.len() && s@.subrange(i as int, i + pat@.len())
            == pat@,
{
    proof {
        lemma_find(s@, pat@);
    }
    let mut i: usize = 0;
    assert(s@.skip(0) == s@);
    while !starts_with(&s[i..s.len()], pat)
        invariant
            i <= s.len(),
            find(s@, pat@) == (match find(s@.skip(i as int), pat@) {
                Some(k) => Some(k + i),
                None => None,
            }),
        decreases s.len() - i,
    {
        if i >= s.len() {
            return None;
        }
        assert(s@.skip(i as int).skip(1) == s@.skip(i + 1));
        i = i + 1;
    }
    Some(i)
}

/// Whether `pat` occurs in `s`.
pub open spec fn occurs(s: Seq<char>, pat: Seq<char>) -> bool {
    find(s, pat) is Some
}

pub fn contains(s: &[char], pat: &str) -> (r: bool)
    ensures
        r == occurs(s@, pat@),
{
    find_text(s, pat).is_some()
}

/// `s` with every occurrence of `pat` replaced by `with`, from left to right.
pub open spec fn replace(s: Seq<char>, pat: Seq<char>, with: Seq<char>) -> Seq<char>
    decreases s.len(),
{
    if pat.len() == 0 || s.len() == 0 {
        s
    } else if pat.is_prefix_of(s) {
        with + replace(s.skip(pat.len() as int), pat, with)
    } else {
        seq![s[0]] + replace(s.skip(1), pat, with)
    }
}

pub fn replaced(s: &[char], pat: &str, with: &[char]) -> (r: Vec<char>)
    requires
        pat@.len() > 0,
    ensures
        r@ == replace(s@, pat@, with@),
{
    let n = chars_of(pat).len();
    let mut out: Vec<char> = Vec::new();
    let mut i: usize = 0;
    assert(s@.skip(0) == s@);
    while i < s.len()
        invariant
            n == pat@.len(),
            n > 0,
            i <= s.len(),
            replace(s@, pat@, with@) == out@ + replace(s@.skip(i as int), pat@, with@),
        decreases s.len() - i,
    {
        let ghost before = out@;
        let ghost rest = s@.skip(i as int);
        if starts_with(&s[i..s.len()], pat) {
            append(&mut out, with);
            assert(rest.skip(n as int) == s@.skip(i + n));
            assert(before + (with@ + replace(s@.skip(i + n), pat@, with@)) == out@ + replace(
                s@.skip(i + n),
                pat@,
                with@,
            ));
            i = i + n;
        } else {
            out.push(s[i]);
            assert(rest.skip(1) == s@.skip(i + 1));
            assert(before + (seq![s@[i as int]] + replace(s@.skip(i + 1), pat@, with@)) == out@
                + replace(s@.skip(i + 1), pat@, with@));
            i = i + 1;
        }
    }
    assert(out@ + replace(s@.skip(i as int), pat@, with@) == out@);
    out
}

/// Appends the characters of `more` to `out`.
pub fn append(out: &mut Vec<char>, more: &[char])
    ensures
        final(out)@ == old(out)@ + more@,
{
    let mut i: usize = 0;
    while i < more.len()
        invariant
            i <= more.len(),
            out@ == old(out)@ + more@.take(i as int),
        decreases more.len() - i,
    {
        out.push(more[i]);
        assert(more@.take(i + 1) == more@.take(i as int).push(more@[i as int]));
        i = i + 1;
    }
    assert(more@.take(i as int) == more@);
}

/// The parts of `s` between the characters of `class`: one more than there
/// are such characters.
pub open spec fn split(s: Seq<char>, class: CharClass) -> Seq<Seq<char>>
    decreases s.len(),
{
    let i = index_of(s, class) as int;
    if i >= s.len() {
        seq![s]
    } else {
        seq![s.take(i)] + split(s.skip(i + 1), class)
    }
}

/// The texts that a list of slices holds.
pub open spec fn slice_views(v: Seq<&[char]>) -> Seq<Seq<char>> {
    Seq::new(v.len(), |i: int| v[i]@)
}

pub fn parts<'a>(s: &'a [char], class: CharClass) -> (r: Vec<&'a [char]>)
    ensures
        slice_views(r@) == split(s@, class),
        r@.len() > 0,
{
    let mut out: Vec<&'a [char]> = Vec::new();
    let mut from: usize = 0;
    assert(s@.skip(0) == s@);
    assert(slice_views(out@) =~= Seq::empty());
    loop
        invariant
            from <= s.len(),
            split(s@, class) == slice_views(out@) + split(s@.skip(from as int), class),
        decreases s.len() - from,
    {
        let rest = &s[from..s.len()];
        proof {
            lemma_index_of(rest@, class);
        }
        let i = position(rest, class);
        let ghost before = out@;
        if i >= rest.len() {
            out.push(rest);
            assert(slice_views(out@) =~= slice_views(before) + seq![rest@]);
            return out;
        }
        let part = &rest[0..i];
        out.push(part);
        assert(rest@.skip(i + 1) == s@.skip(from + i + 1));
        assert(slice_views(out@) =~= slice_views(before).push(part@));
        assert(slice_views(before) + (seq![part@] + split(s@.skip(from + i + 1), class))
            =~= slice_views(out@) + split(s@.skip(from + i + 1), class));
        from = from + i + 1;
    }
}

/// `s` without one trailing carriage return.
pub open spec fn chomp(s: Seq<char>) -> Seq<char> {
    if s.len() > 0 && s.last() == '\r' {
        s.drop_last()
    } else {
        s
    }
}

/// The lines of `s`, without their line ends; a last line may lack its line
/// end, and nothing follows a line end that ends the text.
pub open spec fn lines(s: Seq<char>) -> Seq<Seq<char>>
    decreases s.len(),
{
    let i = index_of(s, CharClass::One('\n')) as int;
    if s.len() == 0 {
        Seq::empty()
    } else if i >= s.len() {
        seq![s]
    } else {
        seq![chomp(s.take(i))] + lines(s.skip(i + 1))
    }
}

fn chomped(s: &[char]) -> (r: &[char])
    ensures
        r@ == chomp(s@),
{
    if s.len() > 0 && s[s.len() - 1] == '\r' {
        &s[0..s.len() - 1]
    } else {
        s
    }
}

pub fn lines_of<'a>(s: &'a [char]) -> (r: Vec<&'a [char]>)
    ensures
        slice_views(r@) == lines(s@),
{
    let mut out: Vec<&'a [char]> = Vec::new();
    let mut from: usize = 0;
    assert(s@.skip(0) == s@);
    assert(slice_views(out@) =~= Seq::empty());
    while from < s.len()
        invariant
            from <= s.len(),
            lines(s@) == slice_views(out@) + lines(s@.skip(from as int)),
        decreases s.len() - from,
    {
        let rest = &s[from..s.len()];
        proof {
            lemma_index_of(rest@, CharClass::One('\n'));
        }
        let i = position(rest, CharClass::One('\n'));
        let ghost before = out@;
        if i >= rest.len() {
            out.push(rest);
            assert(slice_views(out@) =~= slice_views(before) + seq![rest@]);
            return out;
        }
        let part = chomped(&rest[0..i]);
        out.push(part);
        assert(rest@.skip(i + 1) == s@.skip(from + i + 1));
        assert(slice_views(out@) =~= slice_views(before).push(part@));
        assert(slice_views(before) + (seq![part@] + lines(s@.skip(from + i + 1))) =~= slice_views(
            out@,
        ) + lines(s@.skip(from + i + 1)));
        from = from + i + 1;
    }
    assert(slice_views(out@) + lines(s@.skip(from as int)) =~= slice_views(out@));
    out
}

/// `list` with `sep` between its texts.
pub open spec fn join(list: Seq<Seq<char>>, sep: Seq<char>) -> Seq<char>
    decreases list.len(),
{
    if list.len() == 0 {
        Seq::empty()
    } else if list.len() == 1 {
        list[0]
    } else {
        join(list.drop_last(), sep) + sep + list.last()
    }
}

pub fn joined(list: &[&[char]], sep: &str) -> (r: Vec<char>)
    ensures
        r@ == join(slice_views(list@), sep@),
{
    let sep_chars = chars_of(sep);
    let mut out: Vec<char> = Vec::new();
    let mut i: usize = 0;
    while i < list.len()
        invariant
            i <= list.len(),
            sep_chars@ == sep@,
            out@ == join(slice_views(list@).take(i as int), sep@),
        decreases list.len() - i,
    {
        let ghost all = slice_views(list@);
        if i > 0 {
            append(&mut out, sep_chars.as_slice());
        }
        append(&mut out, list[i]);
        assert(all.take(i + 1).drop_last() == all.take(i as int));
        assert(all.take(i + 1).last() == all[i as int]);
        i = i + 1;
    }
    assert(slice_views(list@).take(i as int) == slice_views(list@));
    out
}

/// The last `n` lines of `s`, joined by ` | `.
pub open spec fn last_lines(s: Seq<char>, n: nat) -> Seq<char> {
    let list = lines(s);
    join(
        list.skip(
            if list.len() > n {
                list.len() - n
            } else {
                0
            },
        ),
        " | "@,
    )
}

pub fn tail_of(s: &str, n: usize) -> (r: Vec<char>)
    ensures
        r@ == last_lines(s@, n as nat),
{
    let all = chars_of(s);
    let list = lines_of(all.as_slice());
    let len: usize = list.len();
    let from: usize = if len > n {
        len - n
    } else {
        0
    };
    let rest = &list.as_slice()[from..len];
    assert(slice_views(rest@) =~= slice_views(list@).skip(from as int));
    joined(rest, " | ")
}

/// Whether every character of `s` is an ASCII digit.
pub open spec fn all_digits(s: Seq<char>) -> bool {
    forall|i: int| 0 <= i < s.len() ==> '0' <= #[trigger] s[i] <= '9'
}

/// The number that a run of decimal digits stands for.
pub open spec fn digits_value(s: Seq<char>) -> nat
    decreases s.len(),
{
    if s.len() == 0 {
        0
    } else {
        digits_value(s.drop_last()) * 10 + (s.last() as int - '0' as int) as nat
    }
}

/// The unsigned number written as `s` (digits, with an optional `+` before
/// them), when it is one and not above `max`.
pub open spec fn number(s: Seq<char>, max: nat) -> Option<nat> {
    let d = if s.len() > 0 && s[0] == '+' {
        s.skip(1)
    } else {
        s
    };
    if d.len() > 0 && all_digits(d) && digits_value(d) <= max {
        Some(digits_value(d))
    } else {
        None
    }
}

proof fn lemma_digits_grow(s: Seq<char>, k: int)
    requires
        0 <= k <= s.len(),
    ensures
        digits_value(s.take(k)) <= digits_value(s),
    decreases s.len() - k,
{
    if k < s.len() {
        lemma_digits_grow(s, k + 1);
        assert(s.take(k + 1).drop_last() == s.take(k));
    } else {
        assert(s.take(k) == s);
    }
}

pub open spec fn opt_nat(n: Option<u64>) -> Option<nat> {
    match n {
        Some(v) => Some(v as nat),
        None => None,
    }
}

pub fn parse_number(s: &[char], max: u64) -> (r: Option<u64>)
    ensures
        opt_nat(r) == number(s@, max as nat),
{
    let d = if s.len() > 0 && s[0] == '+' {
        &s[1..s.len()]
    } else {
        s
    };
    assert(s@.len() > 0 && s@[0] == '+' ==> d@ == s@.skip(1));
    if d.len() == 0 {
        return None;
    }
    let mut value: u64 = 0;
    let mut i: usize = 0;
    while i < d.len()
        invariant
            i <= d.len(),
            d.len() > 0,
            d@ == (if s@.len() > 0 && s@[0] == '+' {
                s@.skip(1)
            } else {
                s@
            }),
            all_digits(d@.take(i as int)),
            value == digits_value(d@.take(i as int)),
            value <= max,
        decreases d.len() - i,
    {
        let c = d[i];
        if c < '0' || c > '9' {
            return None;
        }
        assert(d@.take(i + 1).drop_last() == d@.take(i as int));
        let digit: u64 = (c as u32 - '0' as u32) as u64;
        let next: u128 = value as u128 * 10 + digit as u128;
        assert(next == digits_value(d@.take(i + 1)));
        if next > max as u128 {
            proof {
                lemma_digits_grow(d@, i + 1);
            }
            return None;
        }
        value = next as u64;
        i = i + 1;
    }
    assert(d@.take(i as int) == d@);
    Some(value)
}

/// The decimal digit for a number below ten.
pub open spec fn digit(n: nat) -> char {
    ('0' as int + n) as char
}

/// `n` in decimal.
pub open spec fn decimal(n: nat) -> Seq<char>
    decreases n,
{
    if n < 10 {
        seq![digit(n)]
    } else {
        decimal(n / 10).push(digit(n % 10))
    }
}

/// A number in decimal reads back as the number.
pub proof fn decimal_reads_back(n: nat)
    ensures
        decimal(n).len() > 0,
        all_digits(decimal(n)),
        digits_value(decimal(n)) == n,
        forall|max: nat| n <= max ==> #[trigger] number(decimal(n), max) == Some(n),
    decreases n,
{
    if n >= 10 {
        decimal_reads_back(n / 10);
        let s = decimal(n);
        assert(s.drop_last() =~= decimal(n / 10));
        assert(s.last() == digit(n % 10));
        assert forall|i: int| 0 <= i < s.len() implies '0' <= #[trigger] s[i] <= '9' by {
            if i < s.len() - 1 {
                assert(s[i] == decimal(n / 10)[i]);
            }
        }
    } else {
        assert(decimal(n).drop_last() =~= Seq::empty());
        assert(digits_value(decimal(n).drop_last()) == 0);
        assert(decimal(n).last() == digit(n));
    }
}

pub fn decimal_of(n: u128) -> (r: Vec<char>)
    ensures
        r@ == decimal(n as nat),
    decreases n,
{
    let last: u8 = (n % 10) as u8;
    let c: char = (48u8 + last) as char;
    let mut out: Vec<char> = if n < 10 {
        Vec::new()
    } else {
        decimal_of(n / 10)
    };
    out.push(c);
    assert(n < 10 ==> n % 10 == n);
    out
}

/// Whether every character of `s` is ASCII.
pub open spec fn is_ascii(s: Seq<char>) -> bool {
    forall|i: int| 0 <= i < s.len() ==> (#[trigger] s[i]) as int <= 127
}

/// `s` with the letters `A` to `Z` in lower case.
pub open spec fn ascii_lower(s: Seq<char>) -> Seq<char> {
    Seq::new(
        s.len(),
        |i: int|
            if 'A' <= s[i] <= 'Z' {
                (s[i] as int + 32) as char
            } else {
                s[i]
            },
    )
}

/// `s` with the letters `A` to `Z` in lower case.
pub fn ascii_lowered(s: &[char]) -> (r: Vec<char>)
    ensures
        r@ == ascii_lower(s@),
{
    let mut out: Vec<char> = Vec::new();
    let mut i: usize = 0;
    while i < s.len()
        invariant
            i <= s@.len(),
            out@ == ascii_lower(s@).take(i as int),
        decreases s.len() - i,
    {
        let c = s[i];
        let low: char = if 'A' <= c && c <= 'Z' {
            (c as u8 + 32) as char
        } else {
            c
        };
        out.push(low);
        assert(ascii_lower(s@).take(i + 1) =~= ascii_lower(s@).take(i as int).push(low));
        i = i + 1;
    }
    assert(ascii_lower(s@).take(i as int) =~= ascii_lower(s@));
    out
}

/// What `str::to_lowercase` gives for a text with characters beyond ASCII.
pub uninterp spec fn unicode_lower(s: Seq<char>) -> Seq<char>;

/// `s` in lower case.
pub open spec fn lower(s: Seq<char>) -> Seq<char> {
    if is_ascii(s) {
        ascii_lower(s)
    } else {
        unicode_lower(s)
    }
}

/// `str::to_lowercase`: an ASCII text has its letters `A` to `Z` mapped to
/// `a` to `z` and is otherwise kept; of any other text the result is named,
/// not described.
#[verifier::external_body]
fn to_lowercase(s: &str) -> (r: String)
    ensures
        r@ == (if is_ascii(s@) {
            ascii_lower(s@)
        } else {
            unicode_lower(s@)
        }),
{
    s.to_lowercase()
}

pub fn lowered(s: &[char]) -> (r: Vec<char>)
    ensures
        r@ == lower(s@),
{
    chars_of(to_lowercase(string_of(s).as_str()).as_str())
}

/// White space is what Unicode calls so; within ASCII that is the tab, the line
/// feed, the two characters behind it, the carriage return and the space.
pub proof fn ascii_white_space(c: char)
    ensures
        c as int <= 127 ==> (is_space(c) <==> c == ' ' || c == '\t' || c == '\n' || c == '\x0b' || c
            == '\x0c' || c == '\r'),
        is_ascii_space(c) <==> c == ' ' || c == '\t' || c == '\n' || c == '\x0c' || c == '\r',
        is_control(c) ==> c as int <= 31 || 127 <= c as int <= 159,
        c as int <= 31 || 127 <= c as int <= 159 ==> is_control(c),
{
}

/// Whether every character of `s` is white space.
pub open spec fn blank(s: Seq<char>) -> bool {
    forall|i: int| 0 <= i < s.len() ==> is_space(#[trigger] s[i])
}

proof fn lemma_trim_start(a: Seq<char>, s: Seq<char>)
    requires
        blank(a),
    ensures
        trim_start(a + s) == trim_start(s),
    decreases a.len(),
{
    if a.len() > 0 {
        let t = a.skip(1);
        assert forall|i: int| 0 <= i < t.len() implies is_space(#[trigger] t[i]) by {
            assert(t[i] == a[i + 1]);
        }
        assert((a + s)[0] == a[0]);
        assert((a + s).skip(1) =~= t + s);
        lemma_trim_start(t, s);
    } else {
        assert(a + s =~= s);
    }
}

proof fn lemma_trim_end(s: Seq<char>, b: Seq<char>)
    requires
        blank(b),
    ensures
        trim_end(s + b) == trim_end(s),
    decreases b.len(),
{
    if b.len() > 0 {
        let t = b.drop_last();
        assert forall|i: int| 0 <= i < t.len() implies is_space(#[trigger] t[i]) by {
            assert(t[i] == b[i]);
        }
        assert((s + b).last() == b[b.len() - 1]);
        assert((s + b).drop_last() =~= s + t);
        lemma_trim_end(s, t);
    } else {
        assert(s + b =~= s);
    }
}

/// Trimming takes the white space around a text away and keeps the rest, the
/// white space within it too.
pub proof fn trimming_keeps_the_core(a: Seq<char>, core: Seq<char>, b: Seq<char>)
    requires
        blank(a),
        blank(b),
        core.len() > 0 ==> !is_space(core[0]) && !is_space(core[core.len() - 1]),
    ensures
        trim(a + core + b) == core,
        trim(core) == core,
        trim_start(a + core) == core,
        trim_end(core + b) == core,
{
    lemma_trim_start(a, core + b);
    assert(a + core + b =~= a + (core + b));
    if core.len() > 0 {
        assert((core + b)[0] == core[0]);
        lemma_trim_end(core, b);
        lemma_trim_start(a, core);
    } else {
        assert(core + b =~= b);
        lemma_trim_start(b, core);
        assert(b + core =~= b);
        lemma_trim_end(core, b);
        lemma_trim_start(a, core);
        assert(core =~= Seq::empty());
    }
}

/// White space before a text that begins with something else is taken away.
pub proof fn lemma_start(a: Seq<char>, s: Seq<char>)
    requires
        blank(a),
        s.len() > 0 ==> !is_space(s[0]),
    ensures
        trim_start(a + s) == s,
{
    lemma_trim_start(a, s);
}

/// A trimmed text is a part of the text, there is white space only around that
/// part, and none at its ends.
pub proof fn trimmed_is_the_core(s: Seq<char>)
    ensures
        exists|i: int, j: int|
            {
                &&& 0 <= i <= j <= s.len()
                &&& trim(s) == #[trigger] s.subrange(i, j)
                &&& blank(s.take(i))
                &&& blank(s.skip(j))
            },
        trim(s).len() > 0 ==> !is_space(trim(s)[0]) && !is_space(trim(s)[trim(s).len() - 1]),
{
    let i = lemma_start_cut(s);
    let t = trim_start(s);
    let k = lemma_end_cut(t);
    assert(trim(s) =~= s.subrange(i, i + k));
    assert forall|x: int| 0 <= x < s.skip(i + k).len() implies is_space(
        #[trigger] s.skip(i + k)[x],
    ) by {
        assert(s.skip(i + k)[x] == t.skip(k)[x]);
    }
    if trim(s).len() > 0 {
        assert(trim(s)[0] == t[0]);
    }
}

/// Where the white space at the beginning of a text ends.
pub proof fn lemma_start_cut(s: Seq<char>) -> (i: int)
    ensures
        0 <= i <= s.len(),
        trim_start(s) == s.skip(i),
        blank(s.take(i)),
        i < s.len() ==> !is_space(s[i]),
    decreases s.len(),
{
    if s.len() > 0 && is_space(s[0]) {
        let k = lemma_start_cut(s.skip(1));
        assert(s.skip(1).skip(k) =~= s.skip(k + 1));
        assert forall|x: int| 0 <= x < s.take(k + 1).len() implies is_space(
            #[trigger] s.take(k + 1)[x],
        ) by {
            if x > 0 {
                assert(s.take(k + 1)[x] == s.skip(1).take(k)[x - 1]);
            }
        }
        k + 1
    } else {
        assert(s.skip(0) =~= s);
        0
    }
}

proof fn lemma_end_cut(s: Seq<char>) -> (j: int)
    ensures
        0 <= j <= s.len(),
        trim_end(s) == s.take(j),
        blank(s.skip(j)),
        j > 0 ==> !is_space(s[j - 1]),
    decreases s.len(),
{
    if s.len() > 0 && is_space(s.last()) {
        let j = lemma_end_cut(s.drop_last());
        assert(s.drop_last().take(j) =~= s.take(j));
        assert forall|x: int| 0 <= x < s.skip(j).len() implies is_space(#[trigger] s.skip(j)[x]) by {
            if x < s.skip(j).len() - 1 {
                assert(s.skip(j)[x] == s.drop_last().skip(j)[x]);
            }
        }
        j
    } else {
        assert(s.take(s.len() as int) =~= s);
        s.len() as int
    }
}

/// Nothing is left of a text that is trimmed exactly where all of it is white
/// space.
pub proof fn blank_is_trimmed_away(s: Seq<char>)
    ensures
        trim(s).len() == 0 <==> blank(s),
{
    trimmed_is_the_core(s);
    let (i, j) = choose|i: int, j: int|
        {
            &&& 0 <= i <= j <= s.len()
            &&& trim(s) == #[trigger] s.subrange(i, j)
            &&& blank(s.take(i))
            &&& blank(s.skip(j))
        };
    if blank(s) && trim(s).len() > 0 {
        assert(is_space(s[i]));
        assert(trim(s)[0] == s[i]);
    }
    if !blank(s) {
        let k = choose|k: int| 0 <= k < s.len() && !is_space(#[trigger] s[k]);
        if k < i {
            assert(s.take(i)[k] == s[k]);
        }
        if k >= j {
            assert(s.skip(j)[k - j] == s[k]);
        }
    }
}

/// Whether no character of `s` is in `class`.
pub open spec fn free_of(s: Seq<char>, class: CharClass) -> bool {
    forall|i: int| 0 <= i < s.len() ==> !class.has(#[trigger] s[i])
}

/// What stands before the first character of a class is all that stands before
/// it: `a`, where `a` has none of the class and `c` is in it.
pub proof fn cut_at_the_first(a: Seq<char>, c: char, rest: Seq<char>, class: CharClass)
    requires
        free_of(a, class),
        class.has(c),
    ensures
        index_of(a + seq![c] + rest, class) == a.len(),
        before(a + seq![c] + rest, class) == a,
        index_of(a, class) == a.len(),
        before(a, class) == a,
{
    let s = a + seq![c] + rest;
    lemma_index_of(s, class);
    lemma_index_of(a, class);
    let i = index_of(s, class) as int;
    if i < a.len() {
        assert(s[i] == a[i]);
    }
    assert(s[a.len() as int] == c);
    assert(s.take(a.len() as int) =~= a);
    assert(a.take(a.len() as int) =~= a);
}

/// A text is split at every character of a class: what stands before the first
/// one is the first part, whole, and what stands behind it is split on.
pub proof fn split_at_the_first(a: Seq<char>, c: char, rest: Seq<char>, class: CharClass)
    requires
        free_of(a, class),
        class.has(c),
    ensures
        split(a + seq![c] + rest, class) == seq![a] + split(rest, class),
        split(a, class) == seq![a],
{
    let s = a + seq![c] + rest;
    cut_at_the_first(a, c, rest, class);
    assert(s.take(a.len() as int) =~= a);
    assert(s.skip(a.len() as int + 1) =~= rest);
}

/// A line ends at the first line feed, and a carriage return before that
/// belongs to the line end; what stands behind it is more lines. A last line
/// need not end so.
pub proof fn lines_end_at_line_feeds(a: Seq<char>, rest: Seq<char>)
    requires
        free_of(a, CharClass::One('\n')),
        a.len() > 0 ==> a[a.len() - 1] != '\r',
    ensures
        lines(a + seq!['\n'] + rest) == seq![a] + lines(rest),
        lines(a + seq!['\r', '\n'] + rest) == seq![a] + lines(rest),
        a.len() > 0 ==> lines(a) == seq![a],
        lines(Seq::empty()) == Seq::<Seq<char>>::empty(),
{
    let lf = CharClass::One('\n');
    let s = a + seq!['\n'] + rest;
    cut_at_the_first(a, '\n', rest, lf);
    assert(s.take(a.len() as int) =~= a);
    assert(s.skip(a.len() as int + 1) =~= rest);
    let b = a.push('\r');
    let t = a + seq!['\r', '\n'] + rest;
    assert forall|i: int| 0 <= i < b.len() implies !lf.has(#[trigger] b[i]) by {
        if i < a.len() {
            assert(b[i] == a[i]);
        }
    }
    assert(t =~= b + seq!['\n'] + rest);
    cut_at_the_first(b, '\n', rest, lf);
    assert(t.take(b.len() as int) =~= b);
    assert(t.skip(b.len() as int + 1) =~= rest);
    assert(b.drop_last() =~= a);
}

/// Whether `pat` stands in `s` at `i`.
pub open spec fn stands_at(s: Seq<char>, pat: Seq<char>, i: int) -> bool {
    &&& 0 <= i
    &&& i + pat.len() <= s.len()
    &&& forall|k: int| 0 <= k < pat.len() ==> s[i + k] == #[trigger] pat[k]
}

proof fn lemma_prefix(s: Seq<char>, pat: Seq<char>)
    ensures
        pat.is_prefix_of(s) <==> stands_at(s, pat, 0),
{
    if pat.is_prefix_of(s) {
        assert forall|k: int| 0 <= k < pat.len() implies s[0 + k] == #[trigger] pat[k] by {
            assert(s.subrange(0, pat.len() as int)[k] == pat[k]);
        }
    }
    if stands_at(s, pat, 0) {
        assert forall|k: int| 0 <= k < pat.len() implies s.subrange(0, pat.len() as int)[k]
            == pat[k] by {
            assert(s[0 + k] == pat[k]);
        }
        assert(s.subrange(0, pat.len() as int) =~= pat);
    }
}

/// What is found is where the pattern stands first; nothing is found only where
/// it stands nowhere.
pub proof fn first_place_is_found(s: Seq<char>, pat: Seq<char>)
    ensures
        match find(s, pat) {
            Some(i) => stands_at(s, pat, i) && forall|j: int|
                0 <= j < i ==> !#[trigger] stands_at(s, pat, j),
            None => forall|j: int| !#[trigger] stands_at(s, pat, j),
        },
    decreases s.len(),
{
    lemma_prefix(s, pat);
    if !pat.is_prefix_of(s) && s.len() > 0 {
        let t = s.skip(1);
        first_place_is_found(t, pat);
        assert forall|j: int| 0 <= j && #[trigger] stands_at(s, pat, j) implies j > 0 && stands_at(
            t,
            pat,
            j - 1,
        ) by {
            assert forall|k: int| 0 <= k < pat.len() implies t[j - 1 + k] == #[trigger] pat[k] by {
                assert(s[j + k] == pat[k]);
            }
        }
        if let Some(i) = find(t, pat) {
            assert forall|k: int| 0 <= k < pat.len() implies s[i + 1 + k] == #[trigger] pat[k] by {
                assert(t[i + k] == pat[k]);
            }
        }
    }
}

/// A pattern behind a text is found there, unless it stands earlier.
pub proof fn lemma_found_behind(a: Seq<char>, pat: Seq<char>, rest: Seq<char>)
    requires
        forall|j: int| 0 <= j < a.len() ==> !#[trigger] stands_at(a + pat + rest, pat, j),
    ensures
        find(a + pat + rest, pat) == Some(a.len() as int),
{
    let s = a + pat + rest;
    let i = a.len() as int;
    assert(s.subrange(i, i + pat.len()) =~= pat);
    lemma_stands(s, pat, i);
    lemma_found_at(s, pat, i);
}

proof fn lemma_found_at(s: Seq<char>, pat: Seq<char>, i: int)
    requires
        stands_at(s, pat, i),
        forall|j: int| 0 <= j < i ==> !#[trigger] stands_at(s, pat, j),
    ensures
        find(s, pat) == Some(i),
{
    first_place_is_found(s, pat);
}

/// A pattern stands where the part of the text there is the pattern.
pub proof fn lemma_stands(s: Seq<char>, pat: Seq<char>, i: int)
    requires
        0 <= i,
        i + pat.len() <= s.len(),
        s.subrange(i, i + pat.len()) == pat,
    ensures
        stands_at(s, pat, i),
{
    assert forall|k: int| 0 <= k < pat.len() implies s[i + k] == #[trigger] pat[k] by {
        assert(s.subrange(i, i + pat.len())[k] == pat[k]);
    }
}

/// A pattern occurs in a text exactly where it stands somewhere in it.
pub proof fn what_stands_somewhere_occurs(s: Seq<char>, pat: Seq<char>)
    ensures
        occurs(s, pat) <==> exists|i: int| stands_at(s, pat, i),
{
    first_place_is_found(s, pat);
}

/// Only digits, with a plus sign before them at most, make a number, and none
/// above the limit; a leading zero changes nothing.
pub proof fn only_digits_make_a_number(s: Seq<char>, max: nat)
    ensures
        number(s, max) matches Some(n) ==> {
            &&& n <= max
            &&& s.len() > 0
            &&& forall|i: int|
                0 <= i < s.len() ==> '0' <= #[trigger] s[i] <= '9' || i == 0 && s[0] == '+' && s.len()
                    > 1
        },
        all_digits(s) && s.len() > 0 ==> number(seq!['0'] + s, max) == number(s, max) && number(
            seq!['+'] + s,
            max,
        ) == number(s, max),
{
    if number(s, max) is Some && s[0] == '+' {
        assert forall|i: int| 0 < i < s.len() implies '0' <= #[trigger] s[i] <= '9' by {
            assert(s.skip(1)[i - 1] == s[i]);
        }
    }
    if all_digits(s) && s.len() > 0 {
        let z = seq!['0'] + s;
        assert forall|i: int| 0 <= i < z.len() implies '0' <= #[trigger] z[i] <= '9' by {
            if i > 0 {
                assert(z[i] == s[i - 1]);
            }
        }
        lemma_leading_zero(s);
        assert((seq!['+'] + s).skip(1) =~= s);
        assert('0' <= s[0] <= '9');
    }
}

proof fn lemma_leading_zero(s: Seq<char>)
    ensures
        digits_value(seq!['0'] + s) == digits_value(s),
    decreases s.len(),
{
    let z = seq!['0'] + s;
    if s.len() > 0 {
        lemma_leading_zero(s.drop_last());
        assert(z.drop_last() =~= seq!['0'] + s.drop_last());
        assert(z.last() == s.last());
    } else {
        assert(z.drop_last() =~= Seq::empty());
        assert(digits_value(z.drop_last()) == 0);
        assert(z.last() == '0');
    }
}

/// The first place where a pattern stands is replaced, what stands before it is
/// kept, and the replacing goes on behind it.
pub proof fn first_place_is_replaced(a: Seq<char>, pat: Seq<char>, rest: Seq<char>, with: Seq<char>)
    requires
        pat.len() > 0,
        forall|j: int| 0 <= j < a.len() ==> !#[trigger] stands_at(a + pat + rest, pat, j),
    ensures
        replace(a + pat + rest, pat, with) == a + with + replace(rest, pat, with),
    decreases a.len(),
{
    let s = a + pat + rest;
    lemma_prefix(s, pat);
    if a.len() == 0 {
        assert forall|k: int| 0 <= k < pat.len() implies s[0 + k] == #[trigger] pat[k] by {}
        assert(s.skip(pat.len() as int) =~= rest);
        assert(a + with + replace(rest, pat, with) =~= with + replace(rest, pat, with));
    } else {
        assert(!stands_at(s, pat, 0));
        let b = a.skip(1);
        let t = b + pat + rest;
        assert(s.skip(1) =~= t);
        assert forall|j: int| 0 <= j < b.len() implies !#[trigger] stands_at(t, pat, j) by {
            if stands_at(t, pat, j) {
                assert forall|k: int| 0 <= k < pat.len() implies s[j + 1 + k]
                    == #[trigger] pat[k] by {
                    assert(t[j + k] == pat[k]);
                }
                assert(stands_at(s, pat, j + 1));
            }
        }
        first_place_is_replaced(b, pat, rest, with);
        assert(seq![s[0]] + (b + with + replace(rest, pat, with)) =~= a + with + replace(
            rest,
            pat,
            with,
        ));
    }
}

/// A text in which the pattern stands nowhere is kept as it is.
pub proof fn nothing_else_is_replaced(s: Seq<char>, pat: Seq<char>, with: Seq<char>)
    requires
        forall|j: int| !#[trigger] stands_at(s, pat, j),
    ensures
        replace(s, pat, with) == s,
    decreases s.len(),
{
    if s.len() > 0 {
        lemma_prefix(s, pat);
        assert(!stands_at(s, pat, 0));
        let t = s.skip(1);
        assert forall|j: int| !#[trigger] stands_at(t, pat, j) by {
            if stands_at(t, pat, j) {
                assert forall|k: int| 0 <= k < pat.len() implies s[j + 1 + k]
                    == #[trigger] pat[k] by {
                    assert(t[j + k] == pat[k]);
                }
                assert(stands_at(s, pat, j + 1));
            }
        }
        nothing_else_is_replaced(t, pat, with);
        assert(seq![s[0]] + t =~= s);
    }
}

/// Lower-casing an ASCII text keeps its length and every character but the
/// letters `A` to `Z`, which it maps in the order of the alphabet; done twice it
/// is done once.
pub proof fn lower_case_of_ascii(s: Seq<char>)
    requires
        is_ascii(s),
    ensures
        lower(s) == ascii_lower(s),
        is_ascii(lower(s)),
        lower(s).len() == s.len(),
        lower(lower(s)) == lower(s),
        forall|i: int|
            0 <= i < s.len() ==> if 'A' <= s[i] <= 'Z' {
                (#[trigger] lower(s)[i]) as int - 'a' as int == s[i] as int - 'A' as int
            } else {
                lower(s)[i] == s[i]
            },
{
    let t = ascii_lower(s);
    assert forall|i: int| 0 <= i < s.len() implies (#[trigger] t[i]) as int <= 127 by {
        assert(s[i] as int <= 127);
    }
    assert(ascii_lower(t) =~= t);
}

/// Texts are joined in their order, whole, with the separator between each two of
/// them and nowhere else.
pub proof fn joining_keeps_every_text(list: Seq<Seq<char>>, last: Seq<char>, sep: Seq<char>)
    ensures
        list.len() > 0 ==> join(list.push(last), sep) == join(list, sep) + sep + last,
        join(seq![last], sep) == last,
        join(Seq::empty(), sep) == Seq::<char>::empty(),
{
    assert(list.push(last).drop_last() =~= list);
    assert(list.push(last).last() == last);
}

/// The last lines of a text are its last lines in order, at most as many as were
/// asked for, and all of them where there are no more.
pub proof fn last_lines_are_the_last(s: Seq<char>, n: nat)
    ensures
        lines(s).len() <= n ==> last_lines(s, n) == join(lines(s), " | "@),
        lines(s).len() > n ==> last_lines(s, n) == join(
            lines(s).subrange(lines(s).len() - n, lines(s).len() as int),
            " | "@,
        ),
{
    let list = lines(s);
    assert(list.skip(0) =~= list);
    if list.len() > n {
        assert(list.skip(list.len() - n) =~= list.subrange(list.len() - n, list.len() as int));
    }
}

/// A number above the limit is none, a digit counts ten times as much with every
/// digit behind it, and below ten a number is its digit.
pub proof fn digits_count_by_their_place(n: nat, max: nat, s: Seq<char>, d: nat)
    requires
        d < 10,
    ensures
        n > max ==> number(decimal(n), max) is None,
        digits_value(s.push(('0' as int + d) as char)) == 10 * digits_value(s) + d,
        decimal(d) == seq![('0' as int + d) as char],
{
    decimal_reads_back(n);
    let t = decimal(n);
    assert('0' <= t[0] <= '9');
    let c = ('0' as int + d) as char;
    assert(s.push(c).drop_last() =~= s);
    assert(s.push(c).last() == c);
}

proof fn lemma_skipped(a: Seq<char>, s: Seq<char>, class: CharClass)
    requires
        forall|i: int| 0 <= i < a.len() ==> class.has(#[trigger] a[i]),
    ensures
        skip_run(a + s, class) == skip_run(s, class),
    decreases a.len(),
{
    if a.len() > 0 {
        let b = a.skip(1);
        assert forall|i: int| 0 <= i < b.len() implies class.has(#[trigger] b[i]) by {
            assert(b[i] == a[i + 1]);
        }
        assert((a + s)[0] == a[0]);
        assert((a + s).skip(1) =~= b + s);
        lemma_skipped(b, s, class);
    } else {
        assert(a + s =~= s);
    }
}

proof fn lemma_dropped(s: Seq<char>, b: Seq<char>, class: CharClass)
    requires
        forall|i: int| 0 <= i < b.len() ==> class.has(#[trigger] b[i]),
    ensures
        drop_end(s + b, class) == drop_end(s, class),
    decreases b.len(),
{
    if b.len() > 0 {
        let c = b.drop_last();
        assert forall|i: int| 0 <= i < c.len() implies class.has(#[trigger] c[i]) by {
            assert(c[i] == b[i]);
        }
        assert((s + b).last() == b[b.len() - 1]);
        assert((s + b).drop_last() =~= s + c);
        lemma_dropped(s, c, class);
    } else {
        assert(s + b =~= s);
    }
}

/// Stripping takes the characters of a class away at both ends and keeps the
/// rest, those within it too.
pub proof fn stripping_keeps_the_core(a: Seq<char>, core: Seq<char>, b: Seq<char>, class: CharClass)
    requires
        forall|i: int| 0 <= i < a.len() ==> class.has(#[trigger] a[i]),
        forall|i: int| 0 <= i < b.len() ==> class.has(#[trigger] b[i]),
        core.len() > 0,
        !class.has(core[0]),
        !class.has(core[core.len() - 1]),
    ensures
        strip(a + core + b, class) == core,
        skip_run(a + core, class) == core,
{
    assert(a + core + b =~= a + (core + b));
    assert((core + b)[0] == core[0]);
    lemma_skipped(a, core + b, class);
    lemma_dropped(core, b, class);
    lemma_skipped(a, core, class);
}

} // verus!
