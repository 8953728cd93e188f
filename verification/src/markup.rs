//! Attribute lists and the tags of a manifest.

use vstd::prelude::*;

use crate::text::{
    self, after_run, find_text, position, same_text, starts_with, string_of, trimmed, trimmed_end,
    trimmed_start, until, CharClass,
};

verus! {

/// Attribute names with their values, in order.
pub type AttrsView = Seq<(Seq<char>, Seq<char>)>;

pub open spec fn attrs_view(v: Seq<(String, String)>) -> AttrsView {
    Seq::new(v.len(), |i: int| (v[i].0@, v[i].1@))
}

/// The attributes in `key="v" other='w' bare=3 flag`: white space, slashes
/// and commas stand between them, and a bare value ends at white space or a
/// comma.
pub open spec fn attrs_of(s: Seq<char>) -> AttrsView
    decreases s.len(),
{
    let a = text::skip_run(s, CharClass::AsciiSpaceOrEither('/', ','));
    let key = text::before(a, CharClass::AsciiSpaceOr('='));
    let rest = text::skip_run(a.skip(key.len() as int), CharClass::AsciiSpace);
    let v = text::skip_run(rest.skip(1), CharClass::AsciiSpace);
    proof {
        text::lemma_skip_run(s, CharClass::AsciiSpaceOrEither('/', ','));
        text::lemma_index_of(a, CharClass::AsciiSpaceOr('='));
        text::lemma_skip_run(a.skip(key.len() as int), CharClass::AsciiSpace);
        text::lemma_skip_run(rest.skip(1), CharClass::AsciiSpace);
        text::lemma_index_of(v, CharClass::AsciiSpaceOr(','));
    }
    if a.len() == 0 {
        Seq::empty()
    } else if rest.len() > 0 && rest[0] == '=' {
        if v.len() > 0 && (v[0] == '"' || v[0] == '\'') {
            let body = v.skip(1);
            let end = text::index_of(body, CharClass::One(v[0])) as int;
            let tail = if end < body.len() {
                body.skip(end + 1)
            } else {
                Seq::empty()
            };
            seq![(key, body.take(end))] + attrs_of(tail)
        } else {
            let value = text::before(v, CharClass::AsciiSpaceOr(','));
            seq![(key, value)] + attrs_of(v.skip(value.len() as int))
        }
    } else {
        seq![(key, Seq::empty())] + attrs_of(rest)
    }
}

/// Split `key="v" other='w' bare=3` into pairs (double/single/bare values).
pub fn parse_attrs(s: &[char]) -> (r: Vec<(String, String)>)
    ensures
        attrs_view(r@) == attrs_of(s@),
{
    let mut out: Vec<(String, String)> = Vec::new();
    let mut cur: &[char] = s;
    assert(attrs_view(out@) =~= Seq::empty());
    loop
        invariant
            attrs_of(s@) == attrs_view(out@) + attrs_of(cur@),
        decreases cur.len(),
    {
        let ghost done = attrs_view(out@);
        let a = after_run(cur, CharClass::AsciiSpaceOrEither('/', ','));
        if a.len() == 0 {
            assert(done + attrs_of(cur@) =~= done);
            return out;
        }
        proof {
            text::lemma_index_of(a@, CharClass::AsciiSpaceOr('='));
        }
        let key = until(a, CharClass::AsciiSpaceOr('='));
        let rest = after_run(&a[key.len()..a.len()], CharClass::AsciiSpace);
        if rest.len() > 0 && rest[0] == '=' {
            let v = after_run(&rest[1..rest.len()], CharClass::AsciiSpace);
            if v.len() > 0 && (v[0] == '"' || v[0] == '\'') {
                let body = &v[1..v.len()];
                let end = position(body, CharClass::One(v[0]));
                let value = &body[0..end];
                out.push((string_of(key), string_of(value)));
                let tail = if end < body.len() {
                    &body[end + 1..body.len()]
                } else {
                    &body[end..end]
                };
                assert(end >= body@.len() ==> tail@ =~= Seq::<char>::empty());
                assert(attrs_view(out@) =~= done.push((key@, value@)));
                assert(done + (seq![(key@, value@)] + attrs_of(tail@)) =~= attrs_view(out@)
                    + attrs_of(tail@));
                cur = tail;
            } else {
                proof {
                    text::lemma_index_of(v@, CharClass::AsciiSpaceOr(','));
                }
                let value = until(v, CharClass::AsciiSpaceOr(','));
                out.push((string_of(key), string_of(value)));
                let tail = &v[value.len()..v.len()];
                assert(attrs_view(out@) =~= done.push((key@, value@)));
                assert(done + (seq![(key@, value@)] + attrs_of(tail@)) =~= attrs_view(out@)
                    + attrs_of(tail@));
                cur = tail;
            }
        } else {
            out.push((string_of(key), String::new()));
            assert(attrs_view(out@) =~= done.push((key@, Seq::empty())));
            assert(done + (seq![(key@, Seq::<char>::empty())] + attrs_of(rest@)) =~= attrs_view(
                out@,
            ) + attrs_of(rest@));
            cur = rest;
        }
    }
}

/// The value of the first attribute called `key`.
pub open spec fn attr_of(attrs: AttrsView, key: Seq<char>) -> Option<Seq<char>>
    decreases attrs.len(),
{
    if attrs.len() == 0 {
        None
    } else if attrs[0].0 == key {
        Some(attrs[0].1)
    } else {
        attr_of(attrs.skip(1), key)
    }
}

/// The value of the first attribute called `key`.
pub fn attr(attrs: &Vec<(String, String)>, key: &str) -> (r: Option<String>)
    ensures
        text::opt_view(r) == attr_of(attrs_view(attrs@), key@),
{
    let ghost all = attrs_view(attrs@);
    let mut i: usize = 0;
    assert(all.skip(0) == all);
    while i < attrs.len()
        invariant
            i <= attrs.len(),
            all == attrs_view(attrs@),
            attr_of(all, key@) == attr_of(all.skip(i as int), key@),
        decreases attrs.len() - i,
    {
        if same_text(attrs[i].0.as_str(), key) {
            return Some(attrs[i].1.clone());
        }
        assert(all.skip(i as int).skip(1) == all.skip(i + 1));
        i = i + 1;
    }
    None
}

proof fn lemma_skip_none(s: Seq<char>, class: CharClass)
    requires
        s.len() > 0 ==> !class.has(s[0]),
    ensures
        text::skip_run(s, class) == s,
{
}

proof fn lemma_skip_one(c: char, s: Seq<char>, class: CharClass)
    requires
        class.has(c),
    ensures
        text::skip_run(seq![c] + s, class) == text::skip_run(s, class),
{
    assert((seq![c] + s)[0] == c);
    assert((seq![c] + s).skip(1) =~= s);
}

/// A name of an attribute: not empty, without white space or `=`, and not
/// beginning with what stands between attributes.
pub open spec fn is_key(key: Seq<char>) -> bool {
    &&& key.len() > 0
    &&& text::free_of(key, CharClass::AsciiSpaceOr('='))
    &&& key[0] != '/'
    &&& key[0] != ','
}

/// An attribute in quotes has the value between the quotes, whole, whatever
/// else it holds; what stands behind the quotes is more attributes.
pub proof fn quoted_value_is_whole(
    key: Seq<char>,
    quote: char,
    value: Seq<char>,
    rest: Seq<char>,
)
    requires
        is_key(key),
        quote == '"' || quote == '\'',
        text::free_of(value, CharClass::One(quote)),
    ensures
        attrs_of(key + seq!['=', quote] + value + seq![quote] + rest) == seq![(key, value)]
            + attrs_of(rest),
{
    let s = key + seq!['=', quote] + value + seq![quote] + rest;
    let tail = seq![quote] + value + seq![quote] + rest;
    assert(s =~= key + seq!['='] + tail);
    assert(s[0] == key[0]);
    assert(!CharClass::AsciiSpaceOr('=').has(key[0]));
    lemma_skip_none(s, CharClass::AsciiSpaceOrEither('/', ','));
    text::cut_at_the_first(key, '=', tail, CharClass::AsciiSpaceOr('='));
    let after = s.skip(key.len() as int);
    assert(after[0] == '=');
    lemma_skip_none(after, CharClass::AsciiSpace);
    assert(after.skip(1) =~= tail);
    assert(tail[0] == quote);
    lemma_skip_none(tail, CharClass::AsciiSpace);
    let body = tail.skip(1);
    assert(body =~= value + seq![quote] + rest);
    text::cut_at_the_first(value, quote, rest, CharClass::One(quote));
    assert(body.skip(value.len() as int + 1) =~= rest);
    assert(body.take(value.len() as int) =~= value);
}

/// A bare attribute has the value up to the next comma or white space, whole;
/// what stands behind that is more attributes.
pub proof fn bare_value_is_whole(key: Seq<char>, value: Seq<char>, end: char, rest: Seq<char>)
    requires
        is_key(key),
        text::free_of(value, CharClass::AsciiSpaceOr(',')),
        value.len() > 0,
        value[0] != '"',
        value[0] != '\'',
        end == ',' || text::is_ascii_space(end),
    ensures
        attrs_of(key + seq!['='] + value + seq![end] + rest) == seq![(key, value)] + attrs_of(rest),
        attrs_of(key + seq!['='] + value) == seq![(key, value)],
{
    text::cut_at_the_first(value, end, rest, CharClass::AsciiSpaceOr(','));
    assert(value + seq![end] + rest =~= value + (seq![end] + rest));
    lemma_bare(key, value, seq![end] + rest);
    assert(key + seq!['='] + value + seq![end] + rest =~= key + seq!['='] + value + (seq![end]
        + rest));
    lemma_skip_one(end, rest, CharClass::AsciiSpaceOrEither('/', ','));
    lemma_same_attrs(seq![end] + rest, rest);
    assert(value + Seq::<char>::empty() =~= value);
    lemma_bare(key, value, Seq::empty());
    assert(key + seq!['='] + value + Seq::<char>::empty() =~= key + seq!['='] + value);
    assert(attrs_of(Seq::empty()) =~= Seq::empty());
    assert(seq![(key, value)] + Seq::<(Seq<char>, Seq<char>)>::empty() =~= seq![(key, value)]);
}

proof fn lemma_same_attrs(a: Seq<char>, b: Seq<char>)
    requires
        text::skip_run(a, CharClass::AsciiSpaceOrEither('/', ',')) == text::skip_run(
            b,
            CharClass::AsciiSpaceOrEither('/', ','),
        ),
    ensures
        attrs_of(a) == attrs_of(b),
{
}

proof fn lemma_bare(key: Seq<char>, value: Seq<char>, more: Seq<char>)
    requires
        is_key(key),
        value.len() > 0,
        value[0] != '"',
        value[0] != '\'',
        text::free_of(value, CharClass::AsciiSpaceOr(',')),
        text::index_of(value + more, CharClass::AsciiSpaceOr(',')) == value.len(),
    ensures
        attrs_of(key + seq!['='] + value + more) == seq![(key, value)] + attrs_of(more),
{
    let s = key + seq!['='] + value + more;
    let tail = value + more;
    assert(s =~= key + seq!['='] + tail);
    assert(s[0] == key[0]);
    assert(!CharClass::AsciiSpaceOr('=').has(key[0]));
    lemma_skip_none(s, CharClass::AsciiSpaceOrEither('/', ','));
    text::cut_at_the_first(key, '=', tail, CharClass::AsciiSpaceOr('='));
    let after = s.skip(key.len() as int);
    assert(after[0] == '=');
    lemma_skip_none(after, CharClass::AsciiSpace);
    assert(after.skip(1) =~= tail);
    assert(tail[0] == value[0]);
    assert(!CharClass::AsciiSpaceOr(',').has(value[0]));
    lemma_skip_none(tail, CharClass::AsciiSpace);
    assert(tail.take(value.len() as int) =~= value);
    assert(tail.skip(value.len() as int) =~= more);
}

/// An attribute is the first one with its name; there is none only where no
/// name is the one that is asked for.
pub proof fn first_attribute_counts(attrs: AttrsView, key: Seq<char>)
    ensures
        match attr_of(attrs, key) {
            Some(v) => exists|i: int|
                {
                    &&& 0 <= i < attrs.len()
                    &&& #[trigger] attrs[i] == (key, v)
                    &&& forall|j: int| 0 <= j < i ==> (#[trigger] attrs[j]).0 != key
                },
            None => forall|j: int| 0 <= j < attrs.len() ==> (#[trigger] attrs[j]).0 != key,
        },
    decreases attrs.len(),
{
    if attrs.len() > 0 {
        if attrs[0].0 == key {
            assert(attrs[0] == (key, attrs[0].1));
        } else {
            let rest = attrs.skip(1);
            first_attribute_counts(rest, key);
            match attr_of(rest, key) {
                Some(v) => {
                    let i = choose|i: int|
                        {
                            &&& 0 <= i < rest.len()
                            &&& #[trigger] rest[i] == (key, v)
                            &&& forall|j: int| 0 <= j < i ==> (#[trigger] rest[j]).0 != key
                        };
                    assert(attrs[i + 1] == (key, v));
                    assert forall|j: int| 0 <= j < i + 1 implies (#[trigger] attrs[j]).0 != key by {
                        if j > 0 {
                            assert(rest[j - 1] == attrs[j]);
                        }
                    }
                },
                None => {
                    assert forall|j: int| 0 <= j < attrs.len() implies (#[trigger] attrs[j]).0
                        != key by {
                        if j > 0 {
                            assert(rest[j - 1] == attrs[j]);
                        }
                    }
                },
            }
        }
    }
}

/// A tag of a manifest.
#[derive(Debug)]
pub struct Tag {
    pub name: String,
    pub attrs: Vec<(String, String)>,
    pub closing: bool,
    pub self_closing: bool,
}

/// The texts of a [`Tag`].
#[verifier::ext_equal]
pub struct TagView {
    pub name: Seq<char>,
    pub attrs: AttrsView,
    pub closing: bool,
    pub self_closing: bool,
}

impl View for Tag {
    type V = TagView;

    open spec fn view(&self) -> TagView {
        TagView {
            name: self.name@,
            attrs: attrs_view(self.attrs@),
            closing: self.closing,
            self_closing: self.self_closing,
        }
    }
}

/// The position of the first `>` outside quotes, or the length of `s` when
/// there is none; `quote` is the quote that is open where `s` begins.
pub open spec fn tag_end(s: Seq<char>, quote: Option<char>) -> nat
    decreases s.len(),
{
    if s.len() == 0 {
        0
    } else if quote is Some {
        1 + tag_end(
            s.skip(1),
            if s[0] == quote->0 {
                None
            } else {
                quote
            },
        )
    } else if s[0] == '>' {
        0
    } else {
        1 + tag_end(
            s.skip(1),
            if s[0] == '"' || s[0] == '\'' {
                Some(s[0])
            } else {
                None
            },
        )
    }
}

/// `tag_end` stays inside the text, and a `>` stands where it points.
pub proof fn lemma_tag_end(s: Seq<char>, quote: Option<char>)
    ensures
        tag_end(s, quote) <= s.len(),
        tag_end(s, quote) < s.len() ==> s[tag_end(s, quote) as int] == '>',
    decreases s.len(),
{
    if s.len() > 0 {
        let next = if quote is Some {
            if s[0] == quote->0 {
                None
            } else {
                quote
            }
        } else if s[0] == '"' || s[0] == '\'' {
            Some(s[0])
        } else {
            None
        };
        lemma_tag_end(s.skip(1), next);
    }
}

fn find_tag_end(s: &[char]) -> (r: usize)
    ensures
        r == tag_end(s@, None),
        r <= s@.len(),
{
    proof {
        lemma_tag_end(s@, None);
    }
    let mut i: usize = 0;
    let mut quote: Option<char> = None;
    assert(s@.skip(0) == s@);
    while i < s.len()
        invariant
            i <= s.len(),
            tag_end(s@, None) == i + tag_end(s@.skip(i as int), quote),
        decreases s.len() - i,
    {
        let c = s[i];
        assert(s@.skip(i as int).skip(1) == s@.skip(i + 1));
        match quote {
            Some(q) => {
                if c == q {
                    quote = None;
                }
            },
            None => {
                if c == '"' || c == '\'' {
                    quote = Some(c);
                } else if c == '>' {
                    return i;
                }
            },
        }
        i = i + 1;
    }
    i
}

/// The first word of `s`, empty when there is none.
pub open spec fn first_word(s: Seq<char>) -> Seq<char> {
    text::before(text::trim_start(s), CharClass::Space)
}

/// The tag with `inner` between its angle brackets; a prolog or a
/// declaration is no tag.
pub open spec fn tag_of(inner: Seq<char>) -> Option<TagView> {
    if inner.len() > 0 && (inner[0] == '?' || inner[0] == '!') {
        None
    } else if inner.len() > 0 && inner[0] == '/' {
        Some(
            TagView {
                name: first_word(inner.skip(1)),
                attrs: Seq::empty(),
                closing: true,
                self_closing: false,
            },
        )
    } else {
        let self_closing = inner.len() > 0 && inner.last() == '/';
        let body = if self_closing {
            text::trim_end(inner.drop_last())
        } else {
            inner
        };
        let name = text::before(body, CharClass::AsciiSpace);
        let rest = if name.len() < body.len() {
            body.skip(name.len() as int + 1)
        } else {
            Seq::empty()
        };
        Some(TagView { name, attrs: attrs_of(rest), closing: false, self_closing })
    }
}

/// What stands at the beginning of `s`, a text that begins with `<`, and
/// where it ends: a tag, or something to skip; nothing when it never ends.
pub open spec fn tag_at(s: Seq<char>) -> Option<(Option<TagView>, int)> {
    if "<!--"@.is_prefix_of(s) {
        match text::find(s, "-->"@) {
            Some(i) => Some((None, i + 3)),
            None => None,
        }
    } else {
        let body = s.skip(1);
        let end = tag_end(body, None) as int;
        if end >= body.len() {
            None
        } else {
            Some((tag_of(text::trim(body.take(end))), end + 2))
        }
    }
}

pub open spec fn tag_view(r: Option<(Option<Tag>, usize)>) -> Option<(Option<TagView>, int)> {
    match r {
        Some((Some(t), n)) => Some((Some(t@), n as int)),
        Some((None, n)) => Some((None, n as int)),
        None => None,
    }
}

fn parse_tag(inner: &[char]) -> (r: Option<Tag>)
    ensures
        (match r {
            Some(t) => Some(t@),
            None => None,
        }) == tag_of(inner@),
{
    if inner.len() > 0 && (inner[0] == '?' || inner[0] == '!') {
        return None;
    }
    if inner.len() > 0 && inner[0] == '/' {
        let name = until(trimmed_start(&inner[1..inner.len()]), CharClass::Space);
        let t = Tag {
            name: string_of(name),
            attrs: Vec::new(),
            closing: true,
            self_closing: false,
        };
        assert(attrs_view(t.attrs@) =~= Seq::empty());
        return Some(t);
    }
    let self_closing = inner.len() > 0 && inner[inner.len() - 1] == '/';
    let body = if self_closing {
        trimmed_end(&inner[0..inner.len() - 1])
    } else {
        inner
    };
    let name = until(body, CharClass::AsciiSpace);
    proof {
        text::lemma_index_of(body@, CharClass::AsciiSpace);
    }
    let rest = if name.len() < body.len() {
        &body[name.len() + 1..body.len()]
    } else {
        &body[0..0]
    };
    assert(name@.len() >= body@.len() ==> rest@ =~= Seq::<char>::empty());
    Some(Tag { name: string_of(name), attrs: parse_attrs(rest), closing: false, self_closing })
}

/// Read `<...>` at the beginning of `s`; comments and prologs are skipped
/// (no tag). Gives where the text goes on.
pub fn read_tag(s: &[char]) -> (r: Option<(Option<Tag>, usize)>)
    requires
        s@.len() > 0,
        s@[0] == '<',
    ensures
        tag_view(r) == tag_at(s@),
        r matches Some((_, end)) ==> 0 < end <= s@.len(),
{
    if starts_with(s, "<!--") {
        proof {
            reveal_strlit("-->");
        }
        return match find_text(s, "-->") {
            Some(i) => {
                assert(i + 3 <= s.len());
                Some((None, i + 3))
            },
            None => None,
        };
    }
    let body = &s[1..s.len()];
    let end = find_tag_end(body);
    if end >= body.len() {
        return None;
    }
    Some((parse_tag(trimmed(&body[0..end])), end + 2))
}

/// A tag goes on over everything but `>` and quotes, and over a text in quotes
/// whatever that holds; it ends at the first `>` behind that.
pub proof fn tag_goes_on_over_quotes(a: Seq<char>, quote: char, v: Seq<char>, s: Seq<char>)
    requires
        forall|i: int|
            0 <= i < a.len() ==> (#[trigger] a[i]) != '>' && a[i] != '"' && a[i] != '\'',
        quote == '"' || quote == '\'',
        text::free_of(v, CharClass::One(quote)),
    ensures
        tag_end(a + s, None) == a.len() + tag_end(s, None),
        tag_end(seq![quote] + v + seq![quote] + s, None) == v.len() + 2 + tag_end(s, None),
        tag_end(seq!['>'] + s, None) == 0,
{
    lemma_tag_plain(a, s);
    let t = seq![quote] + v + seq![quote] + s;
    assert(t[0] == quote);
    assert(t.skip(1) =~= v + (seq![quote] + s));
    lemma_tag_quoted(quote, v, s);
}

proof fn lemma_tag_plain(a: Seq<char>, s: Seq<char>)
    requires
        forall|i: int|
            0 <= i < a.len() ==> (#[trigger] a[i]) != '>' && a[i] != '"' && a[i] != '\'',
    ensures
        tag_end(a + s, None) == a.len() + tag_end(s, None),
    decreases a.len(),
{
    if a.len() > 0 {
        let b = a.skip(1);
        assert forall|i: int| 0 <= i < b.len() implies (#[trigger] b[i]) != '>' && b[i] != '"'
            && b[i] != '\'' by {
            assert(b[i] == a[i + 1]);
        }
        assert((a + s)[0] == a[0]);
        assert((a + s).skip(1) =~= b + s);
        lemma_tag_plain(b, s);
    } else {
        assert(a + s =~= s);
    }
}

proof fn lemma_tag_quoted(quote: char, v: Seq<char>, s: Seq<char>)
    requires
        text::free_of(v, CharClass::One(quote)),
    ensures
        tag_end(v + (seq![quote] + s), Some(quote)) == v.len() + 1 + tag_end(s, None),
    decreases v.len(),
{
    let t = v + (seq![quote] + s);
    if v.len() > 0 {
        let w = v.skip(1);
        assert forall|i: int| 0 <= i < w.len() implies !CharClass::One(quote).has(
            #[trigger] w[i],
        ) by {
            assert(w[i] == v[i + 1]);
        }
        assert(t[0] == v[0]);
        assert(!CharClass::One(quote).has(v[0]));
        assert(t.skip(1) =~= w + (seq![quote] + s));
        lemma_tag_quoted(quote, w, s);
    } else {
        assert(t[0] == quote);
        assert(t.skip(1) =~= s);
    }
}

/// A tag has the name before its first white space, whole, and the attributes
/// behind that; with a slash at its end it closes itself, and with one at its
/// beginning it closes an element.
pub proof fn tag_has_its_name_and_attributes(name: Seq<char>, rest: Seq<char>)
    requires
        name.len() > 0,
        text::free_of(name, CharClass::AsciiSpace),
        text::free_of(name, CharClass::Space),
        name[0] != '/' && name[0] != '?' && name[0] != '!',
        rest.len() > 0,
        !text::is_space(rest[rest.len() - 1]),
        rest[rest.len() - 1] != '/',
    ensures
        tag_of(name + seq![' '] + rest) == Some(
            TagView { name, attrs: attrs_of(rest), closing: false, self_closing: false },
        ),
        tag_of(name + seq![' '] + rest + seq!['/']) == Some(
            TagView { name, attrs: attrs_of(rest), closing: false, self_closing: true },
        ),
        tag_of(seq!['/'] + name) == Some(
            TagView { name, attrs: Seq::empty(), closing: true, self_closing: false },
        ),
{
    let s = name + seq![' '] + rest;
    text::cut_at_the_first(name, ' ', rest, CharClass::AsciiSpace);
    assert(s[0] == name[0]);
    assert(s.last() == rest.last());
    assert(s.skip(name.len() as int + 1) =~= rest);
    let t = s + seq!['/'];
    assert(t[0] == name[0]);
    assert(t.last() == '/');
    assert(t.drop_last() =~= s);
    assert(text::trim_end(s) == s);
    let c = seq!['/'] + name;
    assert(c[0] == '/');
    assert(c.skip(1) =~= name);
    text::cut_at_the_first(name, ' ', Seq::empty(), CharClass::Space);
    assert(!CharClass::Space.has(name[0]));
    assert(text::trim_start(name) == name);
}

/// A comment is no tag, and the text goes on behind its end, which is the first
/// one that stands behind its beginning.
pub proof fn comments_are_skipped(a: Seq<char>, rest: Seq<char>)
    requires
        forall|j: int|
            0 <= j < a.len() + 4 ==> !#[trigger] text::stands_at(
                "<!--"@ + a + "-->"@ + rest,
                "-->"@,
                j,
            ),
    ensures
        tag_at("<!--"@ + a + "-->"@ + rest) == Some((None::<TagView>, a.len() as int + 7)),
{
    reveal_strlit("<!--");
    let head = "<!--"@ + a;
    text::lemma_found_behind(head, "-->"@, rest);
    assert((head + "-->"@ + rest).subrange(0, 4) =~= "<!--"@);
}

/// White space around `=` does not matter, and an attribute without a value has
/// the empty one.
pub proof fn space_around_the_sign_does_not_matter(
    key: Seq<char>,
    quote: char,
    value: Seq<char>,
    rest: Seq<char>,
    flag: Seq<char>,
)
    requires
        is_key(key),
        is_key(flag),
        quote == '"' || quote == '\'',
        text::free_of(value, CharClass::One(quote)),
    ensures
        attrs_of(key + seq![' ', '=', ' ', quote] + value + seq![quote] + rest) == seq![
            (key, value),
        ] + attrs_of(rest),
        attrs_of(flag + seq![' '] + key + seq!['=', quote] + value + seq![quote] + rest) == seq![
            (flag, Seq::empty()),
            (key, value),
        ] + attrs_of(rest),
        attrs_of(Seq::empty()) == Seq::<(Seq<char>, Seq<char>)>::empty(),
{
    let body = value + seq![quote] + rest;
    let tail = seq!['=', ' ', quote] + body;
    let s = key + seq![' ', '=', ' ', quote] + value + seq![quote] + rest;
    assert(s =~= key + seq![' '] + tail);
    lemma_key(key, tail, s);
    let after = s.skip(key.len() as int);
    assert(after =~= seq![' '] + tail);
    lemma_skip_one(' ', tail, CharClass::AsciiSpace);
    lemma_skip_none(tail, CharClass::AsciiSpace);
    let v = seq![quote] + body;
    assert(tail.skip(1) =~= seq![' '] + v);
    lemma_skip_one(' ', v, CharClass::AsciiSpace);
    assert(v[0] == quote);
    lemma_skip_none(v, CharClass::AsciiSpace);
    assert(v.skip(1) =~= body);
    text::cut_at_the_first(value, quote, rest, CharClass::One(quote));
    assert(body.skip(value.len() as int + 1) =~= rest);
    assert(body.take(value.len() as int) =~= value);
    let attr = key + seq!['=', quote] + value + seq![quote] + rest;
    let f = flag + seq![' '] + key + seq!['=', quote] + value + seq![quote] + rest;
    assert(f =~= flag + seq![' '] + attr);
    lemma_key(flag, attr, f);
    assert(f.skip(flag.len() as int) =~= seq![' '] + attr);
    lemma_skip_one(' ', attr, CharClass::AsciiSpace);
    assert(attr[0] == key[0]);
    assert(!CharClass::AsciiSpaceOr('=').has(key[0]));
    lemma_skip_none(attr, CharClass::AsciiSpace);
    quoted_value_is_whole(key, quote, value, rest);
    assert(seq![(flag, Seq::<char>::empty())] + (seq![(key, value)] + attrs_of(rest)) =~= seq![
        (flag, Seq::<char>::empty()),
        (key, value),
    ] + attrs_of(rest));
}

proof fn lemma_key(key: Seq<char>, tail: Seq<char>, s: Seq<char>)
    requires
        is_key(key),
        s == key + seq![' '] + tail,
    ensures
        text::skip_run(s, CharClass::AsciiSpaceOrEither('/', ',')) == s,
        text::before(s, CharClass::AsciiSpaceOr('=')) == key,
{
    assert(s[0] == key[0]);
    assert(!CharClass::AsciiSpaceOr('=').has(key[0]));
    lemma_skip_none(s, CharClass::AsciiSpaceOrEither('/', ','));
    text::cut_at_the_first(key, ' ', tail, CharClass::AsciiSpaceOr('='));
}

} // verus!
