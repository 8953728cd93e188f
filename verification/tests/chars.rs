use ccdm::markup::{attr, parse_attrs, read_tag};
use ccdm::text::{
    chars_of, contains, control, decimal_of, ends_with, find_text, joined, lines_of, lowered,
    parse_number, parts, replaced, same, same_text, space, starts_with, string_of, stripped,
    tail_of, trimmed, trimmed_end, trimmed_start, until, without_prefix, CharClass,
};

const SAMPLES: [&str; 12] = [
    "",
    " ",
    "abc",
    "  a b\t",
    "\u{3000}x\u{a0}",
    "one\ntwo\r\nthree\r",
    "\n\n",
    "a,b,,c,",
    "aaa",
    "ÀÉ Straße ΣΑΣ",
    "x=1;y=2",
    "\"quoted\"",
];

#[test]
fn character_classes_match_std() {
    for c in '\0'..=char::MAX {
        assert_eq!(space(c), c.is_whitespace(), "{c:?}");
        assert_eq!(control(c), c.is_control(), "{c:?}");
    }
}

#[test]
fn trimming_matches_std() {
    for s in SAMPLES {
        let all = chars_of(s);
        assert_eq!(string_of(&all), s);
        assert_eq!(string_of(trimmed(&all)), s.trim());
        assert_eq!(string_of(trimmed_start(&all)), s.trim_start());
        assert_eq!(string_of(trimmed_end(&all)), s.trim_end());
        assert_eq!(string_of(stripped(&all, CharClass::One('"'))), s.trim_matches('"'));
    }
}

#[test]
fn splitting_matches_std() {
    for s in SAMPLES {
        let all = chars_of(s);
        let split: Vec<String> = parts(&all, CharClass::One(',')).iter().map(|p| string_of(p)).collect();
        assert_eq!(split, s.split(',').collect::<Vec<_>>());
        let list: Vec<String> = lines_of(&all).iter().map(|p| string_of(p)).collect();
        assert_eq!(list, s.lines().collect::<Vec<_>>());
        assert_eq!(string_of(until(&all, CharClass::One(';'))), s.split(';').next().unwrap());
        let joint = string_of(&joined(&lines_of(&all), " | "));
        assert_eq!(joint, s.lines().collect::<Vec<_>>().join(" | "));
    }
    assert_eq!(string_of(&tail_of("1\n2\n3", 2)), "2 | 3");
}

#[test]
fn searching_matches_std() {
    for s in SAMPLES {
        let all = chars_of(s);
        for pat in ["", "a", "aa", "two", "=", "\n"] {
            assert_eq!(starts_with(&all, pat), s.starts_with(pat));
            assert_eq!(ends_with(&all, pat), s.ends_with(pat));
            assert_eq!(contains(&all, pat), s.contains(pat));
            let at = s.find(pat).map(|i| s[..i].chars().count());
            assert_eq!(find_text(&all, pat), at);
            assert_eq!(same(&all, pat), s == pat);
            assert_eq!(same_text(s, pat), s == pat);
            let cut = without_prefix(&all, pat).map(string_of);
            assert_eq!(cut.as_deref(), s.strip_prefix(pat));
            if !pat.is_empty() {
                let with = chars_of("<>");
                assert_eq!(string_of(&replaced(&all, pat, &with)), s.replace(pat, "<>"));
            }
        }
    }
}

#[test]
fn lower_case_matches_std() {
    for s in SAMPLES {
        assert_eq!(string_of(&lowered(&chars_of(s))), s.to_lowercase());
    }
}

#[test]
fn numbers_match_std() {
    for s in ["", "+", "0", "+7", "007", "-1", " 1", "1a", "18446744073709551615", "18446744073709551616"] {
        assert_eq!(parse_number(&chars_of(s), u64::MAX), s.parse::<u64>().ok(), "{s:?}");
        assert_eq!(
            parse_number(&chars_of(s), u16::MAX as u64),
            s.parse::<u16>().ok().map(u64::from),
            "{s:?}"
        );
    }
    for n in [0u128, 9, 10, 12345, u64::MAX as u128, u128::MAX] {
        assert_eq!(string_of(&decimal_of(n)), n.to_string());
    }
}

#[test]
fn attributes_are_read() {
    let attrs = parse_attrs(&chars_of("BANDWIDTH=1,CODECS=\"a,b\" x='y z' flag"));
    assert_eq!(attr(&attrs, "BANDWIDTH").as_deref(), Some("1"));
    assert_eq!(attr(&attrs, "CODECS").as_deref(), Some("a,b"));
    assert_eq!(attr(&attrs, "x").as_deref(), Some("y z"));
    assert_eq!(attr(&attrs, "missing"), None);
}

#[test]
fn tags_are_read() {
    let text = chars_of("<Seg media=\"a>b\"/>rest");
    let (tag, used) = read_tag(&text).unwrap();
    let tag = tag.unwrap();
    assert_eq!(tag.name, "Seg");
    assert!(tag.self_closing);
    assert_eq!(attr(&tag.attrs, "media").as_deref(), Some("a>b"));
    assert_eq!(string_of(&text[used..]), "rest");
    assert!(read_tag(&chars_of("<open")).is_none());
}
