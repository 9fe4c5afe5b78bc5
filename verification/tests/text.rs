use agentos_domain::decimal::{decimal_text, read_decimal};
use agentos_domain::ordered::{OrdMap, OrdSet};
use agentos_domain::psyche::beliefs::EpisodeId;
use agentos_domain::text::{
    chars_of, comes_before, control, ends_with, find, same_text, starts_with, text_of, trim,
    white_space,
};

#[test]
fn white_space_and_control_are_unicode_s() {
    for n in 0..=0x10_ffff_u32 {
        if let Some(c) = char::from_u32(n) {
            assert_eq!(white_space(c), c.is_whitespace(), "{n:x}");
            assert_eq!(control(c), c.is_control(), "{n:x}");
        }
    }
}

#[test]
fn text_is_trimmed_and_compared_as_str_does_it() {
    let samples = ["", " ", "a", " a b ", "é", "z", "\u{a0}x\u{3000}", "𝕫", "ab", "b"];
    for a in samples {
        let chars = chars_of(a);
        assert_eq!(text_of(trim(&chars)), a.trim());
        for b in samples {
            assert_eq!(same_text(a, b), a == b);
            assert_eq!(comes_before(a, b), a < b);
            assert_eq!(starts_with(&chars, &chars_of(b)), a.starts_with(b));
            assert_eq!(ends_with(&chars, &chars_of(b)), a.ends_with(b));
        }
    }
    assert_eq!(find(&chars_of("a@b"), '@'), 1);
    assert_eq!(find(&chars_of("ab"), '@'), 2);
}

#[test]
fn numerals_are_written_and_read() {
    for n in [0, 7, 10, 12_345, u64::MAX] {
        assert_eq!(decimal_text(n), n.to_string());
        assert_eq!(read_decimal(&chars_of(&n.to_string())), Some(n));
    }
    assert_eq!(read_decimal(&chars_of("18446744073709551616")), None);
}

#[test]
fn sets_and_maps_keep_their_order() {
    let ids = |v: &[u64]| -> Vec<EpisodeId> { v.iter().map(|n| EpisodeId::new(*n)).collect() };
    let mut set = OrdSet::from_vec(ids(&[5, 1, 3, 1]));
    assert_eq!(set.as_slice(), ids(&[1, 3, 5]));
    assert!(set.insert(EpisodeId::new(4)));
    assert!(!set.insert(EpisodeId::new(4)));
    assert_eq!(set.first(), Some(&EpisodeId::new(1)));
    let other = OrdSet::from_vec(ids(&[3, 9]));
    assert_eq!(set.intersection(&other).as_slice(), ids(&[3]));
    assert_eq!(set.union(&other).as_slice(), ids(&[1, 3, 4, 5, 9]));
    assert!(set.intersection(&other).is_subset(&set));

    let mut map: OrdMap<EpisodeId, &str> = OrdMap::new();
    map.insert(EpisodeId::new(2), "two");
    map.insert(EpisodeId::new(1), "one");
    map.insert(EpisodeId::new(2), "zwei");
    assert_eq!(map.keys(), ids(&[1, 2]));
    assert_eq!(map.values(), ["one", "zwei"]);
    assert_eq!(map.get(&EpisodeId::new(2)), Some(&"zwei"));
    assert_eq!(map.remove(&EpisodeId::new(1)), Some("one"));
    assert_eq!(map.remove(&EpisodeId::new(1)), None);
    assert_eq!(map.len(), 1);
}
