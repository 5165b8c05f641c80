use nsc_arbiter::freeze::{freeze_flags, FreezeFlags};

fn flags(rep_3p: bool, stall: bool, ai_tell: bool) -> FreezeFlags {
    FreezeFlags { rep_3p, stall, ai_tell }
}

#[test]
fn empty_text_is_a_stall() {
    assert_eq!(freeze_flags(""), flags(false, true, false));
}

#[test]
fn white_space_alone_is_a_stall() {
    assert_eq!(freeze_flags("   "), flags(false, true, false));
    assert_eq!(freeze_flags(" \t\r\n"), flags(false, true, false));
    assert_eq!(freeze_flags("\u{a0}\u{2003}\u{3000}\u{85}\u{1680}\u{2028}\u{2029}\u{202f}\u{205f}\u{b}\u{c}"), flags(false, true, false));
}

#[test]
fn white_space_around_the_text_is_ignored() {
    assert_eq!(freeze_flags("  abcabc \n"), freeze_flags("abcabc"));
    assert_eq!(freeze_flags("\u{3000}abcabc\u{a0}"), freeze_flags("abcabc"));
    assert_eq!(freeze_flags("   a   "), flags(false, false, false));
}

#[test]
fn characters_that_are_not_white_space_stay() {
    // U+200B (zero width space) does not have the property White_Space.
    assert_eq!(freeze_flags("\u{200b}"), flags(false, false, false));
    assert_eq!(freeze_flags("\u{180e}"), flags(false, false, false));
}

#[test]
fn under_six_bytes_nothing_repeats() {
    for text in ["a", "aa", "aaa", "aaaa", "aaaaa", "abcab", "é", "éé"] {
        assert!(!freeze_flags(text).rep_3p, "{:?}", text);
    }
}

#[test]
fn six_equal_bytes_repeat() {
    // One window, one repeat: 1/1 > 0.30.
    assert_eq!(freeze_flags("abcabc"), flags(true, false, false));
    assert_eq!(freeze_flags("abcabd"), flags(false, false, false));
}

#[test]
fn repetition_is_counted_over_windows_of_three() {
    // Windows start at 0, 3, 6, ...: the shifted repeat "xabcabc" has the
    // windows "xab" against "cab": no repeat.
    assert!(!freeze_flags("xabcabc").rep_3p);
    // Nine bytes: windows at 0 and 3.
    assert!(freeze_flags("abcabcxyz").rep_3p); // 1 of 2
    assert!(!freeze_flags("abcxyzxyw").rep_3p); // 0 of 2
    // Trailing bytes that do not fill a window are not looked at.
    assert!(freeze_flags("abcabcx").rep_3p);
    assert!(freeze_flags("abcabcxy").rep_3p);
}

fn distinct_words(n: usize) -> String {
    // Words of three letters, no two neighbours equal.
    let mut s = String::new();
    for i in 0..n {
        let a = (b'a' + (i % 26) as u8) as char;
        let b = (b'a' + ((i / 26) % 26) as u8) as char;
        s.push(a);
        s.push(b);
        s.push('q');
    }
    s
}

#[test]
fn three_in_ten_is_not_more_than_three_in_ten() {
    // 11 words make 10 windows. With 3 repeats: 3/10 is not above 0.30.
    let mut text = String::new();
    text.push_str("zzzzzzzzzzzz"); // words 0..3: three repeats
    text.push_str(&distinct_words(7)); // words 4..10
    assert_eq!(text.len(), 33);
    assert!(!freeze_flags(&text).rep_3p);
    // With 4 repeats among 10 windows: above.
    let mut text = String::new();
    text.push_str("zzzzzzzzzzzzzzz"); // words 0..4: four repeats
    text.push_str(&distinct_words(6));
    assert_eq!(text.len(), 33);
    assert!(freeze_flags(&text).rep_3p);
}

#[test]
fn one_in_three_is_more_than_three_in_ten() {
    // 4 words make 3 windows; one repeat: 1/3 > 0.30.
    let text = "abcabcdefghi";
    assert!(freeze_flags(text).rep_3p);
}

#[test]
fn few_distinct_bytes_are_a_stall() {
    // 1 distinct byte in 9: 0.111 < 0.12.
    assert!(freeze_flags("aaaaaaaaa").stall);
    // 1 in 8: 0.125.
    assert!(!freeze_flags("aaaaaaaa").stall);
    // 3 in 25 is exactly 0.12: no stall. 3 in 26: stall.
    let exact = format!("{}{}{}", "a".repeat(23), "b", "c");
    assert_eq!(exact.len(), 25);
    assert!(!freeze_flags(&exact).stall);
    let below = format!("{}{}{}", "a".repeat(24), "b", "c");
    assert_eq!(below.len(), 26);
    assert!(freeze_flags(&below).stall);
}

#[test]
fn diversity_counts_bytes_not_characters() {
    // "é" is two bytes, both distinct: 2 distinct bytes in 18.
    let text = "é".repeat(9);
    assert_eq!(text.len(), 18);
    assert!(freeze_flags(&text).stall);
    // 2 distinct bytes in 16: 0.125.
    let text = "é".repeat(8);
    assert!(!freeze_flags(&text).stall);
}

#[test]
fn the_assistant_phrases_are_found_in_any_case() {
    assert!(freeze_flags("As an AI, I cannot do that").ai_tell);
    assert!(freeze_flags("well, AS AN AI").ai_tell);
    assert!(freeze_flags("as an ai").ai_tell);
    assert!(freeze_flags("Speaking as a Language Model here").ai_tell);
    assert!(freeze_flags("as a language model").ai_tell);
    assert!(!freeze_flags("as an a1").ai_tell);
    assert!(!freeze_flags("as an  ai").ai_tell);
    assert!(!freeze_flags("as a language mode").ai_tell);
    assert!(!freeze_flags("s an ai").ai_tell);
    assert!(!freeze_flags("as an a").ai_tell);
    assert!(freeze_flags("has an airplane").ai_tell);
}

#[test]
fn only_ascii_letters_change_case() {
    // U+212A (Kelvin sign) lowercases to "k" in Unicode, not in ASCII.
    assert!(!freeze_flags("as a language model".replace('l', "\u{2113}").as_str()).ai_tell);
    // '@' is 0x40 and '[' is 0x5b: next to the capitals, not among them.
    assert!(!freeze_flags("@s an ai").ai_tell);
    assert!(!freeze_flags("as an a[").ai_tell);
}

#[test]
fn a_period_of_nine_bytes_does_not_repeat_in_threes() {
    // "as ", "an ", "ai ", "as ", ...: no window equals its right neighbour.
    let text = "as an ai ".repeat(30);
    assert_eq!(freeze_flags(&text), flags(false, true, true));
}

#[test]
fn all_three_flags_at_once() {
    // 129 bytes, 7 of them distinct; 42 windows, of which the 39 inside
    // the run of "z" repeat.
    let text = format!("as an aix{}", "zzz".repeat(40));
    assert_eq!(text.len(), 129);
    let got = freeze_flags(&text);
    assert!(got.ai_tell);
    assert!(got.rep_3p);
    assert!(got.stall);
    assert_eq!(got, flags(true, true, true));
}

#[test]
fn plain_words_set_nothing() {
    // 17 bytes, 5 distinct: no stall; windows "sta","ll ","sta","ll ","sta": no neighbour repeats.
    assert_eq!(freeze_flags("stall stall stall"), flags(false, false, false));
}

#[test]
fn merge_sets_what_either_sets() {
    let a = flags(true, false, false);
    let b = flags(false, false, true);
    assert_eq!(a.merge(b), flags(true, false, true));
    assert_eq!(b.merge(a), flags(true, false, true));
    assert_eq!(FreezeFlags::default().merge(FreezeFlags::default()), flags(false, false, false));
    assert_eq!(FreezeFlags::default(), flags(false, false, false));
}

/// The flags computed the plain way, with the standard library.
fn plain_flags(text: &str) -> FreezeFlags {
    let s = text.trim();
    if s.is_empty() {
        return flags(false, true, false);
    }
    let b = s.as_bytes();
    let windows: Vec<&[u8]> = b.chunks_exact(3).collect();
    let total = windows.len().saturating_sub(1);
    let repeats = windows.windows(2).filter(|pair| pair[0] == pair[1]).count();
    let distinct = b.iter().collect::<std::collections::BTreeSet<_>>().len();
    let lower = s.to_ascii_lowercase();
    flags(
        total > 0 && repeats * 10 > total * 3,
        distinct * 25 < b.len() * 3,
        lower.contains("as an ai") || lower.contains("as a language model"),
    )
}

struct Lcg(u64);

impl Lcg {
    fn next(&mut self, below: usize) -> usize {
        self.0 = self.0.wrapping_mul(6364136223846793005).wrapping_add(1442695040888963407);
        ((self.0 >> 33) as usize) % below
    }
}

#[test]
fn flags_agree_with_the_plain_computation() {
    let pieces = [
        "a", "b", "abc", "abc", "abc", "zzz", " ", "  ", "\n", "\u{a0}", "\u{3000}", "é", "As An AI", "as a", " language", " model", "LANGUAGE MODEL",
        "x", "xyz", "0", "日本", "\u{2003}", "as an ai", "As a Language Model",
    ];
    let mut rng = Lcg(7);
    for round in 0..4000 {
        let n = rng.next(1 + round % 40);
        let mut text = String::new();
        for _ in 0..n {
            text.push_str(pieces[rng.next(pieces.len())]);
        }
        assert_eq!(freeze_flags(&text), plain_flags(&text), "{:?}", text);
    }
}

#[test]
fn flags_agree_with_the_plain_computation_on_long_runs() {
    let mut rng = Lcg(11);
    for _ in 0..300 {
        let mut text = String::new();
        let runs = 1 + rng.next(6);
        for _ in 0..runs {
            let piece = ["a", "ab", "abc", "abcd", "q", "zz", "as an ai "][rng.next(7)];
            let times = 1 + rng.next(60);
            text.push_str(&piece.repeat(times));
        }
        assert_eq!(freeze_flags(&text), plain_flags(&text), "{:?}", text);
    }
}
