use zw_to_anki::dict::Tone;
use zw_to_anki::pinyin::{
    add_diacritic, add_diacritic_to_char, add_diacritic_to_vowel_group, can_add_diacritic,
};
#[test]
fn test_diacritics() {
    for (text, tone, expected) in [
        ("chu", Tone::Fourth, "chù"),
        ("liang", Tone::Second, "liáng"),
        ("Xi", Tone::First, "Xī"),
        ("Er", Tone::Third, "Ěr"),
        ("shuang", Tone::Fourth, "shuàng"),
    ] {
        assert_eq!(add_diacritic(text, Some(tone)), expected);
    }
}

#[test]
fn neutral_tone_leaves_the_text() {
    for text in ["ma", "de", "", "xyz", "lü", "Er", "·", "hello world"] {
        assert_eq!(add_diacritic(text, Some(Tone::Fifth)), text);
        assert_eq!(add_diacritic(text, None), text);
    }
}

#[test]
fn single_vowel_takes_the_mark() {
    assert_eq!(add_diacritic("ma", Some(Tone::First)), "mā");
    assert_eq!(add_diacritic("ma", Some(Tone::Second)), "má");
    assert_eq!(add_diacritic("ma", Some(Tone::Third)), "mǎ");
    assert_eq!(add_diacritic("ma", Some(Tone::Fourth)), "mà");
    assert_eq!(add_diacritic("lü", Some(Tone::Fourth)), "lǜ");
    assert_eq!(add_diacritic("nü", Some(Tone::Third)), "nǚ");
    assert_eq!(add_diacritic("o", Some(Tone::Second)), "ó");
    assert_eq!(add_diacritic("A", Some(Tone::First)), "Ā");
    assert_eq!(add_diacritic("Ü", Some(Tone::Second)), "Ǘ");
    assert_eq!(add_diacritic("zhi", Some(Tone::First)), "zhī");
}

#[test]
fn a_and_e_take_the_mark() {
    assert_eq!(add_diacritic("hao", Some(Tone::Third)), "hǎo");
    assert_eq!(add_diacritic("xie", Some(Tone::Fourth)), "xiè");
    assert_eq!(add_diacritic("yue", Some(Tone::Fourth)), "yuè");
    assert_eq!(add_diacritic("nüe", Some(Tone::Fourth)), "nüè");
    assert_eq!(add_diacritic("kuai", Some(Tone::Fourth)), "kuài");
    assert_eq!(add_diacritic("mei", Some(Tone::Second)), "méi");
    assert_eq!(add_diacritic("xiong", Some(Tone::Second)), "xióng");
}

#[test]
fn ou_marks_the_o() {
    assert_eq!(add_diacritic("dou", Some(Tone::First)), "dōu");
    assert_eq!(add_diacritic("zhou", Some(Tone::Fourth)), "zhòu");
    assert_eq!(add_diacritic("you", Some(Tone::Third)), "yǒu");
}

#[test]
fn otherwise_the_second_vowel_takes_the_mark() {
    assert_eq!(add_diacritic("gui", Some(Tone::Fourth)), "guì");
    assert_eq!(add_diacritic("liu", Some(Tone::Second)), "liú");
    assert_eq!(add_diacritic("duo", Some(Tone::First)), "duō");
    assert_eq!(add_diacritic("Ai", Some(Tone::Fourth)), "Aì");
    assert_eq!(add_diacritic("Ou", Some(Tone::First)), "Oū");
}

#[test]
fn every_vowel_has_its_marked_forms() {
    let table = [
        ('a', ['ā', 'á', 'ǎ', 'à', 'a']),
        ('e', ['ē', 'é', 'ě', 'è', 'e']),
        ('i', ['ī', 'í', 'ǐ', 'ì', 'i']),
        ('o', ['ō', 'ó', 'ǒ', 'ò', 'o']),
        ('u', ['ū', 'ú', 'ǔ', 'ù', 'u']),
        ('ü', ['ǖ', 'ǘ', 'ǚ', 'ǜ', 'ü']),
    ];
    let tones = [
        Tone::First,
        Tone::Second,
        Tone::Third,
        Tone::Fourth,
        Tone::Fifth,
    ];
    for (vowel, forms) in table {
        for (tone, form) in tones.iter().zip(forms.iter()) {
            assert_eq!(add_diacritic_to_char(vowel, *tone), *form);
            let upper = vowel.to_uppercase().next().unwrap();
            assert_eq!(
                add_diacritic_to_char(upper, *tone),
                form.to_uppercase().next().unwrap()
            );
        }
    }
}

#[test]
fn vowel_groups_are_marked_by_rule() {
    let mark = |group: &str, tone: Tone| -> String {
        add_diacritic_to_vowel_group(&group.chars().collect(), tone)
            .into_iter()
            .collect()
    };
    assert_eq!(mark("u", Tone::Fourth), "ù");
    assert_eq!(mark("ia", Tone::Second), "iá");
    assert_eq!(mark("ua", Tone::Fourth), "uà");
    assert_eq!(mark("ou", Tone::Third), "ǒu");
    assert_eq!(mark("iou", Tone::Third), "iǒu");
    assert_eq!(mark("ui", Tone::First), "uī");
    assert_eq!(mark("aea", Tone::First), "āēā");
    assert_eq!(mark("uei", Tone::Fourth), "uèi");
    assert_eq!(mark("", Tone::Fourth), "");
}

#[test]
fn syllables_without_a_vowel_cannot_be_marked() {
    assert!(can_add_diacritic("chu", Some(Tone::Fourth)));
    assert!(can_add_diacritic("m", Some(Tone::Fifth)));
    assert!(can_add_diacritic("m", None));
    assert!(can_add_diacritic("", None));
    assert!(!can_add_diacritic("m", Some(Tone::Second)));
    assert!(!can_add_diacritic("ng", Some(Tone::Fourth)));
    assert!(!can_add_diacritic("", Some(Tone::First)));
    assert!(!can_add_diacritic("umi", Some(Tone::First)));
    assert!(can_add_diacritic("umia", Some(Tone::First)));
    assert!(can_add_diacritic("lü", Some(Tone::Fourth)));
}

#[test]
fn consonants_around_the_vowels_stay() {
    assert_eq!(add_diacritic("zhuang", Some(Tone::First)), "zhuāng");
    assert_eq!(add_diacritic("Shang", Some(Tone::Fourth)), "Shàng");
    assert_eq!(add_diacritic("er", Some(Tone::Second)), "ér");
    assert_eq!(add_diacritic("r", Some(Tone::Fifth)), "r");
}
