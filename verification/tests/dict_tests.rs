use zw_to_anki::chunking::{generate_all_chunkings, iterate_all_subdivisions};
use zw_to_anki::dict::{colourise, is_syllable, CEDict, PinYin, PinYinSyllable, SourceError, Tone, Word};
use zw_to_anki::line::LineError;
#[test]
fn test_parse_line() {
    let word = CEDict::parse_line(
        "一氧化二氮 一氧化二氮 [yi1 yang3 hua4 er4 dan4] /nitrous oxide N2O/laughing gas/",
    );
    assert_eq!(word.simplified, "一氧化二氮");
    assert_eq!(
        word.pinyins
            .iter()
            .flat_map(|(_, defs)| defs.iter())
            .map(|s| &s[..])
            .collect::<Vec<&str>>(),
        vec!["laughing gas", "nitrous oxide N2O"]
    );
    assert_eq!(
        word.pinyins.iter().next().unwrap().0 .0,
        vec![
            PinYinSyllable {
                text: "yi".into(),
                tone: Some(Tone::First)
            },
            PinYinSyllable {
                text: "yang".into(),
                tone: Some(Tone::Third)
            },
            PinYinSyllable {
                text: "hua".into(),
                tone: Some(Tone::Fourth)
            },
            PinYinSyllable {
                text: "er".into(),
                tone: Some(Tone::Fourth)
            },
            PinYinSyllable {
                text: "dan".into(),
                tone: Some(Tone::Fourth)
            }
        ]
    );
}

#[test]
fn test_parse_name() {
    let word = CEDict::parse_line("亞歷山大·杜布切克 亚历山大·杜布切克 [Ya4 li4 shan1 da4 · Du4 bu4 qie1 ke4] /Alexander Dubček (1921-1992), leader of Czechoslovakia (1968-1969)/");
    assert_eq!(word.simplified, "亚历山大·杜布切克");
    assert_eq!(
        word.pinyins.iter().next().unwrap().0 .0,
        vec![
            PinYinSyllable {
                text: "Ya".into(),
                tone: Some(Tone::Fourth)
            },
            PinYinSyllable {
                text: "li".into(),
                tone: Some(Tone::Fourth)
            },
            PinYinSyllable {
                text: "shan".into(),
                tone: Some(Tone::First)
            },
            PinYinSyllable {
                text: "da".into(),
                tone: Some(Tone::Fourth)
            },
            PinYinSyllable {
                text: "·".into(),
                tone: None
            },
            PinYinSyllable {
                text: "Du".into(),
                tone: Some(Tone::Fourth)
            },
            PinYinSyllable {
                text: "bu".into(),
                tone: Some(Tone::Fourth)
            },
            PinYinSyllable {
                text: "qie".into(),
                tone: Some(Tone::First)
            },
            PinYinSyllable {
                text: "ke".into(),
                tone: Some(Tone::Fourth)
            }
        ]
    );
}

#[test]
fn test_chunking() {
    assert_eq!(
        generate_all_chunkings("共同话题"),
        vec![
            vec!["共同话", "题"],
            vec!["共同", "话题"],
            vec!["共同", "话", "题"],
            vec!["共", "同话题"],
            vec!["共", "同话", "题"],
            vec!["共", "同", "话题"],
            vec!["共", "同", "话", "题"]
        ]
    );
}

fn syl(text: &str, tone: Option<Tone>) -> PinYinSyllable {
    PinYinSyllable {
        text: text.into(),
        tone,
    }
}

fn tones_of(line: &str) -> Vec<Option<Tone>> {
    let word = CEDict::parse_line(line);
    word.pinyins[0].0 .0.iter().map(|s| s.tone).collect()
}

#[test]
fn parse_line_gives_one_reading_with_five_tones() {
    assert_eq!(
        tones_of("一氧化二氮 一氧化二氮 [yi1 yang3 hua4 er4 dan4] /nitrous oxide N2O/laughing gas/"),
        vec![
            Some(Tone::First),
            Some(Tone::Third),
            Some(Tone::Fourth),
            Some(Tone::Fourth),
            Some(Tone::Fourth)
        ]
    );
    let word = CEDict::parse_line(
        "一氧化二氮 一氧化二氮 [yi1 yang3 hua4 er4 dan4] /nitrous oxide N2O/laughing gas/",
    );
    assert_eq!(word.pinyins.len(), 1);
    assert_eq!(word.pinyins[0].1.len(), 2);
}

#[test]
fn interpunct_keeps_its_place() {
    let word = CEDict::parse_line("亞歷山大·杜布切克 亚历山大·杜布切克 [Ya4 li4 shan1 da4 · Du4 bu4 qie1 ke4] /Alexander Dubček/");
    let syllables = &word.pinyins[0].0 .0;
    assert_eq!(syllables.len(), 9);
    assert_eq!(syllables[4], syl("·", None));
    assert_eq!(syllables[3], syl("da", Some(Tone::Fourth)));
    assert_eq!(syllables[5], syl("Du", Some(Tone::Fourth)));
}

#[test]
fn u_colon_becomes_u_umlaut() {
    let word = CEDict::parse_line("女 女 [nu:3] /female/");
    assert_eq!(word.pinyins[0].0 .0, vec![syl("nü", Some(Tone::Third))]);
    let word = CEDict::parse_line("旅律 旅律 [lu:3 lu:4] /made up/");
    assert_eq!(
        word.pinyins[0].0 .0,
        vec![syl("lü", Some(Tone::Third)), syl("lü", Some(Tone::Fourth))]
    );
    assert_eq!(PinYinSyllable::from("u:u:5"), syl("üü", Some(Tone::Fifth)));
    assert_eq!(PinYinSyllable::from("uu:1"), syl("uü", Some(Tone::First)));
}

#[test]
fn syllable_from_text() {
    assert_eq!(PinYinSyllable::from("yang3"), syl("yang", Some(Tone::Third)));
    assert_eq!(PinYinSyllable::from("lu:4"), syl("lü", Some(Tone::Fourth)));
    assert_eq!(PinYinSyllable::from("·"), syl("·", None));
    assert_eq!(PinYinSyllable::from("5"), syl("", Some(Tone::Fifth)));
    assert_eq!(PinYinSyllable::from("abc"), syl("ab", None));
    assert_eq!(PinYinSyllable::from("yi1]"), syl("yi1", None));
    assert_eq!(PinYinSyllable::from("aé"), syl("a", None));
}

#[test]
fn syllable_check_refuses_digits_that_name_no_tone() {
    let chars = |s: &str| s.chars().collect::<Vec<char>>();
    assert!(is_syllable(&chars("yi1")));
    assert!(is_syllable(&chars("yi5")));
    assert!(is_syllable(&chars("·")));
    assert!(is_syllable(&chars("xx")));
    assert!(!is_syllable(&chars("yi0")));
    assert!(!is_syllable(&chars("yi6")));
    assert!(!is_syllable(&chars("yi7")));
    assert!(!is_syllable(&chars("yi8")));
    assert!(!is_syllable(&chars("yi9")));
    assert!(!is_syllable(&chars("")));
}

#[test]
fn tone_numbers() {
    assert_eq!(Tone::from(1), Tone::First);
    assert_eq!(Tone::from(2), Tone::Second);
    assert_eq!(Tone::from(3), Tone::Third);
    assert_eq!(Tone::from(4), Tone::Fourth);
    assert_eq!(Tone::from(5), Tone::Fifth);
    assert_eq!(usize::from(Tone::First), 1);
    assert_eq!(usize::from(Tone::Second), 2);
    assert_eq!(usize::from(Tone::Third), 3);
    assert_eq!(usize::from(Tone::Fourth), 4);
    assert_eq!(usize::from(Tone::Fifth), 5);
}

#[test]
fn line_errors() {
    assert_eq!(
        CEDict::try_parse_line("好 好 /good/").unwrap_err(),
        LineError::MissingBracket
    );
    assert_eq!(
        CEDict::try_parse_line("好 好 /good [hao3] /").unwrap_err(),
        LineError::MissingBracket
    );
    assert_eq!(CEDict::try_parse_line("").unwrap_err(), LineError::MissingBracket);
    assert_eq!(
        CEDict::try_parse_line("好 [hao3] /good/").unwrap_err(),
        LineError::MissingSimplified
    );
    assert_eq!(
        CEDict::try_parse_line("[hao3] /good/").unwrap_err(),
        LineError::MissingSimplified
    );
    assert_eq!(
        CEDict::try_parse_line("好 好 [hao6] /good/").unwrap_err(),
        LineError::InvalidTone
    );
    assert_eq!(
        CEDict::try_parse_line("好 好 [hao3 ma0] /good/").unwrap_err(),
        LineError::InvalidTone
    );
    assert_eq!(
        CEDict::try_parse_line("好 [hao6] /good/").unwrap_err(),
        LineError::MissingSimplified
    );
    assert!(CEDict::try_parse_line("好 好 [hao3] /good/").is_ok());
}

#[test]
fn line_without_glosses_or_closing() {
    let word = CEDict::parse_line("好 好 [hao3]");
    assert_eq!(word.simplified, "好");
    assert_eq!(word.pinyins[0].0 .0, vec![syl("hao3", None)]);
    assert!(word.pinyins[0].1.is_empty());
    let word = CEDict::parse_line("好 好 [hao3] ");
    assert_eq!(word.pinyins[0].0 .0, vec![syl("hao", Some(Tone::Third))]);
    assert!(word.pinyins[0].1.is_empty());
    let word = CEDict::parse_line("好 好 [hao3] ] ] //");
    assert_eq!(word.pinyins[0].0 .0, vec![syl("hao", Some(Tone::Third))]);
    assert!(word.pinyins[0].1.is_empty());
    let word = CEDict::parse_line("好 好 [] /x/");
    assert!(word.pinyins[0].0 .0.is_empty());
    assert_eq!(word.pinyins[0].1, vec!["x"]);
}

#[test]
fn third_written_form_is_ignored() {
    let word = CEDict::parse_line("甲  乙\t丙 [jia3] /x/");
    assert_eq!(word.simplified, "乙");
}

#[test]
fn glosses_are_unique_and_ascending() {
    let word = CEDict::parse_line("好 好 [hao3] /well/good//well/Good/fine/");
    assert_eq!(word.pinyins[0].1, vec!["Good", "fine", "good", "well"]);
}

#[test]
fn same_reading_merges_glosses() {
    let dict = CEDict::new("好 好 [hao3] /good/\n好 好 [hao3] /well/good/\n");
    assert_eq!(dict.words().len(), 1);
    let word = &dict.words()[0];
    assert_eq!(word.simplified, "好");
    assert_eq!(word.pinyins.len(), 1);
    assert_eq!(word.pinyins[0].0 .0, vec![syl("hao", Some(Tone::Third))]);
    assert_eq!(word.pinyins[0].1, vec!["good", "well"]);
}

#[test]
fn different_readings_stay_apart() {
    let dict = CEDict::new(
        "# a comment\n好 好 [hao3] /good/\n好 好 [hao4] /to be fond of/\n坏 坏 [huai4] /bad/\n好 好 [hao3] /well/",
    );
    assert_eq!(dict.words().len(), 2);
    let word = &dict.words()[0];
    assert_eq!(word.simplified, "好");
    assert_eq!(word.pinyins.len(), 2);
    assert_eq!(word.pinyins[0].0 .0, vec![syl("hao", Some(Tone::Third))]);
    assert_eq!(word.pinyins[0].1, vec!["good", "well"]);
    assert_eq!(word.pinyins[1].0 .0, vec![syl("hao", Some(Tone::Fourth))]);
    assert_eq!(word.pinyins[1].1, vec!["to be fond of"]);
    assert_eq!(dict.words()[1].simplified, "坏");
}

#[test]
fn written_forms_are_distinct() {
    let dict = CEDict::new("好 好 [hao3] /a/\n坏 坏 [huai4] /b/\n好 好 [hao4] /c/\n坏 坏 [huai4] /d/\n");
    let keys: Vec<&str> = dict.words().iter().map(|w| &w.simplified[..]).collect();
    assert_eq!(keys, vec!["好", "坏"]);
}

#[test]
fn carriage_returns_end_lines() {
    let dict = CEDict::new("好 好 [hao3] /good/\r\n坏 坏 [huai4] /bad/\r\n");
    assert_eq!(dict.words().len(), 2);
    assert_eq!(dict.words()[0].pinyins[0].1, vec!["good"]);
    assert_eq!(dict.words()[1].pinyins[0].1, vec!["bad"]);
}

#[test]
fn empty_source_gives_empty_dictionary() {
    assert_eq!(CEDict::new("").words().len(), 0);
    assert_eq!(CEDict::new("# only a comment").words().len(), 0);
    assert_eq!(CEDict::empty().words().len(), 0);
}

#[test]
fn source_errors_name_the_line() {
    match CEDict::parse("# c\n好 好 [hao3] /good/\nno bracket here\n坏 [huai4] /bad/\n") {
        Ok(_) => panic!("the third line is no entry"),
        Err(e) => assert_eq!(
            e,
            SourceError {
                line: 2,
                error: LineError::MissingBracket
            }
        ),
    }
    match CEDict::parse("好 好 [hao3] /good/\n\n") {
        Ok(_) => panic!("an empty line is no entry"),
        Err(e) => assert_eq!(
            e,
            SourceError {
                line: 1,
                error: LineError::MissingBracket
            }
        ),
    }
    match CEDict::parse("好 好 [hao7] /good/") {
        Ok(_) => panic!("7 names no tone"),
        Err(e) => assert_eq!(
            e,
            SourceError {
                line: 0,
                error: LineError::InvalidTone
            }
        ),
    }
    assert!(CEDict::parse("好 好 [hao3] /good/\n").is_ok());
}

fn keys(found: &[&Word]) -> Vec<String> {
    found.iter().map(|w| w.simplified.clone()).collect()
}

#[test]
fn direct_hit_gives_the_entry() {
    let dict = CEDict::new("共同 共同 [gong4 tong2] /common/\n共 共 [gong4] /together/\n同 同 [tong2] /same/\n");
    assert_eq!(keys(&dict.get("共同")), vec!["共同"]);
    assert_eq!(dict.get("共同")[0].pinyins[0].1, vec!["common"]);
    assert!(dict.lookup("共同").is_some());
    assert!(dict.lookup("共同话").is_none());
}

#[test]
fn chunking_resolves_to_known_pieces() {
    let dict = CEDict::new("共同 共同 [gong4 tong2] /common/\n話題 话题 [hua4 ti2] /topic/\n");
    assert_eq!(keys(&dict.get("共同话题")), vec!["共同", "话题"]);
    assert_eq!(keys(&dict.resolve("共同话题").unwrap()), vec!["共同", "话题"]);
}

#[test]
fn coarsest_chunking_wins() {
    let dict = CEDict::new(
        "共 共 [gong4] /a/\n同 同 [tong2] /b/\n话 话 [hua4] /c/\n题 题 [ti2] /d/\n共同 共同 [gong4 tong2] /e/\n话题 话题 [hua4 ti2] /f/\n",
    );
    assert_eq!(keys(&dict.get("共同话题")), vec!["共同", "话题"]);
    assert_eq!(keys(&dict.get("同话题")), vec!["同", "话题"]);
    assert_eq!(keys(&dict.get("题共")), vec!["题", "共"]);
    let dict = CEDict::new(
        "共 共 [gong4] /a/\n同 同 [tong2] /b/\n话 话 [hua4] /c/\n题 题 [ti2] /d/\n同话题 同话题 [tong2 hua4 ti2] /g/\n共同 共同 [gong4 tong2] /e/\n话题 话题 [hua4 ti2] /f/\n",
    );
    assert_eq!(keys(&dict.get("共同话题")), vec!["共同", "话题"]);
    let dict = CEDict::new(
        "共 共 [gong4] /a/\n同 同 [tong2] /b/\n话 话 [hua4] /c/\n题 题 [ti2] /d/\n共同话 共同话 [gong4 tong2 hua4] /g/\n共同 共同 [gong4 tong2] /e/\n话题 话题 [hua4 ti2] /f/\n",
    );
    assert_eq!(keys(&dict.get("共同话题")), vec!["共同话", "题"]);
    let dict = CEDict::new("共 共 [gong4] /a/\n同 同 [tong2] /b/\n话 话 [hua4] /c/\n题 题 [ti2] /d/\n");
    assert_eq!(keys(&dict.get("共同话题")), vec!["共", "同", "话", "题"]);
}

#[test]
fn unresolvable_token_gives_nothing() {
    let dict = CEDict::new("共同 共同 [gong4 tong2] /common/\n话 话 [hua4] /speech/\n");
    assert!(dict.resolve("共同话题").is_none());
    assert!(dict.resolve("题").is_none());
    assert!(dict.resolve("").is_none());
    assert!(CEDict::empty().resolve("好").is_none());
}

#[test]
fn chunkings_of_short_words() {
    assert_eq!(
        generate_all_chunkings("abc"),
        vec![vec!["ab", "c"], vec!["a", "bc"], vec!["a", "b", "c"]]
    );
    assert_eq!(generate_all_chunkings("ab"), vec![vec!["a", "b"]]);
    assert_eq!(generate_all_chunkings("a"), Vec::<Vec<String>>::new());
    assert_eq!(generate_all_chunkings(""), Vec::<Vec<String>>::new());
}

#[test]
fn chunkings_are_all_cuts_but_the_whole() {
    let word = "abcdef";
    let all = generate_all_chunkings(word);
    assert_eq!(all.len(), 31);
    for chunking in &all {
        assert!(chunking.len() >= 2);
        assert!(chunking.iter().all(|piece| !piece.is_empty()));
        assert_eq!(chunking.concat(), word);
    }
    for i in 0..all.len() {
        for j in (i + 1)..all.len() {
            assert_ne!(all[i], all[j]);
        }
    }
    assert_eq!(all[0], vec!["abcde", "f"]);
    assert_eq!(all[30], vec!["a", "b", "c", "d", "e", "f"]);
}

#[test]
fn subdivisions_keep_the_head() {
    let mut head = vec!["x".to_string()];
    let mut out = vec![vec!["kept".to_string()]];
    iterate_all_subdivisions(&mut head, &vec!['a', 'b'], &mut out);
    assert_eq!(head, vec!["x"]);
    assert_eq!(
        out,
        vec![vec!["kept"], vec!["x", "ab"], vec!["x", "a", "b"]]
    );
    let mut out = Vec::new();
    iterate_all_subdivisions(&mut head, &vec![], &mut out);
    assert_eq!(out, vec![vec!["x"]]);
}

#[test]
fn colourise_wraps_in_a_span() {
    assert_eq!(colourise("hǎo", Some(Tone::Third)), "<span class=\"tone3\">hǎo</span>");
    assert_eq!(colourise("ma", Some(Tone::Fifth)), "<span class=\"tone5\">ma</span>");
    assert_eq!(colourise("x", Some(Tone::First)), "<span class=\"tone1\">x</span>");
    assert_eq!(colourise("x", Some(Tone::Second)), "<span class=\"tone2\">x</span>");
    assert_eq!(colourise("x", Some(Tone::Fourth)), "<span class=\"tone4\">x</span>");
    assert_eq!(colourise("·", None), "·");
    assert_eq!(colourise("", None), "");
}

#[test]
fn reading_is_shown_syllable_by_syllable() {
    let word = CEDict::parse_line("你好嗎 你好吗 [ni3 hao3 ma5] /how are you/");
    assert!(word.pinyins[0].0.markable());
    assert_eq!(
        word.pinyins[0].0.colourise(),
        "<span class=\"tone3\">nǐ</span><span class=\"tone3\">hǎo</span><span class=\"tone5\">ma</span>"
    );
    let name = CEDict::parse_line("亞·杜 亚·杜 [Ya4 · Du4] /a name/");
    assert_eq!(
        name.pinyins[0].0.colourise(),
        "<span class=\"tone4\">Yà</span>·<span class=\"tone4\">Dù</span>"
    );
    let odd = CEDict::parse_line("呣 呣 [m2] /interjection/");
    assert!(!odd.pinyins[0].0.markable());
}

#[test]
fn words_grow_by_readings() {
    let mut word = Word::new("好".to_string());
    assert!(word.pinyins.is_empty());
    let hao3 = || PinYin(vec![syl("hao", Some(Tone::Third))]);
    let hao4 = || PinYin(vec![syl("hao", Some(Tone::Fourth))]);
    word.add_reading(hao3(), &vec!["well".to_string(), "good".to_string()]);
    word.add_reading(hao4(), &vec!["to like".to_string()]);
    word.add_reading(hao3(), &vec!["fine".to_string(), "good".to_string()]);
    assert_eq!(word.pinyins.len(), 2);
    assert!(word.pinyins[0].0.same(&hao3()));
    assert!(!word.pinyins[0].0.same(&hao4()));
    assert_eq!(word.pinyins[0].1, vec!["fine", "good", "well"]);
    assert_eq!(word.pinyins[1].1, vec!["to like"]);
    let copy = word.clone();
    assert_eq!(copy, word);
    let mut other = Word::new("好".to_string());
    other.add_reading(hao4(), &vec!["to be fond of".to_string()]);
    other.merge(&word);
    assert_eq!(other.pinyins.len(), 2);
    assert!(other.pinyins[0].0.same(&hao4()));
    assert_eq!(other.pinyins[0].1, vec!["to be fond of", "to like"]);
    assert_eq!(other.pinyins[1].1, vec!["fine", "good", "well"]);
}

#[test]
fn store_takes_words_in() {
    let mut dict = CEDict::empty();
    dict.insert(CEDict::parse_line("好 好 [hao3] /good/"));
    dict.insert(CEDict::parse_line("坏 坏 [huai4] /bad/"));
    dict.insert(CEDict::parse_line("好 好 [hao4] /to like/"));
    assert_eq!(dict.words().len(), 2);
    let found: &Word = dict.lookup("好").unwrap();
    assert_eq!(found.pinyins.len(), 2);
    assert_eq!(keys(&dict.get("坏好")), vec!["坏", "好"]);
}
