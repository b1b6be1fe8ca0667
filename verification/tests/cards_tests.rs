use hsk::Hsk;
use zw_to_anki::cards::{choose_cards, passes_filter, tokens_of, words_for_cards};
use zw_to_anki::dict::{CEDict, Word};

const SOURCE: &str = "飛機 飞机 [fei1 ji1] /airplane/\n成為 成为 [cheng2 wei2] /to become/\n你好 你好 [ni3 hao3] /hello/\n我 我 [wo3] /I/\n";

fn keys(found: &[&Word]) -> Vec<String> {
    found.iter().map(|w| w.simplified.clone()).collect()
}

fn tokens(list: &[&str]) -> Vec<String> {
    list.iter().map(|t| t.to_string()).collect()
}

#[test]
fn filter_lets_higher_and_unknown_levels_pass() {
    assert!(passes_filter(0, None));
    assert!(passes_filter(1, None));
    assert!(passes_filter(6, None));
    assert!(passes_filter(0, Some(3)));
    assert!(passes_filter(0, Some(0)));
    assert!(passes_filter(4, Some(3)));
    assert!(!passes_filter(3, Some(3)));
    assert!(!passes_filter(1, Some(3)));
    assert!(passes_filter(1, Some(0)));
    assert!(!passes_filter(6, Some(6)));
    assert!(!passes_filter(255, Some(255)));
}

#[test]
fn entries_are_chosen_once_and_by_level() {
    let dict = CEDict::new(SOURCE);
    let words = dict.words();
    let found = vec![&words[0], &words[1], &words[0], &words[2], &words[3]];
    let mut selection: Vec<&Word> = Vec::new();
    choose_cards(&mut selection, &found, &vec![1, 4, 1, 0, 2], None);
    assert_eq!(keys(&selection), vec!["飞机", "成为", "你好", "我"]);
    let mut selection: Vec<&Word> = Vec::new();
    choose_cards(&mut selection, &found, &vec![1, 4, 1, 0, 2], Some(2));
    assert_eq!(keys(&selection), vec!["成为", "你好"]);
    let mut selection: Vec<&Word> = vec![&words[3]];
    choose_cards(&mut selection, &found, &vec![5, 5, 5, 5, 5], Some(4));
    assert_eq!(keys(&selection), vec!["我", "飞机", "成为", "你好"]);
    let mut selection: Vec<&Word> = vec![&words[3]];
    choose_cards(&mut selection, &found, &vec![5, 5, 1, 5, 5], Some(5));
    assert_eq!(keys(&selection), vec!["我"]);
    choose_cards(&mut selection, &Vec::new(), &Vec::new(), None);
    assert_eq!(keys(&selection), vec!["我"]);
}

#[test]
fn words_of_a_low_level_get_no_card() {
    let dict = CEDict::new(SOURCE);
    let list = Hsk::new();
    let text = tokens(&["飞机", "abc", "成为", "，", "你好", "飞机"]);
    let all = words_for_cards(&dict, &list, &text, None).unwrap();
    assert_eq!(keys(&all), vec!["飞机", "成为", "你好"]);
    let above_one = words_for_cards(&dict, &list, &text, Some(1)).unwrap();
    assert_eq!(keys(&above_one), vec!["成为", "你好"]);
    let above_four = words_for_cards(&dict, &list, &text, Some(4)).unwrap();
    assert_eq!(keys(&above_four), vec!["你好"]);
    let above_three = words_for_cards(&dict, &list, &text, Some(3)).unwrap();
    assert_eq!(keys(&above_three), vec!["成为", "你好"]);
}

#[test]
fn tokens_are_cut_where_they_are_unknown() {
    let dict = CEDict::new(SOURCE);
    let list = Hsk::new();
    let found = words_for_cards(&dict, &list, &tokens(&["我你好", "你好我"]), None).unwrap();
    assert_eq!(keys(&found), vec!["我", "你好"]);
}

#[test]
fn other_scripts_are_passed_over() {
    let dict = CEDict::new(SOURCE);
    let list = Hsk::new();
    let found = words_for_cards(&dict, &list, &tokens(&["hello", "龘", " ", "1984", "歷"]), None).unwrap();
    assert!(found.is_empty());
    let found = words_for_cards(&dict, &list, &Vec::new(), Some(2)).unwrap();
    assert!(found.is_empty());
}

#[test]
fn unknown_chinese_token_is_named() {
    let dict = CEDict::new(SOURCE);
    let list = Hsk::new();
    let text = tokens(&["我", "abc", "话", "题"]);
    assert_eq!(words_for_cards(&dict, &list, &text, None).unwrap_err(), 2);
    let text = tokens(&["我们"]);
    assert_eq!(words_for_cards(&dict, &list, &text, Some(6)).unwrap_err(), 0);
}

#[test]
fn text_is_cut_into_tokens() {
    let dict = CEDict::new(SOURCE);
    let cut = tokens_of(&dict, "我们中出了一个叛徒");
    assert_eq!(cut.concat(), "我们中出了一个叛徒");
    assert!(cut.len() > 1);
    assert!(cut.iter().all(|t| !t.is_empty()));
    assert!(tokens_of(&dict, "").is_empty());
}

fn gives_the_text_back(text: &str) {
    for dict in [CEDict::new(SOURCE), CEDict::empty()] {
        let cut = tokens_of(&dict, text);
        assert_eq!(cut.concat(), text);
        assert!(cut.iter().all(|t| !t.is_empty()));
    }
}

#[test]
fn tokens_give_the_text_back_chinese() {
    gives_the_text_back("我们中出了一个叛徒");
}

#[test]
fn tokens_give_the_text_back_mixed_scripts() {
    gives_the_text_back("你好，世界！ Hello, world 123 abc");
}

#[test]
fn tokens_give_the_text_back_blanks_around() {
    gives_the_text_back("  leading and trailing  ");
}

#[test]
fn tokens_give_the_text_back_line_ends() {
    gives_the_text_back("a\r\nb\n\nc\td\u{3000}e");
}

#[test]
fn tokens_give_the_text_back_known_words() {
    gives_the_text_back("飞机成为你好我飞机");
}

#[test]
fn tokens_give_the_text_back_signs() {
    gives_the_text_back("C++ & Rust_2021 100% e-mail foo.bar #tag");
}

#[test]
fn tokens_give_the_text_back_rare_characters() {
    gives_the_text_back("𠀀𠀁 emoji 😀 ok");
}

#[test]
fn tokens_give_the_text_back_punctuation() {
    gives_the_text_back("。。。 x \r\n");
}

#[test]
fn tokens_give_the_text_back_other_languages() {
    gives_the_text_back("繁體字與简体字混合のテキスト한글");
}

#[test]
fn dictionary_words_are_known_to_the_segmenter() {
    let plain = CEDict::empty();
    let taught = CEDict::new("龘龘龘 石墨烯 [shi2 mo4 xi1] /graphene/\n");
    let text = "他研究石墨烯";
    assert!(tokens_of(&taught, text).contains(&"石墨烯".to_string()));
    assert_eq!(tokens_of(&plain, text).concat(), text);
}
