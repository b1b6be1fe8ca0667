use zw_to_anki::tts::{fragment_encode, push_decimal, request_url};

#[test]
fn address_names_text_and_length() {
    assert_eq!(
        request_url("你好"),
        "https://translate.google.com/translate_tts?ie=UTF-8&q=%E4%BD%A0%E5%A5%BD&tl=zh-CN&total=1&idx=0&textlen=6&tl=zh-CN&client=tw-ob"
    );
    assert_eq!(
        request_url(""),
        "https://translate.google.com/translate_tts?ie=UTF-8&q=&tl=zh-CN&total=1&idx=0&textlen=0&tl=zh-CN&client=tw-ob"
    );
    assert_eq!(
        request_url("a b&c=d?e#f"),
        "https://translate.google.com/translate_tts?ie=UTF-8&q=a%20b&c=d?e#f&tl=zh-CN&total=1&idx=0&textlen=11&tl=zh-CN&client=tw-ob"
    );
}

#[test]
fn fragment_escapes() {
    assert_eq!(fragment_encode("abcXYZ019-_.~!*'();:@&=+$,/?#[]%"), "abcXYZ019-_.~!*'();:@&=+$,/?#[]%");
    assert_eq!(fragment_encode(" \"<>`"), "%20%22%3C%3E%60");
    assert_eq!(fragment_encode("\u{0}\t\n\r\u{1f}\u{7f}"), "%00%09%0A%0D%1F%7F");
    assert_eq!(fragment_encode("é"), "%C3%A9");
    assert_eq!(fragment_encode("·"), "%C2%B7");
    assert_eq!(fragment_encode("𠀀"), "%F0%A0%80%80");
    assert_eq!(fragment_encode("{|}^\\"), "{|}^\\");
}

#[test]
fn numbers_in_decimal() {
    let decimal = |n: usize| -> String {
        let mut out = String::from("n=");
        push_decimal(&mut out, n);
        out
    };
    assert_eq!(decimal(0), "n=0");
    assert_eq!(decimal(7), "n=7");
    assert_eq!(decimal(10), "n=10");
    assert_eq!(decimal(1234567890), "n=1234567890");
    assert_eq!(decimal(usize::MAX), format!("n={}", usize::MAX));
}
