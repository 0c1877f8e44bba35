use voice_assistant::text::{digits_speakable, filter_think, normalize_digits, number_to_words_ru};

#[test]
fn digits_to_words() {
    assert_eq!(normalize_digits("мне 3 года"), "мне три года");
    assert_eq!(normalize_digits("123"), "сто двадцать три");
    assert_eq!(normalize_digits("42"), "сорок два");
    assert_eq!(normalize_digits("0"), "ноль");
    assert_eq!(normalize_digits("2024 год"), "две тысячи двадцать четыре год");
    assert_eq!(normalize_digits("1000"), "одна тысяча");
    assert_eq!(normalize_digits("2000"), "две тысячи");
    assert_eq!(normalize_digits("1000000"), "один миллион");
    assert_eq!(normalize_digits("текст без цифр"), "текст без цифр");
}

#[test]
fn think_blocks_stripped() {
    let mut in_think = false;
    assert_eq!(filter_think("<think>hmm</think>answer", &mut in_think), "answer");
    assert!(!in_think);
}

#[test]
fn number_words_teens_and_tens() {
    assert_eq!(number_to_words_ru(11), "одиннадцать");
    assert_eq!(number_to_words_ru(19), "девятнадцать");
    assert_eq!(number_to_words_ru(20), "двадцать");
    assert_eq!(number_to_words_ru(21), "двадцать один");
    assert_eq!(number_to_words_ru(101), "сто один");
    assert_eq!(number_to_words_ru(110), "сто десять");
    assert_eq!(number_to_words_ru(999), "девятьсот девяносто девять");
}

#[test]
fn number_words_thousands_agree_in_gender_and_number() {
    assert_eq!(number_to_words_ru(1001), "одна тысяча один");
    assert_eq!(number_to_words_ru(2002), "две тысячи два");
    assert_eq!(number_to_words_ru(5000), "пять тысяч");
    assert_eq!(number_to_words_ru(11000), "одиннадцать тысяч");
    assert_eq!(number_to_words_ru(12000), "двенадцать тысяч");
    assert_eq!(number_to_words_ru(21000), "двадцать одна тысяча");
    assert_eq!(number_to_words_ru(22000), "двадцать две тысячи");
    assert_eq!(number_to_words_ru(111000), "сто одиннадцать тысяч");
}

#[test]
fn number_words_millions_and_billions() {
    assert_eq!(number_to_words_ru(2_000_000), "два миллиона");
    assert_eq!(number_to_words_ru(5_000_000), "пять миллионов");
    assert_eq!(number_to_words_ru(1_000_000_000), "один миллиард");
    assert_eq!(number_to_words_ru(3_000_000_001), "три миллиарда один");
    assert_eq!(
        number_to_words_ru(999_999_999_999),
        "девятьсот девяносто девять миллиардов девятьсот девяносто девять миллионов \
         девятьсот девяносто девять тысяч девятьсот девяносто девять"
    );
}

#[test]
fn leading_zeros_read_as_the_number() {
    assert_eq!(normalize_digits("007"), "семь");
    assert_eq!(normalize_digits("a1b22"), "aодинbдвадцать два");
}

#[test]
fn run_too_long_for_u64_is_kept() {
    let long = "123456789012345678901234567890";
    assert!(digits_speakable(long));
    assert_eq!(normalize_digits(long), long);
}

#[test]
fn numbers_beyond_billions_are_not_speakable() {
    assert!(!digits_speakable("1000000000000"));
    assert!(digits_speakable("999999999999"));
    assert!(digits_speakable("нет цифр"));
}

#[test]
fn normalized_text_has_no_digits() {
    let out = normalize_digits("в 2024 году 12 месяцев и 365 дней");
    assert!(!out.chars().any(|c| c.is_ascii_digit()));
    assert_eq!(out, "в две тысячи двадцать четыре году двенадцать месяцев и триста шестьдесят пять дней");
}

#[test]
fn think_block_spanning_chunks() {
    let mut in_think = false;
    assert_eq!(filter_think("before<think>rea", &mut in_think), "before");
    assert!(in_think);
    assert_eq!(filter_think("soning", &mut in_think), "");
    assert!(in_think);
    assert_eq!(filter_think("</think>after", &mut in_think), "after");
    assert!(!in_think);
}

#[test]
fn split_filtering_matches_whole() {
    let whole = "a<think>x</think>b<think>y</think>c";
    let mut st = false;
    let expected = filter_think(whole, &mut st);
    assert_eq!(expected, "abc");
    // cut between the blocks' tags: the pieces give the same text and state
    let mut st2 = false;
    let mut got = filter_think("a<think>x", &mut st2);
    got.push_str(&filter_think("</think>b<think>y</think>c", &mut st2));
    assert_eq!(got, expected);
    assert_eq!(st, st2);
}

#[test]
fn text_without_tags_passes_through() {
    let mut in_think = false;
    assert_eq!(filter_think("просто ответ", &mut in_think), "просто ответ");
    assert!(!in_think);
    assert_eq!(filter_think("", &mut in_think), "");
}

#[test]
fn unclosed_block_drops_rest() {
    let mut in_think = false;
    assert_eq!(filter_think("x<think>y", &mut in_think), "x");
    assert!(in_think);
    let mut in_think = true;
    assert_eq!(filter_think("still thinking", &mut in_think), "");
    assert!(in_think);
}
