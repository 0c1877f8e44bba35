//! Text normalization for speech synthesis: digit runs become Russian words,
//! and reasoning blocks delimited by `<think>`/`</think>` are removed.
use vstd::prelude::*;
use crate::strings::{chars_of, push_char};

verus! {

broadcast use vstd::string::group_string_axioms;

/// An ASCII decimal digit `0`..=`9`.
pub open spec fn is_ascii_digit(c: char) -> bool {
    '0' <= c && c <= '9'
}

/// The numeric value of a digit character.
pub open spec fn digit_value(c: char) -> int {
    (c as int) - ('0' as int)
}

/// The value of a sequence of digits read as a decimal numeral (leading zeros allowed).
pub open spec fn decimal_value(s: Seq<char>) -> int
    decreases s.len(),
{
    if s.len() == 0 {
        0
    } else {
        decimal_value(s.drop_last()) * 10 + digit_value(s.last())
    }
}

/// The length of the run of ASCII digits at the start of `s`.
pub open spec fn digit_run_len(s: Seq<char>) -> nat
    decreases s.len(),
{
    if s.len() > 0 && is_ascii_digit(s[0]) {
        1 + digit_run_len(s.drop_first())
    } else {
        0
    }
}

pub proof fn lemma_digit_run_len_bounds(s: Seq<char>)
    ensures
        digit_run_len(s) <= s.len(),
        forall|m: int| 0 <= m < digit_run_len(s) ==> is_ascii_digit(#[trigger] s[m]),
        digit_run_len(s) < s.len() ==> !is_ascii_digit(s[digit_run_len(s) as int]),
    decreases s.len(),
{
    if s.len() > 0 && is_ascii_digit(s[0]) {
        lemma_digit_run_len_bounds(s.drop_first());
        assert forall|m: int| 0 <= m < digit_run_len(s) implies is_ascii_digit(#[trigger] s[m]) by {
            if m > 0 {
                assert(s[m] == s.drop_first()[m - 1]);
            }
        }
    }
}

/// A run of exactly `k` digits stands at the start of `s`.
proof fn lemma_digit_run_len_exact(s: Seq<char>, k: int)
    requires
        0 <= k <= s.len(),
        forall|m: int| 0 <= m < k ==> is_ascii_digit(#[trigger] s[m]),
        k == s.len() || !is_ascii_digit(s[k]),
    ensures
        digit_run_len(s) == k,
    decreases k,
{
    if k > 0 {
        assert(is_ascii_digit(s[0]));
        let t = s.drop_first();
        assert forall|m: int| 0 <= m < k - 1 implies is_ascii_digit(#[trigger] t[m]) by {
            assert(t[m] == s[m + 1]);
        }
        if k < s.len() {
            assert(t[k - 1] == s[k]);
        }
        lemma_digit_run_len_exact(t, k - 1);
    }
}

/// Largest number whose words the speller can produce (groups up to "миллиард").
pub open spec fn words_limit() -> int {
    1_000_000_000_000
}

pub open spec fn unit_word(u: nat) -> Seq<char> {
    if u == 1 { "один"@ }
    else if u == 2 { "два"@ }
    else if u == 3 { "три"@ }
    else if u == 4 { "четыре"@ }
    else if u == 5 { "пять"@ }
    else if u == 6 { "шесть"@ }
    else if u == 7 { "семь"@ }
    else if u == 8 { "восемь"@ }
    else if u == 9 { "девять"@ }
    else if u == 10 { "десять"@ }
    else if u == 11 { "одиннадцать"@ }
    else if u == 12 { "двенадцать"@ }
    else if u == 13 { "тринадцать"@ }
    else if u == 14 { "четырнадцать"@ }
    else if u == 15 { "пятнадцать"@ }
    else if u == 16 { "шестнадцать"@ }
    else if u == 17 { "семнадцать"@ }
    else if u == 18 { "восемнадцать"@ }
    else { "девятнадцать"@ }
}

pub open spec fn tens_word(t: nat) -> Seq<char> {
    if t == 2 { "двадцать"@ }
    else if t == 3 { "тридцать"@ }
    else if t == 4 { "сорок"@ }
    else if t == 5 { "пятьдесят"@ }
    else if t == 6 { "шестьдесят"@ }
    else if t == 7 { "семьдесят"@ }
    else if t == 8 { "восемьдесят"@ }
    else { "девяносто"@ }
}

pub open spec fn hundreds_word(h: nat) -> Seq<char> {
    if h == 1 { "сто"@ }
    else if h == 2 { "двести"@ }
    else if h == 3 { "триста"@ }
    else if h == 4 { "четыреста"@ }
    else if h == 5 { "пятьсот"@ }
    else if h == 6 { "шестьсот"@ }
    else if h == 7 { "семьсот"@ }
    else if h == 8 { "восемьсот"@ }
    else { "девятьсот"@ }
}

/// Word for 1..=19; the feminine forms "одна"/"две" are used for thousands.
pub open spec fn small_word(r: nat, fem: bool) -> Seq<char> {
    if fem && r == 1 {
        "одна"@
    } else if fem && r == 2 {
        "две"@
    } else {
        unit_word(r)
    }
}

/// The words naming `n % 1000`-sized groups: hundreds, tens and units, in order.
pub open spec fn under_1000_words(n: nat, fem: bool) -> Seq<Seq<char>> {
    let h = n / 100;
    let rem = n % 100;
    let t = rem / 10;
    let u = rem % 10;
    let hs = if h > 0 { seq![hundreds_word(h)] } else { Seq::<Seq<char>>::empty() };
    let rs = if rem >= 20 {
        (if t > 0 { seq![tens_word(t)] } else { Seq::<Seq<char>>::empty() })
            + (if u > 0 { seq![small_word(u, fem)] } else { Seq::<Seq<char>>::empty() })
    } else if rem > 0 {
        seq![small_word(rem, fem)]
    } else {
        Seq::<Seq<char>>::empty()
    };
    hs + rs
}

/// Russian plural agreement: "one" after 1 (not 11), "few" after 2..4 (not 12..14), else "many".
pub open spec fn plural_form(n: nat, one: Seq<char>, few: Seq<char>, many: Seq<char>) -> Seq<char> {
    let r10 = n % 10;
    let r100 = n % 100;
    if r10 == 1 && r100 != 11 {
        one
    } else if 2 <= r10 <= 4 && !(12 <= r100 <= 14) {
        few
    } else {
        many
    }
}

/// The words of one scale group ("две тысячи"), empty when the group is zero.
pub open spec fn scale_words(
    group: nat,
    fem: bool,
    one: Seq<char>,
    few: Seq<char>,
    many: Seq<char>,
) -> Seq<Seq<char>> {
    if group > 0 {
        under_1000_words(group, fem).push(plural_form(group, one, few, many))
    } else {
        Seq::<Seq<char>>::empty()
    }
}

/// All words naming a positive number, from the largest group down.
pub open spec fn number_word_list(n: nat) -> Seq<Seq<char>> {
    scale_words(n / 1_000_000_000, false, "миллиард"@, "миллиарда"@, "миллиардов"@)
        + scale_words((n / 1_000_000) % 1000, false, "миллион"@, "миллиона"@, "миллионов"@)
        + scale_words((n / 1000) % 1000, true, "тысяча"@, "тысячи"@, "тысяч"@)
        + under_1000_words(n % 1000, false)
}

/// Words joined by single spaces.
pub open spec fn join_words(ws: Seq<Seq<char>>) -> Seq<char>
    decreases ws.len(),
{
    if ws.len() == 0 {
        Seq::<char>::empty()
    } else if ws.len() == 1 {
        ws[0]
    } else {
        join_words(ws.drop_last()) + seq![' '] + ws.last()
    }
}

/// A number spelled in Russian words (nominative case).
#[verifier::opaque]
pub open spec fn number_words(n: nat) -> Seq<char> {
    if n == 0 {
        "ноль"@
    } else {
        join_words(number_word_list(n))
    }
}

/// `s` with every maximal run of ASCII digits whose value fits a `u64` replaced by
/// its words; longer runs are kept as they are.
pub open spec fn spec_normalize(s: Seq<char>) -> Seq<char>
    decreases s.len(),
{
    if s.len() == 0 {
        Seq::<char>::empty()
    } else if !is_ascii_digit(s[0]) {
        seq![s[0]] + spec_normalize(s.drop_first())
    } else {
        let k = digit_run_len(s);
        proof {
            lemma_digit_run_len_bounds(s);
        }
        let run = s.take(k as int);
        let v = decimal_value(run);
        (if v <= u64::MAX { number_words(v as nat) } else { run }) + spec_normalize(
            s.skip(k as int),
        )
    }
}

/// Every digit run of `s` that fits a `u64` is below the speller's limit.
pub open spec fn numbers_speakable(s: Seq<char>) -> bool
    decreases s.len(),
{
    if s.len() == 0 {
        true
    } else if !is_ascii_digit(s[0]) {
        numbers_speakable(s.drop_first())
    } else {
        let k = digit_run_len(s);
        proof {
            lemma_digit_run_len_bounds(s);
        }
        let v = decimal_value(s.take(k as int));
        (v > u64::MAX || v < words_limit()) && numbers_speakable(s.skip(k as int))
    }
}

fn is_digit(c: char) -> (b: bool)
    ensures
        b == is_ascii_digit(c),
{
    '0' <= c && c <= '9'
}

fn digit_of(c: char) -> (d: u64)
    requires
        is_ascii_digit(c),
    ensures
        d == digit_value(c),
        d < 10,
{
    (c as u32 - '0' as u32) as u64
}


/// The value of a digit sequence, when it fits a `u64`.
pub open spec fn decimal_fit(s: Seq<char>) -> Option<u64> {
    if decimal_value(s) <= u64::MAX {
        Some(decimal_value(s) as u64)
    } else {
        None
    }
}

proof fn lemma_decimal_nonneg(s: Seq<char>)
    requires
        forall|m: int| 0 <= m < s.len() ==> is_ascii_digit(#[trigger] s[m]),
    ensures
        decimal_value(s) >= 0,
    decreases s.len(),
{
    if s.len() > 0 {
        lemma_decimal_nonneg(s.drop_last());
    }
}

/// Scans the maximal digit run starting at `i` (where `chars[i]` is a digit):
/// returns its end and its value when that fits a `u64`.
fn scan_digit_run(chars: &Vec<char>, i: usize) -> (res: (usize, Option<u64>))
    requires
        i < chars.len(),
        is_ascii_digit(chars@[i as int]),
    ensures
        res.0 == i + digit_run_len(chars@.skip(i as int)),
        i < res.0 <= chars.len(),
        res.1 == decimal_fit(chars@.subrange(i as int, res.0 as int)),
        decimal_value(chars@.subrange(i as int, res.0 as int)) >= 0,
{
    let mut j = i;
    let mut value: Option<u64> = Some(0);
    proof {
        assert(chars@.subrange(i as int, i as int) =~= Seq::<char>::empty());
    }
    while j < chars.len() && is_digit(chars[j])
        invariant
            i <= j <= chars.len(),
            forall|m: int| i <= m < j ==> is_ascii_digit(#[trigger] chars@[m]),
            value == decimal_fit(chars@.subrange(i as int, j as int)),
        decreases chars.len() - j,
    {
        let d = digit_of(chars[j]);
        let ghost run = chars@.subrange(i as int, j as int);
        let ghost next = chars@.subrange(i as int, j + 1);
        proof {
            assert(next.drop_last() =~= run);
            assert(next.last() == chars@[j as int]);
            assert(decimal_value(next) == decimal_value(run) * 10 + d);
            assert forall|m: int| 0 <= m < run.len() implies is_ascii_digit(#[trigger] run[m]) by {
                assert(run[m] == chars@[i + m]);
            }
            lemma_decimal_nonneg(run);
        }
        value = match value {
            Some(v) => match v.checked_mul(10) {
                Some(m) => m.checked_add(d),
                None => None,
            },
            None => None,
        };
        j = j + 1;
    }
    proof {
        let s = chars@.skip(i as int);
        assert forall|m: int| 0 <= m < j - i implies is_ascii_digit(#[trigger] s[m]) by {
            assert(s[m] == chars@[i + m]);
        }
        if j < chars.len() {
            assert(s[j - i] == chars@[j as int]);
        }
        lemma_digit_run_len_exact(s, j - i);
        let run = chars@.subrange(i as int, j as int);
        assert forall|m: int| 0 <= m < run.len() implies is_ascii_digit(#[trigger] run[m]) by {
            assert(run[m] == chars@[i + m]);
        }
        lemma_decimal_nonneg(run);
    }
    (j, value)
}


fn unit_word_of(u: u64) -> (w: &'static str)
    requires
        1 <= u <= 19,
    ensures
        w@ == unit_word(u as nat),
{
    if u == 1 { "один" }
    else if u == 2 { "два" }
    else if u == 3 { "три" }
    else if u == 4 { "четыре" }
    else if u == 5 { "пять" }
    else if u == 6 { "шесть" }
    else if u == 7 { "семь" }
    else if u == 8 { "восемь" }
    else if u == 9 { "девять" }
    else if u == 10 { "десять" }
    else if u == 11 { "одиннадцать" }
    else if u == 12 { "двенадцать" }
    else if u == 13 { "тринадцать" }
    else if u == 14 { "четырнадцать" }
    else if u == 15 { "пятнадцать" }
    else if u == 16 { "шестнадцать" }
    else if u == 17 { "семнадцать" }
    else if u == 18 { "восемнадцать" }
    else { "девятнадцать" }
}

fn tens_word_of(t: u64) -> (w: &'static str)
    requires
        2 <= t <= 9,
    ensures
        w@ == tens_word(t as nat),
{
    if t == 2 { "двадцать" }
    else if t == 3 { "тридцать" }
    else if t == 4 { "сорок" }
    else if t == 5 { "пятьдесят" }
    else if t == 6 { "шестьдесят" }
    else if t == 7 { "семьдесят" }
    else if t == 8 { "восемьдесят" }
    else { "девяносто" }
}

fn hundreds_word_of(h: u64) -> (w: &'static str)
    requires
        1 <= h <= 9,
    ensures
        w@ == hundreds_word(h as nat),
{
    if h == 1 { "сто" }
    else if h == 2 { "двести" }
    else if h == 3 { "триста" }
    else if h == 4 { "четыреста" }
    else if h == 5 { "пятьсот" }
    else if h == 6 { "шестьсот" }
    else if h == 7 { "семьсот" }
    else if h == 8 { "восемьсот" }
    else { "девятьсот" }
}

fn small_word_of(r: u64, fem: bool) -> (w: &'static str)
    requires
        1 <= r <= 19,
    ensures
        w@ == small_word(r as nat, fem),
{
    if fem && r == 1 {
        "одна"
    } else if fem && r == 2 {
        "две"
    } else {
        unit_word_of(r)
    }
}

/// The views of a list of words.
pub open spec fn word_views(ws: Seq<&str>) -> Seq<Seq<char>> {
    ws.map_values(|w: &str| w@)
}

proof fn lemma_word_views_push(ws: Seq<&str>, w: &str)
    ensures
        word_views(ws.push(w)) == word_views(ws).push(w@),
{
    assert(word_views(ws.push(w)) =~= word_views(ws).push(w@));
}

fn push_word(words: &mut Vec<&'static str>, w: &'static str)
    ensures
        word_views(final(words)@) == word_views(old(words)@).push(w@),
{
    proof {
        lemma_word_views_push(words@, w);
    }
    words.push(w);
}

/// Appends the words of `n` (below a thousand).
fn push_under_1000(words: &mut Vec<&'static str>, n: u64, fem: bool)
    requires
        n < 1000,
    ensures
        word_views(final(words)@) == word_views(old(words)@) + under_1000_words(n as nat, fem),
{
    let ghost start = word_views(words@);
    let h = n / 100;
    let rem = n % 100;
    let t = rem / 10;
    let u = rem % 10;
    if h > 0 {
        push_word(words, hundreds_word_of(h));
    }
    let ghost after_h = word_views(words@);
    if rem >= 20 {
        if t > 0 {
            push_word(words, tens_word_of(t));
        }
        if u > 0 {
            push_word(words, small_word_of(u, fem));
        }
    } else if rem > 0 {
        push_word(words, small_word_of(rem, fem));
    }
    assert(word_views(words@) =~= start + under_1000_words(n as nat, fem));
}

fn plural_form_of(n: u64, one: &'static str, few: &'static str, many: &'static str) -> (w: &'static str)
    ensures
        w@ == plural_form(n as nat, one@, few@, many@),
{
    let r10 = n % 10;
    let r100 = n % 100;
    if r10 == 1 && r100 != 11 {
        one
    } else if 2 <= r10 && r10 <= 4 && !(12 <= r100 && r100 <= 14) {
        few
    } else {
        many
    }
}

/// Appends the words of one scale group and its plural-agreeing scale name.
fn push_scale(
    words: &mut Vec<&'static str>,
    group: u64,
    fem: bool,
    one: &'static str,
    few: &'static str,
    many: &'static str,
)
    requires
        group < 1000,
    ensures
        word_views(final(words)@) == word_views(old(words)@) + scale_words(
            group as nat,
            fem,
            one@,
            few@,
            many@,
        ),
{
    let ghost start = word_views(words@);
    if group > 0 {
        push_under_1000(words, group, fem);
        push_word(words, plural_form_of(group, one, few, many));
    }
    assert(word_views(words@) =~= start + scale_words(group as nat, fem, one@, few@, many@));
}

/// Joins words with single spaces.
fn join_with_spaces(words: &Vec<&'static str>) -> (out: String)
    ensures
        out@ == join_words(word_views(words@)),
{
    let mut out = String::new();
    let mut i: usize = 0;
    while i < words.len()
        invariant
            0 <= i <= words.len(),
            out@ == join_words(word_views(words@.take(i as int))),
        decreases words.len() - i,
    {
        let ghost before = word_views(words@.take(i as int));
        if i > 0 {
            push_char(&mut out, ' ');
        }
        out.append(words[i]);
        proof {
            let after = word_views(words@.take(i + 1));
            assert(words@.take(i + 1) =~= words@.take(i as int).push(words@[i as int]));
            lemma_word_views_push(words@.take(i as int), words@[i as int]);
            assert(after.drop_last() =~= before);
            if i == 0 {
                assert(before =~= Seq::<Seq<char>>::empty());
                assert(out@ =~= after[0]);
            } else {
                assert(out@ =~= join_words(before) + seq![' '] + after.last());
            }
        }
        i = i + 1;
    }
    assert(words@.take(words.len() as int) =~= words@);
    out
}

/// Spells a number in Russian words (nominative case), e.g. 2024 as
/// "две тысячи двадцать четыре"; groups reach up to "миллиард".
pub fn number_to_words_ru(n: u64) -> (out: String)
    requires
        n < words_limit(),
    ensures
        out@ == number_words(n as nat),
{
    reveal(number_words);
    if n == 0 {
        return String::from_str("ноль");
    }
    let mut words: Vec<&'static str> = Vec::new();
    push_scale(&mut words, n / 1_000_000_000, false, "миллиард", "миллиарда", "миллиардов");
    push_scale(&mut words, (n / 1_000_000) % 1000, false, "миллион", "миллиона", "миллионов");
    push_scale(&mut words, (n / 1000) % 1000, true, "тысяча", "тысячи", "тысяч");
    push_under_1000(&mut words, n % 1000, false);
    assert(word_views(words@) =~= number_word_list(n as nat));
    join_with_spaces(&words)
}


proof fn lemma_normalize_step_plain(s: Seq<char>, i: int)
    requires
        0 <= i < s.len(),
        !is_ascii_digit(s[i]),
    ensures
        spec_normalize(s.skip(i)) == seq![s[i]] + spec_normalize(s.skip(i + 1)),
        numbers_speakable(s.skip(i)) == numbers_speakable(s.skip(i + 1)),
{
    assert(s.skip(i).drop_first() =~= s.skip(i + 1));
}

proof fn lemma_normalize_step_run(s: Seq<char>, i: int, j: int)
    requires
        0 <= i < j <= s.len(),
        is_ascii_digit(s[i]),
        j == i + digit_run_len(s.skip(i)),
    ensures
        spec_normalize(s.skip(i)) == (if decimal_value(s.subrange(i, j)) <= u64::MAX {
            number_words(decimal_value(s.subrange(i, j)) as nat)
        } else {
            s.subrange(i, j)
        }) + spec_normalize(s.skip(j)),
        numbers_speakable(s.skip(i)) == ((decimal_value(s.subrange(i, j)) > u64::MAX
            || decimal_value(s.subrange(i, j)) < words_limit()) && numbers_speakable(s.skip(j))),
{
    let t = s.skip(i);
    assert(t[0] == s[i]);
    assert(t.take(j - i) =~= s.subrange(i, j));
    assert(t.skip(j - i) =~= s.skip(j));
}

/// Replaces every run of ASCII digits with its Russian words ("123" becomes
/// "сто двадцать три"); a run too long for a `u64` is kept as it is.
pub fn normalize_digits(text: &str) -> (out: String)
    requires
        numbers_speakable(text@),
    ensures
        out@ == spec_normalize(text@),
{
    let chars = chars_of(text);
    let mut out = String::new();
    let mut i: usize = 0;
    proof {
        assert(chars@.skip(0) =~= chars@);
    }
    while i < chars.len()
        invariant
            0 <= i <= chars.len(),
            chars@ == text@,
            out@ + spec_normalize(chars@.skip(i as int)) == spec_normalize(chars@),
            numbers_speakable(chars@.skip(i as int)),
        decreases chars.len() - i,
    {
        if is_digit(chars[i]) {
            let (j, value) = scan_digit_run(&chars, i);
            proof {
                lemma_normalize_step_run(chars@, i as int, j as int);
            }
            match value {
                Some(n) => {
                    let w = number_to_words_ru(n);
                    out.append(w.as_str());
                },
                None => {
                    let run = text.substring_char(i, j);
                    out.append(run);
                },
            }
            proof {
                assert(out@ + spec_normalize(chars@.skip(j as int)) =~= spec_normalize(chars@));
            }
            i = j;
        } else {
            proof {
                lemma_normalize_step_plain(chars@, i as int);
            }
            push_char(&mut out, chars[i]);
            proof {
                assert(out@ + spec_normalize(chars@.skip(i + 1)) =~= spec_normalize(chars@));
            }
            i = i + 1;
        }
    }
    proof {
        assert(chars@.skip(i as int) =~= Seq::<char>::empty());
        assert(out@ =~= spec_normalize(chars@));
    }
    out
}

/// Whether `normalize_digits` can spell every digit run of `text`.
pub fn digits_speakable(text: &str) -> (b: bool)
    ensures
        b == numbers_speakable(text@),
{
    let chars = chars_of(text);
    let mut i: usize = 0;
    proof {
        assert(chars@.skip(0) =~= chars@);
    }
    while i < chars.len()
        invariant
            0 <= i <= chars.len(),
            chars@ == text@,
            numbers_speakable(chars@) == numbers_speakable(chars@.skip(i as int)),
        decreases chars.len() - i,
    {
        if is_digit(chars[i]) {
            let (j, value) = scan_digit_run(&chars, i);
            proof {
                lemma_normalize_step_run(chars@, i as int, j as int);
            }
            match value {
                Some(n) => {
                    if n >= 1_000_000_000_000 {
                        assert(decimal_value(chars@.subrange(i as int, j as int)) == n);
                        return false;
                    }
                },
                None => {},
            }
            i = j;
        } else {
            proof {
                lemma_normalize_step_plain(chars@, i as int);
            }
            i = i + 1;
        }
    }
    proof {
        assert(chars@.skip(i as int) =~= Seq::<char>::empty());
    }
    true
}


/// The tag that opens a reasoning block.
pub open spec fn open_tag() -> Seq<char> {
    seq!['<', 't', 'h', 'i', 'n', 'k', '>']
}

/// The tag that closes a reasoning block.
pub open spec fn close_tag() -> Seq<char> {
    seq!['<', '/', 't', 'h', 'i', 'n', 'k', '>']
}

/// `pat` occurs in `s` starting at index `i`.
pub open spec fn occurs_at(s: Seq<char>, pat: Seq<char>, i: int) -> bool {
    0 <= i && i + pat.len() <= s.len() && s.subrange(i, i + pat.len()) == pat
}

/// The first occurrence of `pat` in `s` at or after index `i`.
pub open spec fn find_from(s: Seq<char>, pat: Seq<char>, i: int) -> Option<int>
    decreases s.len() + 1 - i,
{
    if i < 0 || i + pat.len() > s.len() {
        None
    } else if occurs_at(s, pat, i) {
        Some(i)
    } else {
        find_from(s, pat, i + 1)
    }
}

pub proof fn lemma_find_from(s: Seq<char>, pat: Seq<char>, i: int)
    requires
        0 <= i,
    ensures
        find_from(s, pat, i) matches Some(k) ==> i <= k && k + pat.len() <= s.len() && occurs_at(
            s,
            pat,
            k,
        ) && forall|m: int| i <= m < k ==> !occurs_at(s, pat, m),
        find_from(s, pat, i) is None ==> forall|m: int| i <= m ==> !occurs_at(s, pat, m),
    decreases s.len() + 1 - i,
{
    if i + pat.len() <= s.len() && !occurs_at(s, pat, i) {
        lemma_find_from(s, pat, i + 1);
    }
}

/// Removes reasoning blocks from `s[pos..]`, starting inside a block when `in_think`.
/// Returns the kept text and whether the scan ends inside a block.
pub open spec fn think_filter_from(s: Seq<char>, pos: int, in_think: bool) -> (Seq<char>, bool)
    decreases s.len() - pos,
{
    if pos < 0 || pos > s.len() {
        (Seq::<char>::empty(), in_think)
    } else if in_think {
        match find_from(s, close_tag(), pos) {
            Some(k) => {
                proof {
                    lemma_find_from(s, close_tag(), pos);
                }
                think_filter_from(s, k + close_tag().len(), false)
            },
            None => (Seq::<char>::empty(), true),
        }
    } else {
        match find_from(s, open_tag(), pos) {
            Some(k) => {
                proof {
                    lemma_find_from(s, open_tag(), pos);
                }
                let rest = think_filter_from(s, k + open_tag().len(), true);
                (s.subrange(pos, k) + rest.0, rest.1)
            },
            None => (s.subrange(pos, s.len() as int), false),
        }
    }
}

/// `s` without its reasoning blocks, starting inside one when `in_think`.
pub open spec fn think_filter(s: Seq<char>, in_think: bool) -> (Seq<char>, bool) {
    think_filter_from(s, 0, in_think)
}

/// Whether `pat` occurs in `s` at index `i`.
fn matches_at(s: &Vec<char>, pat: &Vec<char>, i: usize) -> (b: bool)
    requires
        i <= s.len(),
    ensures
        b == occurs_at(s@, pat@, i as int),
{
    if pat.len() > s.len() - i {
        return false;
    }
    let mut m: usize = 0;
    while m < pat.len()
        invariant
            0 <= m <= pat.len(),
            i + pat.len() <= s.len(),
            forall|x: int| 0 <= x < m ==> s@[i + x] == pat@[x],
        decreases pat.len() - m,
    {
        if s[i + m] != pat[m] {
            assert(s@.subrange(i as int, i + pat.len())[m as int] != pat@[m as int]);
            return false;
        }
        m = m + 1;
    }
    assert(s@.subrange(i as int, i + pat.len()) =~= pat@);
    true
}

/// The first occurrence of `pat` in `s` at or after `i`.
fn find_from_exec(s: &Vec<char>, pat: &Vec<char>, i: usize) -> (r: Option<usize>)
    requires
        i <= s.len(),
    ensures
        match r {
            Some(k) => find_from(s@, pat@, i as int) == Some(k as int),
            None => find_from(s@, pat@, i as int) is None,
        },
{
    if pat.len() == 0 {
        assert(s@.subrange(i as int, i as int) =~= pat@);
        return Some(i);
    }
    let mut k = i;
    while k <= s.len() && pat.len() <= s.len() - k
        invariant
            i <= k,
            pat.len() > 0,
            find_from(s@, pat@, i as int) == find_from(s@, pat@, k as int),
        decreases s.len() + 1 - k,
    {
        if matches_at(s, pat, k) {
            return Some(k);
        }
        k = k + 1;
    }
    None
}

/// Strips `<think>…</think>` reasoning blocks from a text fragment. `in_think`
/// carries over between calls, so a block that spans fragments is removed too.
pub fn filter_think(chunk: &str, in_think: &mut bool) -> (out: String)
    ensures
        (out@, *final(in_think)) == think_filter(chunk@, *old(in_think)),
{
    let chars = chars_of(chunk);
    let open: Vec<char> = vec!['<', 't', 'h', 'i', 'n', 'k', '>'];
    let close: Vec<char> = vec!['<', '/', 't', 'h', 'i', 'n', 'k', '>'];
    proof {
        assert(open@ =~= open_tag());
        assert(close@ =~= close_tag());
    }
    let mut out = String::new();
    let mut pos: usize = 0;
    loop
        invariant_except_break
            0 <= pos <= chars.len(),
            chars@ == chunk@,
            open@ == open_tag(),
            close@ == close_tag(),
            ({
                let r = think_filter_from(chars@, pos as int, *in_think);
                (out@ + r.0, r.1) == think_filter(chunk@, *old(in_think))
            }),
        ensures
            (out@, *in_think) == think_filter(chunk@, *old(in_think)),
        decreases chars.len() - pos,
    {
        if *in_think {
            match find_from_exec(&chars, &close, pos) {
                Some(idx) => {
                    proof {
                        lemma_find_from(chars@, close_tag(), pos as int);
                    }
                    *in_think = false;
                    pos = idx + close.len();
                },
                None => {
                    assert(out@ + Seq::<char>::empty() =~= out@);
                    break;
                },
            }
        } else {
            match find_from_exec(&chars, &open, pos) {
                Some(idx) => {
                    proof {
                        lemma_find_from(chars@, open_tag(), pos as int);
                    }
                    let ghost prev = out@;
                    out.append(chunk.substring_char(pos, idx));
                    proof {
                        let r = think_filter_from(chars@, idx + 7, true);
                        assert(out@ + r.0 =~= prev + (chars@.subrange(pos as int, idx as int) + r.0));
                    }
                    *in_think = true;
                    pos = idx + open.len();
                },
                None => {
                    let ghost prev = out@;
                    out.append(chunk.substring_char(pos, chars.len()));
                    proof {
                        assert(out@ =~= prev + chars@.subrange(pos as int, chars@.len() as int));
                    }
                    break;
                },
            }
        }
    }
    out
}


/// No occurrence of `pat` in `s` starts before `cut` and ends after it.
pub open spec fn not_straddling(s: Seq<char>, pat: Seq<char>, cut: int) -> bool {
    forall|i: int| i < cut < i + pat.len() ==> !occurs_at(s, pat, i)
}

proof fn lemma_occurs_shift(a: Seq<char>, b: Seq<char>, pat: Seq<char>, m: int)
    requires
        m >= a.len(),
    ensures
        occurs_at(a + b, pat, m) == occurs_at(b, pat, m - a.len()),
{
    let s = a + b;
    if 0 <= m - a.len() && m + pat.len() <= s.len() {
        assert(s.subrange(m, m + pat.len()) =~= b.subrange(m - a.len(), m - a.len() + pat.len()));
    }
}

proof fn lemma_occurs_prefix(a: Seq<char>, b: Seq<char>, pat: Seq<char>, m: int)
    requires
        0 <= m,
        m + pat.len() <= a.len(),
    ensures
        occurs_at(a + b, pat, m) == occurs_at(a, pat, m),
{
    assert((a + b).subrange(m, m + pat.len()) =~= a.subrange(m, m + pat.len()));
}

/// Searching past the end of `a` in `a + b` is searching `b`.
proof fn lemma_find_shift(a: Seq<char>, b: Seq<char>, pat: Seq<char>, q: int)
    requires
        q >= a.len(),
    ensures
        find_from(a + b, pat, q) == (match find_from(b, pat, q - a.len()) {
            Some(k) => Some(k + a.len()),
            None => None::<int>,
        }),
    decreases (a + b).len() + 1 - q,
{
    lemma_occurs_shift(a, b, pat, q);
    if q + pat.len() <= (a + b).len() && !occurs_at(a + b, pat, q) {
        lemma_find_shift(a, b, pat, q + 1);
    }
}

/// Searching `a + b` from inside `a`, when no occurrence straddles the cut.
proof fn lemma_find_split(a: Seq<char>, b: Seq<char>, pat: Seq<char>, p: int)
    requires
        0 <= p <= a.len(),
        pat.len() > 0,
        not_straddling(a + b, pat, a.len() as int),
    ensures
        find_from(a, pat, p) matches Some(k) ==> find_from(a + b, pat, p) == Some(k),
        find_from(a, pat, p) is None ==> find_from(a + b, pat, p) == (match find_from(
            b,
            pat,
            0,
        ) {
            Some(k) => Some(k + a.len()),
            None => None::<int>,
        }),
    decreases a.len() + 1 - p,
{
    if p + pat.len() <= a.len() {
        lemma_occurs_prefix(a, b, pat, p);
        if !occurs_at(a, pat, p) {
            lemma_find_split(a, b, pat, p + 1);
        }
    } else if p == a.len() {
        lemma_find_shift(a, b, pat, p);
    } else {
        // p < |a| < p + |pat|: no occurrence here, and none in `a` from p on.
        assert(!occurs_at(a + b, pat, p));
        assert(find_from(a, pat, p) is None);
        if p + pat.len() <= (a + b).len() {
            lemma_find_split(a, b, pat, p + 1);
        } else {
            lemma_find_shift(a, b, pat, a.len() as int);
            lemma_find_from(a + b, pat, p);
            lemma_find_from(a + b, pat, a.len() as int);
            assert(find_from(a + b, pat, a.len() as int) is None);
        }
    }
}

/// Filtering from past the end of `a` in `a + b` is filtering `b`.
proof fn lemma_filter_shift(a: Seq<char>, b: Seq<char>, q: int, st: bool)
    requires
        a.len() <= q <= (a + b).len(),
    ensures
        think_filter_from(a + b, q, st) == think_filter_from(b, q - a.len(), st),
    decreases (a + b).len() - q,
{
    let s = a + b;
    if st {
        lemma_find_shift(a, b, close_tag(), q);
        lemma_find_from(s, close_tag(), q);
        if let Some(k) = find_from(s, close_tag(), q) {
            lemma_filter_shift(a, b, k + close_tag().len(), false);
        }
    } else {
        lemma_find_shift(a, b, open_tag(), q);
        lemma_find_from(s, open_tag(), q);
        match find_from(s, open_tag(), q) {
            Some(k) => {
                lemma_filter_shift(a, b, k + open_tag().len(), true);
                assert(s.subrange(q, k) =~= b.subrange(q - a.len(), k - a.len()));
            },
            None => {
                assert(s.subrange(q, s.len() as int) =~= b.subrange(q - a.len(), b.len() as int));
            },
        }
    }
}

proof fn lemma_filter_split_from(a: Seq<char>, b: Seq<char>, p: int, st: bool)
    requires
        0 <= p <= a.len(),
        not_straddling(a + b, open_tag(), a.len() as int),
        not_straddling(a + b, close_tag(), a.len() as int),
    ensures
        ({
            let r1 = think_filter_from(a, p, st);
            let r2 = think_filter(b, r1.1);
            think_filter_from(a + b, p, st) == (r1.0 + r2.0, r2.1)
        }),
    decreases a.len() - p,
{
    let s = a + b;
    if st {
        lemma_find_split(a, b, close_tag(), p);
        lemma_find_from(a, close_tag(), p);
        lemma_find_from(b, close_tag(), 0);
        match find_from(a, close_tag(), p) {
            Some(k) => {
                lemma_filter_split_from(a, b, k + close_tag().len(), false);
            },
            None => {
                let r2 = think_filter(b, true);
                match find_from(b, close_tag(), 0) {
                    Some(k) => {
                        lemma_filter_shift(a, b, k + a.len() + close_tag().len(), false);
                    },
                    None => {},
                }
                assert(Seq::<char>::empty() + r2.0 =~= r2.0);
            },
        }
    } else {
        lemma_find_split(a, b, open_tag(), p);
        lemma_find_from(a, open_tag(), p);
        lemma_find_from(b, open_tag(), 0);
        match find_from(a, open_tag(), p) {
            Some(k) => {
                lemma_filter_split_from(a, b, k + open_tag().len(), true);
                let r1 = think_filter_from(a, k + open_tag().len(), true);
                let r2 = think_filter(b, r1.1);
                assert(s.subrange(p, k) =~= a.subrange(p, k));
                assert(a.subrange(p, k) + r1.0 + r2.0 =~= a.subrange(p, k) + (r1.0 + r2.0));
            },
            None => {
                match find_from(b, open_tag(), 0) {
                    Some(k) => {
                        lemma_filter_shift(a, b, k + a.len() + open_tag().len(), true);
                        let r = think_filter_from(b, k + open_tag().len(), true);
                        assert(s.subrange(p, k + a.len()) =~= a.subrange(p, a.len() as int)
                            + b.subrange(0, k));
                        assert(s.subrange(p, k + a.len()) + r.0 =~= a.subrange(p, a.len() as int)
                            + (b.subrange(0, k) + r.0));
                    },
                    None => {
                        assert(s.subrange(p, s.len() as int) =~= a.subrange(p, a.len() as int)
                            + b.subrange(0, b.len() as int));
                    },
                }
            },
        }
    }
}

/// Filtering a text in two pieces, carrying the in-block flag from the first
/// call to the second, gives the same result as filtering it whole, as long as
/// neither tag is cut in two by the split.
pub proof fn lemma_filter_think_split(a: Seq<char>, b: Seq<char>, in_think: bool)
    requires
        not_straddling(a + b, open_tag(), a.len() as int),
        not_straddling(a + b, close_tag(), a.len() as int),
    ensures
        ({
            let r1 = think_filter(a, in_think);
            let r2 = think_filter(b, r1.1);
            think_filter(a + b, in_think) == (r1.0 + r2.0, r2.1)
        }),
{
    lemma_filter_split_from(a, b, 0, in_think);
}

} // verus!
verus! {

/// No character of `s` is an ASCII digit.
pub open spec fn digit_free(s: Seq<char>) -> bool {
    forall|i: int| 0 <= i < s.len() ==> !is_ascii_digit(#[trigger] s[i])
}

proof fn lemma_unit_words_digit_free(u: nat)
    ensures
        digit_free(unit_word(u)),
{
    reveal_strlit("один");
    reveal_strlit("два");
    reveal_strlit("три");
    reveal_strlit("четыре");
    reveal_strlit("пять");
    reveal_strlit("шесть");
    reveal_strlit("семь");
    reveal_strlit("восемь");
    reveal_strlit("девять");
    reveal_strlit("десять");
    reveal_strlit("одиннадцать");
    reveal_strlit("двенадцать");
    reveal_strlit("тринадцать");
    reveal_strlit("четырнадцать");
    reveal_strlit("пятнадцать");
    reveal_strlit("шестнадцать");
    reveal_strlit("семнадцать");
    reveal_strlit("восемнадцать");
    reveal_strlit("девятнадцать");
    assert(digit_free("один"@));
    assert(digit_free("два"@));
    assert(digit_free("три"@));
    assert(digit_free("четыре"@));
    assert(digit_free("пять"@));
    assert(digit_free("шесть"@));
    assert(digit_free("семь"@));
    assert(digit_free("восемь"@));
    assert(digit_free("девять"@));
    assert(digit_free("десять"@));
    assert(digit_free("одиннадцать"@));
    assert(digit_free("двенадцать"@));
    assert(digit_free("тринадцать"@));
    assert(digit_free("четырнадцать"@));
    assert(digit_free("пятнадцать"@));
    assert(digit_free("шестнадцать"@));
    assert(digit_free("семнадцать"@));
    assert(digit_free("восемнадцать"@));
    assert(digit_free("девятнадцать"@));
}

proof fn lemma_tens_words_digit_free(t: nat)
    ensures
        digit_free(tens_word(t)),
{
    reveal_strlit("двадцать");
    reveal_strlit("тридцать");
    reveal_strlit("сорок");
    reveal_strlit("пятьдесят");
    reveal_strlit("шестьдесят");
    reveal_strlit("семьдесят");
    reveal_strlit("восемьдесят");
    reveal_strlit("девяносто");
    assert(digit_free("двадцать"@));
    assert(digit_free("тридцать"@));
    assert(digit_free("сорок"@));
    assert(digit_free("пятьдесят"@));
    assert(digit_free("шестьдесят"@));
    assert(digit_free("семьдесят"@));
    assert(digit_free("восемьдесят"@));
    assert(digit_free("девяносто"@));
}

proof fn lemma_hundreds_words_digit_free(h: nat)
    ensures
        digit_free(hundreds_word(h)),
{
    reveal_strlit("сто");
    reveal_strlit("двести");
    reveal_strlit("триста");
    reveal_strlit("четыреста");
    reveal_strlit("пятьсот");
    reveal_strlit("шестьсот");
    reveal_strlit("семьсот");
    reveal_strlit("восемьсот");
    reveal_strlit("девятьсот");
    assert(digit_free("сто"@));
    assert(digit_free("двести"@));
    assert(digit_free("триста"@));
    assert(digit_free("четыреста"@));
    assert(digit_free("пятьсот"@));
    assert(digit_free("шестьсот"@));
    assert(digit_free("семьсот"@));
    assert(digit_free("восемьсот"@));
    assert(digit_free("девятьсот"@));
}

proof fn lemma_small_words_digit_free(r: nat, fem: bool)
    ensures
        digit_free(small_word(r, fem)),
{
    reveal_strlit("одна");
    reveal_strlit("две");
    assert(digit_free("одна"@));
    assert(digit_free("две"@));
    lemma_unit_words_digit_free(r);
}

proof fn lemma_scale_names_digit_free()
    ensures
        digit_free("миллиард"@),
        digit_free("миллиарда"@),
        digit_free("миллиардов"@),
        digit_free("миллион"@),
        digit_free("миллиона"@),
        digit_free("миллионов"@),
        digit_free("тысяча"@),
        digit_free("тысячи"@),
        digit_free("тысяч"@),
        digit_free("ноль"@),
{
    reveal_strlit("миллиард");
    reveal_strlit("миллиарда");
    reveal_strlit("миллиардов");
    reveal_strlit("миллион");
    reveal_strlit("миллиона");
    reveal_strlit("миллионов");
    reveal_strlit("тысяча");
    reveal_strlit("тысячи");
    reveal_strlit("тысяч");
    reveal_strlit("ноль");
    assert(digit_free("миллиард"@));
    assert(digit_free("миллиарда"@));
    assert(digit_free("миллиардов"@));
    assert(digit_free("миллион"@));
    assert(digit_free("миллиона"@));
    assert(digit_free("миллионов"@));
    assert(digit_free("тысяча"@));
    assert(digit_free("тысячи"@));
    assert(digit_free("тысяч"@));
    assert(digit_free("ноль"@));
}

/// All words in a list are free of digits.
pub open spec fn all_digit_free(ws: Seq<Seq<char>>) -> bool {
    forall|i: int| 0 <= i < ws.len() ==> digit_free(#[trigger] ws[i])
}

proof fn lemma_under_1000_digit_free(n: nat, fem: bool)
    ensures
        all_digit_free(under_1000_words(n, fem)),
{
    let rem = n % 100;
    lemma_hundreds_words_digit_free(n / 100);
    lemma_tens_words_digit_free(rem / 10);
    lemma_small_words_digit_free(rem % 10, fem);
    lemma_small_words_digit_free(rem, fem);
}

proof fn lemma_scale_digit_free(group: nat, fem: bool, one: Seq<char>, few: Seq<char>, many: Seq<char>)
    requires
        digit_free(one),
        digit_free(few),
        digit_free(many),
    ensures
        all_digit_free(scale_words(group, fem, one, few, many)),
{
    lemma_under_1000_digit_free(group, fem);
}

proof fn lemma_join_digit_free(ws: Seq<Seq<char>>)
    requires
        all_digit_free(ws),
    ensures
        digit_free(join_words(ws)),
    decreases ws.len(),
{
    if ws.len() > 1 {
        lemma_join_digit_free(ws.drop_last());
        let j = join_words(ws.drop_last()) + seq![' '] + ws.last();
        assert(digit_free(ws.last()));
        assert forall|i: int| 0 <= i < j.len() implies !is_ascii_digit(#[trigger] j[i]) by {
            let l = join_words(ws.drop_last()).len();
            if i < l {
                assert(j[i] == join_words(ws.drop_last())[i]);
            } else if i == l {
                assert(j[i] == ' ');
            } else {
                assert(j[i] == ws.last()[i - l - 1]);
            }
        }
    } else if ws.len() == 1 {
        assert(digit_free(ws[0]));
    }
}

/// A number's words contain no ASCII digit.
pub proof fn lemma_number_words_digit_free(n: nat)
    ensures
        digit_free(number_words(n)),
{
    reveal(number_words);
    lemma_scale_names_digit_free();
    if n > 0 {
        let l1 = scale_words(n / 1_000_000_000, false, "миллиард"@, "миллиарда"@, "миллиардов"@);
        let l2 = scale_words((n / 1_000_000) % 1000, false, "миллион"@, "миллиона"@, "миллионов"@);
        let l3 = scale_words((n / 1000) % 1000, true, "тысяча"@, "тысячи"@, "тысяч"@);
        let l4 = under_1000_words(n % 1000, false);
        lemma_scale_digit_free(n / 1_000_000_000, false, "миллиард"@, "миллиарда"@, "миллиардов"@);
        lemma_scale_digit_free((n / 1_000_000) % 1000, false, "миллион"@, "миллиона"@, "миллионов"@);
        lemma_scale_digit_free((n / 1000) % 1000, true, "тысяча"@, "тысячи"@, "тысяч"@);
        lemma_under_1000_digit_free(n % 1000, false);
        let all = number_word_list(n);
        assert forall|i: int| 0 <= i < all.len() implies digit_free(#[trigger] all[i]) by {
            if i < l1.len() {
                assert(all[i] == l1[i]);
            } else if i < l1.len() + l2.len() {
                assert(all[i] == l2[i - l1.len()]);
            } else if i < l1.len() + l2.len() + l3.len() {
                assert(all[i] == l3[i - l1.len() - l2.len()]);
            } else {
                assert(all[i] == l4[i - l1.len() - l2.len() - l3.len()]);
            }
        }
        lemma_join_digit_free(all);
    }
}

/// Every digit run of `s` has a value that fits a `u64`.
pub open spec fn runs_fit(s: Seq<char>) -> bool
    decreases s.len(),
{
    if s.len() == 0 {
        true
    } else if !is_ascii_digit(s[0]) {
        runs_fit(s.drop_first())
    } else {
        let k = digit_run_len(s);
        proof {
            lemma_digit_run_len_bounds(s);
        }
        decimal_value(s.take(k as int)) <= u64::MAX && runs_fit(s.skip(k as int))
    }
}

/// Text without digits is left as it is.
pub proof fn lemma_normalize_digit_free(s: Seq<char>)
    requires
        digit_free(s),
    ensures
        spec_normalize(s) == s,
    decreases s.len(),
{
    if s.len() > 0 {
        let t = s.drop_first();
        assert(digit_free(t)) by {
            assert forall|i: int| 0 <= i < t.len() implies !is_ascii_digit(#[trigger] t[i]) by {
                assert(t[i] == s[i + 1]);
            }
        }
        lemma_normalize_digit_free(t);
        assert(seq![s[0]] + t =~= s);
    }
}

proof fn lemma_concat_digit_free(a: Seq<char>, b: Seq<char>)
    requires
        digit_free(a),
        digit_free(b),
    ensures
        digit_free(a + b),
{
    assert forall|i: int| 0 <= i < (a + b).len() implies !is_ascii_digit(#[trigger] (a + b)[i]) by {
        if i < a.len() {
            assert((a + b)[i] == a[i]);
        } else {
            assert((a + b)[i] == b[i - a.len()]);
        }
    }
}

/// When every number in the text fits a `u64`, the normalized text holds no
/// ASCII digit at all, so the synthesizer has nothing to drop.
pub proof fn lemma_normalize_removes_digits(s: Seq<char>)
    requires
        runs_fit(s),
    ensures
        digit_free(spec_normalize(s)),
    decreases s.len(),
{
    if s.len() > 0 {
        if !is_ascii_digit(s[0]) {
            lemma_normalize_removes_digits(s.drop_first());
            lemma_concat_digit_free(seq![s[0]], spec_normalize(s.drop_first()));
        } else {
            let k = digit_run_len(s);
            lemma_digit_run_len_bounds(s);
            let v = decimal_value(s.take(k as int));
            lemma_number_words_digit_free(v as nat);
            lemma_normalize_removes_digits(s.skip(k as int));
            lemma_concat_digit_free(number_words(v as nat), spec_normalize(s.skip(k as int)));
        }
    }
}

} // verus!

verus! {

/// Russian agreement of the scale noun with its group, stated per group of
/// each scale: 1, 21, 31… take the "one" form (тысяча, миллион, миллиард);
/// 2–4, 22–24… the "few" form (тысячи, миллиона, миллиарда); everything else,
/// including 11–14, the "many" form (тысяч, миллионов, миллиардов).
pub proof fn lemma_scale_agreement(g: nat)
    requires
        0 < g < 1000,
    ensures
        number_word_list(g * 1000) == under_1000_words(g, true).push(
            if g % 10 == 1 && g % 100 != 11 {
                "тысяча"@
            } else if 2 <= g % 10 <= 4 && !(12 <= g % 100 <= 14) {
                "тысячи"@
            } else {
                "тысяч"@
            },
        ),
        number_word_list(g * 1_000_000) == under_1000_words(g, false).push(
            if g % 10 == 1 && g % 100 != 11 {
                "миллион"@
            } else if 2 <= g % 10 <= 4 && !(12 <= g % 100 <= 14) {
                "миллиона"@
            } else {
                "миллионов"@
            },
        ),
        number_word_list(g * 1_000_000_000) == under_1000_words(g, false).push(
            if g % 10 == 1 && g % 100 != 11 {
                "миллиард"@
            } else if 2 <= g % 10 <= 4 && !(12 <= g % 100 <= 14) {
                "миллиарда"@
            } else {
                "миллиардов"@
            },
        ),
{
    let t = g * 1000;
    let m = g * 1_000_000;
    let b = g * 1_000_000_000;
    assert(t / 1_000_000_000 == 0 && (t / 1_000_000) % 1000 == 0 && (t / 1000) % 1000 == g
        && t % 1000 == 0) by (nonlinear_arith)
        requires
            0 < g < 1000,
            t == g * 1000,
    ;
    assert(m / 1_000_000_000 == 0 && (m / 1_000_000) % 1000 == g && (m / 1000) % 1000 == 0
        && m % 1000 == 0) by (nonlinear_arith)
        requires
            0 < g < 1000,
            m == g * 1_000_000,
    ;
    assert(b / 1_000_000_000 == g && (b / 1_000_000) % 1000 == 0 && (b / 1000) % 1000 == 0
        && b % 1000 == 0) by (nonlinear_arith)
        requires
            0 < g < 1000,
            b == g * 1_000_000_000,
    ;
    assert(under_1000_words(0, false) =~= Seq::<Seq<char>>::empty());
    assert(number_word_list(t) =~= under_1000_words(g, true).push(
        plural_form(g, "тысяча"@, "тысячи"@, "тысяч"@),
    ));
    assert(number_word_list(m) =~= under_1000_words(g, false).push(
        plural_form(g, "миллион"@, "миллиона"@, "миллионов"@),
    ));
    assert(number_word_list(b) =~= under_1000_words(g, false).push(
        plural_form(g, "миллиард"@, "миллиарда"@, "миллиардов"@),
    ));
}

/// Every text outside reasoning blocks is kept character for character: a
/// text with no opening tag comes out unchanged, and otherwise the output
/// begins with the whole text before the first opening tag, unchanged.
pub proof fn lemma_filter_keeps_outside_text(s: Seq<char>)
    ensures
        find_from(s, open_tag(), 0) is None ==> think_filter(s, false) == (s, false),
        find_from(s, open_tag(), 0) matches Some(k) ==> {
            &&& think_filter(s, false).0.len() >= k
            &&& think_filter(s, false).0.take(k) == s.take(k)
        },
{
    lemma_find_from(s, open_tag(), 0);
    match find_from(s, open_tag(), 0) {
        Some(k) => {
            let r = think_filter_from(s, k + 7, true);
            assert((s.subrange(0, k) + r.0).take(k) =~= s.take(k));
        },
        None => {
            assert(s.subrange(0, s.len() as int) =~= s);
        },
    }
}

/// A text with no reasoning tags at all passes through unchanged, and text
/// inside an unclosed block is dropped entirely.
pub proof fn lemma_filter_without_tags(s: Seq<char>)
    requires
        forall|i: int| !occurs_at(s, open_tag(), i),
        forall|i: int| !occurs_at(s, close_tag(), i),
    ensures
        think_filter(s, false) == (s, false),
        think_filter(s, true) == (Seq::<char>::empty(), true),
{
    lemma_find_from(s, open_tag(), 0);
    lemma_find_from(s, close_tag(), 0);
    lemma_filter_keeps_outside_text(s);
}

} // verus!
