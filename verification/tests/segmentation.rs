use mnemosyne_core::script::{script_of, segment, Script};

/// The retrieval fold applied before segmentation on both the query and
/// the document side: lowercase, then drop the combining dot above that
/// lowercasing a dotted capital leaves behind.
fn search_key(s: &str) -> String {
    s.to_lowercase().chars().filter(|c| *c != '\u{0307}').collect()
}

/// The fold, then segmentation, then the historical byte filter.
fn toks(s: &str) -> Vec<String> {
    segment(&search_key(s))
        .tokens
        .into_iter()
        .filter(|t| t.len() > 1)
        .collect()
}

/// How many of the query's tokens the document supplies.
fn matched(query: &str, doc: &str) -> usize {
    let d = toks(doc);
    toks(query).iter().filter(|t| d.contains(t)).count()
}

#[test]
fn a_chinese_clause_is_no_longer_one_token() {
    let t = toks("我昨天去了北京参加会议");
    assert!(t.contains(&"北京".to_string()), "{t:?}");
    assert!(t.contains(&"北".to_string()));
    assert!(t.contains(&"我昨天去了北京参加会议".to_string()));
}

#[test]
fn the_city_in_the_sentence_is_findable() {
    assert_eq!(matched("北京", "我昨天去了北京参加会议"), 3);
    assert_eq!(matched("東京", "昨日は東京で会議に参加しました"), 3);
}

#[test]
fn a_thai_word_matches_wherever_it_sits() {
    assert!(matched("ประชุม", "ประชุมทีมงานที่กรุงเทพ") > 0);
    assert!(matched("กรุงเทพ", "ประชุมทีมงานที่กรุงเทพ") > 0);
    assert!(matched("ประชุม", "ฉันไปกรุงเทพเมื่อวานนี้เพื่อเข้าร่วมประชุม") > 0);
}

#[test]
fn khmer_coeng_no_longer_shatters_the_word() {
    let doc = "ខ្ញុំបានទៅភ្នំពេញកាលពីម្សិលមិញដើម្បីចូលរួមប្រជុំ";
    assert!(matched("ភ្នំពេញ", doc) > 0);
    assert!(matched("ចូលរួម", doc) > 0);
}

#[test]
fn arabic_reaches_through_the_definite_article() {
    assert!(matched("كتاب", "قرأت الكتاب أمس") > 0);
    assert!(matched("مكتبة", "ذهبت إلى المكتبة") > 0);
    assert!(matched("بيت", "دخلت البيت") > 0);
}

#[test]
fn unrelated_terms_still_do_not_match() {
    assert_eq!(matched("قطار", "ذهبت إلى المستشفى"), 0);
    assert_eq!(matched("東京", "私は大阪に住んでいます"), 0);
    assert_eq!(matched("ประชุม", "ฉันชอบอาหารไทย"), 0);
}

#[test]
fn only_logographic_scripts_emit_single_characters() {
    assert!(toks("الكتاب").iter().all(|t| t.chars().count() > 1));
    assert!(toks("한국어는").iter().all(|t| t.chars().count() > 1));
    assert!(toks("กรุงเทพ").iter().all(|t| t.chars().count() > 1));
    assert!(toks("北京参加会议").contains(&"北".to_string()));
}

#[test]
fn korean_reaches_through_its_particles() {
    assert!(matched("한국어", "한국어는 어렵다") > 0);
    assert!(matched("서울", "어제 서울에서 회의에 참석했습니다") > 0);
}

#[test]
fn latin_subruns_are_left_whole() {
    let t = toks("我们用Kubernetes部署");
    assert!(t.contains(&"kubernetes".to_string()), "{t:?}");
    assert!(!t.contains(&"wi".to_string()), "{t:?}");
    assert!(t.contains(&"部署".to_string()));
}

#[test]
fn japanese_splits_at_script_boundaries() {
    let t = toks("東京タワー");
    assert!(t.contains(&"東京".to_string()), "{t:?}");
    assert!(t.contains(&"タワー".to_string()), "{t:?}");
    assert!(!t.contains(&"京タ".to_string()), "{t:?}");
}

#[test]
fn a_lone_ideograph_is_a_token() {
    assert!(toks("他说：「好。」").contains(&"好".to_string()));
    assert!(matched("好", "他说：「好。」") > 0);
}

#[test]
fn latin_cyrillic_and_georgian_tokenize_exactly_as_before() {
    let cases = [
        (
            "I went to Beijing yesterday",
            vec!["went", "to", "beijing", "yesterday"],
        ),
        ("Я поехал в Москву", vec!["я", "поехал", "в", "москву"]),
        ("წიგნი მაგიდაზე", vec!["წიგნი", "მაგიდაზე"]),
    ];
    for (input, want) in cases {
        let got = toks(input);
        let want: Vec<String> = want.into_iter().map(str::to_string).collect();
        assert_eq!(got, want, "input: {input}");
    }
}

#[test]
fn tibetan_is_left_alone() {
    assert_eq!(script_of('\u{0F40}'), Script::Other);
}

#[test]
fn one_letter_words_reach_the_caller() {
    let all = segment("vitamin c").tokens;
    assert!(all.contains(&"c".to_string()), "{all:?}");
    assert!(!toks("vitamin c").contains(&"c".to_string()));
}

#[test]
fn length_counts_characters_not_ngrams() {
    let s = segment("北京");
    assert_eq!(s.len, 2);
    assert!(s.tokens.len() > 2, "{:?}", s.tokens);
    assert_eq!(segment("我昨天去了北京参加会议").len, 11);
    assert_eq!(segment("i went to beijing").len, 4);
}

#[test]
fn turkish_dotted_capital_folds_to_izmir() {
    assert_eq!(toks("İZMİR"), vec!["izmir".to_string()]);
    assert_eq!(toks("İzmir"), toks("izmir"));
}

// ---- further cases ------------------------------------------------------

use mnemosyne_core::script::segment_chars;

fn seg(s: &str) -> Vec<String> {
    segment(s).tokens
}

#[test]
fn a_delimiting_text_splits_only_on_delimiters() {
    let s = segment("hello, world 42");
    assert_eq!(s.tokens, vec!["hello", "world", "42"]);
    assert_eq!(s.len, 3);
}

#[test]
fn a_han_run_emits_unigrams_bigrams_and_the_clause() {
    assert_eq!(seg("北京市"), vec!["北", "京", "市", "北京", "京市", "北京市"]);
    assert_eq!(segment("北京市").len, 3);
}

#[test]
fn a_two_character_run_is_its_own_bigram() {
    assert_eq!(seg("北京"), vec!["北", "京", "北京"]);
    assert_eq!(seg("한국"), vec!["한국"]);
}

#[test]
fn an_alphabetic_run_emits_bigrams_and_the_word() {
    assert_eq!(seg("كتاب"), vec!["كت", "تا", "اب", "كتاب"]);
    assert_eq!(segment("كتاب").len, 4);
}

#[test]
fn a_lone_letter_of_an_attaching_script_is_kept() {
    assert_eq!(seg("و"), vec!["و"]);
    assert_eq!(seg("好"), vec!["好"]);
    assert_eq!(segment("و").len, 1);
}

#[test]
fn script_changes_split_a_run() {
    assert_eq!(seg("東京タワー"), vec!["東", "京", "東京", "タワ", "ワー", "タワー"]);
    assert_eq!(segment("東京タワー").len, 5);
}

#[test]
fn segmentation_distributes_over_a_delimiter() {
    let a = seg("ประชุม");
    let b = seg("กรุงเทพ");
    let mut both = a.clone();
    both.extend(b.clone());
    assert_eq!(seg("ประชุม กรุงเทพ"), both);
    assert_eq!(segment("ประชุม กรุงเทพ").len, segment("ประชุม").len + segment("กรุงเทพ").len);
}

#[test]
fn empty_and_delimiter_only_texts_have_no_tokens() {
    assert!(seg("").is_empty());
    assert!(seg(" ,.!? ").is_empty());
    assert_eq!(segment(" ,.!? ").len, 0);
}

#[test]
fn segment_chars_follows_the_given_word_flags() {
    let chars: Vec<char> = "ab-cd".chars().collect();
    let word = vec![true, true, true, true, true];
    let s = segment_chars(&chars, &word);
    assert_eq!(s.tokens, vec!["ab-cd"]);
    let word = vec![true, true, false, true, true];
    let s = segment_chars(&chars, &word);
    assert_eq!(s.tokens, vec!["ab", "cd"]);
    assert_eq!(s.len, 2);
}

#[test]
fn scripts_are_classified_by_their_ranges() {
    assert_eq!(script_of('北'), Script::Han);
    assert_eq!(script_of('々'), Script::Han);
    assert_eq!(script_of('あ'), Script::Hiragana);
    assert_eq!(script_of('タ'), Script::Katakana);
    assert_eq!(script_of('ー'), Script::Katakana);
    assert_eq!(script_of('한'), Script::Hangul);
    assert_eq!(script_of('ㄅ'), Script::Bopomofo);
    assert_eq!(script_of('ك'), Script::Arabic);
    assert_eq!(script_of('ក'), Script::Khmer);
    assert_eq!(script_of('ก'), Script::Thai);
    assert_eq!(script_of('ກ'), Script::Lao);
    assert_eq!(script_of('က'), Script::Myanmar);
    assert_eq!(script_of('a'), Script::Other);
    assert_eq!(script_of('я'), Script::Other);
    assert_eq!(script_of('7'), Script::Other);
}

#[test]
fn only_han_is_logographic_and_only_other_delimits() {
    assert!(Script::Han.is_logographic());
    assert!(!Script::Thai.is_logographic());
    assert!(!Script::Other.is_logographic());
    assert!(Script::Arabic.attaches_without_delimiter());
    assert!(Script::Han.attaches_without_delimiter());
    assert!(!Script::Other.attaches_without_delimiter());
}

#[test]
fn a_kana_particle_between_kanji_is_no_bare_token() {
    let s = segment("私は大阪");
    assert_eq!(s.tokens, vec!["私", "大", "阪", "大阪"]);
    assert_eq!(s.len, 4);
}

#[test]
fn a_delimited_lone_kana_is_a_token() {
    assert_eq!(seg("は"), vec!["は"]);
    assert_eq!(seg("私 は 大阪"), vec!["私", "は", "大", "阪", "大阪"]);
}

#[test]
fn segmentation_distributes_over_a_script_change_in_pieces_and_length() {
    assert_eq!(segment("東京タワー").len, segment("東京").len + segment("タワー").len);
    let mut both = seg("kubernetes");
    both.extend(seg("部署"));
    assert_eq!(seg("kubernetes部署"), both);
}

#[test]
fn a_short_query_token_is_found_inside_a_longer_run() {
    let doc = seg("我昨天去了北京参加会议");
    for t in seg("北京") {
        assert!(doc.contains(&t), "{t}");
    }
    let doc = seg("ประชุมทีมงานที่กรุงเทพ");
    for t in seg("กรุงเทพ").into_iter().filter(|t| t.chars().count() <= 2) {
        assert!(doc.contains(&t), "{t}");
    }
}
