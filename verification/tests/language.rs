//! Languages by vote.

use otograph::langdetect;
use otograph::langdetect::Detection;

#[test]
fn supported_languages() {
    let codes = [
        ("cmn", "zh"), ("jpn", "ja"), ("eng", "en"), ("kor", "ko"), ("fra", "fr"), ("deu", "de"),
        ("spa", "es"), ("rus", "ru"),
    ];
    for (lang, code) in codes {
        assert_eq!(langdetect::supported_code(lang), Some(code));
    }
    assert_eq!(langdetect::supported_code("vie"), None);
    assert_eq!(langdetect::supported_code("en"), None);
    assert_eq!(langdetect::supported_code(""), None);
}

fn guess(lang: &str, confidence: f64) -> Option<Detection> {
    Some(Detection { lang: lang.to_string(), confidence: confidence.to_bits() })
}

#[test]
fn votes_need_some_confidence() {
    assert_eq!(langdetect::vote_of(&guess("eng", 0.05)), Some("en".to_string()));
    assert_eq!(langdetect::vote_of(&guess("eng", 1.0)), Some("en".to_string()));
    assert_eq!(langdetect::vote_of(&guess("eng", 0.049999999999999996)), None);
    assert_eq!(langdetect::vote_of(&guess("eng", 0.0)), None);
    assert_eq!(langdetect::vote_of(&guess("tha", 1.0)), None);
    assert_eq!(langdetect::vote_of(&None), None);
}

fn votes(v: &[&str]) -> Vec<Option<String>> {
    v.iter().map(|s| if s.is_empty() { None } else { Some(s.to_string()) }).collect()
}

#[test]
fn most_votes_win() {
    assert_eq!(
        langdetect::plurality(&votes(&["en", "", "zh", "en", "ja"])),
        Some("en".to_string())
    );
    assert_eq!(langdetect::plurality(&votes(&["", ""])), None);
    assert_eq!(langdetect::plurality(&votes(&[])), None);
    let tie = langdetect::plurality(&votes(&["fr", "de", "de", "fr", "es"])).unwrap();
    assert!(tie == "fr" || tie == "de");
}

#[test]
fn languages_of_texts() {
    let texts = [
        ("There is no reason not to learn this wonderful language together.", "en"),
        ("Además de todo lo anteriormente dicho, también encontramos muchas cosas.", "es"),
        ("Мы хотим видеть дальше, чем окна дома напротив", "ru"),
        ("これは日本語で書かれた字幕のための文章です", "ja"),
        ("这是一个用中文写的句子没有别的语言", "zh"),
        ("이것은 한국어로 쓰여진 문장입니다", "ko"),
        ("Mit dem Wissen wächst der Zweifel, sagte der alte Mann am Fenster.", "de"),
        ("Je ne sais pas pourquoi nous sommes arrivés si tard à la maison hier soir.", "fr"),
    ];
    for (text, code) in texts {
        assert_eq!(langdetect::detect_language_code(&[text]), Some(code.to_string()), "{text}");
    }
    let all: Vec<&str> = vec![texts[0].0, texts[3].0, texts[3].0];
    assert_eq!(langdetect::detect_language_code(&all), Some("ja".to_string()));
}

#[test]
fn short_or_unsupported_texts_do_not_vote() {
    assert_eq!(langdetect::detect_language_code(&[]), None);
    assert_eq!(langdetect::detect_language_code(&["hello"]), None);
    // nine characters besides white space, then ten
    assert_eq!(langdetect::detect_language_code(&[" 这是一个 用中文写的 "]), None);
    assert_eq!(
        langdetect::detect_language_code(&[" 这是一个 用中文写的句 "]),
        Some("zh".to_string())
    );
    assert_eq!(langdetect::detect_language_code(&["1234567890 1234567890"]), None);
    assert_eq!(langdetect::detect_language_code(&["ภาษาไทยเป็นภาษาที่สวยงามมาก"]), None);
}

#[test]
fn order_and_short_texts_do_not_change_a_decisive_vote() {
    let en = "There is no reason not to learn this wonderful language together.";
    let ja = "これは日本語で書かれた字幕のための文章です";
    let ja2 = "今日はとても天気がいいですねと彼は言いました";
    let expected = Some("ja".to_string());
    assert_eq!(langdetect::detect_language_code(&[en, ja, ja2]), expected);
    assert_eq!(langdetect::detect_language_code(&[ja2, en, ja]), expected);
    assert_eq!(langdetect::detect_language_code(&["hello", ja2, "", en, " yes no ", ja]), expected);
    assert_eq!(langdetect::detect_language_code(&["hello", "so"]), None);
}
