use fox_reader::voice_selector::{
    country_of_flag, row_language, sort_selector_rows, voice_country_key, voice_label, SelectorRow,
};

fn row(name: &str, language: &str) -> SelectorRow {
    SelectorRow {
        key: name.to_lowercase(),
        name: name.to_string(),
        language: language.to_string(),
        quality: "A".to_string(),
        traits: String::new(),
    }
}

#[test]
fn country_keys_from_flags_and_languages() {
    assert_eq!(voice_country_key("🇺🇸 Heart - Female United States", "English"), "1_United States");
    assert_eq!(voice_country_key("🇬🇧 Emma - Female United Kingdom", "English"), "2_United Kingdom");
    assert_eq!(voice_country_key("🇯🇵 Alpha - Female Japan", "Japanese"), "3_Japan");
    assert_eq!(voice_country_key("🇧🇷 Dora - Female Brazil", "Portuguese"), "9_Brazil");
    assert_eq!(voice_country_key("alan", "English (United Kingdom)"), "2_United Kingdom");
    assert_eq!(voice_country_key("amy", "English (United States)"), "1_United States");
    assert_eq!(voice_country_key("thorsten", "German (Germany)"), "Z_German (Germany)");
    assert_eq!(voice_country_key("🇫🇷🇺🇸 Both", "French"), "1_United States");
    assert_eq!(country_of_flag("🇮🇹 Sara"), Some("8_Italy".to_string()));
    assert_eq!(country_of_flag("sara"), None);
}

#[test]
fn selector_labels() {
    assert_eq!(voice_label("🇺🇸 Heart", "❤️", "A", "English"), "❤️ 🇺🇸 Heart (A)");
    assert_eq!(voice_label("🇺🇸 Heart", "", "A", "English"), "🇺🇸 Heart (A)");
    assert_eq!(voice_label("alan", "", "low", "English (United Kingdom)"), "alan (low) - English (United Kingdom)");
    assert_eq!(voice_label("alan", "calm", "low", "English"), "calm alan (low) - English");
}

#[test]
fn row_languages() {
    assert_eq!(row_language("alan", "English", "United Kingdom"), "English (United Kingdom)");
    assert_eq!(row_language("alan", "English", ""), "English ()");
    assert_eq!(row_language("thorsten", "German", "Germany"), "German (Germany)");
    assert_eq!(row_language("x", "German", "German"), "German");
    assert_eq!(row_language("x", "German", ""), "German");
    assert_eq!(row_language("🇺🇸 Heart", "English", "United States"), "English");
}

#[test]
fn selector_order_is_by_country_then_name() {
    let rows = vec![
        row("thorsten", "German (Germany)"),
        row("🇬🇧 Emma", "English"),
        row("amy", "English (United States)"),
        row("🇺🇸 Heart", "English"),
        row("alan", "English (United Kingdom)"),
        row("🇯🇵 Alpha", "Japanese"),
    ];
    let sorted = sort_selector_rows(rows);
    let names: Vec<String> = sorted.iter().map(|r| r.name.clone()).collect();
    assert_eq!(names, vec!["amy", "🇺🇸 Heart", "alan", "🇬🇧 Emma", "🇯🇵 Alpha", "thorsten"]);
    assert!(sort_selector_rows(Vec::new()).is_empty());
}

#[test]
fn selector_order_keeps_equal_rows_in_place() {
    let mut a = row("amy", "English (United States)");
    a.key = "first".to_string();
    let mut b = row("amy", "English (United States)");
    b.key = "second".to_string();
    let mut c = row("amy", "English (United States)");
    c.key = "third".to_string();
    let sorted = sort_selector_rows(vec![a, row("🇬🇧 Emma", "English"), b, row("alan", "English (United Kingdom)"), c]);
    let keys: Vec<String> = sorted.iter().map(|r| r.key.clone()).collect();
    assert_eq!(keys, vec!["first", "second", "third", "alan", "🇬🇧 emma"]);
}
