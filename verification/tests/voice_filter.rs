use fox_reader::voice_filter::{get_language_list, FilterCriteria};

#[test]
fn default_criteria_show_every_voice() {
    let c = FilterCriteria::default();
    assert_eq!(c.selected_language, "All");
    assert!(c.search_text.is_empty());
    assert!(!c.show_downloaded_only);
    assert!(c.matches_voice("English", "🇺🇸 Heart - Female United States", false));
}

#[test]
fn criteria_narrow_the_list() {
    let mut c = FilterCriteria::default();
    c.filter_by_language("Japanese");
    assert!(!c.matches_voice("English", "Heart", true));
    assert!(c.matches_voice("Japanese", "Kumo", false));
    c.filter_by_search("KU");
    assert!(c.matches_voice("Japanese", "Kumo", false));
    assert!(!c.matches_voice("Japanese", "Alpha", false));
    c.filter_downloaded_voices();
    assert!(!c.matches_voice("Japanese", "Kumo", false));
    assert!(c.matches_voice("Japanese", "kumo", true));
    c.show_all_voices();
    c.filter_by_language("All");
    c.filter_by_search("");
    assert!(c.matches_voice("French", "Siwis", false));
}

#[test]
fn languages_listed_once_in_order() {
    let langs: Vec<String> = vec!["Spanish", "English", "Japanese", "English", "Chinese", "Spanish"]
        .into_iter()
        .map(String::from)
        .collect();
    assert_eq!(get_language_list(&langs), vec!["Chinese", "English", "Japanese", "Spanish"]);
    assert!(get_language_list(&Vec::new()).is_empty());
}
