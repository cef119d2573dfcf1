use fox_reader::voices::VoiceManager;

#[test]
fn kokoros_voices_listed_in_engine_order() {
    let v = VoiceManager::get_kokoros_voices();
    assert_eq!(v.len(), 54);
    assert_eq!(v[0], "af_heart");
    assert_eq!(v[53], "pm_santa");
}

#[test]
fn kokoros_key_prefix() {
    assert!(VoiceManager::is_kokoros_voice("kokoros_af_sky"));
    assert!(!VoiceManager::is_kokoros_voice("af_sky"));
    assert_eq!(VoiceManager::get_kokoros_style_from_key("kokoros_bf_emma"), "bf_emma");
    assert_eq!(VoiceManager::get_kokoros_style_from_key("bf_emma"), "af_sky");
    assert_eq!(VoiceManager::get_kokoros_style_from_key("kokoros_"), "");
}

#[test]
fn language_of_style_prefix() {
    let (code, name, region, flag) = VoiceManager::get_language_info_from_voice_style("bm_george");
    assert_eq!((code.as_str(), name.as_str(), region.as_str(), flag.as_str()), ("en-GB", "English", "United Kingdom", "🇬🇧"));
    let (code, _, region, _) = VoiceManager::get_language_info_from_voice_style("zz_unknown");
    assert_eq!((code.as_str(), region.as_str()), ("en-US", "United States"));
    let (code, _, _, _) = VoiceManager::get_language_info_from_voice_style("é");
    assert_eq!(code, "en-US");
    let (code, _, _, _) = VoiceManager::get_language_info_from_voice_style("pm_alex");
    assert_eq!(code, "pt-BR");
}

#[test]
fn voice_traits_and_grades() {
    assert_eq!(VoiceManager::get_voice_traits("af_heart"), "🚺❤️");
    assert_eq!(VoiceManager::get_voice_traits("am_santa"), "🚹🤏");
    assert_eq!(VoiceManager::get_voice_traits("bm_daniel"), "🚹");
    assert_eq!(VoiceManager::get_voice_traits("x"), "");
    assert_eq!(VoiceManager::get_voice_quality_grade("af_bella"), "A-");
    assert_eq!(VoiceManager::get_voice_quality_grade("am_adam"), "F+");
    assert_eq!(VoiceManager::get_voice_quality_grade("unknown"), "C");
}

#[test]
fn friendly_names() {
    assert_eq!(VoiceManager::get_friendly_voice_name("af_heart"), "🇺🇸 Heart - Female United States");
    assert_eq!(VoiceManager::get_friendly_voice_name("jf_gongitsune"), "🇯🇵 Gongitsune - Female Japan");
    assert_eq!(VoiceManager::get_friendly_voice_name("em_santa_claus"), "🇪🇸 Santa Claus - Male Spain");
    assert_eq!(VoiceManager::get_friendly_voice_name("q"), "🇺🇸 Q - Unknown United States");
}

#[test]
fn voice_rows_sorted_by_region_then_key() {
    let rows = VoiceManager::get_kokoros_voice_rows();
    assert_eq!(rows.len(), 54);
    assert_eq!(rows[0].key, "pf_dora");
    assert_eq!(rows[0].language.region, "Brazil");
    for w in rows.windows(2) {
        let a = (&w[0].language.region, &w[0].key);
        let b = (&w[1].language.region, &w[1].key);
        assert!(a <= b);
    }
    let heart = rows.iter().find(|r| r.key == "af_heart").unwrap();
    assert_eq!(heart.is_default, Some(true));
    assert_eq!(heart.quality, "A");
    assert_eq!(heart.name, "🇺🇸 Heart - Female United States");
    assert_eq!(rows.iter().filter(|r| r.is_default == Some(true)).count(), 1);
}

#[test]
fn country_order() {
    let c = VoiceManager::get_country_sort_order();
    assert_eq!(c.len(), 9);
    assert_eq!(c[0], "United States");
    assert_eq!(c[8], "Brazil");
}

#[test]
fn default_voice_from_module_config() {
    let config = "GenericExecuteSynth \"x\"\nDefaultVoice \"af_heart\"\n\nAddVoice \"en-US\" \"female1\" \"af_heart\"";
    assert_eq!(VoiceManager::get_default_voice(config), Some("\"af_heart\"".to_string()));
    assert_eq!(VoiceManager::get_default_voice("nothing here"), None);
    assert_eq!(VoiceManager::get_default_voice("  DefaultVoice"), None);
}

#[test]
fn voices_grouped_by_region() {
    let groups = VoiceManager::get_voices_grouped_by_country();
    let regions: Vec<&str> = groups.iter().map(|(r, _)| r.as_str()).collect();
    assert_eq!(
        regions,
        vec!["Brazil", "China", "France", "India", "Italy", "Japan", "Spain", "United Kingdom", "United States"]
    );
    let total: usize = groups.iter().map(|(_, vs)| vs.len()).sum();
    assert_eq!(total, 54);
    for (region, vs) in groups.iter() {
        assert!(!vs.is_empty());
        for v in vs.iter() {
            assert_eq!(&v.language.region, region);
        }
        for w in vs.windows(2) {
            assert!(w[0].name <= w[1].name);
        }
    }
    let brazil: Vec<&str> = groups[0].1.iter().map(|v| v.key.as_str()).collect();
    assert_eq!(brazil, vec!["pm_alex", "pf_dora", "pm_santa"]);
}

#[test]
fn all_voices_by_key() {
    let all = VoiceManager::list_all_available_voices_with_kokoros();
    assert_eq!(all.len(), 54);
    for w in all.windows(2) {
        assert!(w[0].0 < w[1].0);
    }
    for (k, v) in all.iter() {
        assert_eq!(k, &v.key);
    }
    assert_eq!(all[0].0, "af_alloy");
    let heart = all.iter().find(|(k, _)| k == "af_heart").unwrap();
    assert_eq!(heart.1.is_default, Some(true));
    assert_eq!(heart.1.name, "🇺🇸 Heart - Female United States");
}
