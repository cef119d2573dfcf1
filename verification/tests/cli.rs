use fox_reader::cli::check_voice_style;

#[test]
fn voice_style_must_be_known() {
    assert_eq!(check_voice_style("af_heart"), Ok(()));
    assert_eq!(check_voice_style("pm_santa"), Ok(()));
    assert_eq!(
        check_voice_style("xx_nobody"),
        Err("Error: Invalid voice style 'xx_nobody'. Use --list-voices to see available options.".to_string())
    );
}
