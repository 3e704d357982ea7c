use cliprec::config::background_record_path;
use cliprec::errors::ConfigError;

#[test]
fn extracts_path_from_full_config() {
    let text = "\"UserLocalConfigStore\"\n{\n\t\"Software\"\n\t{\n\t\t\"Valve\"\n\t\t{\n\t\t\t\"SomeKey\"\t\t\"SomeValue\"\n\t\t}\n\t}\n\t\"OtherFlat\"\t\t\"1\"\n\t\"GameRecording\"\n\t{\n\t\t\"Unrelated\"\t\t\"x\"\n\t\t\"BackgroundRecordPath\"\t\t\"/data/recordings\"\n\t}\n\t\"Trailing\"\t\t\"y\"\n}\n";
    assert_eq!(background_record_path(text).unwrap(), "/data/recordings");
}

#[test]
fn surrounding_sections_do_not_change_the_path() {
    let plain = "\"R\" { \"GameRecording\" { \"BackgroundRecordPath\" \"/p\" } }";
    let noisy = "\"R\" { \"A\" { \"B\" { \"C\" \"1\" } } \"D\" \"2\" \"GameRecording\" { \"Z\" \"9\" \"BackgroundRecordPath\" \"/p\" \"After\" \"3\" } \"E\" { } }";
    assert_eq!(background_record_path(plain).unwrap(), "/p");
    assert_eq!(background_record_path(noisy).unwrap(), "/p");
}

#[test]
fn missing_key_path_is_an_error() {
    let text = "\"R\" { \"GameRecording\" { \"SomethingElse\" \"/p\" } }";
    assert_eq!(
        background_record_path(text).unwrap_err(),
        ConfigError::ConfigParse
    );
}

#[test]
fn missing_section_is_an_error() {
    let text = "\"R\" { \"Other\" { \"BackgroundRecordPath\" \"/p\" } }";
    assert_eq!(
        background_record_path(text).unwrap_err(),
        ConfigError::ConfigParse
    );
}

#[test]
fn unterminated_string_is_an_error() {
    let text = "\"R\" { \"GameRecording";
    assert_eq!(
        background_record_path(text).unwrap_err(),
        ConfigError::ConfigParse
    );
}

#[test]
fn stray_character_is_an_error() {
    let text = "\"R\" { x }";
    assert_eq!(
        background_record_path(text).unwrap_err(),
        ConfigError::ConfigParse
    );
}

#[test]
fn empty_text_is_an_error() {
    assert_eq!(
        background_record_path("").unwrap_err(),
        ConfigError::ConfigParse
    );
}

#[test]
fn first_matching_section_wins() {
    let text = "\"R\" { \"GameRecording\" { \"BackgroundRecordPath\" \"/first\" } \"GameRecording\" { \"BackgroundRecordPath\" \"/second\" } }";
    assert_eq!(background_record_path(text).unwrap(), "/first");
}
