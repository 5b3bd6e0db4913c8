use xcheck_core::shell::{Config, FileType, Language, LocalizedLabel, LogLevel, Logger, PageId,
    Theme, UiCommand};

#[test]
fn language_codes() {
    assert_eq!(Language::English.code(), "en");
    assert_eq!(Language::Ukrainian.code(), "ua");
    assert_eq!(Language::default(), Language::English);
}

#[test]
fn config_defaults() {
    let config = Config::default();
    assert_eq!(config.language, Language::English);
    assert_eq!(config.log_level, LogLevel::Off);
    assert_eq!(config.theme, Theme::TokyoNightStorm);
}

#[test]
fn logger_takes_the_configured_level() {
    let mut config = Config::default();
    config.log_level = LogLevel::Debug;
    let logger = Logger::from_config(&config);
    assert_eq!(logger.log_level, LogLevel::Debug);
}

#[test]
fn file_type_path_ids() {
    assert_eq!(FileType::Config.path_id(), "config.toml");
    assert_eq!(FileType::IgnoredDirectories.path_id(), "ignored_directories.txt");
    assert_eq!(FileType::AcceptedExtensions.path_id(), "accepted_extensions.txt");
    assert_eq!(FileType::Logs.path_id(), "logs");
}

#[test]
fn theme_display_names() {
    assert_eq!(Theme::StandardDark.display_name(), "Standard Dark");
    assert_eq!(Theme::TokyoNightStorm.display_name(), "Tokyo Night Storm");
}

#[test]
fn translation_keys() {
    assert_eq!(LocalizedLabel::ButtonApply.translation_key(), "Button.Apply");
    assert_eq!(
        LocalizedLabel::SettingsNoteRestartNeeded.translation_key(),
        "Page.Settings.Note.RestartNeeded"
    );
}

#[test]
fn ui_commands_carry_their_payloads() {
    let command = UiCommand::ChangePage(PageId::About);
    assert!(matches!(command, UiCommand::ChangePage(PageId::About)));
    let command = UiCommand::ChangeConfigLanguage(Language::Ukrainian);
    assert!(matches!(command, UiCommand::ChangeConfigLanguage(Language::Ukrainian)));
    assert_eq!(PageId::default(), PageId::Database);
}
