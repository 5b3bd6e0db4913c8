//! Plain data carried by the application shell around the core:
//! languages, logging levels, themes, pages, configuration, and the
//! commands the interface sends. Only the data and its pure readers
//! live here; rendering, translation and file handling stay with the
//! shell.

use vstd::prelude::*;

verus! {

/// Anything the shell can render in the active interface language.
/// The shell owns the translation tables, so the implementations live
/// with it.
pub trait Localized {
    fn localize(&self) -> String;
}

/// The interface languages.
#[derive(Debug, Clone, Copy, PartialEq, Eq, Structural)]
pub enum Language {
    English,
    Ukrainian,
}

impl Default for Language {
    fn default() -> (r: Self)
        ensures
            r == Language::English,
    {
        Language::English
    }
}

impl Language {
    /// The locale code of this language.
    pub open spec fn code_spec(self) -> Seq<char> {
        match self {
            Language::English => "en"@,
            Language::Ukrainian => "ua"@,
        }
    }

    pub fn code(&self) -> (r: String)
        ensures
            r@ == self.code_spec(),
    {
        let code = match self {
            Language::English => "en",
            Language::Ukrainian => "ua",
        };
        code.to_owned()
    }
}

/// The fixed interface texts, named by their translation keys.
#[derive(Debug, Clone, Copy, PartialEq, Eq, Structural)]
pub enum LocalizedLabel {
    NavigationMenu,
    AboutDescription,
    AboutDeveloper,
    AboutCheckGithub,
    AboutLatestRelease,
    ButtonApply,
    ButtonSave,
    SettingsAppHeader,
    SettingsAppLanguage,
    SettingsNoteRestartNeeded,
}

impl LocalizedLabel {
    /// The translation key under which this label is looked up.
    pub fn translation_key(&self) -> (r: &'static str) {
        match self {
            LocalizedLabel::NavigationMenu => "Navigation.Label.Menu",
            LocalizedLabel::AboutDescription => "Page.About.Description",
            LocalizedLabel::AboutDeveloper => "Page.About.Developer",
            LocalizedLabel::AboutCheckGithub => "Page.About.CheckGithub",
            LocalizedLabel::AboutLatestRelease => "Page.About.LatestRelease",
            LocalizedLabel::ButtonApply => "Button.Apply",
            LocalizedLabel::ButtonSave => "Button.Save",
            LocalizedLabel::SettingsAppHeader => "Page.Settings.App.Header",
            LocalizedLabel::SettingsAppLanguage => "Page.Settings.App.Label.Language",
            LocalizedLabel::SettingsNoteRestartNeeded => "Page.Settings.Note.RestartNeeded",
        }
    }
}

/// How much the shell logs.
#[derive(Debug, Clone, Copy, PartialEq, Eq, Structural)]
pub enum LogLevel {
    Off,
    Error,
    Warn,
    Info,
    Debug,
    Trace,
}

impl Default for LogLevel {
    fn default() -> (r: Self)
        ensures
            r == LogLevel::Off,
    {
        LogLevel::Off
    }
}

/// The color themes the shell offers.
#[derive(Debug, Clone, Copy, PartialEq, Eq, Structural)]
pub enum Theme {
    StandardDark,
    StandardLight,
    CarlDark,
    NordDark,
    NordLight,
    TokyoNight,
    TokyoNightStorm,
}

impl Default for Theme {
    fn default() -> (r: Self)
        ensures
            r == Theme::TokyoNightStorm,
    {
        Theme::TokyoNightStorm
    }
}

impl Theme {
    /// The name shown for this theme.
    pub fn display_name(&self) -> (r: &'static str) {
        match self {
            Theme::StandardDark => "Standard Dark",
            Theme::StandardLight => "Standard Light",
            Theme::CarlDark => "Carl Dark",
            Theme::NordDark => "Nord Dark",
            Theme::NordLight => "Nord Light",
            Theme::TokyoNight => "Tokyo Night",
            Theme::TokyoNightStorm => "Tokyo Night Storm",
        }
    }
}

/// The pages of the shell.
#[derive(Debug, Clone, Copy, PartialEq, Eq, Structural)]
pub enum PageId {
    Database,
    Settings,
    About,
    Exit,
}

impl Default for PageId {
    fn default() -> (r: Self)
        ensures
            r == PageId::Database,
    {
        PageId::Database
    }
}

/// What the interface asks the shell to do.
#[derive(Debug, Clone, Copy, PartialEq, Eq, Structural)]
pub enum UiCommand {
    ChangePage(PageId),
    ChangeConfigLogLevel(LogLevel),
    ChangeConfigLanguage(Language),
    ChangeTheme(Theme),
    SaveConfig,
    SynchronizeConfig,
}

/// The persisted shell configuration.
#[derive(Debug, Clone, Copy, PartialEq, Eq, Structural)]
pub struct Config {
    pub language: Language,
    pub log_level: LogLevel,
    pub theme: Theme,
}

impl Default for Config {
    fn default() -> (r: Self)
        ensures
            r.language == Language::English,
            r.log_level == LogLevel::Off,
            r.theme == Theme::TokyoNightStorm,
    {
        Config { language: Language::English, log_level: LogLevel::Off, theme: Theme::TokyoNightStorm }
    }
}

/// The log writer's configuration.
#[derive(Debug, Clone, Copy, PartialEq, Eq, Structural)]
pub struct Logger {
    pub log_level: LogLevel,
}

impl Logger {
    /// Adopts the level the configuration asks for.
    pub fn from_config(config: &Config) -> (r: Self)
        ensures
            r.log_level == config.log_level,
    {
        Logger { log_level: config.log_level }
    }
}

/// Why setting up the log writer failed.
#[derive(Debug)]
pub enum LogError {
    IO(String),
    SetLoggerError(String),
    CurrentDirectory(String),
    LogDirectory(String),
}

/// The files the shell keeps beside the executable or in the user's
/// configuration directory.
#[derive(Debug, Clone, Copy, PartialEq, Eq, Structural)]
pub enum FileType {
    Config,
    IgnoredDirectories,
    AcceptedExtensions,
    Logs,
}

impl FileType {
    /// The file or directory name this kind is stored under.
    pub fn path_id(&self) -> (r: &'static str) {
        match self {
            FileType::Config => "config.toml",
            FileType::IgnoredDirectories => "ignored_directories.txt",
            FileType::AcceptedExtensions => "accepted_extensions.txt",
            FileType::Logs => "logs",
        }
    }
}

/// The user-editable admission lists as loaded from their files.
#[derive(Debug)]
pub struct IgnoreSettings {
    pub accepted_extensions: Vec<String>,
    pub ignored_directories: Vec<String>,
}

/// Everything the shell reads at startup.
#[derive(Debug)]
pub struct AppFiles {
    pub config: Config,
    pub ignore: IgnoreSettings,
}

} // verus!
