//! The daemon's settings.
use vstd::prelude::*;
use vstd::string::*;
use crate::announce::LISTEN_PORT;
use crate::text::{append_decimal, decimal_text};

verus! {

/// The daemon's settings.
#[derive(Debug, Clone, PartialEq, Eq)]
pub struct Config {
    pub download_dir: String,
    pub metadata_dir: String,
    pub data_write_frequency_secs: u64,
    pub default_trackers: Vec<String>,
}

/// What the settings say.
pub struct ConfigView {
    pub download_dir: Seq<char>,
    pub metadata_dir: Seq<char>,
    pub data_write_frequency_secs: u64,
    pub default_trackers: Seq<Seq<char>>,
}

/// The texts of some strings.
pub open spec fn texts(strings: Seq<String>) -> Seq<Seq<char>> {
    strings.map_values(|s: String| s@)
}

/// The settings where nothing else is asked for.
pub open spec fn default_config() -> ConfigView {
    ConfigView {
        download_dir: "downloads"@,
        metadata_dir: "metadata"@,
        data_write_frequency_secs: 5,
        default_trackers: seq![
            "udp://tracker.opentrackr.org:1337/announce"@,
            "udp://tracker.openbittorrent.com:80/announce"@,
        ],
    }
}

impl Config {
    pub open spec fn view(&self) -> ConfigView {
        ConfigView {
            download_dir: self.download_dir@,
            metadata_dir: self.metadata_dir@,
            data_write_frequency_secs: self.data_write_frequency_secs,
            default_trackers: texts(self.default_trackers@),
        }
    }
}

impl Default for Config {
    fn default() -> (r: Self)
        ensures
            r@ == default_config(),
    {
        let mut trackers: Vec<String> = Vec::new();
        trackers.push(String::from_str("udp://tracker.opentrackr.org:1337/announce"));
        trackers.push(String::from_str("udp://tracker.openbittorrent.com:80/announce"));
        let r = Config {
            download_dir: String::from_str("downloads"),
            metadata_dir: String::from_str("metadata"),
            data_write_frequency_secs: 5,
            default_trackers: trackers,
        };
        assert(r@.default_trackers =~= default_config().default_trackers);
        r
    }
}

/// A setting that is a text as it is shown.
pub open spec fn setting_text(name: Seq<char>, value: Seq<char>) -> Seq<char> {
    name + " = \""@ + value + "\"\n"@
}

/// A setting that is a number as it is shown.
pub open spec fn number_setting_text(name: Seq<char>, value: nat) -> Seq<char> {
    name + " = "@ + decimal_text(value) + "\n"@
}

/// The settings as they are shown: where downloads go, and the port that is
/// announced to trackers.
pub open spec fn config_text(config: ConfigView) -> Seq<char> {
    setting_text("download_dir"@, config.download_dir) + number_setting_text("listen_port"@, LISTEN_PORT as nat)
}

/// Appends a setting that is a text.
fn append_setting(out: &mut String, name: &str, value: &str)
    ensures
        final(out)@ == old(out)@ + setting_text(name@, value@),
{
    let ghost before = out@;
    out.append(name);
    out.append(" = \"");
    out.append(value);
    out.append("\"\n");
    assert(out@ =~= before + setting_text(name@, value@));
}

/// Appends a setting that is a number.
fn append_number_setting(out: &mut String, name: &str, value: u64)
    ensures
        final(out)@ == old(out)@ + number_setting_text(name@, value as nat),
{
    let ghost before = out@;
    out.append(name);
    out.append(" = ");
    append_decimal(out, value);
    out.append("\n");
    assert(out@ =~= before + number_setting_text(name@, value as nat));
}

impl Config {
    /// The settings as they are shown.
    pub fn describe(&self) -> (r: String)
        ensures
            r@ == config_text(self@),
    {
        let mut out = String::new();
        append_setting(&mut out, "download_dir", self.download_dir.as_str());
        append_number_setting(&mut out, "listen_port", LISTEN_PORT as u64);
        assert(out@ =~= config_text(self@));
        out
    }
}

/// What came of looking for the settings file.
pub enum ConfigFile {
    /// There is no file that can be read.
    Unreadable,
    /// The file holds something else than settings.
    Malformed,
    /// The file holds these settings.
    Read(Config),
}

/// The settings to run with.
pub struct LoadedConfig {
    pub config: Config,
    /// Whether the settings are to be written to the file.
    pub write_back: bool,
    /// Whether to warn that the file was passed over.
    pub warn: bool,
}

impl Config {
    /// The settings to run with: those of the file, and otherwise the default
    /// ones, which are written out only where there was no file.
    pub fn load(file: ConfigFile) -> (r: LoadedConfig)
        ensures
            match file {
                ConfigFile::Unreadable => r.config@ == default_config() && r.write_back && !r.warn,
                ConfigFile::Malformed => r.config@ == default_config() && !r.write_back && r.warn,
                ConfigFile::Read(config) => r.config == config && !r.write_back && !r.warn,
            },
    {
        match file {
            ConfigFile::Unreadable => LoadedConfig {
                config: Config::default(),
                write_back: true,
                warn: false,
            },
            ConfigFile::Malformed => LoadedConfig {
                config: Config::default(),
                write_back: false,
                warn: true,
            },
            ConfigFile::Read(config) => LoadedConfig { config, write_back: false, warn: false },
        }
    }
}

} // verus!
