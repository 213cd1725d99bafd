use torrent::config::{Config, ConfigFile};

#[test]
fn default_settings() {
    let config = Config::default();
    assert_eq!(config.download_dir, "downloads");
    assert_eq!(config.metadata_dir, "metadata");
    assert_eq!(config.data_write_frequency_secs, 5);
    assert_eq!(
        config.default_trackers,
        vec![
            "udp://tracker.opentrackr.org:1337/announce".to_string(),
            "udp://tracker.openbittorrent.com:80/announce".to_string(),
        ]
    );
}

#[test]
fn settings_come_from_the_file_where_there_is_one() {
    let loaded = Config::load(ConfigFile::Unreadable);
    assert_eq!(loaded.config, Config::default());
    assert!(loaded.write_back && !loaded.warn);

    let loaded = Config::load(ConfigFile::Malformed);
    assert_eq!(loaded.config, Config::default());
    assert!(!loaded.write_back && loaded.warn);

    let mine = Config { download_dir: "here".to_string(), ..Config::default() };
    let loaded = Config::load(ConfigFile::Read(mine.clone()));
    assert_eq!(loaded.config, mine);
    assert!(!loaded.write_back && !loaded.warn);
}

#[test]
fn settings_are_shown() {
    assert_eq!(
        Config::default().describe(),
        "download_dir = \"downloads\"\nlisten_port = 6881\n"
    );
    let mine = Config { download_dir: "here".to_string(), ..Config::default() };
    assert_eq!(mine.describe(), "download_dir = \"here\"\nlisten_port = 6881\n");
}
