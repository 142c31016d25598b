use orpheus::config::{Config, ServerConfig};

#[test]
fn test_read_config() {
    let cfg = Config::new(ServerConfig::new(
        String::from("./accounts-db"),
        String::from("0.0.0.0:5814"),
    ));
    assert_eq!(cfg.server().account_data_path(), "./accounts-db");
    assert_eq!(cfg.server().bind_address(), "0.0.0.0:5814");
}

#[test]
fn test_change_config() {
    let mut cfg = Config::new(ServerConfig::new(
        String::from("./accounts-db"),
        String::from("0.0.0.0:5814"),
    ));
    cfg.server_mut().set_account_data_path("data_path".into());
    assert_eq!(cfg.server().account_data_path(), "data_path");
    assert_eq!(cfg.server().bind_address(), "0.0.0.0:5814");
}
