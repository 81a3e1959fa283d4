use vstd::prelude::*;

verus! {

/// Process configuration. The fields mirror the configuration file; the
/// values built here are the documented defaults, used whenever no file
/// overrides them. Reading a file is the embedding program's business.
pub struct Settings {
    pub server: Server,
}

pub struct Server {
    pub name: String,
    pub version: String,
    pub description: String,
    pub network: Network,
    pub db: Database,
}

pub struct Network {
    pub host: String,
    pub port: u16,
    pub preferred_connection: String,
    pub ssl: bool,
    pub timeout: u64,
    pub max_connections: u32,
    pub max_memory: u32,
    pub concurrency: bool,
    pub tls_cert: String,
    pub tls_key: String,
    pub tls_client_cert: String,
    pub tls_client_key: String,
}

pub struct Database {
    pub path: String,
    pub backup_path: String,
    pub max_size: u32,
    pub backup_interval: u64,
    pub compression: bool,
    pub enable_logging: bool,
}

impl Settings {
    /// The default configuration.
    pub fn new() -> (s: Settings)
        ensures
            s.server.name@ == "Default Server"@,
            s.server.version@ == "1.0"@,
            s.server.description@ == "A default server configuration"@,
            s.server.network.host@ == "127.0.0.1"@,
            s.server.network.port == 8080u16,
            s.server.network.preferred_connection@ == "http"@,
            !s.server.network.ssl,
            s.server.network.timeout == 30u64,
            s.server.network.max_connections == 100u32,
            s.server.network.max_memory == 512u32,
            s.server.network.concurrency,
            s.server.network.tls_cert@.len() == 0,
            s.server.network.tls_key@.len() == 0,
            s.server.network.tls_client_cert@.len() == 0,
            s.server.network.tls_client_key@.len() == 0,
            s.server.db.path@ == "db.sqlite"@,
            s.server.db.backup_path@ == "backup.sqlite"@,
            s.server.db.max_size == 1024u32,
            s.server.db.backup_interval == 3600u64,
            s.server.db.compression,
            s.server.db.enable_logging,
    {
        proof {
            reveal_strlit("");
        }
        Settings {
            server: Server {
                name: "Default Server".to_owned(),
                version: "1.0".to_owned(),
                description: "A default server configuration".to_owned(),
                network: Network {
                    host: "127.0.0.1".to_owned(),
                    port: 8080,
                    preferred_connection: "http".to_owned(),
                    ssl: false,
                    timeout: 30,
                    max_connections: 100,
                    max_memory: 512,
                    concurrency: true,
                    tls_cert: "".to_owned(),
                    tls_key: "".to_owned(),
                    tls_client_cert: "".to_owned(),
                    tls_client_key: "".to_owned(),
                },
                db: Database {
                    path: "db.sqlite".to_owned(),
                    backup_path: "backup.sqlite".to_owned(),
                    max_size: 1024,
                    backup_interval: 3600,
                    compression: true,
                    enable_logging: true,
                },
            },
        }
    }
}

} // verus!
