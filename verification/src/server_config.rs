//! The server's configuration.

use vstd::prelude::*;
use vstd::string::*;
use crate::record::Config;

verus! {

/// The configuration of a server.
#[derive(Debug, Clone)]
pub struct ServerConfig {
    pub engine: Config,
    pub http_addr: String,
    pub udp_addr: String,
    pub api_keys: Vec<String>,
    pub udp_api_key: Option<String>,
    pub max_udp_packet_size: usize,
}

impl Default for ServerConfig {
    fn default() -> (r: Self)
        ensures
            r.engine.is_default(),
            r.http_addr@ == "0.0.0.0:8080"@,
            r.udp_addr@ == "0.0.0.0:9090"@,
            r.api_keys@.len() == 0,
            r.udp_api_key is None,
            r.max_udp_packet_size == 1400,
    {
        Self {
            engine: Config::default(),
            http_addr: "0.0.0.0:8080".to_owned(),
            udp_addr: "0.0.0.0:9090".to_owned(),
            api_keys: Vec::new(),
            udp_api_key: None,
            max_udp_packet_size: 1400,
        }
    }
}

/// The arguments of the server's command line.
#[derive(Debug, Clone)]
pub struct CliArgs {
    pub config: Option<String>,
    pub data_dir: String,
    pub http_addr: String,
    pub udp_addr: String,
    pub api_key: Option<String>,
}

impl Default for CliArgs {
    fn default() -> (r: Self)
        ensures
            r.config is None,
            r.data_dir@ == "./data"@,
            r.http_addr@ == "0.0.0.0:8080"@,
            r.udp_addr@ == "0.0.0.0:9090"@,
            r.api_key is None,
    {
        Self {
            config: None,
            data_dir: "./data".to_owned(),
            http_addr: "0.0.0.0:8080".to_owned(),
            udp_addr: "0.0.0.0:9090".to_owned(),
            api_key: None,
        }
    }
}

/// An address: the argument, unless that is the default and the file has
/// another.
pub open spec fn chosen_addr(arg: Seq<char>, from_file: Seq<char>, default: Seq<char>) -> Seq<char> {
    if arg != default || from_file == default {
        arg
    } else {
        from_file
    }
}

fn choose_addr(arg: &String, from_file: String, default: &str) -> (r: String)
    ensures
        r@ == chosen_addr(arg@, from_file@, default@),
{
    let usual = default.to_owned();
    if *arg != usual || from_file == usual {
        arg.clone()
    } else {
        from_file
    }
}

/// The configuration that the arguments and the configuration file, if there is
/// one, make.
pub fn resolve_server_config(cli: &CliArgs, file: ServerConfig) -> (r: ServerConfig)
    ensures
        r.engine == (Config {
            data_dir: if cli.data_dir@.len() > 0 {
                cli.data_dir
            } else {
                file.engine.data_dir
            },
            ..file.engine
        }),
        r.http_addr@ == chosen_addr(cli.http_addr@, file.http_addr@, "0.0.0.0:8080"@),
        r.udp_addr@ == chosen_addr(cli.udp_addr@, file.udp_addr@, "0.0.0.0:9090"@),
        r.api_keys@ == (match cli.api_key {
            Some(key) => file.api_keys@.push(key),
            None => file.api_keys@,
        }),
        r.udp_api_key == file.udp_api_key,
        r.max_udp_packet_size == file.max_udp_packet_size,
{
    let mut server_config = file;
    if cli.data_dir.as_str().unicode_len() > 0 {
        server_config.engine.data_dir = cli.data_dir.clone();
    }
    server_config.http_addr = choose_addr(
        &cli.http_addr,
        server_config.http_addr,
        "0.0.0.0:8080",
    );
    server_config.udp_addr = choose_addr(&cli.udp_addr, server_config.udp_addr, "0.0.0.0:9090");
    if let Some(key) = &cli.api_key {
        server_config.api_keys.push(key.clone());
    }
    server_config
}

/// An argument that was given wins; without one, that is where it is the default, the
/// file's address is taken.
pub proof fn law_chosen_addr(arg: Seq<char>, from_file: Seq<char>, default: Seq<char>)
    ensures
        arg != default ==> chosen_addr(arg, from_file, default) == arg,
        arg == default ==> chosen_addr(arg, from_file, default) == from_file,
{
}

} // verus!
