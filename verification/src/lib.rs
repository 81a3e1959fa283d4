mod commands;
mod executor;
mod laws;
mod num;
mod parser;
mod settings;
mod store;
mod value;

pub use commands::CommandError;
pub use commands::CommandType;
pub use commands::CommandsList;
pub use commands::EchoCommand;
pub use commands::HelpCommand;
pub use commands::PingCommand;
pub use commands::SetCommand;
pub use commands::extract_command_name;
pub use commands::get_command_instance;
pub use commands::parse_command_parts;
pub use commands::tokenize_command;

pub use executor::CommandExecutor;
pub use executor::lemma_del_absent;
pub use executor::lemma_del_twice;
pub use executor::lemma_echo_total;
pub use executor::lemma_get_absent;
pub use executor::lemma_last_write_wins;
pub use executor::lemma_set_then_get;
pub use executor::spec_del;
pub use executor::spec_execute;
pub use executor::spec_help_text;
pub use executor::spec_respond;

pub use laws::lemma_incremental_feed;
pub use laws::lemma_parse_of_serialize;
pub use laws::lemma_round_trip;

pub use parser::ParseError;
pub use parser::ParseOutcome;
pub use parser::RespParser;
pub use parser::SpecParse;
pub use parser::spec_parse;

pub use settings::Database;
pub use settings::Network;
pub use settings::Server;
pub use settings::Settings;

pub use store::Store;

pub use value::Value;
pub use value::ValueModel;
pub use value::bytes_views;
pub use value::spec_serialize;
pub use value::spec_to_command;
pub use value::value_model;
pub use value::value_wf;
