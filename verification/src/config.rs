use vstd::prelude::*;

verus! {

/// Where the change feed comes from.
#[derive(Clone, Debug)]
pub struct SourceConfig {
    pub connection_uri: String,
    pub database: String,
}

/// Console sink options: `pretty` asks for indented output.
#[derive(Clone, Debug)]
pub struct StdoutConfig {
    pub pretty: Option<bool>,
}

/// Append-only file sink options.
#[derive(Clone, Debug)]
pub struct FileConfig {
    pub path: String,
}

/// Secondary database sink options.
#[derive(Clone, Debug)]
pub struct MongoDBConfig {
    pub connection_uri: String,
}

/// One configured sink, loaded once at startup and immutable for the
/// process lifetime.
#[derive(Clone, Debug)]
pub enum SinksConfig {
    Stdout(StdoutConfig),
    File(FileConfig),
    MongoDB(MongoDBConfig),
}

/// The whole configuration: one source, any number of sinks.
#[derive(Clone, Debug)]
pub struct Config {
    pub source: SourceConfig,
    pub sinks: Vec<SinksConfig>,
}

} // verus!
