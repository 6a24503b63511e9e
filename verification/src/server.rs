use vstd::prelude::*;

use crate::config::Config;
use crate::errors::{Error, ErrorKind};

verus! {

/// The greeting the server answers its root with.
pub fn index() -> (greeting: &'static str)
    ensures
        greeting@ == "Hello, world!"@,
{
    "Hello, world!"
}

/// The outcome of loading the configuration from the attempt with JSON and,
/// when that fails, the one with YAML: the first that succeeds, else an error
/// that holds both errors in that order.
pub open spec fn config_outcome(
    json: Result<Config, Error>,
    yaml: Result<Config, Error>,
    res: Result<Config, Error>,
) -> bool {
    match json {
        Ok(_) => res == json,
        Err(json_err) => match yaml {
            Ok(_) => res == yaml,
            Err(yaml_err) => res matches Err(e) && e.kind matches ErrorKind::ConfigurationError(
                errs,
            ) && errs@ == seq![json_err, yaml_err],
        },
    }
}

/// Loads the configuration: `load_json` reads and parses `config.json`; only
/// when it fails is `load_yaml` (reading `config.yaml`) tried. The first that
/// succeeds gives the configuration; when both fail, the error lists both
/// failures, JSON's first.
pub fn load_config<J, Y>(load_json: J, load_yaml: Y) -> (res: Result<Config, Error>) where
    J: FnOnce() -> Result<Config, Error>,
    Y: FnOnce() -> Result<Config, Error>,

    requires
        call_requires(load_json, ()),
        call_requires(load_yaml, ()),
    ensures
        exists|json: Result<Config, Error>|
            #![trigger call_ensures(load_json, (), json)]
            call_ensures(load_json, (), json) && match json {
                Ok(_) => res == json,
                Err(_) => exists|yaml: Result<Config, Error>|
                    #![trigger call_ensures(load_yaml, (), yaml)]
                    call_ensures(load_yaml, (), yaml) && config_outcome(json, yaml, res),
            },
{
    let json = load_json();
    let json_err = match json {
        Ok(config) => {
            return Ok(config);
        },
        Err(e) => e,
    };
    let ghost json_res: Result<Config, Error> = Err(json_err);
    let yaml = load_yaml();
    let ghost yaml_res = yaml;
    let yaml_err = match yaml {
        Ok(config) => {
            return Ok(config);
        },
        Err(e) => e,
    };
    let mut errs: Vec<Error> = Vec::new();
    errs.push(json_err);
    errs.push(yaml_err);
    proof {
        assert(errs@ =~= seq![json_res->Err_0, yaml_res->Err_0]);
    }
    Err(Error::from_kind(ErrorKind::ConfigurationError(errs)))
}

} // verus!
