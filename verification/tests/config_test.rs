use grapple::config::{Config, RepositoryMapping};
use grapple::errors::{Error, ErrorKind, BAD_REQUEST};
use grapple::git_repository::GitRepository;
use grapple::github::api::{PingEvent, PushEvent, Repository};
use grapple::github::Event;
use grapple::github::repository::Repository as NamedRepository;
use grapple::server::{index, load_config};

fn sample() -> Config {
    Config {
        mappings: vec![RepositoryMapping {
            from: "aelve/guide".to_string(),
            push_uri: "ssh://git@gitlab.frielforreal.com:58432/aelve/guide.git".to_string(),
            deploy_public_key: "/var/lib/grapple/aelve_rsa.pub".to_string(),
            deploy_private_key: "/var/lib/grapple/aelve_rsa".to_string(),
            secret: "SECRET HERE".to_string(),
        }],
    }
}

#[test]
fn index_greets() {
    assert_eq!(index(), "Hello, world!");
}

#[test]
fn json_configuration_comes_first() {
    let mut yaml_tried = false;
    let res = load_config(|| Ok(sample()), || {
        yaml_tried = true;
        Err(Error::from_kind(ErrorKind::ConfigParseError))
    });
    assert_eq!(res.ok().unwrap().mappings[0].from, "aelve/guide");
    assert!(!yaml_tried);
}

#[test]
fn yaml_configuration_when_json_fails() {
    let res = load_config(
        || Err(Error::from_kind(ErrorKind::ConfigFileError("config.json".to_string()))),
        || Ok(sample()),
    );
    assert_eq!(res.ok().unwrap().mappings[0].secret, "SECRET HERE");
}

#[test]
fn both_configurations_fail() {
    let res = load_config(
        || Err(Error::from_kind(ErrorKind::ConfigFileError("config.json".to_string()))),
        || Err(Error::from_kind(ErrorKind::ConfigParseError)),
    );
    match res {
        Err(e) => match e.kind {
            ErrorKind::ConfigurationError(errs) => {
                assert_eq!(errs.len(), 2);
                assert!(matches!(&errs[0].kind, ErrorKind::ConfigFileError(f) if f == "config.json"));
                assert!(matches!(errs[1].kind, ErrorKind::ConfigParseError));
            }
            _ => panic!("wrong error"),
        },
        Ok(_) => panic!("no configuration was loaded"),
    }
}

#[test]
fn mappings_clone_field_by_field() {
    let m = sample().mappings[0].clone();
    assert_eq!(m.from, "aelve/guide");
    assert_eq!(m.push_uri, "ssh://git@gitlab.frielforreal.com:58432/aelve/guide.git");
    assert_eq!(m.deploy_public_key, "/var/lib/grapple/aelve_rsa.pub");
    assert_eq!(m.deploy_private_key, "/var/lib/grapple/aelve_rsa");
    assert_eq!(m.secret, "SECRET HERE");
}

#[test]
fn error_descriptions_and_status() {
    let e = Error::from_kind(ErrorKind::ValidationError);
    assert_eq!(e.description(), "webhook received was not valid");
    assert_eq!(e.status(), BAD_REQUEST);
    assert_eq!(BAD_REQUEST, 400);
    assert_eq!(
        Error::from_kind(ErrorKind::MappingLookupError).description(),
        "could not find mapping for webhook received"
    );
    assert_eq!(
        Error::from_kind(ErrorKind::ConfigurationNotAvailable).description(),
        "configuration not available"
    );
    assert!(matches!(Error::from_kind(ErrorKind::RepositoryOpenError).kind(), ErrorKind::RepositoryOpenError));
}

#[test]
fn repositories_name_themselves() {
    let r = Repository {
        full_name: "AaronFriel/grapple".to_string(),
        clone_url: "https://github.com/AaronFriel/grapple.git".to_string(),
    };
    assert_eq!(r.repository_name(), "AaronFriel/grapple");
    assert_eq!(r.clone_uri(), "https://github.com/AaronFriel/grapple.git");
    let n = NamedRepository { full_name: "AaronFriel/grapple".to_string() };
    assert_eq!(n.name(), "AaronFriel/grapple");
}

#[test]
fn events_name_their_repository() {
    let repo = || Repository {
        full_name: "aelve/guide".to_string(),
        clone_url: "https://github.com/aelve/guide.git".to_string(),
    };
    let ping = Event::Ping(PingEvent { zen: "Design for failure.".to_string(), hook_id: 1, repository: repo() });
    let push = Event::Push(PushEvent {
        git_ref: "refs/heads/master".to_string(),
        head: "0000".to_string(),
        before: "1111".to_string(),
        size: 1,
        distinct_size: 1,
        commits: Vec::new(),
        repository: repo(),
    });
    assert_eq!(ping.repository_name(), "aelve/guide");
    assert_eq!(push.repository_name(), "aelve/guide");
    assert_eq!(ping.clone_uri(), "https://github.com/aelve/guide.git");
    assert_eq!(push.clone_uri(), "https://github.com/aelve/guide.git");
}

#[test]
fn error_messages() {
    assert_eq!(
        Error::from_kind(ErrorKind::ConfigFileError("config.json".to_string())).message(),
        "failed to load configuration file 'config.json'"
    );
    assert_eq!(Error::from_kind(ErrorKind::ValidationError).message(), "webhook received was not valid");
    let both = Error::from_kind(ErrorKind::ConfigurationError(vec![
        Error::from_kind(ErrorKind::ConfigFileError("config.json".to_string())),
        Error::from_kind(ErrorKind::ConfigParseError),
    ]));
    assert_eq!(
        both.message(),
        "configuration file not loaded, errors:\n[failed to load configuration file 'config.json', error parsing configuration file]"
    );
    assert_eq!(
        Error::from_kind(ErrorKind::ConfigurationError(Vec::new())).message(),
        "configuration file not loaded, errors:\n[]"
    );
}
