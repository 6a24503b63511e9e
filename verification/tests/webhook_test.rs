use grapple::config::{Config, RepositoryMapping};
use grapple::errors::{ErrorKind, HexError};
use grapple::git_repository::GitRepository;
use grapple::github::api::{PingEvent, PushEvent, Repository};
use grapple::github::Event;
use grapple::webhook::{admission, find_mapping, Admission, Webhook, LIMIT};

const SECRET: &str = "some-secret";
const PAYLOAD: &[u8] = b"blah-blah-blah";
const SIGNATURE: &str = "sha1=736d7f9342f2a7d239afa5513a4bb2283e0e1588";

fn mapping(from: &str, push_uri: &str, secret: &str) -> RepositoryMapping {
    RepositoryMapping {
        from: from.to_string(),
        push_uri: push_uri.to_string(),
        deploy_public_key: "/keys/id_rsa.pub".to_string(),
        deploy_private_key: "/keys/id_rsa".to_string(),
        secret: secret.to_string(),
    }
}

fn config() -> Config {
    Config {
        mappings: vec![
            mapping("other/repo", "ssh://example.org/other.git", "nope"),
            mapping("aelve/guide", "ssh://example.org/first.git", SECRET),
            mapping("aelve/guide", "ssh://example.org/second.git", "different"),
        ],
    }
}

fn ping(full_name: &str) -> Event {
    Event::Ping(PingEvent {
        zen: "Keep it logically awesome.".to_string(),
        hook_id: 42,
        repository: Repository {
            full_name: full_name.to_string(),
            clone_url: format!("https://github.com/{}.git", full_name),
        },
    })
}

#[test]
fn admission_without_configuration_is_rejected() {
    match admission(None, true, Some(10)) {
        Admission::Reject(e) => assert!(matches!(e.kind, ErrorKind::ConfigurationNotAvailable)),
        _ => panic!("expected a rejection"),
    }
}

#[test]
fn admission_forwards_non_json() {
    let c = config();
    assert!(matches!(admission(Some(&c), false, Some(10)), Admission::Forward));
}

#[test]
fn admission_reads_up_to_the_limit() {
    let c = config();
    assert!(matches!(admission(Some(&c), true, Some(1234)), Admission::Read(1234)));
    assert!(matches!(admission(Some(&c), true, None), Admission::Read(0x50_000)));
    assert_eq!(LIMIT, 327_680);
}

#[test]
fn find_mapping_takes_the_first_match() {
    let c = config();
    assert_eq!(find_mapping(&c, "aelve/guide"), Some(1));
    assert_eq!(find_mapping(&c, "other/repo"), Some(0));
    assert_eq!(find_mapping(&c, "aelve/missing"), None);
}

#[test]
fn authenticate_accepts_a_valid_signature() {
    let c = config();
    let w = match Webhook::authenticate(&c, ping("aelve/guide"), PAYLOAD, Some(SIGNATURE)) {
        Ok(w) => w,
        Err(e) => panic!("rejected: {}", e.description()),
    };
    assert_eq!(w.mapping.push_uri, "ssh://example.org/first.git");
    assert_eq!(w.value.repository_name(), "aelve/guide");
}

#[test]
fn authenticate_accepts_upper_case_digits() {
    let c = config();
    let header = "sha1=736D7F9342F2A7D239AFA5513A4BB2283E0E1588";
    assert!(Webhook::authenticate(&c, ping("aelve/guide"), PAYLOAD, Some(header)).is_ok());
}

#[test]
fn authenticate_skips_five_bytes_whatever_they_are() {
    let c = config();
    let header = "md5:=736d7f9342f2a7d239afa5513a4bb2283e0e1588";
    assert!(Webhook::authenticate(&c, ping("aelve/guide"), PAYLOAD, Some(header)).is_ok());
}

#[test]
fn authenticate_refuses_a_wrong_signature() {
    let c = config();
    let header = "sha1=31302b00bad4d6d110a1188277c4d1060cb2c373";
    match Webhook::authenticate(&c, ping("aelve/guide"), PAYLOAD, Some(header)) {
        Err(e) => assert!(matches!(e.kind, ErrorKind::ValidationError)),
        Ok(_) => panic!("accepted a wrong signature"),
    }
}

#[test]
fn authenticate_refuses_a_changed_payload() {
    let c = config();
    match Webhook::authenticate(&c, ping("aelve/guide"), b"blah-blah-blah?", Some(SIGNATURE)) {
        Err(e) => assert!(matches!(e.kind, ErrorKind::ValidationError)),
        Ok(_) => panic!("accepted a changed payload"),
    }
}

#[test]
fn authenticate_uses_the_first_mapping_secret() {
    let c = Config {
        mappings: vec![
            mapping("aelve/guide", "ssh://example.org/first.git", "different"),
            mapping("aelve/guide", "ssh://example.org/second.git", SECRET),
        ],
    };
    match Webhook::authenticate(&c, ping("aelve/guide"), PAYLOAD, Some(SIGNATURE)) {
        Err(e) => assert!(matches!(e.kind, ErrorKind::ValidationError)),
        Ok(_) => panic!("the second mapping's secret was used"),
    }
}

#[test]
fn authenticate_without_mapping() {
    let c = config();
    match Webhook::authenticate(&c, ping("someone/else"), PAYLOAD, Some(SIGNATURE)) {
        Err(e) => assert!(matches!(e.kind, ErrorKind::MappingLookupError)),
        Ok(_) => panic!("accepted an unknown repository"),
    }
}

#[test]
fn authenticate_without_header() {
    let c = config();
    match Webhook::authenticate(&c, ping("aelve/guide"), PAYLOAD, None) {
        Err(e) => assert!(matches!(e.kind, ErrorKind::SignatureHeaderError(None))),
        Ok(_) => panic!("accepted an unsigned delivery"),
    }
}

#[test]
fn authenticate_with_odd_header() {
    let c = config();
    match Webhook::authenticate(&c, ping("aelve/guide"), PAYLOAD, Some("sha1=abc")) {
        Err(e) => assert!(matches!(e.kind, ErrorKind::SignatureHeaderError(Some(HexError::OddLength)))),
        Ok(_) => panic!("accepted an odd signature"),
    }
}

#[test]
fn authenticate_with_non_hex_header() {
    let c = config();
    match Webhook::authenticate(&c, ping("aelve/guide"), PAYLOAD, Some("sha1=abzg")) {
        Err(e) => match e.kind {
            ErrorKind::SignatureHeaderError(Some(HexError::InvalidHexCharacter { c, index })) => {
                assert_eq!(c, 'z');
                assert_eq!(index, 2);
            }
            _ => panic!("wrong error"),
        },
        Ok(_) => panic!("accepted a non-hex signature"),
    }
}

#[test]
fn authenticate_with_empty_signature() {
    let c = config();
    match Webhook::authenticate(&c, ping("aelve/guide"), PAYLOAD, Some("sha1=")) {
        Err(e) => assert!(matches!(e.kind, ErrorKind::ValidationError)),
        Ok(_) => panic!("accepted an empty signature"),
    }
}

#[test]
fn authenticate_a_push_event() {
    let c = config();
    let event = Event::Push(PushEvent {
        git_ref: "refs/heads/master".to_string(),
        head: "abc".to_string(),
        before: "def".to_string(),
        size: 0,
        distinct_size: 0,
        commits: Vec::new(),
        repository: Repository {
            full_name: "aelve/guide".to_string(),
            clone_url: "https://github.com/aelve/guide.git".to_string(),
        },
    });
    let w = Webhook::authenticate(&c, event, PAYLOAD, Some(SIGNATURE)).ok().unwrap();
    assert_eq!(w.value.clone_uri(), "https://github.com/aelve/guide.git");
}

#[test]
fn accept_passes_the_verdict_on() {
    let m = mapping("aelve/guide", "ssh://example.org/first.git", SECRET);
    let w = Webhook::accept(ping("aelve/guide"), &m, true).ok().unwrap();
    assert_eq!(w.value.repository_name(), "aelve/guide");
    assert_eq!(w.mapping.secret, SECRET);
    match Webhook::accept(ping("aelve/guide"), &m, false) {
        Err(e) => assert!(matches!(e.kind, ErrorKind::ValidationError)),
        Ok(_) => panic!("accepted without a valid signature"),
    }
}

#[test]
fn authenticate_unmapped_repository_with_short_header() {
    let c = Config { mappings: Vec::new() };
    match Webhook::authenticate(&c, ping("aelve/guide"), PAYLOAD, Some("sha")) {
        Err(e) => assert!(matches!(e.kind, ErrorKind::MappingLookupError)),
        Ok(_) => panic!("accepted an unknown repository"),
    }
}
