use vstd::prelude::*;
use vstd::string::StringSliceAdditionalSpecFns;
use vstd::utf8::{encode_utf8, is_char_boundary};

use crate::config::{Config, MappingView, RepositoryMapping};
use crate::errors::{Error, ErrorKind, HexError};
use crate::git_repository::GitRepository;

verus! {

/// A webhook delivery that has been authenticated: the event, and the
/// mapping of the repository it is about.
pub struct Webhook<T> {
    pub value: T,
    pub mapping: RepositoryMapping,
}

/// The most payload bytes read when the server sets no limit for JSON.
pub const LIMIT: u64 = 0x50_000;

/// What to do with an incoming request before its payload is read.
pub enum Admission {
    /// Answer with this error.
    Reject(Error),
    /// Not a webhook delivery: leave the request to other routes.
    Forward,
    /// Read at most this many bytes of payload, then authenticate it.
    Read(u64),
}

/// A request is admitted when the service has a configuration and the body is
/// JSON; the payload is read up to the server's JSON limit, else `LIMIT`.
pub fn admission(config: Option<&Config>, is_json: bool, json_limit: Option<u64>) -> (res: Admission)
    ensures
        config is None ==> (res matches Admission::Reject(e) && e.kind
            == ErrorKind::ConfigurationNotAvailable),
        config is Some && !is_json ==> res is Forward,
        config is Some && is_json ==> res == Admission::Read(
            match json_limit {
                Some(l) => l,
                None => LIMIT,
            },
        ),
{
    if config.is_none() {
        return Admission::Reject(Error::from_kind(ErrorKind::ConfigurationNotAvailable));
    }
    if !is_json {
        return Admission::Forward;
    }
    match json_limit {
        Some(l) => Admission::Read(l),
        None => Admission::Read(LIMIT),
    }
}

/// The first mapping for the repository `repo`, if any.
pub open spec fn first_mapping(mappings: Seq<MappingView>, repo: Seq<char>) -> Option<int> {
    if exists|i: int| 0 <= i < mappings.len() && #[trigger] mappings[i].from == repo {
        Some(
            choose|i: int|
                0 <= i < mappings.len() && #[trigger] mappings[i].from == repo && forall|j: int|
                    0 <= j < i ==> mappings[j].from != repo,
        )
    } else {
        None
    }
}

/// Which configured mapping, if any, is for the repository `repo`: the first
/// one whose `from` is that name.
pub fn find_mapping(config: &Config, repo: &str) -> (res: Option<usize>)
    ensures
        match res {
            Some(i) => i < config.mappings.len() && first_mapping(config@, repo@) == Some(i as int),
            None => first_mapping(config@, repo@) is None,
        },
        match res {
            Some(i) => i < config@.len() && config@[i as int].from == repo@ && forall|j: int|
                0 <= j < i ==> config@[j].from != repo@,
            None => forall|j: int| 0 <= j < config@.len() ==> config@[j].from != repo@,
        },
{
    let ghost ms = config@;
    let repo_name = repo.to_owned();
    let mut i: usize = 0;
    while i < config.mappings.len()
        invariant
            ms == config@,
            repo_name@ == repo@,
            ms.len() == config.mappings.len(),
            i <= config.mappings.len(),
            forall|j: int| 0 <= j < i ==> ms[j].from != repo@,
        decreases config.mappings.len() - i,
    {
        proof {
            assert(ms[i as int] == config.mappings@[i as int]@);
        }
        if config.mappings[i].from == repo_name {
            proof {
                assert(ms[i as int].from == repo@);
                let c = choose|c: int|
                    0 <= c < ms.len() && #[trigger] ms[c].from == repo@ && forall|j: int|
                        0 <= j < c ==> ms[j].from != repo@;
                assert(!(c < i));
                assert(!(i < c));
            }
            return Some(i);
        }
        i = i + 1;
    }
    None
}

/// A byte's value as a hexadecimal digit, if it is one.
pub open spec fn hex_digit(b: u8) -> Option<u8> {
    if 48 <= b <= 57 {
        Some((b - 48) as u8)
    } else if 65 <= b <= 70 {
        Some((b - 55) as u8)
    } else if 97 <= b <= 102 {
        Some((b - 87) as u8)
    } else {
        None
    }
}

/// Where the first byte that is no hexadecimal digit stands (the length if
/// there is none).
pub open spec fn first_non_hex(digits: Seq<u8>) -> nat
    decreases digits.len(),
{
    if digits.len() == 0 {
        0
    } else if hex_digit(digits[0]) is None {
        0
    } else {
        1 + first_non_hex(digits.drop_first())
    }
}

/// What decoding hexadecimal digits gives: for an even number of digits, one
/// byte per pair, the first digit of a pair the high half; else the error for
/// an odd length, or for the first byte that is no digit.
pub open spec fn hex_decode(digits: Seq<u8>) -> Result<Seq<u8>, HexError> {
    if digits.len() % 2 != 0 {
        Err(HexError::OddLength)
    } else if first_non_hex(digits) < digits.len() {
        let i = first_non_hex(digits);
        Err(HexError::InvalidHexCharacter { c: digits[i as int] as char, index: i as usize })
    } else {
        Ok(
            Seq::new(
                digits.len() / 2,
                |k: int|
                    (hex_digit(digits[2 * k])->0 * 16 + hex_digit(digits[2 * k + 1])->0) as u8,
            ),
        )
    }
}

/// Decodes hexadecimal digits with `hex::FromHex` for `Vec<u8>`: its source
/// rejects an odd number of digits first, then decodes pair by pair and stops
/// at the first byte that is not in `0-9`, `a-f` or `A-F`, reporting it as a
/// character with its index; `hex_decode` says this over sequences.
#[verifier::external_body]
fn decode_hex(digits: &[u8]) -> (res: Result<Vec<u8>, HexError>)
    ensures
        match res {
            Ok(bytes) => hex_decode(digits@) == Ok::<Seq<u8>, HexError>(bytes@),
            Err(e) => hex_decode(digits@) == Err::<Seq<u8>, HexError>(e),
        },
{
    let decoded: Result<Vec<u8>, hex::FromHexError> = hex::FromHex::from_hex(digits);
    match decoded {
        Ok(bytes) => Ok(bytes),
        Err(hex::FromHexError::InvalidHexCharacter { c, index }) => Err(
            HexError::InvalidHexCharacter { c, index },
        ),
        Err(hex::FromHexError::OddLength) => Err(HexError::OddLength),
        Err(hex::FromHexError::InvalidStringLength) => Err(HexError::InvalidStringLength),
    }
}

/// Whether `signature` is the HMAC-SHA1 of `message` under `secret`, as
/// `github_webhook_message_validator::validate` decides it.
pub uninterp spec fn signature_matches(secret: Seq<u8>, signature: Seq<u8>, message: Seq<u8>) -> bool;

/// Calls `github_webhook_message_validator::validate`, which computes the
/// HMAC-SHA1 of `message` keyed with `secret` and compares it with
/// `signature` in constant time. Its result is named `signature_matches`;
/// the source shows that it accepts only a signature of the digest's 20 bytes.
#[verifier::external_body]
fn validate(secret: &[u8], signature: &[u8], message: &[u8]) -> (valid: bool)
    ensures
        valid == signature_matches(secret@, signature@, message@),
        valid ==> signature@.len() == 20,
{
    github_webhook_message_validator::validate(secret, signature, message)
}

/// The bytes of the signature header, if there is one.
pub open spec fn header_bytes(signature: Option<&str>) -> Option<Seq<u8>> {
    match signature {
        Some(h) => Some(h.spec_bytes()),
        None => None,
    }
}

/// How a delivery of `payload`, about the repository `repo`, with the
/// signature header `header`, is judged against the configured mappings:
/// the first mapping for the repository is looked up; the header, after its
/// first five bytes (`sha1=`), is decoded from hexadecimal; and the decoded
/// signature must match the payload under the mapping's secret. Gives the
/// mapping's index, or the error.
pub open spec fn authentication(
    mappings: Seq<MappingView>,
    repo: Seq<char>,
    payload: Seq<u8>,
    header: Option<Seq<u8>>,
) -> Result<int, ErrorKind> {
    match first_mapping(mappings, repo) {
        None => Err(ErrorKind::MappingLookupError),
        Some(i) => match header {
            None => Err(ErrorKind::SignatureHeaderError(None)),
            Some(h) => match hex_decode(h.subrange(5, h.len() as int)) {
                Err(e) => Err(ErrorKind::SignatureHeaderError(Some(e))),
                Ok(signature) => if signature_matches(
                    encode_utf8(mappings[i].secret),
                    signature,
                    payload,
                ) {
                    Ok(i)
                } else {
                    Err(ErrorKind::ValidationError)
                },
            },
        },
    }
}

/// A delivery is accepted only for a repository that has a mapping, with the
/// first such mapping, and only when its signature header carries, after its
/// first five bytes, the hexadecimal form of a signature that matches the
/// payload under that mapping's secret.
pub proof fn lemma_accepted_only_if_signed(
    mappings: Seq<MappingView>,
    repo: Seq<char>,
    payload: Seq<u8>,
    header: Option<Seq<u8>>,
)
    requires
        authentication(mappings, repo, payload, header) is Ok,
    ensures
        ({
            let i = authentication(mappings, repo, payload, header)->Ok_0;
            &&& 0 <= i < mappings.len()
            &&& mappings[i].from == repo
            &&& forall|j: int| 0 <= j < i ==> mappings[j].from != repo
            &&& header matches Some(h) && hex_decode(h.subrange(5, h.len() as int)) matches Ok(
                signature,
            ) && signature_matches(encode_utf8(mappings[i].secret), signature, payload)
        }),
{
    let k = choose|k: int| 0 <= k < mappings.len() && #[trigger] mappings[k].from == repo;
    lemma_first_exists(mappings, repo, k);
}

/// Where some mapping is for `repo`, a first one is.
proof fn lemma_first_exists(mappings: Seq<MappingView>, repo: Seq<char>, k: int)
    requires
        0 <= k < mappings.len(),
        mappings[k].from == repo,
    ensures
        exists|i: int|
            0 <= i < mappings.len() && #[trigger] mappings[i].from == repo && forall|j: int|
                0 <= j < i ==> mappings[j].from != repo,
    decreases k,
{
    if exists|j: int| 0 <= j < k && mappings[j].from == repo {
        let j = choose|j: int| 0 <= j < k && mappings[j].from == repo;
        lemma_first_exists(mappings, repo, j);
    } else {
        assert(mappings[k].from == repo);
    }
}

/// The mapping looked up for a repository is the first one configured for
/// it, wherever it stands, and there is none only when no mapping is for it.
pub proof fn lemma_first_mapping_least(mappings: Seq<MappingView>, repo: Seq<char>)
    ensures
        match first_mapping(mappings, repo) {
            Some(i) => 0 <= i < mappings.len() && mappings[i].from == repo && forall|j: int|
                0 <= j < i ==> mappings[j].from != repo,
            None => forall|j: int| 0 <= j < mappings.len() ==> mappings[j].from != repo,
        },
{
    if exists|k: int| 0 <= k < mappings.len() && #[trigger] mappings[k].from == repo {
        let k = choose|k: int| 0 <= k < mappings.len() && #[trigger] mappings[k].from == repo;
        lemma_first_exists(mappings, repo, k);
    }
}

/// How every delivery is answered, case by case: with no mapping for its
/// repository it is refused with `MappingLookupError`; otherwise, with `i`
/// the first mapping for it, a missing header is refused with
/// `SignatureHeaderError(None)`, a header whose bytes after the fifth are no
/// hexadecimal with `SignatureHeaderError` of the decoding error, a decoded
/// signature that does not match the payload under mapping `i`'s secret with
/// `ValidationError`, and one that matches is accepted with mapping `i`,
/// whichever mapping `i` is.
pub proof fn lemma_authentication_cases(
    mappings: Seq<MappingView>,
    repo: Seq<char>,
    payload: Seq<u8>,
    header: Option<Seq<u8>>,
)
    ensures
        (forall|j: int| 0 <= j < mappings.len() ==> mappings[j].from != repo) ==> authentication(
            mappings,
            repo,
            payload,
            header,
        ) == Err::<int, ErrorKind>(ErrorKind::MappingLookupError),
        forall|i: int|
            #![trigger mappings[i]]
            0 <= i < mappings.len() && mappings[i].from == repo && (forall|j: int|
                0 <= j < i ==> mappings[j].from != repo) ==> {
                &&& header is None ==> authentication(mappings, repo, payload, header) == Err::<
                    int,
                    ErrorKind,
                >(ErrorKind::SignatureHeaderError(None))
                &&& header is Some ==> match hex_decode(
                    header->0.subrange(5, header->0.len() as int),
                ) {
                    Err(d) => authentication(mappings, repo, payload, header) == Err::<
                        int,
                        ErrorKind,
                    >(ErrorKind::SignatureHeaderError(Some(d))),
                    Ok(signature) => if signature_matches(
                        encode_utf8(mappings[i].secret),
                        signature,
                        payload,
                    ) {
                        authentication(mappings, repo, payload, header) == Ok::<int, ErrorKind>(i)
                    } else {
                        authentication(mappings, repo, payload, header) == Err::<int, ErrorKind>(
                            ErrorKind::ValidationError,
                        )
                    },
                }
            },
{
    lemma_first_mapping_least(mappings, repo);
}

impl<T: GitRepository> Webhook<T> {
    /// Authenticates a delivery whose payload has been read and parsed into
    /// `value`; `signature` is the `X-Hub-Signature` header, if sent. The
    /// delivery is accepted with the first mapping for its repository when
    /// the header, after its first five bytes, is the hexadecimal HMAC-SHA1
    /// of the payload under that mapping's secret. When the repository has a
    /// mapping, a header given must have its first five bytes make whole
    /// characters: the header is cut there.
    pub fn authenticate(config: &Config, value: T, payload: &[u8], signature: Option<&str>) -> (res:
        Result<Webhook<T>, Error>)
        requires
            first_mapping(config@, value.repository_name_view()) is Some ==> (signature matches Some(
                h,
            ) ==> is_char_boundary(h.spec_bytes(), 5)),
        ensures
            match authentication(
                config@,
                value.repository_name_view(),
                payload@,
                header_bytes(signature),
            ) {
                Ok(i) => res matches Ok(w) && w.value == value && w.mapping@ == config@[i],
                Err(kind) => res matches Err(e) && e.kind == kind,
            },
            (forall|j: int| 0 <= j < config@.len() ==> config@[j].from != value.repository_name_view())
                ==> (res matches Err(e) && e.kind == ErrorKind::MappingLookupError),
            forall|i: int|
                #![trigger config@[i]]
                0 <= i < config@.len() && config@[i].from == value.repository_name_view() && (forall|
                    j: int,
                | 0 <= j < i ==> config@[j].from != value.repository_name_view()) ==> {
                    &&& signature is None ==> (res matches Err(e) && e.kind
                        == ErrorKind::SignatureHeaderError(None))
                    &&& signature is Some ==> match hex_decode(
                        signature->0.spec_bytes().subrange(5, signature->0.spec_bytes().len() as int),
                    ) {
                        Err(d) => res matches Err(e) && e.kind == ErrorKind::SignatureHeaderError(
                            Some(d),
                        ),
                        Ok(sig) => if signature_matches(
                            encode_utf8(config@[i].secret),
                            sig,
                            payload@,
                        ) {
                            res matches Ok(w) && w.value == value && w.mapping@ == config@[i]
                        } else {
                            res matches Err(e) && e.kind == ErrorKind::ValidationError
                        },
                    }
                },
    {
        proof {
            lemma_authentication_cases(
                config@,
                value.repository_name_view(),
                payload@,
                header_bytes(signature),
            );
        }
        let index = match find_mapping(config, value.repository_name()) {
            Some(i) => i,
            None => {
                return Err(Error::from_kind(ErrorKind::MappingLookupError));
            },
        };
        let mapping = &config.mappings[index];
        let header = match signature {
            Some(h) => h,
            None => {
                return Err(Error::from_kind(ErrorKind::SignatureHeaderError(None)));
            },
        };
        let (_, digits) = header.split_at(5);
        let signature_bytes = match decode_hex(digits.as_bytes()) {
            Ok(bytes) => bytes,
            Err(e) => {
                return Err(Error::from_kind(ErrorKind::SignatureHeaderError(Some(e))));
            },
        };
        let secret = mapping.secret.as_str().as_bytes();
        let valid = validate(secret, signature_bytes.as_slice(), payload);
        proof {
            assert(config@[index as int] == config.mappings@[index as int]@);
        }
        Self::accept(value, mapping, valid)
    }

    /// Ends authentication once the signature has been checked: a valid
    /// delivery is accepted with its mapping, any other is refused.
    pub fn accept(value: T, mapping: &RepositoryMapping, valid: bool) -> (res: Result<
        Webhook<T>,
        Error,
    >)
        ensures
            valid ==> (res matches Ok(w) && w.value == value && w.mapping@ == mapping@),
            !valid ==> (res matches Err(e) && e.kind == ErrorKind::ValidationError),
    {
        if valid {
            Ok(Webhook { value, mapping: mapping.clone() })
        } else {
            Err(Error::from_kind(ErrorKind::ValidationError))
        }
    }
}

} // verus!
