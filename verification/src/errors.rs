use vstd::prelude::*;

verus! {

/// Why a hexadecimal signature could not be decoded.
#[derive(Clone, Copy, Debug, PartialEq, Eq, Structural)]
pub enum HexError {
    /// A character that is not a hexadecimal digit, and where it stands.
    InvalidHexCharacter { c: char, index: usize },
    /// An odd number of digits.
    OddLength,
    /// A length that does not fit the decoded value.
    InvalidStringLength,
}

/// What went wrong.
pub enum ErrorKind {
    /// Neither configuration file could be loaded; the errors of both attempts.
    ConfigurationError(Vec<Error>),
    /// The named configuration file could not be read.
    ConfigFileError(String),
    /// The service was started without a configuration.
    ConfigurationNotAvailable,
    /// A configuration file could not be parsed.
    ConfigParseError,
    /// The webhook payload could not be read.
    PayloadReadError(String),
    /// The webhook payload is not an event of a known shape.
    PayloadParseError(String),
    /// No mapping is configured for the repository of the webhook.
    MappingLookupError,
    /// The signature header is missing, or is not hexadecimal.
    SignatureHeaderError(Option<HexError>),
    /// The signature does not match the payload.
    ValidationError,
    /// The local mirror repository could not be opened.
    RepositoryOpenError,
    /// A git operation on the mirror failed.
    RepositoryGitError(String),
}

/// An error of the service.
pub struct Error {
    pub kind: ErrorKind,
}

/// The short description of each kind of error.
pub open spec fn description_of(kind: ErrorKind) -> Seq<char> {
    match kind {
        ErrorKind::ConfigurationError(_) => "configuration file not loaded"@,
        ErrorKind::ConfigFileError(_) => "failed to load configuration file"@,
        ErrorKind::ConfigurationNotAvailable => "configuration not available"@,
        ErrorKind::ConfigParseError => "error parsing configuration file"@,
        ErrorKind::PayloadReadError(_) => "could not read complete payload"@,
        ErrorKind::PayloadParseError(_) => "could not parse the webhook payload"@,
        ErrorKind::MappingLookupError => "could not find mapping for webhook received"@,
        ErrorKind::SignatureHeaderError(_) => "could not find signature header for webhook received"@,
        ErrorKind::ValidationError => "webhook received was not valid"@,
        ErrorKind::RepositoryOpenError => "unable to open repository"@,
        ErrorKind::RepositoryGitError(_) => "error running git commands on repository"@,
    }
}

/// The text of an error of one of the kinds that carry no other errors: the
/// description, with the file's name quoted for a configuration file error.
pub open spec fn flat_message_of(kind: ErrorKind) -> Seq<char> {
    match kind {
        ErrorKind::ConfigFileError(name) => description_of(kind) + " '"@ + name@ + "'"@,
        _ => description_of(kind),
    }
}

/// Texts joined with `, `.
pub open spec fn join_texts(texts: Seq<Seq<char>>) -> Seq<char>
    decreases texts.len(),
{
    if texts.len() == 0 {
        Seq::empty()
    } else if texts.len() == 1 {
        texts[0]
    } else {
        join_texts(texts.drop_last()) + ", "@ + texts.last()
    }
}

/// The text an error is reported with: a configuration error lists the
/// errors of its attempts in brackets after its description.
pub open spec fn message_of(err: Error) -> Seq<char> {
    match err.kind {
        ErrorKind::ConfigurationError(errs) => description_of(err.kind) + ", errors:\n["@
            + join_texts(errs@.map_values(|e: Error| flat_message_of(e.kind))) + "]"@,
        _ => flat_message_of(err.kind),
    }
}

/// The HTTP status that every error is answered with: 400 Bad Request.
pub const BAD_REQUEST: u16 = 400;

impl Error {
    pub fn from_kind(kind: ErrorKind) -> (err: Error)
        ensures
            err.kind == kind,
    {
        Error { kind }
    }

    pub fn kind(&self) -> (kind: &ErrorKind)
        ensures
            *kind == self.kind,
    {
        &self.kind
    }

    /// A short description of the error.
    pub fn description(&self) -> (text: &'static str)
        ensures
            text@ == description_of(self.kind),
    {
        match &self.kind {
            ErrorKind::ConfigurationError(_) => "configuration file not loaded",
            ErrorKind::ConfigFileError(_) => "failed to load configuration file",
            ErrorKind::ConfigurationNotAvailable => "configuration not available",
            ErrorKind::ConfigParseError => "error parsing configuration file",
            ErrorKind::PayloadReadError(_) => "could not read complete payload",
            ErrorKind::PayloadParseError(_) => "could not parse the webhook payload",
            ErrorKind::MappingLookupError => "could not find mapping for webhook received",
            ErrorKind::SignatureHeaderError(_) => "could not find signature header for webhook received",
            ErrorKind::ValidationError => "webhook received was not valid",
            ErrorKind::RepositoryOpenError => "unable to open repository",
            ErrorKind::RepositoryGitError(_) => "error running git commands on repository",
        }
    }

    /// The text of an error that carries no other errors.
    fn flat_message(&self) -> (text: String)
        ensures
            text@ == flat_message_of(self.kind),
    {
        let mut text = String::new();
        text.append(self.description());
        if let ErrorKind::ConfigFileError(name) = &self.kind {
            text.append(" '");
            text.append(name.as_str());
            text.append("'");
        }
        proof {
            assert(text@ =~= flat_message_of(self.kind));
        }
        text
    }

    /// The text the error is reported with.
    pub fn message(&self) -> (text: String)
        ensures
            text@ == message_of(*self),
    {
        match &self.kind {
            ErrorKind::ConfigurationError(errs) => {
                let ghost texts = errs@.map_values(|e: Error| flat_message_of(e.kind));
                let mut text = String::new();
                text.append(self.description());
                text.append(", errors:\n[");
                let ghost head = text@;
                for i in 0..errs.len()
                    invariant
                        texts == errs@.map_values(|e: Error| flat_message_of(e.kind)),
                        text@ == head + join_texts(texts.take(i as int)),
                {
                    proof {
                        assert(texts.take(i + 1).drop_last() =~= texts.take(i as int));
                        assert(texts.take(i + 1).last() == texts[i as int]);
                    }
                    if i > 0 {
                        text.append(", ");
                    }
                    let inner = errs[i].flat_message();
                    text.append(inner.as_str());
                    proof {
                        if i == 0 {
                            assert(texts.take(1) =~= seq![texts[0]]);
                            assert(texts.take(0) =~= Seq::<Seq<char>>::empty());
                        }
                        assert(text@ =~= head + join_texts(texts.take(i + 1)));
                    }
                }
                text.append("]");
                proof {
                    assert(texts.take(errs.len() as int) =~= texts);
                    assert(text@ =~= message_of(*self));
                }
                text
            },
            _ => self.flat_message(),
        }
    }

    /// The HTTP status that a request failing with this error is answered
    /// with: every error is the client's fault.
    pub fn status(&self) -> (code: u16)
        ensures
            code == BAD_REQUEST,
    {
        BAD_REQUEST
    }
}

} // verus!
