use vstd::prelude::*;

verus! {

/// The errors that the tool reports.
#[derive(Debug, Clone, Copy, PartialEq, Eq, Structural)]
pub enum PCHStdError {
    PermissionDenied,
    FileNotFound,
    FileAlreadyExists,
    InvalidData,
    InvalidInput,
    TimedOut,
    WriteZero,
    Interrupted,
    WrongPath,
    EmptyInput,
    NoExtension,
    ConversionFailed,
    FileNameExtractFailed,
    CompressionFailed,
    Other,
}

/// The kinds of input/output failure that the tool tells apart; every other
/// kind is `Other`.
#[derive(Debug, Clone, Copy, PartialEq, Eq, Structural)]
pub enum IoErrorKind {
    PermissionDenied,
    NotFound,
    AlreadyExists,
    InvalidData,
    InvalidInput,
    TimedOut,
    WriteZero,
    Interrupted,
    Other,
}

/// The error that an input/output failure of the given kind is reported as.
pub open spec fn io_kind_error(kind: IoErrorKind) -> PCHStdError {
    match kind {
        IoErrorKind::PermissionDenied => PCHStdError::PermissionDenied,
        IoErrorKind::NotFound => PCHStdError::FileNotFound,
        IoErrorKind::AlreadyExists => PCHStdError::FileAlreadyExists,
        IoErrorKind::InvalidData => PCHStdError::InvalidData,
        IoErrorKind::InvalidInput => PCHStdError::InvalidInput,
        IoErrorKind::TimedOut => PCHStdError::TimedOut,
        IoErrorKind::WriteZero => PCHStdError::WriteZero,
        IoErrorKind::Interrupted => PCHStdError::Interrupted,
        IoErrorKind::Other => PCHStdError::Other,
    }
}

impl PCHStdError {
    /// Maps the kind of an input/output failure to the error reported for it.
    pub fn from_io_kind(kind: IoErrorKind) -> (r: PCHStdError)
        ensures
            r == io_kind_error(kind),
    {
        match kind {
            IoErrorKind::PermissionDenied => PCHStdError::PermissionDenied,
            IoErrorKind::NotFound => PCHStdError::FileNotFound,
            IoErrorKind::AlreadyExists => PCHStdError::FileAlreadyExists,
            IoErrorKind::InvalidData => PCHStdError::InvalidData,
            IoErrorKind::InvalidInput => PCHStdError::InvalidInput,
            IoErrorKind::TimedOut => PCHStdError::TimedOut,
            IoErrorKind::WriteZero => PCHStdError::WriteZero,
            IoErrorKind::Interrupted => PCHStdError::Interrupted,
            IoErrorKind::Other => PCHStdError::Other,
        }
    }
}

impl From<IoErrorKind> for PCHStdError {
    fn from(kind: IoErrorKind) -> (r: Self) {
        Self::from_io_kind(kind)
    }
}

impl vstd::std_specs::convert::FromSpecImpl<IoErrorKind> for PCHStdError {
    open spec fn obeys_from_spec() -> bool {
        true
    }

    open spec fn from_spec(v: IoErrorKind) -> Self {
        io_kind_error(v)
    }
}

/// The error of `serde_json`, carried through opaquely.
#[verifier::external_type_specification]
#[verifier::external_body]
pub struct ExJsonError(serde_json::Error);

/// The error of `Path::strip_prefix`, carried through opaquely.
#[verifier::external_type_specification]
#[verifier::external_body]
pub struct ExStripPrefixError(std::path::StripPrefixError);

/// A JSON text that cannot be read or written is invalid data.
impl From<serde_json::Error> for PCHStdError {
    fn from(_error: serde_json::Error) -> (r: Self) {
        PCHStdError::InvalidData
    }
}

impl vstd::std_specs::convert::FromSpecImpl<serde_json::Error> for PCHStdError {
    open spec fn obeys_from_spec() -> bool {
        true
    }

    open spec fn from_spec(v: serde_json::Error) -> Self {
        PCHStdError::InvalidData
    }
}

/// A path outside the folder it was taken relative to is a wrong path.
impl From<std::path::StripPrefixError> for PCHStdError {
    fn from(_error: std::path::StripPrefixError) -> (r: Self) {
        PCHStdError::WrongPath
    }
}

impl vstd::std_specs::convert::FromSpecImpl<std::path::StripPrefixError> for PCHStdError {
    open spec fn obeys_from_spec() -> bool {
        true
    }

    open spec fn from_spec(v: std::path::StripPrefixError) -> Self {
        PCHStdError::WrongPath
    }
}

/// The configuration: the names that the renamed files receive, in order.
#[derive(Debug)]
pub struct Config {
    pub file_names: Vec<String>,
}

/// The names of a list of strings, as sequences of characters.
pub open spec fn names_of(v: Seq<String>) -> Seq<Seq<char>> {
    v.map_values(|s: String| s@)
}

impl View for Config {
    type V = Seq<Seq<char>>;

    open spec fn view(&self) -> Seq<Seq<char>> {
        names_of(self.file_names@)
    }
}

impl Config {
    /// The configuration that holds a single empty name.
    pub fn new() -> (c: Self)
        ensures
            c@ == seq![Seq::<char>::empty()],
    {
        let mut file_names: Vec<String> = Vec::new();
        file_names.push(String::new());
        let c = Self { file_names };
        assert(c@ =~= seq![Seq::<char>::empty()]);
        c
    }
}

} // verus!
