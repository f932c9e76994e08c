use vstd::prelude::*;

verus! {

/// Error kinds of the engine. Each carries the message that describes it.
#[derive(Debug, Clone, PartialEq, Eq)]
pub enum NovaError {
    Config(String),
    Resource(String),
    Event(String),
    Plugin(String),
    Threading(String),
    Io(String),
    Serialization(String),
    Json(String),
    Generic(String),
}

/// Result type of the engine's fallible operations.
pub type NovaResult<T> = Result<T, NovaError>;

/// The text that precedes an error's message when it is shown.
pub open spec fn error_prefix(e: NovaError) -> Seq<char> {
    match e {
        NovaError::Config(_) => "Configuration error: "@,
        NovaError::Resource(_) => "Resource error: "@,
        NovaError::Event(_) => "Event system error: "@,
        NovaError::Plugin(_) => "Plugin error: "@,
        NovaError::Threading(_) => "Threading error: "@,
        NovaError::Io(_) => "IO error: "@,
        NovaError::Serialization(_) => "Serialization error: "@,
        NovaError::Json(_) => "JSON error: "@,
        NovaError::Generic(_) => "Generic error: "@,
    }
}

/// The message an error carries.
pub open spec fn error_detail(e: NovaError) -> Seq<char> {
    match e {
        NovaError::Config(m) => m@,
        NovaError::Resource(m) => m@,
        NovaError::Event(m) => m@,
        NovaError::Plugin(m) => m@,
        NovaError::Threading(m) => m@,
        NovaError::Io(m) => m@,
        NovaError::Serialization(m) => m@,
        NovaError::Json(m) => m@,
        NovaError::Generic(m) => m@,
    }
}

impl NovaError {
    pub fn config(msg: &str) -> (e: NovaError)
        ensures
            e == NovaError::Config(e->Config_0),
            e->Config_0@ == msg@,
    {
        NovaError::Config(String::from_str(msg))
    }

    pub fn resource(msg: &str) -> (e: NovaError)
        ensures
            e == NovaError::Resource(e->Resource_0),
            e->Resource_0@ == msg@,
    {
        NovaError::Resource(String::from_str(msg))
    }

    pub fn event(msg: &str) -> (e: NovaError)
        ensures
            e == NovaError::Event(e->Event_0),
            e->Event_0@ == msg@,
    {
        NovaError::Event(String::from_str(msg))
    }

    pub fn plugin(msg: &str) -> (e: NovaError)
        ensures
            e == NovaError::Plugin(e->Plugin_0),
            e->Plugin_0@ == msg@,
    {
        NovaError::Plugin(String::from_str(msg))
    }

    pub fn threading(msg: &str) -> (e: NovaError)
        ensures
            e == NovaError::Threading(e->Threading_0),
            e->Threading_0@ == msg@,
    {
        NovaError::Threading(String::from_str(msg))
    }

    /// The message that the error carries, without its prefix.
    pub fn detail(&self) -> (m: &String)
        ensures
            m@ == error_detail(*self),
    {
        match self {
            NovaError::Config(m) => m,
            NovaError::Resource(m) => m,
            NovaError::Event(m) => m,
            NovaError::Plugin(m) => m,
            NovaError::Threading(m) => m,
            NovaError::Io(m) => m,
            NovaError::Serialization(m) => m,
            NovaError::Json(m) => m,
            NovaError::Generic(m) => m,
        }
    }

    /// The error as it is shown to a user: its kind's prefix, then its message.
    pub fn to_message(&self) -> (s: String)
        ensures
            s@ == error_prefix(*self) + error_detail(*self),
    {
        let prefix: &str = match self {
            NovaError::Config(_) => "Configuration error: ",
            NovaError::Resource(_) => "Resource error: ",
            NovaError::Event(_) => "Event system error: ",
            NovaError::Plugin(_) => "Plugin error: ",
            NovaError::Threading(_) => "Threading error: ",
            NovaError::Io(_) => "IO error: ",
            NovaError::Serialization(_) => "Serialization error: ",
            NovaError::Json(_) => "JSON error: ",
            NovaError::Generic(_) => "Generic error: ",
        };
        let out = String::from_str(prefix);
        out.concat(self.detail().as_str())
    }
}

} // verus!
