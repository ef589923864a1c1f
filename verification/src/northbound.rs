//! What the northbound layer logs, and where BFD sits in the data model.

use vstd::prelude::*;
use vstd::string::StringExecFns;

verus! {

/// An event of the northbound layer.
#[derive(Clone, Copy, Debug)]
pub enum Debug<'a> {
    /// A request was received, given as text.
    RequestRx(&'a str),
    /// A validation callback ran for a path.
    ValidationCallback(&'a str),
    /// A configuration callback ran: the phase, the operation and the path.
    ConfigurationCallback(&'a str, &'a str, &'a str),
    /// An RPC callback ran for a path.
    RpcCallback(&'a str),
}

/// A line of the log.
#[derive(Clone, Copy, Debug)]
pub struct LogRecord<'a> {
    /// The span that the line belongs to.
    pub span: &'static str,
    pub message: &'static str,
    pub phase: Option<&'a str>,
    pub operation: Option<&'a str>,
    pub path: Option<&'a str>,
    /// What is traced in addition.
    pub trace: Option<&'a str>,
}

impl<'a> Debug<'a> {
    /// What an event is called.
    pub open spec fn message(self) -> Seq<char> {
        match self {
            Debug::RequestRx(_) => "received request"@,
            Debug::ValidationCallback(_) => "validation callback"@,
            Debug::ConfigurationCallback(_, _, _) => "configuration callback"@,
            Debug::RpcCallback(_) => "rpc callback"@,
        }
    }

    fn text(&self) -> (text: &'static str)
        ensures
            text@ == self.message(),
    {
        match self {
            Debug::RequestRx(_) => "received request",
            Debug::ValidationCallback(_) => "validation callback",
            Debug::ConfigurationCallback(_, _, _) => "configuration callback",
            Debug::RpcCallback(_) => "rpc callback",
        }
    }

    /// Returns what the event is called.
    pub fn to_string(&self) -> (text: String)
        ensures
            text@ == self.message(),
    {
        let mut text = String::new();
        text.append(self.text());
        assert(text@ =~= self.message());
        text
    }

    /// Returns the line of the log for the event.
    pub fn log(&self) -> (record: LogRecord<'a>)
        ensures
            record.span@ == "northbound"@,
            record.message@ == self.message(),
            match *self {
                Debug::RequestRx(request) => record.phase is None && record.operation is None && record.path is None
                    && record.trace == Some(request),
                Debug::ValidationCallback(path) => record.phase is None && record.operation is None && record.path == Some(
                    path,
                ) && record.trace is None,
                Debug::ConfigurationCallback(phase, operation, path) => record.phase == Some(phase) && record.operation
                    == Some(operation) && record.path == Some(path) && record.trace is None,
                Debug::RpcCallback(path) => record.phase is None && record.operation is None && record.path == Some(path)
                    && record.trace is None,
            },
    {
        let message = self.text();
        let span = "northbound";
        match *self {
            Debug::RequestRx(request) => LogRecord {
                span,
                message,
                phase: None,
                operation: None,
                path: None,
                trace: Some(request),
            },
            Debug::ValidationCallback(path) => LogRecord {
                span,
                message,
                phase: None,
                operation: None,
                path: Some(path),
                trace: None,
            },
            Debug::ConfigurationCallback(phase, operation, path) => LogRecord {
                span,
                message,
                phase: Some(phase),
                operation: Some(operation),
                path: Some(path),
                trace: None,
            },
            Debug::RpcCallback(path) => LogRecord {
                span,
                message,
                phase: None,
                operation: None,
                path: Some(path),
                trace: None,
            },
        }
    }
}

/// Returns the YANG modules that BFD implements.
pub fn yang_modules() -> (modules: [&'static str; 3])
    ensures
        modules@[0]@ == "ietf-bfd-ip-mh"@,
        modules@[1]@ == "ietf-bfd-ip-sh"@,
        modules@[2]@ == "ietf-bfd"@,
{
    ["ietf-bfd-ip-mh", "ietf-bfd-ip-sh", "ietf-bfd"]
}

/// Returns the path of the BFD node in the data model, for the YANG identity
/// of the protocol.
pub fn top_level_node(protocol: &str) -> (path: String)
    ensures
        path@ == "/ietf-routing:routing/control-plane-protocols/control-plane-protocol[type='"@ + protocol@
            + "'][name='main']/ietf-bfd:bfd"@,
{
    let mut path = String::new();
    path.append("/ietf-routing:routing/control-plane-protocols/control-plane-protocol[type='");
    path.append(protocol);
    path.append("'][name='main']/ietf-bfd:bfd");
    assert(path@ =~= "/ietf-routing:routing/control-plane-protocols/control-plane-protocol[type='"@ + protocol@
        + "'][name='main']/ietf-bfd:bfd"@);
    path
}

} // verus!
