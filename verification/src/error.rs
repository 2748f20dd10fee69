//! What can go wrong, in words.

use vstd::prelude::*;
use crate::number;
use crate::text;

verus! {

broadcast use vstd::string::group_string_axioms;

/// An error of the signaling connection.
#[derive(Debug)]
pub enum SignalingError {
    ConnectionFailed(String),
    NoPeer,
    Protocol { msg: String },
    AuthFailed,
    /// An input or output error, in words.
    Io(String),
}

/// An error of the media pipeline.
#[derive(Debug)]
pub enum PipelineError {
    Gst(String),
    ElementNotFound(String),
    UnsupportedProperty { encoder: String, property: String },
    StateChangeFailed,
}

/// An error of the input devices.
#[derive(Debug)]
pub enum InputError {
    X11Connection(String),
    InvalidMessage(String),
    /// An input or output error, in words.
    GamepadSocket(String),
}

/// An error of recordings and their comparison.
#[derive(Debug)]
pub enum OracleError {
    Recording(String),
    Replay(String),
    Divergence { count: usize },
    /// An input or output error, in words.
    Io(String),
    /// A JSON error, in words.
    Json(String),
}

impl SignalingError {
    /// The error in words.
    pub open spec fn words(&self) -> Seq<char> {
        match self {
            SignalingError::ConnectionFailed(e) => "WebSocket connection failed: "@ + e@,
            SignalingError::NoPeer => "No peer connected"@,
            SignalingError::Protocol { msg } => "Protocol error: "@ + msg@,
            SignalingError::AuthFailed => "Authentication failed"@,
            SignalingError::Io(e) => "IO error: "@ + e@,
        }
    }

    /// Puts the error in words.
    pub fn message(&self) -> (r: String)
        ensures
            r@ == self.words(),
    {
        match self {
            SignalingError::ConnectionFailed(e) => text::cat("WebSocket connection failed: ", e),
            SignalingError::NoPeer => "No peer connected".to_string(),
            SignalingError::Protocol { msg } => text::cat("Protocol error: ", msg),
            SignalingError::AuthFailed => "Authentication failed".to_string(),
            SignalingError::Io(e) => text::cat("IO error: ", e),
        }
    }
}

impl PipelineError {
    /// The error in words.
    pub open spec fn words(&self) -> Seq<char> {
        match self {
            PipelineError::Gst(e) => "GStreamer error: "@ + e@,
            PipelineError::ElementNotFound(e) => "Element not found: "@ + e@,
            PipelineError::UnsupportedProperty { encoder, property } => text::framed(
                "Encoder "@,
                encoder@,
                " does not support property "@,
                property@,
                ""@,
            ),
            PipelineError::StateChangeFailed => "Pipeline state change failed"@,
        }
    }

    /// Puts the error in words.
    pub fn message(&self) -> (r: String)
        ensures
            r@ == self.words(),
    {
        match self {
            PipelineError::Gst(e) => text::cat("GStreamer error: ", e),
            PipelineError::ElementNotFound(e) => text::cat("Element not found: ", e),
            PipelineError::UnsupportedProperty { encoder, property } => text::frame(
                "Encoder ",
                text::to_chars(encoder).as_slice(),
                " does not support property ",
                text::to_chars(property).as_slice(),
                "",
            ),
            PipelineError::StateChangeFailed => "Pipeline state change failed".to_string(),
        }
    }
}

impl InputError {
    /// The error in words.
    pub open spec fn words(&self) -> Seq<char> {
        match self {
            InputError::X11Connection(e) => "X11 connection failed: "@ + e@,
            InputError::InvalidMessage(e) => "Invalid input message: "@ + e@,
            InputError::GamepadSocket(e) => "Gamepad socket error: "@ + e@,
        }
    }

    /// Puts the error in words.
    pub fn message(&self) -> (r: String)
        ensures
            r@ == self.words(),
    {
        match self {
            InputError::X11Connection(e) => text::cat("X11 connection failed: ", e),
            InputError::InvalidMessage(e) => text::cat("Invalid input message: ", e),
            InputError::GamepadSocket(e) => text::cat("Gamepad socket error: ", e),
        }
    }
}

impl OracleError {
    /// The error in words.
    pub open spec fn words(&self) -> Seq<char> {
        match self {
            OracleError::Recording(e) => "Recording error: "@ + e@,
            OracleError::Replay(e) => "Replay error: "@ + e@,
            OracleError::Divergence { count } => "Diff found "@ + number::decimal(*count as nat)
                + " divergences"@,
            OracleError::Io(e) => "IO error: "@ + e@,
            OracleError::Json(e) => "JSON error: "@ + e@,
        }
    }

    /// Puts the error in words.
    pub fn message(&self) -> (r: String)
        ensures
            r@ == self.words(),
    {
        match self {
            OracleError::Recording(e) => text::cat("Recording error: ", e),
            OracleError::Replay(e) => text::cat("Replay error: ", e),
            OracleError::Divergence { count } => {
                let mut out = text::to_chars("Diff found ");
                number::push_decimal(&mut out, *count as u64);
                text::push_str(&mut out, " divergences");
                text::to_text(out.as_slice())
            },
            OracleError::Io(e) => text::cat("IO error: ", e),
            OracleError::Json(e) => text::cat("JSON error: ", e),
        }
    }
}

/// The words of an error of the signaling connection.
pub proof fn law_signaling_words(e: SignalingError)
    ensures
        e matches SignalingError::ConnectionFailed(x) ==> e.words() == "WebSocket connection failed: "@
            + x@,
        e is NoPeer ==> e.words() == "No peer connected"@,
        e matches SignalingError::Protocol { msg } ==> e.words() == "Protocol error: "@ + msg@,
        e is AuthFailed ==> e.words() == "Authentication failed"@,
        e matches SignalingError::Io(x) ==> e.words() == "IO error: "@ + x@,
{
}

/// The words of an error of the media pipeline.
pub proof fn law_pipeline_words(e: PipelineError)
    ensures
        e matches PipelineError::Gst(x) ==> e.words() == "GStreamer error: "@ + x@,
        e matches PipelineError::ElementNotFound(x) ==> e.words() == "Element not found: "@ + x@,
        e matches PipelineError::UnsupportedProperty { encoder, property } ==> e.words()
            == "Encoder "@ + encoder@ + " does not support property "@ + property@,
        e is StateChangeFailed ==> e.words() == "Pipeline state change failed"@,
{
    reveal_strlit("");
    match e {
        PipelineError::UnsupportedProperty { encoder, property } => {
            let s = "Encoder "@ + encoder@ + " does not support property "@ + property@;
            assert(s + ""@ =~= s);
        },
        _ => {},
    }
}

/// The words of an error of the input devices.
pub proof fn law_input_words(e: InputError)
    ensures
        e matches InputError::X11Connection(x) ==> e.words() == "X11 connection failed: "@ + x@,
        e matches InputError::InvalidMessage(x) ==> e.words() == "Invalid input message: "@ + x@,
        e matches InputError::GamepadSocket(x) ==> e.words() == "Gamepad socket error: "@ + x@,
{
}

/// The words of an error of recordings and their comparison.
pub proof fn law_oracle_words(e: OracleError)
    ensures
        e matches OracleError::Recording(x) ==> e.words() == "Recording error: "@ + x@,
        e matches OracleError::Replay(x) ==> e.words() == "Replay error: "@ + x@,
        e matches OracleError::Divergence { count } ==> e.words() == "Diff found "@
            + number::decimal(count as nat) + " divergences"@,
        e matches OracleError::Io(x) ==> e.words() == "IO error: "@ + x@,
        e matches OracleError::Json(x) ==> e.words() == "JSON error: "@ + x@,
{
}

} // verus!
