//! Construction of textual HTTP/1.1 request messages and parsing of raw
//! HTTP/1.1 response text, with machine-checked contracts.
//!
//! * [`http`] holds the request and the response, their views, and the
//!   spec functions that say what rendering and parsing yield.
//! * [`theorems`] proves what follows from these spec functions.
//! * [`text`] holds the algorithms on characters that parsing is made of.
//! * [`url`] holds the parts of a URL that a request is built from.
//!
//! Nothing here touches a socket or a file: a request is turned into text
//! for some transport to send, and the text that came back is turned into
//! a response.

pub mod http;
pub mod text;
pub mod theorems;
pub mod url;
