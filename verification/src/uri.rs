//! Names of documents as the protocol writes them: URIs with the scheme
//! `file`.

use std::str::FromStr;
use vstd::prelude::*;
use vstd::string::{StringExecFns, StringSliceAdditionalSpecFns};
use vstd::utf8::encode_utf8;

verus! {

/// Whether `lsp_types::Uri::from_str` accepts `text` as a URI.
pub uninterp spec fn uri_accepted(text: Seq<char>) -> bool;

/// The longest text, in bytes, that the parser takes.
pub const LONGEST: usize = 0x7fff_ffff;

/// Calls `lsp_types::Uri::from_str` and says whether it accepted the text.
/// The parser behind it panics on a text of more than `i32::MAX` bytes.
#[verifier::external_body]
pub(crate) fn uri_is_accepted(text: &str) -> (accepted: bool)
    requires
        encode_utf8(text@).len() <= LONGEST,
    ensures
        accepted == uri_accepted(text@),
{
    lsp_types::Uri::from_str(text).is_ok()
}

/// A text that is no URI.
#[derive(Clone, Debug)]
pub struct UriError {
    pub text: String,
}

/// The URI of a file: `file://` in front of its path.
pub open spec fn file_uri(path: Seq<char>) -> Seq<char> {
    "file://"@ + path
}

/// Whether `text` is a URI: it is no longer than the parser takes, and the
/// parser accepts it.
pub open spec fn is_uri(text: Seq<char>) -> bool {
    encode_utf8(text).len() <= LONGEST && uri_accepted(text)
}

/// The URI of the file at `path`, or the text that was refused as one. A
/// text of more than `i32::MAX` bytes is refused without being parsed.
pub fn path_to_uri(path: &str) -> (out: Result<String, UriError>)
    ensures
        match out {
            Ok(uri) => uri@ == file_uri(path@) && is_uri(file_uri(path@)),
            Err(e) => e.text@ == file_uri(path@) && !is_uri(file_uri(path@)),
        },
{
    let mut uri = "file://".to_owned();
    uri.append(path);
    if uri.as_str().as_bytes().len() <= LONGEST && uri_is_accepted(uri.as_str()) {
        Ok(uri)
    } else {
        Err(UriError { text: uri })
    }
}

} // verus!
