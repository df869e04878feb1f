//! The token by which the parts of an installation know each other.

use crate::text::{same_text, text_view, trim_text, trimmed};
use vstd::prelude::*;

verus! {

/// The header that carries the token.
pub const INTERNAL_TOKEN_HEADER: &'static str = "x-buso-internal-token";

/// The origin of an address, as `Url::parse` and `Origin::ascii_serialization`
/// of the url crate give it; nothing where the text is no address.
pub uninterp spec fn origin_of(url: Seq<char>) -> Option<Seq<char>>;

/// `Url::parse`, and of what it gives `Url::origin` and
/// `Origin::ascii_serialization`: the origin of an absolute address as a text,
/// or nothing if the text is not one. What the origin is follows from the text
/// alone; which text it is for a given address is not stated.
#[verifier::external_body]
pub(crate) fn url_origin(url: &str) -> (origin: Option<String>)
    ensures
        text_view(origin) == origin_of(url@),
{
    match reqwest::Url::parse(url) {
        Ok(parsed) => Some(parsed.origin().ascii_serialization()),
        Err(_) => None,
    }
}

/// A text without white space around it, if it is not blank.
pub open spec fn nonblank(value: Option<Seq<char>>) -> Option<Seq<char>> {
    match value {
        Some(text) => if trim_text(text).len() > 0 { Some(trim_text(text)) } else { None },
        None => None,
    }
}

/// The text without white space around it, if it is not blank.
pub fn trimmed_nonempty(value: &Option<String>) -> (text: Option<String>)
    ensures
        text_view(text) == nonblank(text_view(*value)),
{
    match value {
        Some(raw) => {
            let short: String = trimmed(raw.as_str());
            if short.as_str().is_empty() { None } else { Some(short) }
        },
        None => None,
    }
}

/// The token of the installation: the one set, or else the one in the file.
pub open spec fn token_of(set: Option<Seq<char>>, file: Option<Seq<char>>) -> Option<Seq<char>> {
    if nonblank(set) is Some { nonblank(set) } else { nonblank(file) }
}

/// The token of the installation.
pub fn choose_internal_token(set: &Option<String>, file: &Option<String>) -> (token: Option<String>)
    ensures
        text_view(token) == token_of(text_view(*set), text_view(*file)),
{
    match trimmed_nonempty(set) {
        Some(token) => Some(token),
        None => trimmed_nonempty(file),
    }
}

/// Whether a header carries the token: without a token none does.
pub open spec fn header_matches(header_value: Option<Seq<char>>, token: Option<Seq<char>>) -> bool {
    match (header_value, token) {
        (Some(candidate), Some(expected)) => trim_text(candidate) == expected,
        _ => false,
    }
}

/// Whether a header carries the token.
pub fn matches_internal_token(header_value: Option<&str>, token: &Option<String>) -> (matches: bool)
    ensures
        matches == header_matches(
            match header_value {
                Some(value) => Some(value@),
                None => None,
            },
            text_view(*token),
        ),
{
    match (header_value, token) {
        (Some(candidate), Some(expected)) => same_text(trimmed(candidate).as_str(), expected.as_str()),
        _ => false,
    }
}

/// A header that is sent with the token is taken as carrying it.
pub proof fn own_token_matches(set: Option<Seq<char>>, file: Option<Seq<char>>)
    ensures
        token_of(set, file) is Some ==> header_matches(token_of(set, file), token_of(set, file)),
{
    if nonblank(set) is Some {
        crate::text::trimming_twice(set->0);
    }
    if nonblank(file) is Some {
        crate::text::trimming_twice(file->0);
    }
}

/// Why it cannot be said what goes with a request.
#[derive(Clone, Copy, Debug, PartialEq, Eq, Structural)]
pub enum TokenError {
    /// The address of the descriptor is none.
    InvalidDescriptorUrl,
    /// The address of the request is none.
    InvalidUrl,
    /// The request needs the token and there is none.
    MissingToken,
}

/// Whether the token goes with a request: if it is to the origin of the
/// descriptor, given the two origins.
pub open spec fn attaches(descriptor: Option<Seq<char>>, descriptor_origin: Option<Seq<char>>, origin: Option<Seq<char>>) -> Result<bool, TokenError> {
    if descriptor is None {
        Ok(false)
    } else if descriptor_origin is None {
        Err(TokenError::InvalidDescriptorUrl)
    } else if origin is None {
        Err(TokenError::InvalidUrl)
    } else {
        Ok(origin == descriptor_origin)
    }
}

/// Whether the token goes with a request whose origin is known.
pub fn origins_attach(descriptor: &Option<String>, descriptor_origin: &Option<String>, origin: &Option<String>) -> (attach: Result<bool, TokenError>)
    ensures
        attach == attaches(text_view(*descriptor), text_view(*descriptor_origin), text_view(*origin)),
{
    match descriptor {
        None => Ok(false),
        Some(_) => match descriptor_origin {
            None => Err(TokenError::InvalidDescriptorUrl),
            Some(expected) => match origin {
                None => Err(TokenError::InvalidUrl),
                Some(found) => Ok(same_text(found.as_str(), expected.as_str())),
            },
        },
    }
}

/// Whether the token goes with a request to an address.
pub fn should_attach_internal_token(descriptor_url: &Option<String>, url: &str) -> (attach: Result<bool, TokenError>)
    ensures
        attach == attaches(
            nonblank(text_view(*descriptor_url)),
            match nonblank(text_view(*descriptor_url)) {
                Some(descriptor) => origin_of(descriptor),
                None => None,
            },
            origin_of(url@),
        ),
{
    let descriptor: Option<String> = trimmed_nonempty(descriptor_url);
    let expected: Option<String> = match &descriptor {
        Some(text) => url_origin(text.as_str()),
        None => None,
    };
    let origin: Option<String> = url_origin(url);
    origins_attach(&descriptor, &expected, &origin)
}

/// The token that goes with a request, if one does: a request that needs one is
/// refused where there is none.
pub fn internal_token_for_url(descriptor_url: &Option<String>, token: Option<String>, url: &str) -> (result: Result<Option<String>, TokenError>)
    ensures
        match attaches(
            nonblank(text_view(*descriptor_url)),
            match nonblank(text_view(*descriptor_url)) {
                Some(descriptor) => origin_of(descriptor),
                None => None,
            },
            origin_of(url@),
        ) {
            Err(error) => result == Err::<Option<String>, TokenError>(error),
            Ok(false) => result == Ok::<Option<String>, TokenError>(None),
            Ok(true) => match token {
                Some(_) => result == Ok::<Option<String>, TokenError>(token),
                None => result == Err::<Option<String>, TokenError>(TokenError::MissingToken),
            },
        },
{
    match should_attach_internal_token(descriptor_url, url) {
        Err(error) => Err(error),
        Ok(attach) => if !attach {
            Ok(None)
        } else {
            match token {
                Some(token) => Ok(Some(token)),
                None => Err(TokenError::MissingToken),
            }
        },
    }
}

} // verus!
