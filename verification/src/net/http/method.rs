//! Request methods.
use vstd::prelude::*;

use crate::text::{chars_of, is_text};

verus! {

/// The method of a request.
#[derive(Debug, Clone, Copy, PartialEq, Eq, Structural)]
pub enum HttpMethod {
    GET,
    POST,
    PUT,
    DELETE,
    HEAD,
    OPTIONS,
    PATCH,
    TRACE,
    CONNECT,
}

pub open spec fn method_name(m: HttpMethod) -> Seq<char> {
    match m {
        HttpMethod::GET => "GET"@,
        HttpMethod::POST => "POST"@,
        HttpMethod::PUT => "PUT"@,
        HttpMethod::DELETE => "DELETE"@,
        HttpMethod::HEAD => "HEAD"@,
        HttpMethod::OPTIONS => "OPTIONS"@,
        HttpMethod::PATCH => "PATCH"@,
        HttpMethod::TRACE => "TRACE"@,
        HttpMethod::CONNECT => "CONNECT"@,
    }
}

/// The method with a given name; names are in capitals.
pub open spec fn method_named(s: Seq<char>) -> Option<HttpMethod> {
    if s == "GET"@ {
        Some(HttpMethod::GET)
    } else if s == "POST"@ {
        Some(HttpMethod::POST)
    } else if s == "PUT"@ {
        Some(HttpMethod::PUT)
    } else if s == "DELETE"@ {
        Some(HttpMethod::DELETE)
    } else if s == "HEAD"@ {
        Some(HttpMethod::HEAD)
    } else if s == "OPTIONS"@ {
        Some(HttpMethod::OPTIONS)
    } else if s == "PATCH"@ {
        Some(HttpMethod::PATCH)
    } else if s == "TRACE"@ {
        Some(HttpMethod::TRACE)
    } else if s == "CONNECT"@ {
        Some(HttpMethod::CONNECT)
    } else {
        None
    }
}

impl HttpMethod {
    pub fn as_str(&self) -> (r: &'static str)
        ensures
            r@ == method_name(*self),
    {
        match self {
            HttpMethod::GET => "GET",
            HttpMethod::POST => "POST",
            HttpMethod::PUT => "PUT",
            HttpMethod::DELETE => "DELETE",
            HttpMethod::HEAD => "HEAD",
            HttpMethod::OPTIONS => "OPTIONS",
            HttpMethod::PATCH => "PATCH",
            HttpMethod::TRACE => "TRACE",
            HttpMethod::CONNECT => "CONNECT",
        }
    }

    pub fn from_str(s: &str) -> (r: Option<Self>)
        ensures
            r == method_named(s@),
    {
        let c = chars_of(s);
        Self::from_chars(c.as_slice())
    }

    pub fn from_chars(s: &[char]) -> (r: Option<Self>)
        ensures
            r == method_named(s@),
    {
        if is_text(s, "GET") {
            Some(HttpMethod::GET)
        } else if is_text(s, "POST") {
            Some(HttpMethod::POST)
        } else if is_text(s, "PUT") {
            Some(HttpMethod::PUT)
        } else if is_text(s, "DELETE") {
            Some(HttpMethod::DELETE)
        } else if is_text(s, "HEAD") {
            Some(HttpMethod::HEAD)
        } else if is_text(s, "OPTIONS") {
            Some(HttpMethod::OPTIONS)
        } else if is_text(s, "PATCH") {
            Some(HttpMethod::PATCH)
        } else if is_text(s, "TRACE") {
            Some(HttpMethod::TRACE)
        } else if is_text(s, "CONNECT") {
            Some(HttpMethod::CONNECT)
        } else {
            None
        }
    }
}

/// Every method is found by its name.
pub proof fn law_method_names(m: HttpMethod)
    ensures
        method_named(method_name(m)) == Some(m),
{
    reveal_strlit("GET");
    reveal_strlit("POST");
    reveal_strlit("PUT");
    reveal_strlit("DELETE");
    reveal_strlit("HEAD");
    reveal_strlit("OPTIONS");
    reveal_strlit("PATCH");
    reveal_strlit("TRACE");
    reveal_strlit("CONNECT");
    assert("GET"@[0] == 'G' && "PUT"@[0] == 'P');
    assert("POST"@[0] == 'P' && "HEAD"@[0] == 'H');
    assert("PATCH"@[0] == 'P' && "TRACE"@[0] == 'T');
    assert("OPTIONS"@[0] == 'O' && "CONNECT"@[0] == 'C');
    assert("DELETE"@.len() == 6 && "OPTIONS"@.len() == 7 && "CONNECT"@.len() == 7);
    assert("PATCH"@.len() == 5 && "TRACE"@.len() == 5 && "HEAD"@.len() == 4 && "POST"@.len() == 4);
    assert("GET"@.len() == 3 && "PUT"@.len() == 3);
}

}
