//! How media types, languages and codings compare: equal where they name the same, and before one another where
//! they are accepted at a higher rank.
use std::cmp::Ordering;
use vstd::prelude::*;
use vstd::std_specs::cmp::{PartialEqSpecImpl, PartialOrdSpecImpl};

use crate::net::http::negotiation::{EncodingPreference, LanguageTag, MediaType};
use crate::order::{HasRank, Ranked};
use crate::text::{chars_of, eq_nocase, same_nocase, same_text};

verus! {

/// What comes first is less.
pub open spec fn by_rank(a: nat, b: nat) -> Ordering {
    if a > b {
        Ordering::Less
    } else if a < b {
        Ordering::Greater
    } else {
        Ordering::Equal
    }
}

fn compare_ranks(a: u64, b: u64) -> (r: Ordering)
    ensures
        r == (if a > b {
            Ordering::Less
        } else if a < b {
            Ordering::Greater
        } else {
            Ordering::Equal
        }),
{
    if a > b {
        Ordering::Less
    } else if a < b {
        Ordering::Greater
    } else {
        Ordering::Equal
    }
}

fn same(a: &String, b: &String) -> (r: bool)
    ensures
        r == (a@ == b@),
{
    same_text(chars_of(a.as_str()).as_slice(), chars_of(b.as_str()).as_slice())
}

impl PartialEqSpecImpl for MediaType {
    open spec fn obeys_eq_spec() -> bool {
        true
    }

    open spec fn eq_spec(&self, other: &MediaType) -> bool {
        self.type_@ == other.type_@ && self.subtype@ == other.subtype@
    }
}

impl PartialEq for MediaType {
    fn eq(&self, other: &MediaType) -> (r: bool) {
        same(&self.type_, &other.type_) && same(&self.subtype, &other.subtype)
    }
}

impl Eq for MediaType {

}

impl PartialOrdSpecImpl for MediaType {
    open spec fn obeys_partial_cmp_spec() -> bool {
        true
    }

    open spec fn partial_cmp_spec(&self, other: &MediaType) -> Option<Ordering> {
        Some(by_rank(self.rank(), other.rank()))
    }
}

impl PartialOrd for MediaType {
    fn partial_cmp(&self, other: &MediaType) -> (r: Option<Ordering>) {
        Some(compare_ranks(self.rank_of(), other.rank_of()))
    }
}

impl PartialEqSpecImpl for LanguageTag {
    open spec fn obeys_eq_spec() -> bool {
        true
    }

    open spec fn eq_spec(&self, other: &LanguageTag) -> bool {
        self.language@ == other.language@ && (match (self.region, other.region) {
            (Some(a), Some(b)) => a@ == b@,
            (None, None) => true,
            _ => false,
        })
    }
}

impl PartialEq for LanguageTag {
    fn eq(&self, other: &LanguageTag) -> (r: bool) {
        same(&self.language, &other.language) && match (&self.region, &other.region) {
            (Some(a), Some(b)) => same(a, b),
            (None, None) => true,
            _ => false,
        }
    }
}

impl Eq for LanguageTag {

}

impl PartialOrdSpecImpl for LanguageTag {
    open spec fn obeys_partial_cmp_spec() -> bool {
        true
    }

    open spec fn partial_cmp_spec(&self, other: &LanguageTag) -> Option<Ordering> {
        Some(by_rank(self.rank(), other.rank()))
    }
}

impl PartialOrd for LanguageTag {
    fn partial_cmp(&self, other: &LanguageTag) -> (r: Option<Ordering>) {
        Some(compare_ranks(self.rank_of(), other.rank_of()))
    }
}

impl PartialEqSpecImpl for EncodingPreference {
    open spec fn obeys_eq_spec() -> bool {
        true
    }

    open spec fn eq_spec(&self, other: &EncodingPreference) -> bool {
        same_nocase(self.encoding@, other.encoding@)
    }
}

impl PartialEq for EncodingPreference {
    fn eq(&self, other: &EncodingPreference) -> (r: bool) {
        eq_nocase(chars_of(self.encoding.as_str()).as_slice(), chars_of(other.encoding.as_str()).as_slice())
    }
}

impl Eq for EncodingPreference {

}

impl PartialOrdSpecImpl for EncodingPreference {
    open spec fn obeys_partial_cmp_spec() -> bool {
        true
    }

    open spec fn partial_cmp_spec(&self, other: &EncodingPreference) -> Option<Ordering> {
        Some(by_rank(self.rank(), other.rank()))
    }
}

impl PartialOrd for EncodingPreference {
    fn partial_cmp(&self, other: &EncodingPreference) -> (r: Option<Ordering>) {
        Some(compare_ranks(self.rank_of(), other.rank_of()))
    }
}

}
