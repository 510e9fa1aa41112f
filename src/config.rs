//! Validation of the filter's configuration: the request headers to merge.
use crate::json::{field, Json};
use std::rc::Rc;
use vstd::prelude::*;

verus! {

/// Why a configuration was refused.
#[derive(Debug, Clone, Copy, PartialEq, Eq, Structural)]
pub enum ConfigError {
    /// `headers` is absent or is not an array.
    MissingField,
}

/// The texts of a sequence of strings.
pub open spec fn texts(v: Seq<String>) -> Seq<Seq<char>> {
    v.map_values(|s: String| s@)
}

/// The string elements of an array, in order; other elements are skipped.
pub open spec fn string_items(items: Seq<Json>) -> Seq<Seq<char>>
    decreases items.len(),
{
    if items.len() == 0 {
        Seq::empty()
    } else {
        let r = string_items(items.drop_last());
        match items.last() {
            Json::Str(s) => r.push(s@),
            _ => r,
        }
    }
}

/// The header names that a configuration document yields, or `None` when
/// its `headers` member is missing or not an array.
pub open spec fn configured_headers(config: Json) -> Option<Seq<Seq<char>>> {
    match field(config, "headers"@) {
        Some(Json::Array(items)) => Some(string_items(items@)),
        _ => None,
    }
}

/// Reads the header names out of a configuration document: the string
/// elements of its `headers` array, in order.
pub fn validate(config: &Json) -> (r: Result<Vec<String>, ConfigError>)
    ensures
        match configured_headers(*config) {
            Some(names) => r is Ok && texts(r->Ok_0@) == names,
            None => r == Err::<Vec<String>, ConfigError>(ConfigError::MissingField),
        },
{
    let key = "headers".to_owned();
    match config.get(&key) {
        Some(Json::Array(items)) => {
            let mut names: Vec<String> = Vec::new();
            let mut i: usize = 0;
            assert(items@.take(0) =~= Seq::<Json>::empty());
            while i < items.len()
                invariant
                    i <= items@.len(),
                    texts(names@) == string_items(items@.take(i as int)),
                decreases items@.len() - i,
            {
                assert(items@.take(i + 1).drop_last() =~= items@.take(i as int));
                assert(items@.take(i + 1).last() == items@[i as int]);
                match &items[i] {
                    Json::Str(s) => {
                        names.push(s.clone());
                        assert(texts(names@) =~= string_items(items@.take(i as int)).push(s@));
                    },
                    _ => {},
                }
                i = i + 1;
            }
            assert(items@.take(items@.len() as int) =~= items@);
            Ok(names)
        },
        _ => Err(ConfigError::MissingField),
    }
}

/// Holds the active configuration: the names of the headers to merge.
pub struct BaggageRoot {
    pub headers: Rc<Vec<String>>,
}

impl Default for BaggageRoot {
    fn default() -> (r: BaggageRoot)
        ensures
            r.headers@.len() == 0,
    {
        BaggageRoot { headers: Rc::new(Vec::new()) }
    }
}

impl BaggageRoot {
    /// Installs the header names of `config`; a refused document leaves the
    /// active configuration as it was.
    pub fn configure(&mut self, config: &Json) -> (r: Result<(), ConfigError>)
        ensures
            match configured_headers(*config) {
                Some(names) => r is Ok && texts(final(self).headers@) == names,
                None => r == Err::<(), ConfigError>(ConfigError::MissingField)
                    && final(self).headers == old(self).headers,
            },
    {
        match validate(config) {
            Ok(names) => {
                self.headers = Rc::new(names);
                Ok(())
            },
            Err(e) => Err(e),
        }
    }
}

} // verus!
