//! One request: decode the existing baggage, overlay the configured headers'
//! values, encode the result.
use crate::codec::{
    decode, decode_baggage, encode, encode_baggage, encodable, free_of, keys_unique,
    lemma_decode_encode, lemma_decode_facts, lemma_put_encodable, lemma_put_keys_unique, lookup,
    put, BaggageMap, Entry,
};
use crate::config::texts;
use std::rc::Rc;
use vstd::prelude::*;

verus! {

/// The texts of looked-up header values, absent ones kept absent.
pub open spec fn opt_texts(values: Seq<Option<String>>) -> Seq<Option<Seq<char>>> {
    values.map_values(
        |o: Option<String>|
            match o {
                Some(s) => Some(s@),
                None => None,
            },
    )
}

/// Sets each configured name that has a value to that value, in the order of
/// the names; `values[i]` is what the request holds under `names[i]`.
pub open spec fn merge(
    es: Seq<Entry>,
    names: Seq<Seq<char>>,
    values: Seq<Option<Seq<char>>>,
) -> Seq<Entry>
    decreases names.len(),
{
    if names.len() == 0 {
        es
    } else {
        let prev = merge(es, names.drop_last(), values.drop_last());
        match values.last() {
            Some(v) => put(prev, names.last(), v),
            None => prev,
        }
    }
}

/// The entries that the request's `baggage` header carries, none when it is absent.
pub open spec fn existing(baggage: Option<Seq<char>>) -> Seq<Entry> {
    match baggage {
        Some(b) => decode(b),
        None => Seq::empty(),
    }
}

/// The entries of the rewritten `baggage` header.
pub open spec fn rewritten(
    names: Seq<Seq<char>>,
    baggage: Option<Seq<char>>,
    values: Seq<Option<Seq<char>>>,
) -> Seq<Entry> {
    merge(existing(baggage), names, values)
}

/// The value that the last configured name `k` with a value carries, if any.
pub open spec fn last_value(
    names: Seq<Seq<char>>,
    values: Seq<Option<Seq<char>>>,
    k: Seq<char>,
) -> Option<Seq<char>>
    decreases names.len(),
{
    if names.len() == 0 {
        None
    } else if names.last() == k && values.last() is Some {
        values.last()
    } else {
        last_value(names.drop_last(), values.drop_last(), k)
    }
}

/// After merging, a key holds the value of the last configured header of
/// that name that the request carries, and otherwise what it held before.
pub proof fn lemma_lookup_merge(
    es: Seq<Entry>,
    names: Seq<Seq<char>>,
    values: Seq<Option<Seq<char>>>,
    k: Seq<char>,
)
    requires
        keys_unique(es),
        names.len() == values.len(),
    ensures
        keys_unique(merge(es, names, values)),
        lookup(merge(es, names, values), k) == match last_value(names, values, k) {
            Some(v) => Some(v),
            None => lookup(es, k),
        },
    decreases names.len(),
{
    if names.len() > 0 {
        let prev = merge(es, names.drop_last(), values.drop_last());
        lemma_lookup_merge(es, names.drop_last(), values.drop_last(), k);
        match values.last() {
            Some(v) => {
                lemma_put_keys_unique(prev, names.last(), v);
            },
            None => {},
        }
    }
}

proof fn lemma_last_value_configured(
    names: Seq<Seq<char>>,
    values: Seq<Option<Seq<char>>>,
    k: Seq<char>,
    v: Seq<char>,
)
    requires
        names.len() == values.len(),
        exists|j: int| 0 <= j < names.len() && names[j] == k,
        forall|j: int| 0 <= j < names.len() && names[j] == k ==> values[j] == Some(v),
    ensures
        last_value(names, values, k) == Some(v),
    decreases names.len(),
{
    let n = names.len() - 1;
    if names[n] != k {
        let j0 = choose|j: int| 0 <= j < names.len() && names[j] == k;
        assert(names.drop_last()[j0] == k);
        assert forall|j: int|
            0 <= j < names.drop_last().len() && names.drop_last()[j] == k implies values.drop_last()[j]
            == Some(v) by {
            assert(names[j] == k);
        }
        lemma_last_value_configured(names.drop_last(), values.drop_last(), k, v);
    } else {
        assert(values[n] == Some(v));
    }
}

proof fn lemma_last_value_absent(
    names: Seq<Seq<char>>,
    values: Seq<Option<Seq<char>>>,
    k: Seq<char>,
)
    requires
        names.len() == values.len(),
        forall|j: int| 0 <= j < names.len() && names[j] == k ==> values[j] is None,
    ensures
        last_value(names, values, k) is None,
    decreases names.len(),
{
    if names.len() > 0 {
        let n = names.len() - 1;
        assert(names[n] == k ==> values[n] is None);
        assert forall|j: int|
            0 <= j < names.drop_last().len() && names.drop_last()[j] == k implies values.drop_last()[j] is None by {
            assert(names[j] == k);
        }
        lemma_last_value_absent(names.drop_last(), values.drop_last(), k);
    }
}

/// A configured header that the request carries sets its key to its value,
/// whatever the existing baggage held under that key.
pub proof fn lemma_configured_value_wins(
    names: Seq<Seq<char>>,
    baggage: Option<Seq<char>>,
    values: Seq<Option<Seq<char>>>,
    k: Seq<char>,
    v: Seq<char>,
)
    requires
        names.len() == values.len(),
        exists|j: int| 0 <= j < names.len() && names[j] == k,
        forall|j: int| 0 <= j < names.len() && names[j] == k ==> values[j] == Some(v),
    ensures
        lookup(rewritten(names, baggage, values), k) == Some(v),
{
    if let Some(b) = baggage {
        lemma_decode_facts(b);
    }
    lemma_last_value_configured(names, values, k, v);
    lemma_lookup_merge(existing(baggage), names, values, k);
}

/// An existing entry whose key no configured header with a value names
/// stays as it was.
pub proof fn lemma_existing_entry_kept(
    names: Seq<Seq<char>>,
    baggage: Option<Seq<char>>,
    values: Seq<Option<Seq<char>>>,
    k: Seq<char>,
)
    requires
        names.len() == values.len(),
        forall|j: int| 0 <= j < names.len() && names[j] == k ==> values[j] is None,
    ensures
        lookup(rewritten(names, baggage, values), k) == lookup(existing(baggage), k),
{
    if let Some(b) = baggage {
        lemma_decode_facts(b);
    }
    lemma_last_value_absent(names, values, k);
    lemma_lookup_merge(existing(baggage), names, values, k);
}

proof fn lemma_merge_encodable(
    es: Seq<Entry>,
    names: Seq<Seq<char>>,
    values: Seq<Option<Seq<char>>>,
)
    requires
        encodable(es),
        names.len() == values.len(),
        forall|j: int| 0 <= j < names.len() ==> free_of(#[trigger] names[j], ',') && free_of(names[j], '='),
        forall|j: int| 0 <= j < values.len() && values[j] is Some ==> free_of(#[trigger] values[j]->Some_0, ','),
    ensures
        encodable(merge(es, names, values)),
    decreases names.len(),
{
    if names.len() > 0 {
        let n = names.len() - 1;
        assert forall|j: int| 0 <= j < n implies free_of(#[trigger] names.drop_last()[j], ',') && free_of(names.drop_last()[j], '=') by {
            assert(names.drop_last()[j] == names[j]);
        }
        assert forall|j: int| 0 <= j < n && values.drop_last()[j] is Some implies free_of(#[trigger] values.drop_last()[j]->Some_0, ',') by {
            assert(values.drop_last()[j] == values[j]);
        }
        lemma_merge_encodable(es, names.drop_last(), values.drop_last());
        assert(free_of(names[n], ',') && free_of(names[n], '='));
        if values[n] is Some {
            assert(free_of(values[n]->Some_0, ','));
            lemma_put_encodable(merge(es, names.drop_last(), values.drop_last()), names[n], values[n]->Some_0);
        }
    }
}

/// Rewriting a header that was already rewritten, with the same configured
/// header values, gives entries of the same content: every key maps to the
/// same value. Header names hold no `,` or `=`, and values no `,`.
pub proof fn lemma_rewrite_idempotent(
    names: Seq<Seq<char>>,
    baggage: Option<Seq<char>>,
    values: Seq<Option<Seq<char>>>,
)
    requires
        names.len() == values.len(),
        forall|j: int| 0 <= j < names.len() ==> free_of(#[trigger] names[j], ',') && free_of(names[j], '='),
        forall|j: int| 0 <= j < values.len() && values[j] is Some ==> free_of(#[trigger] values[j]->Some_0, ','),
    ensures
        forall|k: Seq<char>|
            lookup(rewritten(names, Some(encode(rewritten(names, baggage, values))), values), k)
                == #[trigger] lookup(rewritten(names, baggage, values), k),
{
    let once = rewritten(names, baggage, values);
    if let Some(b) = baggage {
        lemma_decode_facts(b);
    }
    lemma_lookup_merge(existing(baggage), names, values, Seq::empty());
    lemma_merge_encodable(existing(baggage), names, values);
    lemma_decode_encode(once);
    assert(existing(Some(encode(once))) == once);
    assert forall|k: Seq<char>|
        lookup(rewritten(names, Some(encode(once)), values), k) == #[trigger] lookup(once, k) by {
        lemma_lookup_merge(existing(baggage), names, values, k);
        lemma_lookup_merge(once, names, values, k);
    }
}

/// The per-request filter, holding the configuration it was created with.
pub struct BaggageFilter {
    pub headers: Rc<Vec<String>>,
}

impl BaggageFilter {
    /// Decodes a `baggage` header value.
    pub fn get_baggage_value(&mut self, baggage: &str) -> (r: BaggageMap)
        ensures
            r@ == decode(baggage@),
            r.wf(),
            *final(self) == *old(self),
    {
        decode_baggage(baggage)
    }

    /// Encodes a map as a `baggage` header value.
    pub fn create_baggage_value(&mut self, baggage_map: &BaggageMap) -> (r: String)
        ensures
            r@ == encode(baggage_map@),
            *final(self) == *old(self),
    {
        encode_baggage(baggage_map)
    }

    /// Overwrites or adds an entry for each configured header that the
    /// request holds; `values[i]` is the request's value of `headers[i]`.
    pub fn merge_headers(&self, map: &mut BaggageMap, values: &Vec<Option<String>>)
        requires
            old(map).wf(),
            values@.len() == self.headers@.len(),
        ensures
            final(map).wf(),
            final(map)@ == merge(old(map)@, texts(self.headers@), opt_texts(values@)),
    {
        let names: &Vec<String> = &self.headers;
        let ghost start = map@;
        let mut i: usize = 0;
        assert(texts(names@).take(0) =~= Seq::<Seq<char>>::empty());
        assert(opt_texts(values@).take(0) =~= Seq::<Option<Seq<char>>>::empty());
        while i < names.len()
            invariant
                i <= names@.len(),
                values@.len() == names@.len(),
                names@ == self.headers@,
                map.wf(),
                map@ == merge(
                    start,
                    texts(names@).take(i as int),
                    opt_texts(values@).take(i as int),
                ),
            decreases names@.len() - i,
        {
            let ghost n1 = texts(names@).take(i + 1);
            let ghost v1 = opt_texts(values@).take(i + 1);
            assert(n1.drop_last() =~= texts(names@).take(i as int));
            assert(v1.drop_last() =~= opt_texts(values@).take(i as int));
            assert(n1.last() == names@[i as int]@);
            match &values[i] {
                Some(v) => {
                    assert(v1.last() == Some(v@));
                    map.insert(names[i].clone(), v.clone());
                },
                None => {
                    assert(v1.last() is None);
                },
            }
            i = i + 1;
        }
        assert(texts(names@).take(names@.len() as int) =~= texts(names@));
        assert(opt_texts(values@).take(names@.len() as int) =~= opt_texts(values@));
    }

    /// The new `baggage` header value for a request whose `baggage` header is
    /// `baggage` and whose configured headers hold `values`, in the order of
    /// the configuration. Configured values overwrite existing entries.
    pub fn rewrite_baggage(
        &mut self,
        baggage: Option<&str>,
        values: &Vec<Option<String>>,
    ) -> (r: String)
        requires
            values@.len() == old(self).headers@.len(),
        ensures
            r@ == encode(
                rewritten(
                    texts(old(self).headers@),
                    match baggage {
                        Some(b) => Some(b@),
                        None => None,
                    },
                    opt_texts(values@),
                ),
            ),
            *final(self) == *old(self),
    {
        let mut map = match baggage {
            Some(b) => self.get_baggage_value(b),
            None => BaggageMap::new(),
        };
        self.merge_headers(&mut map, values);
        self.create_baggage_value(&map)
    }
}

} // verus!
