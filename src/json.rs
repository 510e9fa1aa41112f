//! A JSON document held as plain values, as configuration arrives in it.
use vstd::prelude::*;

verus! {

/// A JSON value. Numbers are kept as their decimal text.
#[derive(Debug)]
pub enum Json {
    Null,
    Bool(bool),
    Number(String),
    Str(String),
    Array(Vec<Json>),
    Object(Vec<(String, Json)>),
}

/// The value of the first member named `name`, if any.
pub open spec fn member(fields: Seq<(String, Json)>, name: Seq<char>) -> Option<Json>
    decreases fields.len(),
{
    if fields.len() == 0 {
        None
    } else if fields[0].0@ == name {
        Some(fields[0].1)
    } else {
        member(fields.drop_first(), name)
    }
}

/// The member `name` of an object; nothing for any other kind of value.
pub open spec fn field(v: Json, name: Seq<char>) -> Option<Json> {
    match v {
        Json::Object(fields) => member(fields@, name),
        _ => None,
    }
}

impl Json {
    /// The member `name` of an object, if it has one.
    pub fn get(&self, name: &String) -> (r: Option<&Json>)
        ensures
            match r {
                Some(x) => field(*self, name@) == Some(*x),
                None => field(*self, name@) is None,
            },
    {
        match self {
            Json::Object(fields) => {
                let mut i: usize = 0;
                assert(fields@.skip(0) =~= fields@);
                assert(field(*self, name@) == member(fields@, name@));
                while i < fields.len()
                    invariant
                        i <= fields@.len(),
                        field(*self, name@) == member(fields@.skip(i as int), name@),
                    decreases fields@.len() - i,
                {
                    assert(fields@.skip(i as int).drop_first() =~= fields@.skip(i + 1));
                    assert(fields@.skip(i as int)[0] == fields@[i as int]);
                    if fields[i].0.eq(name) {
                        assert(fields@.skip(i as int).len() > 0);
                        assert(member(fields@.skip(i as int), name@) == Some(fields@[i as int].1));
                        return Some(&fields[i].1);
                    }
                    i = i + 1;
                }
                None
            },
            _ => None,
        }
    }
}

} // verus!
