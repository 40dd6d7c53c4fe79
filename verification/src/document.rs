//! The JSON document shape the pipeline assembles, caches and serves. The
//! pipeline only ever builds documents out of these six shapes, and only ever
//! reads string fields (`id`, `mimeType`, ...) back out of objects.

use vstd::prelude::*;
use crate::text::str_eq;

verus! {

/// A structurally-typed JSON value. Object fields keep their insertion order.
#[derive(Debug, PartialEq, Eq)]
pub enum Document {
    Null,
    Bool(bool),
    Int(i64),
    Text(String),
    Array(Vec<Document>),
    Object(Vec<(String, Document)>),
}

/// The value of the first field named `key` among `pairs`, if any.
pub open spec fn field_lookup(pairs: Seq<(String, Document)>, key: Seq<char>) -> Option<Document>
    decreases pairs.len(),
{
    if pairs.len() == 0 {
        None
    } else if pairs[0].0@ == key {
        Some(pairs[0].1)
    } else {
        field_lookup(pairs.drop_first(), key)
    }
}

impl Document {
    /// The value of the object field named `key`; `None` when this document is
    /// not an object or has no such field.
    pub open spec fn field_spec(&self, key: Seq<char>) -> Option<Document> {
        match self {
            Document::Object(pairs) => field_lookup(pairs@, key),
            _ => None,
        }
    }

    /// Look a field up in an object document.
    #[verifier::loop_isolation(false)]
    pub fn field<'a>(&'a self, key: &str) -> (r: Option<&'a Document>)
        ensures
            match r {
                Some(d) => self.field_spec(key@) == Some(*d),
                None => self.field_spec(key@) is None,
            },
    {
        match self {
            Document::Object(pairs) => {
                let n = pairs.len();
                assert(pairs@.subrange(0, n as int) =~= pairs@);
                let mut i: usize = 0;
                while i < n
                    invariant
                        n == pairs@.len(),
                        i <= n,
                        forall|j: int| 0 <= j < i ==> pairs@[j].0@ != key@,
                        field_lookup(pairs@, key@) == field_lookup(
                            pairs@.subrange(i as int, n as int),
                            key@,
                        ),
                    decreases n - i,
                {
                    if str_eq(pairs[i].0.as_str(), key) {
                        assert(pairs@.subrange(i as int, n as int)[0] == pairs@[i as int]);
                        assert(field_lookup(pairs@.subrange(i as int, n as int), key@) == Some(
                            pairs@[i as int].1,
                        ));
                        return Some(&pairs[i].1);
                    }
                    assert(pairs@.subrange(i as int, n as int).drop_first() =~= pairs@.subrange(
                        i + 1,
                        n as int,
                    ));
                    i = i + 1;
                }
                assert(pairs@.subrange(n as int, n as int).len() == 0);
                None
            },
            _ => None,
        }
    }

    /// The text held by the object field named `key`, if it is a string field.
    pub fn field_str<'a>(&'a self, key: &str) -> (r: Option<&'a String>)
        ensures
            match r {
                Some(s) => self.field_spec(key@) == Some(Document::Text(*s)),
                None => !(self.field_spec(key@) matches Some(d) && d is Text),
            },
    {
        match self.field(key) {
            Some(Document::Text(s)) => Some(s),
            _ => None,
        }
    }
}

} // verus!
