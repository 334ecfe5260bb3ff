//! The query-string parser: an ordered list of key/value pairs. The raw
//! string is trimmed, one leading and one trailing `?` is tolerated, and
//! entries are separated by `+` (deliberately, not by `&`). An entry with
//! more than one `=` is silently dropped; one with no `=` gets an empty
//! value. Duplicate keys are preserved in order, never merged.
use crate::text::{spec_split, spec_trim, spec_trim_one, split, trim, trim_one};
use vstd::prelude::*;

verus! {

/// One key/value pair of a query string.
#[derive(Debug, Clone)]
pub struct KeyValue {
    pub key: String,
    pub value: String,
}

impl View for KeyValue {
    type V = (Seq<char>, Seq<char>);

    open spec fn view(&self) -> (Seq<char>, Seq<char>) {
        (self.key@, self.value@)
    }
}

impl PartialEq for KeyValue {
    fn eq(&self, other: &Self) -> (r: bool) {
        self.key == other.key && self.value == other.value
    }
}

impl vstd::std_specs::cmp::PartialEqSpecImpl for KeyValue {
    open spec fn obeys_eq_spec() -> bool {
        true
    }

    open spec fn eq_spec(&self, other: &Self) -> bool {
        self@ == other@
    }
}

/// The ordered pairs of a query string, in appearance order.
#[derive(Debug)]
pub struct Query {
    pub queries: Vec<KeyValue>,
}

impl View for Query {
    type V = Seq<(Seq<char>, Seq<char>)>;

    open spec fn view(&self) -> Seq<(Seq<char>, Seq<char>)> {
        self.queries@.map(|i: int, kv: KeyValue| kv@)
    }
}

impl PartialEq for Query {
    fn eq(&self, other: &Self) -> (r: bool) {
        proof {
            assert(self@.len() == self.queries@.len());
            assert(other@.len() == other.queries@.len());
        }
        if self.queries.len() != other.queries.len() {
            return false;
        }
        let n = self.queries.len();
        for i in 0..n
            invariant
                n == self.queries.len(),
                n == other.queries.len(),
                forall|j: int| 0 <= j < i ==> self.queries@[j]@ == other.queries@[j]@,
        {
            if !(self.queries[i] == other.queries[i]) {
                proof {
                    assert(self@[i as int] == self.queries@[i as int]@);
                    assert(other@[i as int] == other.queries@[i as int]@);
                }
                return false;
            }
        }
        proof {
            assert(self@ =~= other@);
        }
        true
    }
}

impl vstd::std_specs::cmp::PartialEqSpecImpl for Query {
    open spec fn obeys_eq_spec() -> bool {
        true
    }

    open spec fn eq_spec(&self, other: &Self) -> bool {
        self@ == other@
    }
}

impl Default for Query {
    /// The empty query.
    fn default() -> (r: Self)
        ensures
            r@ == Seq::<(Seq<char>, Seq<char>)>::empty(),
    {
        let r = Query { queries: Vec::new() };
        proof {
            assert(r@ =~= Seq::<(Seq<char>, Seq<char>)>::empty());
        }
        r
    }
}

/// What `KeyValue::parse` returns for one `+`-separated entry: splitting on
/// `=` must give one or two parts; a missing value is the empty string.
pub open spec fn spec_keyvalue(e: Seq<char>) -> Option<(Seq<char>, Seq<char>)> {
    let parts = spec_split(e, "="@);
    if parts.len() > 2 {
        None
    } else if parts.len() == 2 {
        Some((parts[0], parts[1]))
    } else {
        Some((parts[0], Seq::empty()))
    }
}

/// The pairs that survive parsing each entry, in order.
pub open spec fn spec_pairs(parts: Seq<Seq<char>>) -> Seq<(Seq<char>, Seq<char>)>
    decreases parts.len(),
{
    if parts.len() == 0 {
        Seq::empty()
    } else {
        match spec_keyvalue(parts[0]) {
            Some(p) => seq![p] + spec_pairs(parts.skip(1)),
            None => spec_pairs(parts.skip(1)),
        }
    }
}

/// What `Query::parse` returns for a whole raw query string.
pub open spec fn spec_query(s: Seq<char>) -> Seq<(Seq<char>, Seq<char>)> {
    spec_pairs(spec_split(spec_trim_one(spec_trim(s), '?'), "+"@))
}

impl Query {
    /// Parse a raw query string into its ordered surviving pairs.
    pub fn parse(queries: String) -> (r: Self)
        ensures
            r@ == spec_query(queries@),
    {
        let t0 = trim(queries.as_str());
        let t = trim_one(t0, '?');
        proof {
            reveal_strlit("+");
        }
        let parts = split(t, "+");
        let ghost dv = parts.deep_view();
        let mut out: Vec<KeyValue> = Vec::new();
        proof {
            assert(dv.skip(0) =~= dv);
            assert(out@.map(|i: int, kv: KeyValue| kv@) =~= Seq::<(Seq<char>, Seq<char>)>::empty());
            assert(Seq::<(Seq<char>, Seq<char>)>::empty() + spec_pairs(dv) =~= spec_pairs(dv));
        }
        let n = parts.len();
        for i in 0..n
            invariant
                n == parts.len(),
                dv == parts.deep_view(),
                spec_pairs(dv) == out@.map(|k: int, kv: KeyValue| kv@) + spec_pairs(
                    dv.skip(i as int),
                ),
        {
            proof {
                assert(parts.deep_view()[i as int] == parts@[i as int]@);
                assert(dv.skip(i as int)[0] == dv[i as int]);
                assert(dv.skip(i as int).skip(1) =~= dv.skip(i + 1));
            }
            let ghost prev = out@.map(|k: int, kv: KeyValue| kv@);
            match KeyValue::parse(parts[i].clone()) {
                Some(kv) => {
                    let ghost kvv = kv@;
                    out.push(kv);
                    proof {
                        assert(out@.map(|k: int, kv: KeyValue| kv@) =~= prev.push(kvv));
                        assert(prev + (seq![kvv] + spec_pairs(dv.skip(i + 1))) =~= prev.push(kvv)
                            + spec_pairs(dv.skip(i + 1)));
                    }
                },
                None => {},
            }
        }
        proof {
            assert(dv.skip(n as int) =~= Seq::<Seq<char>>::empty());
            assert(out@.map(|k: int, kv: KeyValue| kv@) + Seq::<(Seq<char>, Seq<char>)>::empty()
                =~= out@.map(|k: int, kv: KeyValue| kv@));
        }
        Query { queries: out }
    }
}

impl KeyValue {
    /// Parse one entry; `None` drops just this entry, never the whole query.
    pub fn parse(query: String) -> (r: Option<Self>)
        ensures
            match r {
                Some(kv) => spec_keyvalue(query@) == Some(kv@),
                None => spec_keyvalue(query@) is None,
            },
    {
        proof {
            reveal_strlit("=");
        }
        let parts = split(query.as_str(), "=");
        proof {
            assert(parts.deep_view()[0] == parts@[0]@);
        }
        if parts.len() > 2 {
            return None;
        }
        let value = if parts.len() == 2 {
            proof {
                assert(parts.deep_view()[1] == parts@[1]@);
            }
            parts[1].clone()
        } else {
            String::new()
        };
        Some(KeyValue { key: parts[0].clone(), value })
    }
}

} // verus!
