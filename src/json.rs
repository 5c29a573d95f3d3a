use vstd::prelude::*;

verus! {

broadcast use {vstd::std_specs::vec::group_vec_axioms, vstd::seq::group_seq_axioms};

/// The mathematical value of a JSON document.
pub enum JsonVal {
    Null,
    Bool(bool),
    /// A number, held as its canonical text.
    Number(Seq<char>),
    Str(Seq<char>),
    Array(Seq<JsonVal>),
    /// Field names and field values, in document order.
    Object(Seq<Seq<char>>, Seq<JsonVal>),
}

/// A parsed JSON document. Numbers carry their canonical textual form.
pub enum Json {
    Null,
    Bool(bool),
    Number(String),
    Str(String),
    Array(Vec<Json>),
    Object(Vec<(String, Json)>),
}

impl View for Json {
    type V = JsonVal;

    open spec fn view(&self) -> JsonVal
        decreases self,
    {
        match self {
            Json::Null => JsonVal::Null,
            Json::Bool(b) => JsonVal::Bool(*b),
            Json::Number(t) => JsonVal::Number(t@),
            Json::Str(s) => JsonVal::Str(s@),
            Json::Array(es) => JsonVal::Array(
                Seq::new(es.len() as nat, |i: int| if 0 <= i < es.len() { es[i].view() } else { JsonVal::Null }),
            ),
            Json::Object(ms) => JsonVal::Object(
                Seq::new(ms.len() as nat, |i: int| ms[i].0@),
                Seq::new(ms.len() as nat, |i: int| if 0 <= i < ms.len() { ms[i].1.view() } else { JsonVal::Null }),
            ),
        }
    }
}

impl Json {
    /// A deep, independent copy of this document.
    pub fn snapshot(&self) -> (r: Json)
        ensures
            r@ == self@,
        decreases self,
    {
        match self {
            Json::Null => Json::Null,
            Json::Bool(b) => Json::Bool(*b),
            Json::Number(t) => Json::Number(t.clone()),
            Json::Str(s) => Json::Str(s.clone()),
            Json::Array(es) => {
                let mut out: Vec<Json> = Vec::new();
                let mut i: usize = 0;
                #[verifier::loop_isolation(false)]
                while i < es.len()
                    invariant
                        i <= es.len(),
                        out.len() == i,
                        forall|k: int| 0 <= k < i ==> #[trigger] out[k]@ == es[k]@,
                    decreases es.len() - i,
                {
                    proof {
                        assert(decreases_to!(*self => es[i as int]));
                    }
                    let c = es[i].snapshot();
                    out.push(c);
                    i += 1;
                }
                let r = Json::Array(out);
                assert(r@->Array_0 =~= self@->Array_0) by {
                    assert forall|k: int| 0 <= k < es.len() implies r@->Array_0[k] == self@->Array_0[k] by {
                        assert(out[k]@ == es[k]@);
                    }
                }
                r
            },
            Json::Object(ms) => {
                let mut out: Vec<(String, Json)> = Vec::new();
                let mut i: usize = 0;
                #[verifier::loop_isolation(false)]
                while i < ms.len()
                    invariant
                        i <= ms.len(),
                        out.len() == i,
                        forall|k: int| 0 <= k < i ==> (#[trigger] out[k]).0@ == ms[k].0@,
                        forall|k: int| 0 <= k < i ==> (#[trigger] out[k]).1@ == ms[k].1@,
                    decreases ms.len() - i,
                {
                    proof {
                        assert(decreases_to!(*self => ms[i as int].1));
                    }
                    let c = ms[i].1.snapshot();
                    out.push((ms[i].0.clone(), c));
                    i += 1;
                }
                let r = Json::Object(out);
                assert(r@->Object_0 =~= self@->Object_0);
                assert(r@->Object_1 =~= self@->Object_1);
                r
            },
        }
    }
}

} // verus!
