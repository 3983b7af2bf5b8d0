use vstd::prelude::*;

use crate::value::{same_value, Json};

verus! {

/// A copy of the value that owns all of its contents.
#[verifier::loop_isolation(false)]
pub fn duplicate_value(v: &Json) -> (r: Json)
    ensures
        same_value(*v, r),
    decreases *v, 0nat,
{
    match v {
        Json::Null => Json::Null,
        Json::Bool(b) => Json::Bool(*b),
        Json::Number(n) => Json::Number(*n),
        Json::String(s) => Json::String(s.clone()),
        Json::Array(items) => {
            let mut out: Vec<Json> = Vec::new();
            let mut i: usize = 0;
            while i < items.len()
                invariant
                    i <= items@.len(),
                    out@.len() == i,
                    *v == Json::Array(*items),
                    forall|j: int| 0 <= j < i ==> same_value(#[trigger] items@[j], out@[j]),
                decreases items.len() - i,
            {
                out.push(duplicate_value(&items[i]));
                i = i + 1;
            }
            Json::Array(out)
        },
        Json::Object(members) => {
            let mut out: Vec<(String, Json)> = Vec::new();
            let mut i: usize = 0;
            while i < members.len()
                invariant
                    i <= members@.len(),
                    out@.len() == i,
                    *v == Json::Object(*members),
                    forall|j: int|
                        0 <= j < i ==> (#[trigger] members@[j]).0@ == out@[j].0@ && same_value(
                            members@[j].1,
                            out@[j].1,
                        ),
                decreases members.len() - i,
            {
                let key = members[i].0.clone();
                let value = duplicate_value(&members[i].1);
                out.push((key, value));
                i = i + 1;
            }
            Json::Object(out)
        },
    }
}

} // verus!
