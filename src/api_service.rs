//! A stand-in data source with a fixed table of values, consulted by callers
//! to fill cache misses.
use vstd::prelude::*;

use crate::cache::{has_key, lemma_index_of_unique, unique_keys, value_of};
use crate::snapshot::pairs_view;

verus! {

/// A data source holding a fixed table of keys and values.
pub struct ApiService {
    data: Vec<(String, String)>,
}

impl View for ApiService {
    type V = Seq<(Seq<char>, Seq<char>)>;

    /// The table, one `(key, value)` pair per key.
    closed spec fn view(&self) -> Seq<(Seq<char>, Seq<char>)> {
        pairs_view(self.data@)
    }
}

impl ApiService {
    /// No key occurs twice in the table.
    pub open spec fn wf(&self) -> bool {
        unique_keys(self@)
    }

    /// A source holding `A -> value_a`, `B -> value_b` and `C -> value_c`.
    pub fn new() -> (r: ApiService)
        ensures
            r.wf(),
            r@ == seq![("A"@, "value_a"@), ("B"@, "value_b"@), ("C"@, "value_c"@)],
    {
        proof {
            reveal_strlit("A");
            reveal_strlit("B");
            reveal_strlit("C");
        }
        let mut data: Vec<(String, String)> = Vec::new();
        data.push((String::from_str("A"), String::from_str("value_a")));
        data.push((String::from_str("B"), String::from_str("value_b")));
        data.push((String::from_str("C"), String::from_str("value_c")));
        let r = ApiService { data };
        assert(r@ =~= seq![("A"@, "value_a"@), ("B"@, "value_b"@), ("C"@, "value_c"@)]);
        assert("A"@[0] == 'A' && "B"@[0] == 'B' && "C"@[0] == 'C');
        assert(r@[0].0 != r@[1].0 && r@[0].0 != r@[2].0 && r@[1].0 != r@[2].0);
        r
    }

    /// The value the source holds for `key`, if any.
    pub fn lookup(&self, key: &str) -> (r: Option<String>)
        requires
            self.wf(),
        ensures
            match r {
                Some(v) => has_key(self@, key@) && v@ == value_of(self@, key@),
                None => !has_key(self@, key@),
            },
    {
        let k = String::from_str(key);
        let n = self.data.len();
        let mut i: usize = 0;
        while i < n
            invariant
                n == self@.len(),
                i <= n,
                self.wf(),
                k@ == key@,
                forall|j: int| 0 <= j < i ==> (#[trigger] self@[j]).0 != key@,
            decreases n - i,
        {
            if self.data[i].0 == k {
                proof {
                    lemma_index_of_unique(self@, key@, i as int);
                }
                return Some(self.data[i].1.clone());
            }
            i = i + 1;
        }
        proof {
            let s = self@;
            if has_key(s, key@) {
                let j = choose|j: int| 0 <= j < s.len() && (#[trigger] s[j]).0 == key@;
                assert(s[j].0 != key@);
            }
        }
        None
    }
}

} // verus!
