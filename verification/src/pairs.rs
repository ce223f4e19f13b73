//! Lists of named values.

use vstd::prelude::*;

use vstd::utf8::encode_utf8;

use crate::text;

verus! {

/// The texts of a list of pairs.
pub open spec fn pair_texts(v: Seq<(String, String)>) -> Seq<(Seq<char>, Seq<char>)> {
    v.map_values(|p: (String, String)| (p.0@, p.1@))
}

/// The value of the first pair whose name is `k`.
pub open spec fn lookup(ps: Seq<(Seq<char>, Seq<char>)>, k: Seq<char>) -> Option<Seq<char>>
    decreases ps.len(),
{
    if ps.len() == 0 {
        None
    } else if ps[0].0 == k {
        Some(ps[0].1)
    } else {
        lookup(ps.skip(1), k)
    }
}

/// A pair of strings.
pub fn pair(a: &str, b: &str) -> (r: (String, String))
    ensures
        r.0@ == a@,
        r.1@ == b@,
{
    (a.to_owned(), b.to_owned())
}

/// `lookup`, computed.
pub fn find(ps: &Vec<(String, String)>, k: &str) -> (r: Option<String>)
    ensures
        text::opt(r) == lookup(pair_texts(ps@), k@),
{
    let ghost t = pair_texts(ps@);
    let mut i: usize = 0;
    assert(t.skip(0) =~= t);
    while i < ps.len()
        invariant
            i <= ps@.len(),
            t == pair_texts(ps@),
            lookup(t.skip(i as int), k@) == lookup(t, k@),
        decreases ps@.len() - i,
    {
        assert(t.skip(i as int)[0] == (ps@[i as int].0@, ps@[i as int].1@));
        assert(t.skip(i as int).skip(1) =~= t.skip(i + 1));
        if text::same(ps[i].0.as_str(), k) {
            return Some(ps[i].1.clone());
        }
        i = i + 1;
    }
    None
}

/// No name stands twice.
pub open spec fn distinct(ps: Seq<(Seq<char>, Seq<char>)>) -> bool {
    forall|i: int, j: int| 0 <= i < j < ps.len() ==> #[trigger] ps[i].0 != #[trigger] ps[j].0
}

/// What `lookup` finds is in the list; what it does not find is not.
pub proof fn lemma_lookup(ps: Seq<(Seq<char>, Seq<char>)>, k: Seq<char>)
    ensures
        lookup(ps, k) is Some ==> exists|i: int|
            0 <= i < ps.len() && #[trigger] ps[i] == (k, lookup(ps, k)->0),
        lookup(ps, k) is None ==> forall|i: int| 0 <= i < ps.len() ==> #[trigger] ps[i].0 != k,
    decreases ps.len(),
{
    if ps.len() > 0 {
        if ps[0].0 == k {
            assert(ps[0] == (k, lookup(ps, k)->0));
        } else {
            let t = ps.skip(1);
            lemma_lookup(t, k);
            if lookup(t, k) is Some {
                let i = choose|i: int|
                    0 <= i < t.len() && #[trigger] t[i] == (k, lookup(t, k)->0);
                assert(ps[i + 1] == (k, lookup(ps, k)->0));
            } else {
                assert forall|i: int| 0 <= i < ps.len() implies #[trigger] ps[i].0 != k by {
                    if i > 0 {
                        assert(t[i - 1] == ps[i]);
                    }
                }
            }
        }
    }
}

/// Where no name stands twice, `lookup` finds every pair.
pub proof fn lemma_lookup_at(ps: Seq<(Seq<char>, Seq<char>)>, i: int)
    requires
        0 <= i < ps.len(),
        distinct(ps),
    ensures
        lookup(ps, ps[i].0) == Some(ps[i].1),
{
    lemma_lookup(ps, ps[i].0);
    if lookup(ps, ps[i].0) is Some {
        let j = choose|j: int|
            0 <= j < ps.len() && #[trigger] ps[j] == (ps[i].0, lookup(ps, ps[i].0)->0);
        if j < i {
            assert(ps[j].0 != ps[i].0);
        } else if i < j {
            assert(ps[i].0 != ps[j].0);
        }
    }
}

/// `lookup` in a list that got one more pair.
pub proof fn lemma_lookup_push(
    ps: Seq<(Seq<char>, Seq<char>)>,
    p: (Seq<char>, Seq<char>),
    k: Seq<char>,
)
    ensures
        lookup(ps.push(p), k) == match lookup(ps, k) {
            Some(v) => Some(v),
            None => if p.0 == k { Some(p.1) } else { None },
        },
    decreases ps.len(),
{
    let t = ps.push(p);
    if ps.len() == 0 {
        assert(t[0] == p);
        assert(lookup(t.skip(1), k) is None);
    } else {
        assert(t[0] == ps[0]);
        assert(t.skip(1) =~= ps.skip(1).push(p));
        lemma_lookup_push(ps.skip(1), p, k);
    }
}

/// The map that a list of pairs stands for.
pub open spec fn binds(ps: Seq<(Seq<char>, Seq<char>)>) -> Map<Seq<char>, Seq<char>> {
    Map::new(|k: Seq<char>| lookup(ps, k) is Some, |k: Seq<char>| lookup(ps, k)->0)
}

/// The names stand in strictly rising order.
pub open spec fn ascending(ps: Seq<(Seq<char>, Seq<char>)>) -> bool {
    forall|i: int, j: int|
        0 <= i < j < ps.len() ==> text::text_less(#[trigger] ps[i].0, #[trigger] ps[j].0)
}

/// Rising names are distinct.
pub proof fn lemma_ascending_distinct(ps: Seq<(Seq<char>, Seq<char>)>)
    requires
        ascending(ps),
    ensures
        distinct(ps),
{
    assert forall|i: int, j: int| 0 <= i < j < ps.len() implies #[trigger] ps[i].0
        != #[trigger] ps[j].0 by {
        assert(text::text_less(ps[i].0, ps[j].0));
        text::lemma_text_less_total(ps[i].0, ps[j].0);
    }
}

/// Values by name, kept in the order of the names.
pub struct Bindings {
    pub entries: Vec<(String, String)>,
}

impl View for Bindings {
    type V = Map<Seq<char>, Seq<char>>;

    open spec fn view(&self) -> Map<Seq<char>, Seq<char>> {
        binds(pair_texts(self.entries@))
    }
}

impl Bindings {
    /// The names are in order, and none stands twice.
    pub open spec fn wf(self) -> bool {
        ascending(pair_texts(self.entries@))
    }

    /// No values.
    pub fn new() -> (r: Bindings)
        ensures
            r.wf(),
            r@ == Map::<Seq<char>, Seq<char>>::empty(),
    {
        let r = Bindings { entries: Vec::new() };
        assert(r@ =~= Map::<Seq<char>, Seq<char>>::empty());
        r
    }

    /// The value of a name.
    pub fn get(&self, name: &str) -> (r: Option<String>)
        ensures
            r is Some <==> self@.dom().contains(name@),
            r matches Some(v) ==> v@ == self@[name@],
    {
        find(&self.entries, name)
    }

    /// Gives a name its value.
    pub fn set(&mut self, name: String, value: String)
        requires
            old(self).wf(),
        ensures
            final(self).wf(),
            final(self)@ == old(self)@.insert(name@, value@),
    {
        let ghost s = pair_texts(self.entries@);
        let ghost k = name@;
        let ghost v = value@;
        let mut i: usize = 0;
        while i < self.entries.len() && text::less(self.entries[i].0.as_str(), name.as_str())
            invariant
                i <= self.entries@.len(),
                self.entries@ == old(self).entries@,
                s == pair_texts(self.entries@),
                forall|j: int| 0 <= j < i ==> text::text_less((#[trigger] s[j]).0, name@),
            decreases self.entries@.len() - i,
        {
            assert(s[i as int].0 == self.entries@[i as int].0@);
            i = i + 1;
        }
        if i < self.entries.len() && text::same(self.entries[i].0.as_str(), name.as_str()) {
            assert(s[i as int].0 == k);
            self.entries.set(i, (name, value));
            proof {
                let t = pair_texts(self.entries@);
                assert(t =~= s.update(i as int, (k, v)));
                assert forall|a: int, b: int| 0 <= a < b < t.len() implies text::text_less(
                    #[trigger] t[a].0,
                    #[trigger] t[b].0,
                ) by {
                    assert(t[a].0 == s[a].0);
                    assert(t[b].0 == s[b].0);
                }
                assert forall|q: Seq<char>, j: int| q != k && 0 <= j < s.len() && #[trigger] s[j].0
                    == q implies #[trigger] Self::at_home(t, q, s[j].1) by {
                    assert(t[j] == s[j]);
                }
                assert(t[i as int] == (k, v));
                lemma_binds_insert(s, t, k, v);
            }
        } else {
            proof {
                if i < s.len() {
                    assert(s[i as int].0 == self.entries@[i as int].0@);
                    text::lemma_text_less_total(s[i as int].0, k);
                }
            }
            self.entries.insert(i, (name, value));
            proof {
                let t = pair_texts(self.entries@);
                assert(t =~= s.insert(i as int, (k, v)));
                assert forall|a: int, b: int| 0 <= a < b < t.len() implies text::text_less(
                    #[trigger] t[a].0,
                    #[trigger] t[b].0,
                ) by {
                    if a < i && b > i {
                        assert(text::text_less(s[a].0, s[b - 1].0));
                    } else if a < i && b < i {
                        assert(text::text_less(s[a].0, s[b].0));
                    } else if a == i {
                        if b - 1 > i {
                            assert(text::text_less(s[i as int].0, s[b - 1].0));
                            text::lemma_bytes_less_transitive(
                                encode_utf8(k),
                                encode_utf8(s[i as int].0),
                                encode_utf8(s[b - 1].0),
                            );
                        }
                    } else if a > i {
                        assert(text::text_less(s[a - 1].0, s[b - 1].0));
                    }
                }
                assert forall|q: Seq<char>, j: int| q != k && 0 <= j < s.len() && #[trigger] s[j].0
                    == q implies #[trigger] Self::at_home(t, q, s[j].1) by {
                    let m = if j < i { j } else { j + 1 };
                    assert(t[m] == s[j]);
                }
                assert(t[i as int] == (k, v));
                lemma_binds_insert(s, t, k, v);
            }
        }
    }

    /// The pair is in the list.
    pub open spec fn at_home(t: Seq<(Seq<char>, Seq<char>)>, q: Seq<char>, v: Seq<char>) -> bool {
        exists|m: int| 0 <= m < t.len() && #[trigger] t[m] == (q, v)
    }
}

proof fn lemma_binds_insert(
    s: Seq<(Seq<char>, Seq<char>)>,
    t: Seq<(Seq<char>, Seq<char>)>,
    k: Seq<char>,
    v: Seq<char>,
)
    requires
        ascending(s),
        ascending(t),
        exists|m: int| 0 <= m < t.len() && #[trigger] t[m] == (k, v),
        forall|q: Seq<char>, j: int|
            q != k && 0 <= j < s.len() && #[trigger] s[j].0 == q ==> #[trigger] Bindings::at_home(
                t,
                q,
                s[j].1,
            ),
        forall|j: int|
            0 <= j < t.len() && #[trigger] t[j].0 != k ==> exists|m: int|
                0 <= m < s.len() && #[trigger] s[m] == t[j],
    ensures
        binds(t) == binds(s).insert(k, v),
{
    lemma_ascending_distinct(s);
    lemma_ascending_distinct(t);
    let m = choose|m: int| 0 <= m < t.len() && #[trigger] t[m] == (k, v);
    lemma_lookup_at(t, m);
    assert forall|q: Seq<char>| q != k implies lookup(t, q) == lookup(s, q) by {
        lemma_lookup(s, q);
        lemma_lookup(t, q);
        if lookup(s, q) is Some {
            let j = choose|j: int|
                0 <= j < s.len() && #[trigger] s[j] == (q, lookup(s, q)->0);
            assert(s[j].0 == q);
            assert(Bindings::at_home(t, q, s[j].1));
            let n = choose|n: int| 0 <= n < t.len() && #[trigger] t[n] == (q, s[j].1);
            lemma_lookup_at(t, n);
        } else if lookup(t, q) is Some {
            let j = choose|j: int|
                0 <= j < t.len() && #[trigger] t[j] == (q, lookup(t, q)->0);
            assert(t[j].0 != k);
            let n = choose|n: int| 0 <= n < s.len() && #[trigger] s[n] == t[j];
            assert(s[n].0 == q);
        }
    }
    assert(binds(t) =~= binds(s).insert(k, v));
}

} // verus!
