//! Names in dictionary order: a set of names, and a truth value for each of
//! a set of names.

use crate::alphabet::chars_of;
use vstd::prelude::*;

verus! {

/// `a` and `b` agree on their first `k` characters.
pub open spec fn agree_up_to(a: Seq<char>, b: Seq<char>, k: int) -> bool {
    &&& 0 <= k <= a.len()
    &&& k <= b.len()
    &&& forall|i: int| 0 <= i < k ==> a[i] == b[i]
}

/// `a` comes before `b` in the dictionary: at the first place where they
/// differ `a` has ended, or has the character with the lower code point.
pub open spec fn name_less(a: Seq<char>, b: Seq<char>) -> bool {
    exists|k: int| #[trigger]
        agree_up_to(a, b, k) && k < b.len() && (k == a.len() || a[k] < b[k])
}

/// The names stand in dictionary order, so none occurs twice.
pub open spec fn increasing(names: Seq<Seq<char>>) -> bool {
    forall|i: int, j: int| 0 <= i < j < names.len() ==> name_less(names[i], names[j])
}

/// Of two names at most one comes before the other, and then they differ.
pub proof fn lemma_name_less_asymmetric(a: Seq<char>, b: Seq<char>)
    requires
        name_less(a, b),
    ensures
        a != b,
        !name_less(b, a),
{
    let k1 = choose|k: int| #[trigger]
        agree_up_to(a, b, k) && k < b.len() && (k == a.len() || a[k] < b[k]);
    if name_less(b, a) {
        let k2 = choose|k: int| #[trigger]
            agree_up_to(b, a, k) && k < a.len() && (k == b.len() || b[k] < a[k]);
        if k1 < k2 {
            assert(b[k1] == a[k1]);
        } else if k2 < k1 {
            assert(a[k2] == b[k2]);
        }
    }
}

/// Dictionary order is transitive.
pub proof fn lemma_name_less_transitive(a: Seq<char>, b: Seq<char>, c: Seq<char>)
    requires
        name_less(a, b),
        name_less(b, c),
    ensures
        name_less(a, c),
{
    let k1 = choose|k: int| #[trigger]
        agree_up_to(a, b, k) && k < b.len() && (k == a.len() || a[k] < b[k]);
    let k2 = choose|k: int| #[trigger]
        agree_up_to(b, c, k) && k < c.len() && (k == b.len() || b[k] < c[k]);
    let k = if k1 <= k2 {
        k1
    } else {
        k2
    };
    assert(agree_up_to(a, c, k));
}

/// A set of names has one dictionary order: two sequences in dictionary
/// order that hold the same names are the same sequence.
pub proof fn lemma_increasing_unique(a: Seq<Seq<char>>, b: Seq<Seq<char>>)
    requires
        increasing(a),
        increasing(b),
        a.to_set() == b.to_set(),
    ensures
        a == b,
    decreases a.len(),
{
    if a.len() == 0 {
        if b.len() > 0 {
            assert(b.to_set().contains(b[0]));
            assert(a.contains(b[0]));
        }
        assert(a =~= b);
    } else {
        let top = a.last();
        assert(a.to_set().contains(top));
        assert(b.contains(top));
        let at = b.index_of(top);
        assert(b.to_set().contains(b.last()));
        assert(a.contains(b.last()));
        let back = a.index_of(b.last());
        if at < b.len() - 1 {
            assert(name_less(b[at], b.last()));
            if back < a.len() - 1 {
                assert(name_less(a[back], a.last()));
                lemma_name_less_transitive(top, b.last(), top);
            }
        }
        assert(b.last() == top);
        let shorter_a = a.drop_last();
        let shorter_b = b.drop_last();
        assert forall|name: Seq<char>| shorter_a.to_set().contains(name)
            == shorter_b.to_set().contains(name) by {
            if shorter_a.contains(name) {
                let i = shorter_a.index_of(name);
                assert(a[i] == name);
                assert(name_less(a[i], a.last()));
                assert(a.to_set().contains(name));
                assert(b.contains(name));
                let j = b.index_of(name);
                assert(shorter_b[j] == name);
            }
            if shorter_b.contains(name) {
                let j = shorter_b.index_of(name);
                assert(b[j] == name);
                assert(name_less(b[j], b.last()));
                assert(b.to_set().contains(name));
                assert(a.contains(name));
                let i = a.index_of(name);
                assert(shorter_a[i] == name);
            }
        }
        assert(shorter_a.to_set() =~= shorter_b.to_set());
        lemma_increasing_unique(shorter_a, shorter_b);
        assert(a =~= shorter_a.push(top));
        assert(b =~= shorter_b.push(top));
    }
}

/// The names of a finite set in dictionary order.
pub open spec fn in_order(names: Set<Seq<char>>) -> Seq<Seq<char>> {
    choose|ordered: Seq<Seq<char>>| increasing(ordered) && ordered.to_set() == names
}

/// A sequence in dictionary order is its names in dictionary order.
pub proof fn lemma_in_order(ordered: Seq<Seq<char>>)
    requires
        increasing(ordered),
    ensures
        in_order(ordered.to_set()) == ordered,
{
    lemma_increasing_unique(in_order(ordered.to_set()), ordered);
}

/// How two names stand to each other in the dictionary.
#[derive(Debug, Clone, Copy, PartialEq, Eq, Structural)]
pub enum Place {
    Before,
    Same,
    After,
}

/// Where `a` stands in the dictionary, seen from `b`.
pub fn place_of(a: &str, b: &str) -> (r: Place)
    ensures
        r == Place::Before <==> name_less(a@, b@),
        r == Place::Same <==> a@ == b@,
        r == Place::After <==> name_less(b@, a@),
{
    proof {
        if name_less(a@, b@) {
            lemma_name_less_asymmetric(a@, b@);
        }
        if name_less(b@, a@) {
            lemma_name_less_asymmetric(b@, a@);
        }
    }
    let left = chars_of(a);
    let right = chars_of(b);
    let mut k: usize = 0;
    while k < left.len() && k < right.len() && left[k] == right[k]
        invariant
            left@ == a@,
            right@ == b@,
            agree_up_to(a@, b@, k as int),
        decreases left.len() - k,
    {
        k += 1;
    }
    if k == left.len() {
        if k == right.len() {
            assert(a@ =~= b@);
            Place::Same
        } else {
            Place::Before
        }
    } else if k == right.len() {
        assert(agree_up_to(b@, a@, k as int));
        Place::After
    } else if left[k] < right[k] {
        Place::Before
    } else {
        assert(agree_up_to(b@, a@, k as int));
        Place::After
    }
}

/// A set of names, kept in dictionary order.
#[derive(Debug)]
pub struct NameSet {
    names: Vec<String>,
}

impl View for NameSet {
    type V = Seq<Seq<char>>;

    /// The names of the set, in dictionary order.
    closed spec fn view(&self) -> Seq<Seq<char>> {
        self.names@.map_values(|name: String| name@)
    }
}

impl NameSet {
    /// The names stand in dictionary order, each once.
    pub open spec fn wf(&self) -> bool {
        increasing(self@)
    }

    /// The empty set.
    pub fn new() -> (r: NameSet)
        ensures
            r@ == Seq::<Seq<char>>::empty(),
            r.wf(),
    {
        let r = NameSet { names: Vec::new() };
        assert(r@ =~= Seq::<Seq<char>>::empty());
        r
    }

    /// Number of names in the set.
    pub fn len(&self) -> (n: usize)
        ensures
            n == self@.len(),
    {
        self.names.len()
    }

    /// Whether the set holds no name.
    pub fn is_empty(&self) -> (b: bool)
        ensures
            b == (self@.len() == 0),
    {
        self.names.len() == 0
    }

    /// The name at place `i` of the dictionary order.
    pub fn get(&self, i: usize) -> (name: &String)
        requires
            i < self@.len(),
        ensures
            name@ == self@[i as int],
    {
        &self.names[i]
    }

    /// The place of the first name that does not come before `name`, and
    /// whether that name is `name`.
    pub fn locate(&self, name: &str) -> (r: (usize, bool))
        requires
            self.wf(),
        ensures
            r.0 <= self@.len(),
            forall|i: int| 0 <= i < r.0 ==> name_less(#[trigger] self@[i], name@),
            r.1 ==> r.0 < self@.len() && self@[r.0 as int] == name@,
            !r.1 ==> forall|i: int|
                r.0 <= i < self@.len() ==> name_less(name@, #[trigger] self@[i]),
            r.1 == self@.contains(name@),
    {
        let mut i: usize = 0;
        while i < self.names.len()
            invariant
                self.wf(),
                i <= self@.len(),
                self@.len() == self.names.len(),
                forall|j: int| 0 <= j < i ==> name_less(#[trigger] self@[j], name@),
            decreases self.names.len() - i,
        {
            match place_of(self.names[i].as_str(), name) {
                Place::Before => {},
                Place::Same => {
                    assert(self@[i as int] == name@);
                    return (i, true);
                },
                Place::After => {
                    proof {
                        assert forall|j: int| i <= j < self@.len() implies name_less(
                            name@,
                            #[trigger] self@[j],
                        ) by {
                            if i < j {
                                lemma_name_less_transitive(name@, self@[i as int], self@[j]);
                            }
                        }
                        assert(!self@.contains(name@));
                    }
                    return (i, false);
                },
            }
            i += 1;
        }
        (i, false)
    }

    /// Whether `name` is in the set.
    pub fn contains(&self, name: &str) -> (b: bool)
        requires
            self.wf(),
        ensures
            b == self@.contains(name@),
    {
        self.locate(name).1
    }

    /// Puts `name` at `place`, where the names before that place come before
    /// it and the names from that place on come after it.
    fn put_at(&mut self, place: usize, name: String)
        requires
            old(self).wf(),
            place <= old(self)@.len(),
            forall|i: int| 0 <= i < place ==> name_less(#[trigger] old(self)@[i], name@),
            forall|i: int|
                place <= i < old(self)@.len() ==> name_less(name@, #[trigger] old(self)@[i]),
        ensures
            final(self).wf(),
            final(self)@ == old(self)@.insert(place as int, name@),
            final(self)@.to_set() == old(self)@.to_set().insert(name@),
    {
        self.names.insert(place, name);
        proof {
            assert(self@ =~= old(self)@.insert(place as int, name@));
            assert forall|i: int, j: int| 0 <= i < j < self@.len() implies name_less(
                self@[i],
                self@[j],
            ) by {
                if i < place && j > place {
                    assert(name_less(old(self)@[i], old(self)@[j - 1]));
                }
            }
            assert forall|n: Seq<char>|
                self@.to_set().contains(n) == old(self)@.to_set().insert(name@).contains(n) by {
                if self@.contains(n) {
                    let i = choose|i: int| 0 <= i < self@.len() && self@[i] == n;
                    if i < place {
                        assert(old(self)@[i] == n);
                    } else if i > place {
                        assert(old(self)@[i - 1] == n);
                    }
                }
                if old(self)@.contains(n) {
                    let i = choose|i: int| 0 <= i < old(self)@.len() && old(self)@[i] == n;
                    if i < place {
                        assert(self@[i] == n);
                    } else {
                        assert(self@[i + 1] == n);
                    }
                }
                if n == name@ {
                    assert(self@[place as int] == n);
                }
            }
            assert(self@.to_set() =~= old(self)@.to_set().insert(name@));
        }
    }

    /// Adds `name` to the set; says whether it was new.
    pub fn insert(&mut self, name: String) -> (added: bool)
        requires
            old(self).wf(),
        ensures
            final(self).wf(),
            added == !old(self)@.contains(name@),
            final(self)@.to_set() == old(self)@.to_set().insert(name@),
            final(self)@ == in_order(old(self)@.to_set().insert(name@)),
            !added ==> final(self)@ == old(self)@,
            added ==> final(self)@.len() == old(self)@.len() + 1,
    {
        let (place, found) = self.locate(name.as_str());
        let added = if found {
            assert(old(self)@.to_set().insert(name@) =~= old(self)@.to_set());
            false
        } else {
            self.put_at(place, name);
            true
        };
        proof {
            lemma_in_order(self@);
        }
        added
    }

    /// Takes `name` out of the set; says whether it was there.
    pub fn remove(&mut self, name: &str) -> (removed: bool)
        requires
            old(self).wf(),
        ensures
            final(self).wf(),
            removed == old(self)@.contains(name@),
            final(self)@.to_set() == old(self)@.to_set().remove(name@),
            final(self)@ == in_order(old(self)@.to_set().remove(name@)),
            !removed ==> final(self)@ == old(self)@,
            removed ==> final(self)@ == old(self)@.remove(old(self)@.index_of(name@)),
    {
        let (place, found) = self.locate(name);
        if found {
            self.names.remove(place);
            proof {
                lemma_place_of_name(old(self)@, place as int);
                assert(self@ =~= old(self)@.remove(place as int));
                assert forall|i: int, j: int| 0 <= i < j < self@.len() implies name_less(
                    self@[i],
                    self@[j],
                ) by {
                    let oi = if i < place { i } else { i + 1 };
                    let oj = if j < place { j } else { j + 1 };
                    assert(name_less(old(self)@[oi], old(self)@[oj]));
                }
                assert forall|n: Seq<char>|
                    self@.to_set().contains(n) == old(self)@.to_set().remove(name@).contains(
                        n,
                    ) by {
                    if self@.contains(n) {
                        let i = choose|i: int| 0 <= i < self@.len() && self@[i] == n;
                        let oi = if i < place { i } else { i + 1 };
                        assert(old(self)@[oi] == n);
                        if oi < place {
                            assert(name_less(old(self)@[oi], old(self)@[place as int]));
                        } else {
                            assert(name_less(old(self)@[place as int], old(self)@[oi]));
                        }
                    }
                    if old(self)@.contains(n) && n != name@ {
                        let i = choose|i: int| 0 <= i < old(self)@.len() && old(self)@[i] == n;
                        if i < place {
                            assert(self@[i] == n);
                        } else {
                            assert(self@[i - 1] == n);
                        }
                    }
                }
                assert(self@.to_set() =~= old(self)@.to_set().remove(name@));
                lemma_in_order(self@);
            }
            true
        } else {
            proof {
                assert(old(self)@.to_set().remove(name@) =~= old(self)@.to_set());
                lemma_in_order(self@);
            }
            false
        }
    }
}

impl Clone for NameSet {
    /// A set with the same names.
    fn clone(&self) -> (r: NameSet)
        ensures
            r@ == self@,
    {
        let mut names: Vec<String> = Vec::new();
        for i in 0..self.names.len()
            invariant
                names.len() == i,
                forall|j: int| 0 <= j < i ==> names@[j]@ == self.names@[j]@,
        {
            names.push(self.names[i].clone());
        }
        let r = NameSet { names };
        assert(r@ =~= self@);
        r
    }
}

/// A truth value for each of a set of names.
#[derive(Debug)]
pub struct NameMap {
    keys: NameSet,
    values: Vec<bool>,
}

impl View for NameMap {
    type V = Map<Seq<char>, bool>;

    closed spec fn view(&self) -> Map<Seq<char>, bool> {
        Map::new(
            |name: Seq<char>| self.keys@.contains(name),
            |name: Seq<char>| self.values@[self.keys@.index_of(name)],
        )
    }
}

impl NameMap {
    /// The names stand in dictionary order, each once and each with a value.
    pub closed spec fn wf(&self) -> bool {
        &&& self.keys.wf()
        &&& self.values@.len() == self.keys@.len()
    }

    /// The map without any name.
    pub fn new() -> (r: NameMap)
        ensures
            r.wf(),
            r@ == Map::<Seq<char>, bool>::empty(),
    {
        let r = NameMap { keys: NameSet::new(), values: Vec::new() };
        assert(r@ =~= Map::<Seq<char>, bool>::empty());
        r
    }

    /// The value of `name`, if it has one.
    pub fn get(&self, name: &str) -> (r: Option<bool>)
        requires
            self.wf(),
        ensures
            r == if self@.contains_key(name@) {
                Some(self@[name@])
            } else {
                None
            },
    {
        let (place, found) = self.keys.locate(name);
        if found {
            proof {
                lemma_place_of_name(self.keys@, place as int);
            }
            Some(self.values[place])
        } else {
            None
        }
    }

    /// Gives `name` the value `value`, whether or not it had one.
    pub fn insert(&mut self, name: String, value: bool)
        requires
            old(self).wf(),
        ensures
            final(self).wf(),
            final(self)@ == old(self)@.insert(name@, value),
    {
        let (place, found) = self.keys.locate(name.as_str());
        if found {
            self.values[place] = value;
            proof {
                lemma_place_of_name(self.keys@, place as int);
                assert(self@ =~= old(self)@.insert(name@, value)) by {
                    assert forall|n: Seq<char>|
                        self.keys@.contains(n) && n != name@ implies self@[n] == old(self)@[n] by {
                        assert(self.keys@.index_of(n) != place);
                    }
                }
            }
        } else {
            self.keys.put_at(place, name);
            self.values.insert(place, value);
            proof {
                let before = old(self).keys@;
                let after = self.keys@;
                lemma_place_of_name(after, place as int);
                assert forall|n: Seq<char>| before.contains(n) implies after.contains(n)
                    && self@[n] == old(self)@[n] by {
                    let at = before.index_of(n);
                    let to = if at < place {
                        at
                    } else {
                        at + 1
                    };
                    assert(after[to] == n);
                    lemma_place_of_name(after, to);
                }
                assert forall|n: Seq<char>| after.contains(n) && n != name@ implies before.contains(
                    n,
                ) by {
                    let at = after.index_of(n);
                    if at < place {
                        assert(before[at] == n);
                    } else {
                        assert(before[at - 1] == n);
                    }
                }
                assert(self@ =~= old(self)@.insert(name@, value));
            }
        }
    }
}

/// In a sequence in dictionary order a name is found at its own place only.
pub proof fn lemma_place_of_name(names: Seq<Seq<char>>, place: int)
    requires
        increasing(names),
        0 <= place < names.len(),
    ensures
        names.contains(names[place]),
        names.index_of(names[place]) == place,
{
    let at = names.index_of(names[place]);
    if at < place {
        assert(name_less(names[at], names[place]));
    } else if at > place {
        assert(name_less(names[place], names[at]));
    }
}

} // verus!
