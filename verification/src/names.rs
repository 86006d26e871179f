use vstd::prelude::*;

verus! {

// ---------------------------------------------------------------------------
// Maps keyed by names
// ---------------------------------------------------------------------------

/// No name occurs twice among the keys of `e`.
pub open spec fn keys_unique<V>(e: Seq<(String, V)>) -> bool {
    forall|i: int, j: int| 0 <= i < j < e.len() ==> e[i].0@ != e[j].0@
}

/// The map that the association list `e` describes.
pub open spec fn map_of<V>(e: Seq<(String, V)>) -> Map<Seq<char>, V>
    decreases e.len(),
{
    if e.len() == 0 {
        Map::empty()
    } else {
        map_of(e.drop_last()).insert(e.last().0@, e.last().1)
    }
}

/// The keys of `map_of(e)` are the names occurring in `e`, and each maps to
/// the value of its (unique) entry.
pub proof fn lemma_map_of<V>(e: Seq<(String, V)>, k: Seq<char>)
    requires
        keys_unique(e),
    ensures
        map_of(e).contains_key(k) <==> exists|i: int| 0 <= i < e.len() && e[i].0@ == k,
        forall|i: int| 0 <= i < e.len() && e[i].0@ == k ==> map_of(e)[k] == e[i].1,
    decreases e.len(),
{
    if e.len() > 0 {
        let d = e.drop_last();
        assert(keys_unique(d));
        lemma_map_of(d, k);
        if map_of(d).contains_key(k) {
            let i = choose|i: int| 0 <= i < d.len() && d[i].0@ == k;
            assert(e[i] == d[i]);
        }
        if exists|i: int| 0 <= i < e.len() && e[i].0@ == k {
            let i = choose|i: int| 0 <= i < e.len() && e[i].0@ == k;
            if i < e.len() - 1 {
                assert(d[i] == e[i]);
            }
        }
        assert forall|i: int| 0 <= i < e.len() && e[i].0@ == k implies map_of(e)[k] == e[i].1 by {
            if i < e.len() - 1 {
                assert(d[i] == e[i]);
                assert(e[i].0@ != e[e.len() - 1].0@);
            }
        }
    }
}

/// Entry `i` of a list without repeated names gives the value of its name.
pub proof fn lemma_map_of_at<V>(e: Seq<(String, V)>, i: int)
    requires
        keys_unique(e),
        0 <= i < e.len(),
    ensures
        map_of(e).contains_key(e[i].0@),
        map_of(e)[e[i].0@] == e[i].1,
{
    lemma_map_of(e, e[i].0@);
    assert(0 <= i < e.len() && e[i].0@ == e[i].0@);
}

pub proof fn lemma_map_of_len<V>(e: Seq<(String, V)>)
    requires
        keys_unique(e),
    ensures
        map_of(e).dom().finite(),
        map_of(e).dom().len() == e.len(),
    decreases e.len(),
{
    if e.len() > 0 {
        let d = e.drop_last();
        assert(keys_unique(d));
        lemma_map_of_len(d);
        lemma_map_of(d, e.last().0@);
        if map_of(d).contains_key(e.last().0@) {
            let i = choose|i: int| 0 <= i < d.len() && d[i].0@ == e.last().0@;
            assert(e[i] == d[i]);
        }
    }
}

/// Replacing the value of entry `i` replaces the value of its key.
pub proof fn lemma_map_of_update<V>(e: Seq<(String, V)>, i: int, v: V)
    requires
        keys_unique(e),
        0 <= i < e.len(),
    ensures
        keys_unique(e.update(i, (e[i].0, v))),
        map_of(e.update(i, (e[i].0, v))) == map_of(e).insert(e[i].0@, v),
{
    let e2 = e.update(i, (e[i].0, v));
    assert(keys_unique(e2));
    assert forall|k: Seq<char>| #[trigger] map_of(e2).contains_key(k) == map_of(e).insert(
        e[i].0@,
        v,
    ).contains_key(k) by {
        lemma_map_of(e, k);
        lemma_map_of(e2, k);
        if exists|j: int| 0 <= j < e.len() && e[j].0@ == k {
            let j = choose|j: int| 0 <= j < e.len() && e[j].0@ == k;
            assert(e2[j].0@ == k);
        }
        if exists|j: int| 0 <= j < e2.len() && e2[j].0@ == k {
            let j = choose|j: int| 0 <= j < e2.len() && e2[j].0@ == k;
            assert(e[j].0@ == k);
        }
    }
    assert forall|k: Seq<char>| #[trigger] map_of(e2).contains_key(k) implies map_of(e2)[k]
        == map_of(e).insert(e[i].0@, v)[k] by {
        lemma_map_of(e, k);
        lemma_map_of(e2, k);
        let j = choose|j: int| 0 <= j < e2.len() && e2[j].0@ == k;
        assert(e[j].0@ == k);
    }
    assert(map_of(e2) =~= map_of(e).insert(e[i].0@, v));
}

/// An association list from names to values, no name occurring twice.
pub struct NameMap<V> {
    pub entries: Vec<(String, V)>,
}

impl<V> View for NameMap<V> {
    type V = Map<Seq<char>, V>;

    open spec fn view(&self) -> Map<Seq<char>, V> {
        map_of(self.entries@)
    }
}

impl<V> NameMap<V> {
    pub open spec fn wf(&self) -> bool {
        keys_unique(self.entries@)
    }

    pub fn new() -> (m: Self)
        ensures
            m.wf(),
            m@ == Map::<Seq<char>, V>::empty(),
            m.entries@.len() == 0,
    {
        NameMap { entries: Vec::new() }
    }

    /// Number of names.
    pub fn len(&self) -> (n: usize)
        requires
            self.wf(),
        ensures
            n == self@.dom().len(),
            n == self.entries@.len(),
    {
        proof {
            lemma_map_of_len(self.entries@);
        }
        self.entries.len()
    }

    pub fn is_empty(&self) -> (b: bool)
        requires
            self.wf(),
        ensures
            b == (self@.dom().len() == 0),
            b == (self.entries@.len() == 0),
    {
        self.len() == 0
    }

    /// Position of the entry for `key`.
    pub fn index_of(&self, key: &String) -> (r: Option<usize>)
        requires
            self.wf(),
        ensures
            match r {
                Some(i) => i < self.entries@.len() && self.entries@[i as int].0@ == key@
                    && self@.contains_key(key@) && self@[key@] == self.entries@[i as int].1,
                None => !self@.contains_key(key@),
            },
    {
        proof {
            lemma_map_of(self.entries@, key@);
        }
        let mut i: usize = 0;
        while i < self.entries.len()
            invariant
                keys_unique(self.entries@),
                i <= self.entries@.len(),
                forall|j: int| 0 <= j < i ==> self.entries@[j].0@ != key@,
            decreases self.entries@.len() - i,
        {
            if self.entries[i].0 == *key {
                proof {
                    lemma_map_of_at(self.entries@, i as int);
                }
                return Some(i);
            }
            i = i + 1;
        }
        None
    }

    pub fn contains_key(&self, key: &String) -> (b: bool)
        requires
            self.wf(),
        ensures
            b == self@.contains_key(key@),
    {
        self.index_of(key).is_some()
    }

    /// The value for `key`.
    pub fn get(&self, key: &String) -> (r: Option<&V>)
        requires
            self.wf(),
        ensures
            match r {
                Some(v) => self@.contains_key(key@) && *v == self@[key@],
                None => !self@.contains_key(key@),
            },
    {
        match self.index_of(key) {
            Some(i) => Some(&self.entries[i].1),
            None => None,
        }
    }

    /// The value of entry `i`.
    pub fn value_at(&self, i: usize) -> (v: &V)
        requires
            i < self.entries@.len(),
        ensures
            *v == self.entries@[i as int].1,
    {
        &self.entries[i].1
    }

    /// The value of entry `i`, for updating in place.
    pub fn value_mut(&mut self, i: usize) -> (v: &mut V)
        requires
            i < old(self).entries@.len(),
        ensures
            *v == old(self).entries@[i as int].1,
            final(self).entries@ == old(self).entries@.update(
                i as int,
                (old(self).entries@[i as int].0, *final(v)),
            ),
    {
        &mut self.entries[i].1
    }

    /// Sets the value for `key`, adding the key if it is new.
    pub fn insert(&mut self, key: String, value: V)
        requires
            old(self).wf(),
        ensures
            final(self).wf(),
            final(self)@ == old(self)@.insert(key@, value),
    {
        match self.index_of(&key) {
            Some(i) => {
                let ghost e = self.entries@;
                let k = self.entries[i].0.clone();
                self.entries.set(i, (k, value));
                proof {
                    assert(self.entries@ == e.update(i as int, (e[i as int].0, value)));
                    lemma_map_of_update(e, i as int, value);
                }
            },
            None => {
                let ghost e = self.entries@;
                proof {
                    lemma_map_of(e, key@);
                }
                self.entries.push((key, value));
                proof {
                    assert(self.entries@.drop_last() =~= e);
                    assert forall|i: int, j: int| 0 <= i < j < self.entries@.len() implies self.entries@[i].0@
                        != self.entries@[j].0@ by {
                        if j == self.entries@.len() - 1 {
                            assert(self.entries@[i] == e[i]);
                        }
                    }
                }
            },
        }
    }

    /// Removes every entry.
    pub fn clear(&mut self)
        ensures
            final(self).wf(),
            final(self)@ == Map::<Seq<char>, V>::empty(),
            final(self).entries@.len() == 0,
    {
        self.entries.clear();
    }
}

// ---------------------------------------------------------------------------
// Sets of names
// ---------------------------------------------------------------------------

/// A set of names kept in insertion order, no name occurring twice.
pub struct NameSet {
    pub items: Vec<String>,
}

pub open spec fn names_unique(s: Seq<String>) -> bool {
    forall|i: int, j: int| 0 <= i < j < s.len() ==> s[i]@ != s[j]@
}

pub open spec fn name_set(s: Seq<String>) -> Set<Seq<char>> {
    Set::new(|k: Seq<char>| exists|i: int| 0 <= i < s.len() && s[i]@ == k)
}

pub proof fn lemma_name_set_len(s: Seq<String>)
    requires
        names_unique(s),
    ensures
        name_set(s).finite(),
        name_set(s).len() == s.len(),
    decreases s.len(),
{
    if s.len() == 0 {
        assert(name_set(s) =~= Set::<Seq<char>>::empty());
    } else {
        let d = s.drop_last();
        lemma_name_set_len(d);
        assert(name_set(s) =~= name_set(d).insert(s.last()@)) by {
            assert forall|k: Seq<char>| name_set(s).contains(k) implies #[trigger] name_set(d).insert(s.last()@).contains(k) by {
                let i = choose|i: int| 0 <= i < s.len() && s[i]@ == k;
                if i < s.len() - 1 {
                    assert(d[i] == s[i]);
                }
            }
            assert forall|k: Seq<char>| name_set(d).insert(s.last()@).contains(k) implies #[trigger] name_set(s).contains(k) by {
                if k != s.last()@ {
                    let i = choose|i: int| 0 <= i < d.len() && d[i]@ == k;
                    assert(s[i] == d[i]);
                } else {
                    assert(s[s.len() - 1]@ == k);
                }
            }
        }
        if name_set(d).contains(s.last()@) {
            let i = choose|i: int| 0 <= i < d.len() && d[i]@ == s.last()@;
            assert(s[i] == d[i]);
        }
    }
}

impl View for NameSet {
    type V = Set<Seq<char>>;

    open spec fn view(&self) -> Set<Seq<char>> {
        name_set(self.items@)
    }
}

impl NameSet {
    pub open spec fn wf(&self) -> bool {
        names_unique(self.items@)
    }

    pub fn new() -> (s: Self)
        ensures
            s.wf(),
            s@ == Set::<Seq<char>>::empty(),
            s.items@.len() == 0,
    {
        let s = NameSet { items: Vec::new() };
        assert(s@ =~= Set::<Seq<char>>::empty());
        s
    }

    pub fn contains(&self, name: &String) -> (b: bool)
        ensures
            b == self@.contains(name@),
    {
        let mut i: usize = 0;
        while i < self.items.len()
            invariant
                i <= self.items@.len(),
                forall|j: int| 0 <= j < i ==> self.items@[j]@ != name@,
            decreases self.items@.len() - i,
        {
            if self.items[i] == *name {
                return true;
            }
            i = i + 1;
        }
        false
    }

    /// Adds `name` (no change when it is already present).
    pub fn insert(&mut self, name: String)
        requires
            old(self).wf(),
        ensures
            final(self).wf(),
            final(self)@ == old(self)@.insert(name@),
    {
        if !self.contains(&name) {
            let ghost s = self.items@;
            self.items.push(name);
            proof {
                assert(self.items@.drop_last() =~= s);
                assert forall|i: int, j: int| 0 <= i < j < self.items@.len() implies self.items@[i]@
                    != self.items@[j]@ by {
                    if j == self.items@.len() - 1 {
                        assert(self.items@[i] == s[i]);
                    }
                }
                assert forall|k: Seq<char>| #[trigger] self@.contains(k) == old(self)@.insert(name@).contains(k) by {
                    if old(self)@.contains(k) {
                        let i = choose|i: int| 0 <= i < s.len() && s[i]@ == k;
                        assert(self.items@[i] == s[i]);
                    }
                    if self@.contains(k) && k != name@ {
                        let i = choose|i: int| 0 <= i < self.items@.len() && self.items@[i]@ == k;
                        assert(self.items@[i] == s[i]);
                    }
                    if k == name@ {
                        assert(self.items@[self.items@.len() - 1]@ == k);
                    }
                }
                assert(self@ =~= old(self)@.insert(name@));
            }
        } else {
            assert(self@ =~= old(self)@.insert(name@));
        }
    }

    pub fn len(&self) -> (n: usize)
        requires
            self.wf(),
        ensures
            n == self@.len(),
            n == self.items@.len(),
    {
        proof {
            lemma_name_set_len(self.items@);
        }
        self.items.len()
    }

    pub fn is_empty(&self) -> (b: bool)
        requires
            self.wf(),
        ensures
            b == (self@.len() == 0),
    {
        self.len() == 0
    }

    pub fn clear(&mut self)
        ensures
            final(self).wf(),
            final(self)@ == Set::<Seq<char>>::empty(),
    {
        self.items.clear();
        assert(self@ =~= Set::<Seq<char>>::empty());
    }
}

// ---------------------------------------------------------------------------
// Maps keyed by code points, kept in ascending order
// ---------------------------------------------------------------------------

/// An association list from code points to names, in strictly ascending
/// order of code points (so iteration goes by code point, as a `BTreeMap`'s).
pub struct CodeMap {
    pub entries: Vec<(u32, String)>,
}

pub open spec fn codes_sorted(e: Seq<(u32, String)>) -> bool {
    forall|i: int, j: int| 0 <= i < j < e.len() ==> e[i].0 < e[j].0
}

/// Entry `i` of `e` is for code point `k`.
pub open spec fn has_code(e: Seq<(u32, String)>, k: u32, i: int) -> bool {
    0 <= i < e.len() && e[i].0 == k
}

pub open spec fn code_map_of(e: Seq<(u32, String)>) -> Map<u32, Seq<char>> {
    Map::new(
        |k: u32| exists|i: int| #[trigger] has_code(e, k, i),
        |k: u32| e[choose|i: int| #[trigger] has_code(e, k, i)].1@,
    )
}

impl View for CodeMap {
    type V = Map<u32, Seq<char>>;

    open spec fn view(&self) -> Map<u32, Seq<char>> {
        code_map_of(self.entries@)
    }
}

pub proof fn lemma_code_map_at(e: Seq<(u32, String)>, i: int)
    requires
        codes_sorted(e),
        0 <= i < e.len(),
    ensures
        code_map_of(e).contains_key(e[i].0),
        code_map_of(e)[e[i].0] == e[i].1@,
{
    assert(has_code(e, e[i].0, i));
    let j = choose|j: int| #[trigger] has_code(e, e[i].0, j);
    if j < i {
        assert(e[j].0 < e[i].0);
    } else if i < j {
        assert(e[i].0 < e[j].0);
    }
}

impl CodeMap {
    pub open spec fn wf(&self) -> bool {
        codes_sorted(self.entries@)
    }

    pub fn new() -> (m: Self)
        ensures
            m.wf(),
            m@ == Map::<u32, Seq<char>>::empty(),
            m.entries@.len() == 0,
    {
        let m = CodeMap { entries: Vec::new() };
        assert(m@ =~= Map::<u32, Seq<char>>::empty());
        m
    }

    pub fn len(&self) -> (n: usize)
        ensures
            n == self.entries@.len(),
    {
        self.entries.len()
    }

    /// The name mapped to code point `cp`.
    pub fn get(&self, cp: u32) -> (r: Option<&String>)
        requires
            self.wf(),
        ensures
            match r {
                Some(s) => self@.contains_key(cp) && s@ == self@[cp],
                None => !self@.contains_key(cp),
            },
    {
        let mut i: usize = 0;
        while i < self.entries.len()
            invariant
                codes_sorted(self.entries@),
                i <= self.entries@.len(),
                forall|j: int| 0 <= j < i ==> self.entries@[j].0 != cp,
            decreases self.entries@.len() - i,
        {
            if self.entries[i].0 == cp {
                proof {
                    lemma_code_map_at(self.entries@, i as int);
                }
                return Some(&self.entries[i].1);
            }
            i = i + 1;
        }
        None
    }

    /// Maps `cp` to `name`, replacing an earlier name for `cp`.
    pub fn insert(&mut self, cp: u32, name: String)
        requires
            old(self).wf(),
        ensures
            final(self).wf(),
            final(self)@ == old(self)@.insert(cp, name@),
    {
        let ghost e = self.entries@;
        let mut i: usize = 0;
        while i < self.entries.len() && self.entries[i].0 < cp
            invariant
                e == self.entries@,
                codes_sorted(e),
                i <= e.len(),
                forall|j: int| 0 <= j < i ==> e[j].0 < cp,
            decreases e.len() - i,
        {
            i = i + 1;
        }
        if i < self.entries.len() && self.entries[i].0 == cp {
            self.entries.set(i, (cp, name));
            proof {
                let e2 = self.entries@;
                assert(codes_sorted(e2));
                assert forall|k: u32| #[trigger] code_map_of(e2).contains_key(k) == old(self)@.insert(cp, name@).contains_key(k) by {
                    if old(self)@.contains_key(k) {
                        let j = choose|j: int| #[trigger] has_code(e, k, j);
                        assert(has_code(e2, k, j));
                    }
                    if k == cp {
                        assert(has_code(e2, k, i as int));
                    }
                    if code_map_of(e2).contains_key(k) {
                        let j = choose|j: int| #[trigger] has_code(e2, k, j);
                        assert(has_code(e, k, j));
                    }
                }
                assert forall|k: u32| #[trigger] code_map_of(e2).contains_key(k) implies code_map_of(e2)[k] == old(self)@.insert(cp, name@)[k] by {
                    let j = choose|j: int| #[trigger] has_code(e2, k, j);
                    lemma_code_map_at(e2, j);
                    if k != cp {
                        assert(e[j] == e2[j]);
                        lemma_code_map_at(e, j);
                    }
                }
                assert(code_map_of(e2) =~= old(self)@.insert(cp, name@));
            }
        } else {
            self.entries.insert(i, (cp, name));
            proof {
                let e2 = self.entries@;
                assert(e2 == e.insert(i as int, (cp, name)));
                assert forall|a: int, b: int| 0 <= a < b < e2.len() implies e2[a].0 < e2[b].0 by {
                    if b < i {
                    } else if a < i && b == i {
                    } else if a < i && b > i {
                        assert(e2[b] == e[b - 1]);
                    } else if a == i {
                        assert(e2[b] == e[b - 1]);
                        if b - 1 > i {
                            assert(e[i as int].0 < e[b - 1].0);
                        }
                    } else {
                        assert(e2[a] == e[a - 1]);
                        assert(e2[b] == e[b - 1]);
                    }
                }
                assert forall|k: u32| #[trigger] code_map_of(e2).contains_key(k) == old(self)@.insert(cp, name@).contains_key(k) by {
                    if old(self)@.contains_key(k) {
                        let j = choose|j: int| #[trigger] has_code(e, k, j);
                        if j < i {
                            assert(has_code(e2, k, j));
                        } else {
                            assert(has_code(e2, k, j + 1));
                        }
                    }
                    if k == cp {
                        assert(has_code(e2, k, i as int));
                    }
                    if code_map_of(e2).contains_key(k) && k != cp {
                        let j = choose|j: int| #[trigger] has_code(e2, k, j);
                        if j < i {
                            assert(has_code(e, k, j));
                        } else {
                            assert(has_code(e, k, j - 1));
                        }
                    }
                }
                assert forall|k: u32| #[trigger] code_map_of(e2).contains_key(k) implies code_map_of(e2)[k] == old(self)@.insert(cp, name@)[k] by {
                    let j = choose|j: int| #[trigger] has_code(e2, k, j);
                    lemma_code_map_at(e2, j);
                    if j < i {
                        lemma_code_map_at(e, j);
                    } else if j > i {
                        lemma_code_map_at(e, j - 1);
                    }
                }
                assert(code_map_of(e2) =~= old(self)@.insert(cp, name@));
            }
        }
    }
}

} // verus!
