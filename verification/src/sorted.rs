//! Sets and maps of strings kept in ascending order.
//!
//! Both keep their items sorted by the order of `String`'s `Ord`, which
//! compares the characters one by one, so they walk their contents in the same
//! order as a `BTreeSet<String>` or a `BTreeMap<String, _>`.
use vstd::prelude::*;

use crate::text::chars_of;

verus! {

/// `a < b` in the order of `String`: the first differing character decides,
/// and a proper prefix comes first. The comparison starts at index `i`.
pub open spec fn lex_lt_from(a: Seq<char>, b: Seq<char>, i: int) -> bool
    decreases a.len() - i,
{
    if i >= a.len() {
        i < b.len()
    } else if i >= b.len() {
        false
    } else if a[i] != b[i] {
        a[i] < b[i]
    } else {
        lex_lt_from(a, b, i + 1)
    }
}

/// `a < b` in the order of `String`.
pub open spec fn lex_lt(a: Seq<char>, b: Seq<char>) -> bool {
    lex_lt_from(a, b, 0)
}

/// Strictly ascending, so also free of duplicates.
pub open spec fn sorted(s: Seq<Seq<char>>) -> bool {
    forall|i: int, j: int| 0 <= i < j < s.len() ==> lex_lt(#[trigger] s[i], #[trigger] s[j])
}

/// No text comes before itself, from any index on.
pub proof fn lemma_lex_irreflexive_from(a: Seq<char>, i: int)
    requires
        0 <= i,
    ensures
        !lex_lt_from(a, a, i),
    decreases a.len() - i,
{
    if i < a.len() {
        lemma_lex_irreflexive_from(a, i + 1);
    }
}

/// No text comes before itself.
pub proof fn lemma_lex_irreflexive(a: Seq<char>)
    ensures
        !lex_lt(a, a),
{
    lemma_lex_irreflexive_from(a, 0);
}

/// The order is transitive, from any common index on.
pub proof fn lemma_lex_trans_from(a: Seq<char>, b: Seq<char>, c: Seq<char>, i: int)
    requires
        0 <= i,
        lex_lt_from(a, b, i),
        lex_lt_from(b, c, i),
    ensures
        lex_lt_from(a, c, i),
    decreases a.len() - i,
{
    if i < a.len() && i < b.len() && i < c.len() && a[i] == b[i] && b[i] == c[i] {
        lemma_lex_trans_from(a, b, c, i + 1);
    }
}

/// The order is transitive.
pub proof fn lemma_lex_trans(a: Seq<char>, b: Seq<char>, c: Seq<char>)
    requires
        lex_lt(a, b),
        lex_lt(b, c),
    ensures
        lex_lt(a, c),
{
    lemma_lex_trans_from(a, b, c, 0);
}

/// Of two different texts that agree before `i`, one comes first.
pub proof fn lemma_lex_total_from(a: Seq<char>, b: Seq<char>, i: int)
    requires
        0 <= i <= a.len(),
        i <= b.len(),
        a.subrange(0, i) == b.subrange(0, i),
        a != b,
    ensures
        lex_lt_from(a, b, i) || lex_lt_from(b, a, i),
    decreases a.len() - i,
{
    if i < a.len() && i < b.len() && a[i] == b[i] {
        assert(a.subrange(0, i + 1) == a.subrange(0, i).push(a[i]));
        assert(b.subrange(0, i + 1) == b.subrange(0, i).push(b[i]));
        lemma_lex_total_from(a, b, i + 1);
    } else if i >= a.len() && i >= b.len() {
        assert(a == a.subrange(0, i));
        assert(b == b.subrange(0, i));
    }
}

/// Of two different texts, one comes first.
pub proof fn lemma_lex_total(a: Seq<char>, b: Seq<char>)
    requires
        a != b,
    ensures
        lex_lt(a, b) || lex_lt(b, a),
{
    assert(a.subrange(0, 0) =~= b.subrange(0, 0));
    lemma_lex_total_from(a, b, 0);
}

/// Two texts never come before each other.
pub proof fn lemma_lex_asym(a: Seq<char>, b: Seq<char>)
    requires
        lex_lt(a, b),
    ensures
        !lex_lt(b, a),
{
    if lex_lt(b, a) {
        lemma_lex_trans(a, b, a);
        lemma_lex_irreflexive(a);
    }
}

/// Compare `a` with `b`: -1 when `a < b`, 0 when equal, 1 when `a > b`.
pub fn compare_chars(a: &Vec<char>, b: &Vec<char>) -> (r: i8)
    ensures
        r == 0 <==> a@ == b@,
        r < 0 <==> lex_lt(a@, b@),
        r > 0 <==> lex_lt(b@, a@),
{
    let mut i: usize = 0;
    while i < a.len() && i < b.len() && a[i] == b[i]
        invariant
            i <= a@.len(),
            i <= b@.len(),
            a@.subrange(0, i as int) == b@.subrange(0, i as int),
            lex_lt(a@, b@) == lex_lt_from(a@, b@, i as int),
            lex_lt(b@, a@) == lex_lt_from(b@, a@, i as int),
        decreases a@.len() - i,
    {
        assert(a@.subrange(0, i + 1) == a@.subrange(0, i as int).push(a@[i as int]));
        assert(b@.subrange(0, i + 1) == b@.subrange(0, i as int).push(b@[i as int]));
        i += 1;
    }
    proof {
        lemma_lex_irreflexive(a@);
        if a@ != b@ {
            lemma_lex_total(a@, b@);
            if lex_lt(a@, b@) {
                lemma_lex_asym(a@, b@);
            } else {
                lemma_lex_asym(b@, a@);
            }
        }
    }
    if i < a.len() && i < b.len() {
        if a[i] < b[i] {
            -1
        } else {
            1
        }
    } else if i < b.len() {
        -1
    } else if i < a.len() {
        1
    } else {
        assert(a@ == a@.subrange(0, i as int));
        assert(b@ == b@.subrange(0, i as int));
        0
    }
}

/// Compare two strings in the order of `String`'s `Ord`.
pub fn compare_strings(a: &str, b: &str) -> (r: i8)
    ensures
        r == 0 <==> a@ == b@,
        r < 0 <==> lex_lt(a@, b@),
        r > 0 <==> lex_lt(b@, a@),
{
    let x = chars_of(a);
    let y = chars_of(b);
    compare_chars(&x, &y)
}

/// A set of strings, walked in ascending order.
#[derive(Debug, PartialEq, Eq)]
pub struct StrSet {
    items: Vec<String>,
}

impl StrSet {
    /// The items in ascending order.
    pub closed spec fn elems(&self) -> Seq<Seq<char>> {
        self.items@.map_values(|s: String| s@)
    }

    #[verifier::type_invariant]
    spec fn inv(&self) -> bool {
        sorted(self.elems())
    }

    /// An empty set.
    pub fn new() -> (r: Self)
        ensures
            r@ == Set::<Seq<char>>::empty(),
            r.elems() == Seq::<Seq<char>>::empty(),
    {
        let r = StrSet { items: Vec::new() };
        assert(r.elems() =~= Seq::<Seq<char>>::empty());
        r
    }

    /// The number of members.
    pub fn len(&self) -> (n: usize)
        ensures
            n == self@.len(),
            n == self.elems().len(),
            sorted(self.elems()),
            self@.finite(),
            forall|x: Seq<char>| self@.contains(x) <==> self.elems().contains(x),
    {
        proof {
            use_type_invariant(self);
            lemma_sorted_set(self.elems());
        }
        self.items.len()
    }

    /// The member at position `i` of the ascending order.
    pub fn get(&self, i: usize) -> (r: &String)
        requires
            i < self.elems().len(),
        ensures
            r@ == self.elems()[i as int],
    {
        &self.items[i]
    }

    /// The position where `x` stands, or where it would stand.
    fn position(&self, x: &Vec<char>) -> (r: (usize, bool))
        ensures
            r.0 <= self.elems().len(),
            forall|k: int| 0 <= k < r.0 ==> lex_lt(#[trigger] self.elems()[k], x@),
            r.1 ==> r.0 < self.elems().len() && self.elems()[r.0 as int] == x@,
            !r.1 ==> forall|k: int|
                r.0 <= k < self.elems().len() ==> lex_lt(x@, #[trigger] self.elems()[k]),
    {
        proof {
            use_type_invariant(self);
        }
        let mut i: usize = 0;
        while i < self.items.len()
            invariant
                i <= self.elems().len(),
                self.elems().len() == self.items@.len(),
                sorted(self.elems()),
                forall|k: int| 0 <= k < i ==> lex_lt(#[trigger] self.elems()[k], x@),
            decreases self.items@.len() - i,
        {
            let y = chars_of(self.items[i].as_str());
            let c = compare_chars(&y, x);
            if c == 0 {
                return (i, true);
            }
            if c > 0 {
                assert forall|k: int| i <= k < self.elems().len() implies lex_lt(
                    x@,
                    #[trigger] self.elems()[k],
                ) by {
                    if k > i {
                        lemma_lex_trans(x@, self.elems()[i as int], self.elems()[k]);
                    }
                }
                return (i, false);
            }
            i += 1;
        }
        (i, false)
    }

    /// Whether `x` is a member.
    pub fn contains(&self, x: &str) -> (r: bool)
        ensures
            r == self@.contains(x@),
    {
        let v = chars_of(x);
        let (i, found) = self.position(&v);
        proof {
            use_type_invariant(self);
            lemma_sorted_set(self.elems());
            if !found && self.elems().contains(x@) {
                let k = choose|k: int| 0 <= k < self.elems().len() && self.elems()[k] == x@;
                if k < i {
                    lemma_lex_irreflexive(x@);
                } else {
                    lemma_lex_irreflexive(x@);
                }
            }
        }
        found
    }

    /// Add `x`. A member already present stays once.
    pub fn insert(&mut self, x: String)
        ensures
            final(self)@ == old(self)@.insert(x@),
    {
        proof {
            use_type_invariant(&*self);
            lemma_sorted_set(self.elems());
        }
        let v = chars_of(x.as_str());
        let (i, found) = self.position(&v);
        if found {
            proof {
                assert(old(self)@.contains(x@));
                assert(old(self)@.insert(x@) =~= old(self)@);
            }
            return;
        }
        let ghost old_elems = self.elems();
        let ghost xv = x@;
        let mut items: Vec<String> = Vec::new();
        std::mem::swap(&mut items, &mut self.items);
        items.insert(i, x);
        let ghost new_elems = items@.map_values(|s: String| s@);
        proof {
            assert(new_elems =~= old_elems.insert(i as int, xv));
            assert forall|a: int, b: int| 0 <= a < b < new_elems.len() implies lex_lt(
                #[trigger] new_elems[a],
                #[trigger] new_elems[b],
            ) by {
                if a < i && b > i {
                    lemma_lex_trans(old_elems[a], xv, old_elems[b - 1]);
                }
            }
            lemma_sorted_set(new_elems);
            assert forall|y: Seq<char>| new_elems.contains(y) <==> old_elems.to_set().insert(
                xv,
            ).contains(y) by {
                if old_elems.contains(y) {
                    let k = choose|k: int| 0 <= k < old_elems.len() && old_elems[k] == y;
                    if k < i {
                        assert(new_elems[k] == y);
                    } else {
                        assert(new_elems[k + 1] == y);
                    }
                }
                if new_elems.contains(y) {
                    let k = choose|k: int| 0 <= k < new_elems.len() && new_elems[k] == y;
                    if k < i {
                        assert(old_elems[k] == y);
                    } else if k > i {
                        assert(old_elems[k - 1] == y);
                    }
                } else {
                    assert(new_elems[i as int] == xv);
                }
            }
            assert(new_elems.to_set() =~= old_elems.to_set().insert(xv));
        }
        self.items = items;
    }
}

/// A set holds exactly the items of its ascending order.
pub proof fn lemma_strset_view(s: &StrSet)
    ensures
        s@ == s.elems().to_set(),
{
}

impl View for StrSet {
    type V = Set<Seq<char>>;

    closed spec fn view(&self) -> Set<Seq<char>> {
        self.elems().to_set()
    }
}

impl Clone for StrSet {
    /// A copy with the same members.
    fn clone(&self) -> (r: Self)
        ensures
            r.elems() == self.elems(),
            r@ == self@,
    {
        proof {
            use_type_invariant(self);
        }
        let mut items: Vec<String> = Vec::new();
        let mut i: usize = 0;
        while i < self.items.len()
            invariant
                i <= self.items@.len(),
                sorted(self.elems()),
                items@.len() == i,
                forall|j: int| 0 <= j < i ==> (#[trigger] items@[j])@ == self.items@[j]@,
            decreases self.items@.len() - i,
        {
            items.push(self.items[i].clone());
            i += 1;
        }
        assert(items@.map_values(|s: String| s@) =~= self.elems());
        let r = StrSet { items };
        r
    }
}

/// A map from strings to strings, walked in ascending order of its keys.
#[derive(Debug, PartialEq, Eq)]
pub struct StrMap {
    entries: Vec<(String, String)>,
}

/// The position of key `k` in `keys`, which holds it once.
pub open spec fn key_pos(keys: Seq<Seq<char>>, k: Seq<char>) -> int {
    choose|i: int| 0 <= i < keys.len() && keys[i] == k
}

impl StrMap {
    /// The keys in ascending order.
    pub closed spec fn keys(&self) -> Seq<Seq<char>> {
        self.entries@.map_values(|e: (String, String)| e.0@)
    }

    /// The values, in the order of their keys.
    pub closed spec fn vals(&self) -> Seq<Seq<char>> {
        self.entries@.map_values(|e: (String, String)| e.1@)
    }

    #[verifier::type_invariant]
    spec fn inv(&self) -> bool {
        sorted(self.keys())
    }

    /// An empty map.
    pub fn new() -> (r: Self)
        ensures
            r@ == Map::<Seq<char>, Seq<char>>::empty(),
            r.keys() == Seq::<Seq<char>>::empty(),
    {
        let r = StrMap { entries: Vec::new() };
        assert(r.keys() =~= Seq::<Seq<char>>::empty());
        assert(r@ =~= Map::<Seq<char>, Seq<char>>::empty());
        r
    }

    /// The number of entries, with the facts that tie the ascending order to
    /// the map.
    pub fn len(&self) -> (n: usize)
        ensures
            n == self.keys().len(),
            n == self.vals().len(),
            sorted(self.keys()),
            self@.dom().finite(),
            self@.dom().len() == n,
            forall|k: Seq<char>| self@.dom().contains(k) <==> self.keys().contains(k),
            forall|i: int| 0 <= i < n ==> self@[#[trigger] self.keys()[i]] == self.vals()[i],
    {
        proof {
            use_type_invariant(self);
            self.lemma_view();
        }
        self.entries.len()
    }

    proof fn lemma_view(&self)
        requires
            sorted(self.keys()),
        ensures
            self@.dom() == self.keys().to_set(),
            self@.dom().finite(),
            self@.dom().len() == self.keys().len(),
            forall|k: Seq<char>| self@.dom().contains(k) <==> self.keys().contains(k),
            forall|i: int|
                0 <= i < self.keys().len() ==> self@[#[trigger] self.keys()[i]] == self.vals()[i],
    {
        lemma_sorted_set(self.keys());
        assert(self@.dom() =~= self.keys().to_set());
        assert forall|i: int| 0 <= i < self.keys().len() implies self@[#[trigger] self.keys()[i]]
            == self.vals()[i] by {
            let k = self.keys()[i];
            assert(self.keys().contains(k));
            let j = key_pos(self.keys(), k);
            assert(self.keys()[j] == k);
            if j != i {
                if j < i {
                    lemma_lex_irreflexive(k);
                    assert(lex_lt(self.keys()[j], self.keys()[i]));
                } else {
                    lemma_lex_irreflexive(k);
                    assert(lex_lt(self.keys()[i], self.keys()[j]));
                }
            }
        }
    }

    /// The key and the value at position `i` of the ascending order.
    pub fn entry(&self, i: usize) -> (r: (&String, &String))
        requires
            i < self.keys().len(),
        ensures
            r.0@ == self.keys()[i as int],
            r.1@ == self.vals()[i as int],
    {
        let e = &self.entries[i];
        (&e.0, &e.1)
    }

    /// The position where key `x` stands, or where it would stand.
    fn position(&self, x: &Vec<char>) -> (r: (usize, bool))
        ensures
            r.0 <= self.keys().len(),
            forall|k: int| 0 <= k < r.0 ==> lex_lt(#[trigger] self.keys()[k], x@),
            r.1 ==> r.0 < self.keys().len() && self.keys()[r.0 as int] == x@,
            !r.1 ==> forall|k: int|
                r.0 <= k < self.keys().len() ==> lex_lt(x@, #[trigger] self.keys()[k]),
    {
        proof {
            use_type_invariant(self);
        }
        let mut i: usize = 0;
        while i < self.entries.len()
            invariant
                i <= self.keys().len(),
                self.keys().len() == self.entries@.len(),
                sorted(self.keys()),
                forall|k: int| 0 <= k < i ==> lex_lt(#[trigger] self.keys()[k], x@),
            decreases self.entries@.len() - i,
        {
            let y = chars_of(self.entries[i].0.as_str());
            let c = compare_chars(&y, x);
            if c == 0 {
                return (i, true);
            }
            if c > 0 {
                assert forall|k: int| i <= k < self.keys().len() implies lex_lt(
                    x@,
                    #[trigger] self.keys()[k],
                ) by {
                    if k > i {
                        lemma_lex_trans(x@, self.keys()[i as int], self.keys()[k]);
                    }
                }
                return (i, false);
            }
            i += 1;
        }
        (i, false)
    }

    /// The value of key `k`.
    pub fn get(&self, k: &str) -> (r: Option<&String>)
        ensures
            r is Some <==> self@.dom().contains(k@),
            r matches Some(v) ==> v@ == self@[k@],
    {
        proof {
            use_type_invariant(self);
            self.lemma_view();
        }
        let v = chars_of(k);
        let (i, found) = self.position(&v);
        if found {
            let (_, val) = self.entry(i);
            Some(val)
        } else {
            proof {
                lemma_lex_irreflexive(k@);
                if self.keys().contains(k@) {
                    let j = choose|j: int| 0 <= j < self.keys().len() && self.keys()[j] == k@;
                    if j < i {
                        assert(lex_lt(self.keys()[j], k@));
                    } else {
                        assert(lex_lt(k@, self.keys()[j]));
                    }
                }
            }
            None
        }
    }

    /// Set key `k` to `v`, and replace a value that `k` held before.
    pub fn insert(&mut self, k: String, v: String)
        ensures
            final(self)@ == old(self)@.insert(k@, v@),
    {
        proof {
            use_type_invariant(&*self);
            self.lemma_view();
        }
        let ghost old_keys = self.keys();
        let ghost old_vals = self.vals();
        let ghost old_map = self@;
        let ghost kv = k@;
        let ghost vv = v@;
        let kc = chars_of(k.as_str());
        let (i, found) = self.position(&kc);
        let mut entries: Vec<(String, String)> = Vec::new();
        std::mem::swap(&mut entries, &mut self.entries);
        if found {
            entries.set(i, (k, v));
        } else {
            entries.insert(i, (k, v));
        }
        let ghost new_keys = entries@.map_values(|e: (String, String)| e.0@);
        let ghost new_vals = entries@.map_values(|e: (String, String)| e.1@);
        proof {
            if found {
                assert(new_keys =~= old_keys);
                assert(new_vals =~= old_vals.update(i as int, vv));
            } else {
                assert(new_keys =~= old_keys.insert(i as int, kv));
                assert(new_vals =~= old_vals.insert(i as int, vv));
                assert forall|a: int, b: int| 0 <= a < b < new_keys.len() implies lex_lt(
                    #[trigger] new_keys[a],
                    #[trigger] new_keys[b],
                ) by {
                    if a < i && b > i {
                        lemma_lex_trans(old_keys[a], kv, old_keys[b - 1]);
                    }
                }
            }
        }
        self.entries = entries;
        proof {
            assert(self.keys() == new_keys);
            assert(self.vals() == new_vals);
            self.lemma_view();
            lemma_sorted_set(old_keys);
            assert forall|y: Seq<char>| self@.dom().contains(y) <==> old_map.insert(
                kv,
                vv,
            ).dom().contains(y) by {
                if old_keys.contains(y) {
                    let m = choose|m: int| 0 <= m < old_keys.len() && old_keys[m] == y;
                    if found || m < i {
                        assert(new_keys[m] == y);
                    } else {
                        assert(new_keys[m + 1] == y);
                    }
                }
                if new_keys.contains(y) {
                    let m = choose|m: int| 0 <= m < new_keys.len() && new_keys[m] == y;
                    if found {
                        assert(old_keys[m] == y);
                    } else if m < i {
                        assert(old_keys[m] == y);
                    } else if m > i {
                        assert(old_keys[m - 1] == y);
                    }
                } else {
                    assert(new_keys[i as int] == kv);
                }
            }
            assert forall|y: Seq<char>| #[trigger] self@.dom().contains(y) implies self@[y]
                == old_map.insert(kv, vv)[y] by {
                let m = choose|m: int| 0 <= m < new_keys.len() && new_keys[m] == y;
                assert(self@[new_keys[m]] == new_vals[m]);
                if y != kv {
                    if found {
                        assert(old_map[old_keys[m]] == old_vals[m]);
                    } else if m < i {
                        assert(old_map[old_keys[m]] == old_vals[m]);
                    } else {
                        assert(m != i);
                        assert(old_map[old_keys[m - 1]] == old_vals[m - 1]);
                    }
                } else {
                    if !found {
                        lemma_sorted_set(new_keys);
                        assert(new_keys[i as int] == kv);
                        assert(m == i) by {
                            if m != i {
                                assert(new_keys[m] == new_keys[i as int]);
                            }
                        }
                    }
                }
            }
            assert(self@ =~= old_map.insert(kv, vv));
        }
    }
}

impl View for StrMap {
    type V = Map<Seq<char>, Seq<char>>;

    closed spec fn view(&self) -> Map<Seq<char>, Seq<char>> {
        Map::new(
            |k: Seq<char>| self.keys().contains(k),
            |k: Seq<char>| self.vals()[key_pos(self.keys(), k)],
        )
    }
}

impl Clone for StrMap {
    /// A copy with the same entries.
    fn clone(&self) -> (r: Self)
        ensures
            r.keys() == self.keys(),
            r.vals() == self.vals(),
            r@ == self@,
    {
        proof {
            use_type_invariant(self);
        }
        let mut entries: Vec<(String, String)> = Vec::new();
        let mut i: usize = 0;
        while i < self.entries.len()
            invariant
                i <= self.entries@.len(),
                sorted(self.keys()),
                entries@.len() == i,
                forall|j: int|
                    0 <= j < i ==> (#[trigger] entries@[j]).0@ == self.entries@[j].0@
                        && entries@[j].1@ == self.entries@[j].1@,
            decreases self.entries@.len() - i,
        {
            let k = self.entries[i].0.clone();
            let v = self.entries[i].1.clone();
            entries.push((k, v));
            i += 1;
        }
        assert(entries@.map_values(|e: (String, String)| e.0@) =~= self.keys());
        assert(entries@.map_values(|e: (String, String)| e.1@) =~= self.vals());
        let r = StrMap { entries };
        r
    }
}

/// A sorted sequence holds no value twice.
pub proof fn lemma_sorted_no_dups(s: Seq<Seq<char>>)
    requires
        sorted(s),
    ensures
        s.no_duplicates(),
{
    assert forall|i: int, j: int| 0 <= i < s.len() && 0 <= j < s.len() && i != j implies s[i]
        != s[j] by {
        if i < j {
            assert(lex_lt(s[i], s[j]));
        } else {
            assert(lex_lt(s[j], s[i]));
        }
        lemma_lex_irreflexive(s[i]);
    }
}

/// A sorted sequence, read as a set, has one member for each item.
pub proof fn lemma_sorted_set(s: Seq<Seq<char>>)
    requires
        sorted(s),
    ensures
        s.no_duplicates(),
        s.to_set().finite(),
        s.to_set().len() == s.len(),
        forall|x: Seq<char>| s.to_set().contains(x) <==> s.contains(x),
{
    lemma_sorted_no_dups(s);
    s.unique_seq_to_set();
    vstd::seq_lib::seq_to_set_is_finite(s);
}

} // verus!
