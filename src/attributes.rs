use vstd::prelude::*;

verus! {

/// Lexicographic order on character sequences, comparing code points; a
/// proper prefix comes before the longer sequence.
pub open spec fn key_lt(a: Seq<char>, b: Seq<char>) -> bool
    decreases a.len(),
{
    if b.len() == 0 {
        false
    } else if a.len() == 0 {
        true
    } else if a[0] != b[0] {
        a[0] < b[0]
    } else {
        key_lt(a.drop_first(), b.drop_first())
    }
}

pub proof fn lemma_key_lt_asymmetric(a: Seq<char>, b: Seq<char>)
    ensures
        key_lt(a, b) ==> !key_lt(b, a),
    decreases a.len(),
{
    if a.len() > 0 && b.len() > 0 && a[0] == b[0] {
        lemma_key_lt_asymmetric(a.drop_first(), b.drop_first());
    }
}

pub proof fn lemma_key_lt_transitive(a: Seq<char>, b: Seq<char>, c: Seq<char>)
    requires
        key_lt(a, b),
        key_lt(b, c),
    ensures
        key_lt(a, c),
    decreases a.len(),
{
    if a.len() > 0 && a[0] == b[0] && b[0] == c[0] {
        lemma_key_lt_transitive(a.drop_first(), b.drop_first(), c.drop_first());
    }
}

pub proof fn lemma_key_lt_total(a: Seq<char>, b: Seq<char>)
    requires
        a != b,
    ensures
        key_lt(a, b) || key_lt(b, a),
    decreases a.len(),
{
    if a.len() > 0 && b.len() > 0 && a[0] == b[0] {
        if a.drop_first() == b.drop_first() {
            assert(a.drop_first().len() == b.drop_first().len());
            assert(a.len() == b.len());
            assert forall|i: int| 0 <= i < a.len() implies a[i] == b[i] by {
                if i > 0 {
                    assert(a[i] == a.drop_first()[i - 1]);
                    assert(b[i] == b.drop_first()[i - 1]);
                }
            }
            assert(a =~= b);
        }
        lemma_key_lt_total(a.drop_first(), b.drop_first());
    } else if a.len() == 0 && b.len() == 0 {
        assert(a =~= b);
    }
}

/// Decides `key_lt` on two strings.
fn key_less(a: &str, b: &str) -> (r: bool)
    ensures
        r == key_lt(a@, b@),
{
    let la = a.unicode_len();
    let lb = b.unicode_len();
    let mut i: usize = 0;
    assert(a@.skip(0) =~= a@);
    assert(b@.skip(0) =~= b@);
    while i < la && i < lb
        invariant
            i <= la,
            i <= lb,
            la == a@.len(),
            lb == b@.len(),
            key_lt(a@, b@) == key_lt(a@.skip(i as int), b@.skip(i as int)),
        decreases la - i,
    {
        let ca = a.get_char(i);
        let cb = b.get_char(i);
        if ca != cb {
            return ca < cb;
        }
        assert(a@.skip(i as int).drop_first() =~= a@.skip(i + 1));
        assert(b@.skip(i as int).drop_first() =~= b@.skip(i + 1));
        i += 1;
    }
    i < lb
}

/// The attributes of an element: a map from names to values, with each name
/// at most once. The order in which they were inserted carries no meaning.
pub struct AttrMap {
    entries: Vec<(String, String)>,
}

/// No two entries share a name.
pub open spec fn names_unique(s: Seq<(String, String)>) -> bool {
    forall|i: int, j: int|
        0 <= i < s.len() && 0 <= j < s.len() && i != j ==> s[i].0@ != s[j].0@
}

/// Some entry has the name `k`.
pub open spec fn has_name(s: Seq<(String, String)>, k: Seq<char>) -> bool {
    exists|i: int| 0 <= i < s.len() && s[i].0@ == k
}

/// The map that a list of entries stands for.
pub open spec fn map_of(s: Seq<(String, String)>) -> Map<Seq<char>, Seq<char>> {
    Map::new(
        |k: Seq<char>| has_name(s, k),
        |k: Seq<char>| s[choose|i: int| 0 <= i < s.len() && s[i].0@ == k].1@,
    )
}

proof fn lemma_map_of_entry(s: Seq<(String, String)>, i: int)
    requires
        names_unique(s),
        0 <= i < s.len(),
    ensures
        map_of(s).contains_key(s[i].0@),
        map_of(s)[s[i].0@] == s[i].1@,
{
    assert(has_name(s, s[i].0@));
}

proof fn lemma_map_of_finite(s: Seq<(String, String)>)
    ensures
        map_of(s).dom().finite(),
{
    let names = s.map_values(|e: (String, String)| e.0@);
    assert forall|k: Seq<char>| map_of(s).dom().contains(k) <==> names.to_set().contains(k) by {
        if map_of(s).dom().contains(k) {
            let i = choose|i: int| 0 <= i < s.len() && s[i].0@ == k;
            assert(names[i] == k);
        }
        if names.to_set().contains(k) {
            let i = choose|i: int| 0 <= i < names.len() && names[i] == k;
            assert(s[i].0@ == k);
        }
    }
    assert(map_of(s).dom() =~= names.to_set());
    vstd::seq_lib::seq_to_set_is_finite(names);
}

proof fn lemma_map_of_len(s: Seq<(String, String)>)
    requires
        names_unique(s),
    ensures
        map_of(s).dom().finite(),
        map_of(s).len() == s.len(),
{
    let names = s.map_values(|e: (String, String)| e.0@);
    lemma_map_of_finite(s);
    assert(map_of(s).dom() =~= names.to_set()) by {
        assert forall|k: Seq<char>| map_of(s).dom().contains(k) <==> names.to_set().contains(k) by {
            if map_of(s).dom().contains(k) {
                let i = choose|i: int| 0 <= i < s.len() && s[i].0@ == k;
                assert(names[i] == k);
            }
            if names.to_set().contains(k) {
                let i = choose|i: int| 0 <= i < names.len() && names[i] == k;
                assert(s[i].0@ == k);
            }
        }
    }
    assert(names.no_duplicates());
    names.unique_seq_to_set();
}

/// `map_of(s)` is `m` when every entry is in `m` and every name of `m` is in `s`.
proof fn lemma_map_of_is(s: Seq<(String, String)>, m: Map<Seq<char>, Seq<char>>)
    requires
        names_unique(s),
        forall|i: int| 0 <= i < s.len() ==> #[trigger] m.contains_key(s[i].0@) && m[s[i].0@] == s[i].1@,
        forall|k: Seq<char>| m.contains_key(k) ==> has_name(s, k),
    ensures
        map_of(s) == m,
{
    assert forall|k: Seq<char>| #[trigger] map_of(s).contains_key(k) implies map_of(s)[k] == m[k] by {
        let i = choose|i: int| 0 <= i < s.len() && s[i].0@ == k;
        lemma_map_of_entry(s, i);
        assert(m.contains_key(s[i].0@));
    }
    assert forall|k: Seq<char>| map_of(s).contains_key(k) <==> #[trigger] m.contains_key(k) by {
        if map_of(s).contains_key(k) {
            let i = choose|i: int| 0 <= i < s.len() && s[i].0@ == k;
            assert(m.contains_key(s[i].0@));
        }
    }
    assert(map_of(s) =~= m);
}

/// One attribute as it is rendered: ` name="value"`.
pub open spec fn attr_text(name: Seq<char>, value: Seq<char>) -> Seq<char> {
    seq![' '] + name + seq!['=', '\"'] + value + seq!['\"']
}

/// `k` is a name of `m` that comes before every other name of `m`.
pub open spec fn is_least_name(m: Map<Seq<char>, Seq<char>>, k: Seq<char>) -> bool {
    &&& m.contains_key(k)
    &&& forall|j: Seq<char>| #[trigger] m.contains_key(j) && j != k ==> key_lt(k, j)
}

pub open spec fn least_name(m: Map<Seq<char>, Seq<char>>) -> Seq<char> {
    choose|k: Seq<char>| is_least_name(m, k)
}

/// All attributes of `m` rendered one after another, in ascending order of
/// their names.
pub open spec fn attrs_text(m: Map<Seq<char>, Seq<char>>) -> Seq<char>
    decreases m.dom().len(),
{
    let k = least_name(m);
    if m.dom().finite() && m.contains_key(k) {
        attr_text(k, m[k]) + attrs_text(m.remove(k))
    } else {
        Seq::<char>::empty()
    }
}

proof fn lemma_least_name_unique(m: Map<Seq<char>, Seq<char>>, k: Seq<char>)
    requires
        is_least_name(m, k),
    ensures
        least_name(m) == k,
{
    let l = least_name(m);
    if l != k {
        lemma_key_lt_asymmetric(k, l);
    }
}

/// The rendered attributes of a finite map begin with its least name and
/// that name's value, followed by the rest.
pub proof fn lemma_attrs_text_least(m: Map<Seq<char>, Seq<char>>, k: Seq<char>)
    requires
        m.dom().finite(),
        is_least_name(m, k),
    ensures
        attrs_text(m) == attr_text(k, m[k]) + attrs_text(m.remove(k)),
{
    lemma_least_name_unique(m, k);
}

proof fn lemma_map_of_remove(s: Seq<(String, String)>, b: int)
    requires
        names_unique(s),
        0 <= b < s.len(),
    ensures
        names_unique(s.remove(b)),
        map_of(s.remove(b)) == map_of(s).remove(s[b].0@),
{
    let t = s.remove(b);
    let m = map_of(s).remove(s[b].0@);
    assert forall|i: int, j: int|
        0 <= i < t.len() && 0 <= j < t.len() && i != j implies t[i].0@ != t[j].0@ by {
        let si = if i < b { i } else { i + 1 };
        let sj = if j < b { j } else { j + 1 };
        assert(t[i] == s[si] && t[j] == s[sj]);
    }
    assert forall|i: int| 0 <= i < t.len() implies #[trigger] m.contains_key(t[i].0@) && m[t[i].0@]
        == t[i].1@ by {
        let si = if i < b { i } else { i + 1 };
        assert(t[i] == s[si]);
        lemma_map_of_entry(s, si);
    }
    assert forall|k: Seq<char>| #[trigger] m.contains_key(k) implies has_name(t, k) by {
        let si = choose|si: int| 0 <= si < s.len() && s[si].0@ == k;
        let i = if si < b { si } else { si - 1 };
        assert(t[i] == s[si]);
    }
    lemma_map_of_is(t, m);
}

/// Decides whether two strings are the same.
fn same_name(a: &str, b: &str) -> (r: bool)
    ensures
        r == (a@ == b@),
{
    proof {
        lemma_key_lt_asymmetric(a@, b@);
        if a@ != b@ {
            lemma_key_lt_total(a@, b@);
        }
    }
    !key_less(a, b) && !key_less(b, a)
}

/// A copy of `v`, entry by entry.
fn copied(v: &Vec<(String, String)>) -> (r: Vec<(String, String)>)
    ensures
        r@ == v@,
{
    let mut r: Vec<(String, String)> = Vec::new();
    let mut i: usize = 0;
    while i < v.len()
        invariant
            i <= v.len(),
            r@ == v@.take(i as int),
        decreases v.len() - i,
    {
        r.push((v[i].0.clone(), v[i].1.clone()));
        assert(r@ =~= v@.take(i + 1));
        i += 1;
    }
    assert(r@ =~= v@);
    r
}

/// The index of the entry whose name comes first.
fn least_entry(rest: &Vec<(String, String)>) -> (best: usize)
    requires
        rest.len() > 0,
        names_unique(rest@),
    ensures
        best < rest.len(),
        forall|t: int| 0 <= t < rest.len() && t != best ==> key_lt(rest@[best as int].0@, #[trigger] rest@[t].0@),
{
    let mut best: usize = 0;
    let mut j: usize = 1;
    while j < rest.len()
        invariant
            best < j <= rest.len(),
            names_unique(rest@),
            forall|t: int| 0 <= t < j && t != best ==> key_lt(rest@[best as int].0@, #[trigger] rest@[t].0@),
        decreases rest.len() - j,
    {
        if key_less(rest[j].0.as_str(), rest[best].0.as_str()) {
            proof {
                assert forall|t: int| 0 <= t < j + 1 && t != j implies key_lt(
                    rest@[j as int].0@,
                    #[trigger] rest@[t].0@,
                ) by {
                    if t != best {
                        lemma_key_lt_transitive(rest@[j as int].0@, rest@[best as int].0@, rest@[t].0@);
                    }
                }
            }
            best = j;
        } else {
            proof {
                lemma_key_lt_total(rest@[j as int].0@, rest@[best as int].0@);
            }
        }
        j += 1;
    }
    best
}

/// Inserting two different names gives the same map in either order.
pub proof fn lemma_insert_order_irrelevant(
    m: Map<Seq<char>, Seq<char>>,
    k1: Seq<char>,
    v1: Seq<char>,
    k2: Seq<char>,
    v2: Seq<char>,
)
    requires
        k1 != k2,
    ensures
        m.insert(k1, v1).insert(k2, v2) == m.insert(k2, v2).insert(k1, v1),
{
    assert(m.insert(k1, v1).insert(k2, v2) =~= m.insert(k2, v2).insert(k1, v1));
}

impl View for AttrMap {
    type V = Map<Seq<char>, Seq<char>>;

    closed spec fn view(&self) -> Map<Seq<char>, Seq<char>> {
        map_of(self.entries@)
    }
}

impl AttrMap {
    /// The entries hold each name at most once.
    #[verifier::type_invariant]
    spec fn wf(&self) -> bool {
        names_unique(self.entries@)
    }

    pub fn new() -> (r: Self)
        ensures
            r@ == Map::<Seq<char>, Seq<char>>::empty(),
    {
        let r = AttrMap { entries: Vec::new() };
        assert(r@ =~= Map::<Seq<char>, Seq<char>>::empty());
        r
    }

    /// Sets the value of `name`; returns the value it had before, if any.
    pub fn insert(&mut self, name: String, value: String) -> (r: Option<String>)
        ensures
            final(self)@ == old(self)@.insert(name@, value@),
            r.is_some() == old(self)@.contains_key(name@),
            r.is_some() ==> r.unwrap()@ == old(self)@[name@],
    {
        proof {
            use_type_invariant(&*self);
        }
        let ghost s0 = self.entries@;
        let mut i: usize = 0;
        while i < self.entries.len()
            invariant
                self.entries@ == s0,
                old(self).entries@ == s0,
                names_unique(s0),
                i <= s0.len(),
                forall|j: int| 0 <= j < i ==> s0[j].0@ != name@,
            decreases s0.len() - i,
        {
            if self.entries[i].0 == name {
                proof {
                    lemma_map_of_entry(s0, i as int);
                }
                let mut entries = copied(&self.entries);
                let (_, prev) = entries.remove(i);
                entries.insert(i, (name, value));
                proof {
                    let s1 = entries@;
                    assert(s1 =~= s0.update(i as int, s1[i as int]));
                    assert forall|k: Seq<char>| #[trigger] map_of(s0).insert(s1[i as int].0@, s1[i as int].1@).contains_key(k)
                        implies has_name(s1, k) by {
                        if k != s1[i as int].0@ {
                            let j = choose|j: int| 0 <= j < s0.len() && s0[j].0@ == k;
                            assert(s1[j].0@ == k);
                        }
                    }
                    assert forall|j: int| 0 <= j < s1.len() implies #[trigger] map_of(s0).insert(
                        s1[i as int].0@,
                        s1[i as int].1@,
                    ).contains_key(s1[j].0@) && map_of(s0).insert(s1[i as int].0@, s1[i as int].1@)[s1[j].0@]
                        == s1[j].1@ by {
                        if j != i {
                            lemma_map_of_entry(s0, j);
                        }
                    }
                    lemma_map_of_is(s1, map_of(s0).insert(s1[i as int].0@, s1[i as int].1@));
                }
                self.entries = entries;
                return Some(prev);
            }
            i += 1;
        }
        let mut entries = copied(&self.entries);
        entries.push((name, value));
        proof {
            let s1 = entries@;
            let m = map_of(s0).insert(s1[s0.len() as int].0@, s1[s0.len() as int].1@);
            assert(!has_name(s0, name@));
            assert forall|k: Seq<char>| #[trigger] m.contains_key(k) implies has_name(s1, k) by {
                if k != name@ {
                    let j = choose|j: int| 0 <= j < s0.len() && s0[j].0@ == k;
                    assert(s1[j].0@ == k);
                } else {
                    assert(s1[s0.len() as int].0@ == k);
                }
            }
            assert forall|j: int| 0 <= j < s1.len() implies #[trigger] m.contains_key(s1[j].0@)
                && m[s1[j].0@] == s1[j].1@ by {
                if j < s0.len() {
                    lemma_map_of_entry(s0, j);
                }
            }
            lemma_map_of_is(s1, m);
        }
        self.entries = entries;
        None
    }

    /// The value of `name`, if it is set.
    pub fn get(&self, name: &str) -> (r: Option<&String>)
        ensures
            r.is_some() == self@.contains_key(name@),
            r.is_some() ==> r.unwrap()@ == self@[name@],
    {
        proof {
            use_type_invariant(self);
        }
        let mut i: usize = 0;
        while i < self.entries.len()
            invariant
                i <= self.entries.len(),
                names_unique(self.entries@),
                forall|j: int| 0 <= j < i ==> self.entries@[j].0@ != name@,
            decreases self.entries.len() - i,
        {
            if same_name(self.entries[i].0.as_str(), name) {
                proof {
                    lemma_map_of_entry(self.entries@, i as int);
                }
                return Some(&self.entries[i].1);
            }
            i += 1;
        }
        None
    }

    /// The number of attributes.
    pub fn len(&self) -> (r: usize)
        ensures
            r == self@.len(),
    {
        proof {
            use_type_invariant(self);
            lemma_map_of_len(self.entries@);
        }
        self.entries.len()
    }

    /// The attributes rendered in ascending order of their names, each as
    /// ` name="value"`, with names and values written as they are.
    pub fn render(&self) -> (r: String)
        ensures
            r@ == attrs_text(self@),
    {
        proof {
            use_type_invariant(self);
        }
        let mut rest = copied(&self.entries);
        let mut out = String::new();
        while rest.len() > 0
            invariant
                names_unique(rest@),
                out@ + attrs_text(map_of(rest@)) == attrs_text(self@),
            decreases rest.len(),
        {
            let best = least_entry(&rest);
            let ghost s = rest@;
            let ghost m = map_of(s);
            proof {
                lemma_map_of_entry(s, best as int);
                assert forall|k: Seq<char>| #[trigger] m.contains_key(k) && k != s[best as int].0@ implies key_lt(
                    s[best as int].0@,
                    k,
                ) by {
                    let t = choose|t: int| 0 <= t < s.len() && s[t].0@ == k;
                    assert(t != best);
                }
                lemma_least_name_unique(m, s[best as int].0@);
                lemma_map_of_finite(s);
                lemma_map_of_remove(s, best as int);
            }
            let (name, value) = rest.remove(best);
            let ghost before = out@;
            out.append(" ");
            out.append(name.as_str());
            out.append("=\"");
            out.append(value.as_str());
            out.append("\"");
            proof {
                reveal_strlit(" ");
                reveal_strlit("=\"");
                reveal_strlit("\"");
                assert(out@ =~= before + attr_text(name@, value@));
                assert(attrs_text(m) == attr_text(name@, value@) + attrs_text(map_of(rest@)));
            }
        }
        assert(map_of(rest@) =~= Map::<Seq<char>, Seq<char>>::empty());
        out
    }
}

} // verus!
