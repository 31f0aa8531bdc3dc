use vstd::prelude::*;
use crate::text::{chars_of_str, copy_chars};

verus! {

/// Lexicographic order on names, comparing code points (the order of a
/// `String`-keyed ordered map).
pub open spec fn key_lt(a: Seq<char>, b: Seq<char>) -> bool
    decreases a.len(),
{
    if a.len() == 0 {
        b.len() > 0
    } else if b.len() == 0 {
        false
    } else if a[0] != b[0] {
        (a[0] as u32) < (b[0] as u32)
    } else {
        key_lt(a.drop_first(), b.drop_first())
    }
}

/// The id stored under `k`, if any.
pub open spec fn lookup(s: Seq<(Seq<char>, u32)>, k: Seq<char>) -> Option<u32>
    decreases s.len(),
{
    if s.len() == 0 {
        None
    } else if s[0].0 == k {
        Some(s[0].1)
    } else {
        lookup(s.drop_first(), k)
    }
}

/// `s` with `k` mapped to `v`: an existing entry is overwritten, a new one is
/// placed before the first greater key.
pub open spec fn insert(s: Seq<(Seq<char>, u32)>, k: Seq<char>, v: u32) -> Seq<(Seq<char>, u32)>
    decreases s.len(),
{
    if s.len() == 0 {
        seq![(k, v)]
    } else if key_lt(s[0].0, k) {
        seq![s[0]] + insert(s.drop_first(), k, v)
    } else if s[0].0 == k {
        s.update(0, (k, v))
    } else {
        seq![(k, v)] + s
    }
}

/// The first name, in key order, stored with id `v`.
pub open spec fn first_name_with(s: Seq<(Seq<char>, u32)>, v: u32) -> Option<Seq<char>>
    decreases s.len(),
{
    if s.len() == 0 {
        None
    } else if s[0].1 == v {
        Some(s[0].0)
    } else {
        first_name_with(s.drop_first(), v)
    }
}

/// Keys strictly increasing.
pub open spec fn sorted(s: Seq<(Seq<char>, u32)>) -> bool {
    forall|i: int, j: int| 0 <= i < j < s.len() ==> key_lt(#[trigger] s[i].0, #[trigger] s[j].0)
}

/// No name is before itself.
pub proof fn lemma_key_lt_irreflexive(a: Seq<char>)
    ensures
        !key_lt(a, a),
    decreases a.len(),
{
    if a.len() > 0 {
        lemma_key_lt_irreflexive(a.drop_first());
    }
}

/// Of two different names, one is before the other, and never both.
pub proof fn lemma_key_lt_total(a: Seq<char>, b: Seq<char>)
    ensures
        a != b ==> (key_lt(a, b) || key_lt(b, a)),
        !(key_lt(a, b) && key_lt(b, a)),
    decreases a.len(),
{
    if a.len() > 0 && b.len() > 0 {
        lemma_key_lt_total(a.drop_first(), b.drop_first());
        if a[0] == b[0] && a != b {
            assert(a.drop_first() != b.drop_first()) by {
                if a.drop_first() == b.drop_first() {
                    assert(a =~= b) by {
                        assert forall|i: int| 0 <= i < a.len() implies a[i] == b[i] by {
                            if i > 0 {
                                assert(a[i] == a.drop_first()[i - 1]);
                                assert(b[i] == b.drop_first()[i - 1]);
                            }
                        }
                    }
                }
            }
        } else if a[0] != b[0] {
            vstd::utf8::char_u32_cast(a[0], a[0] as u32);
            vstd::utf8::char_u32_cast(b[0], b[0] as u32);
            assert((a[0] as u32) != (b[0] as u32));
        }
    } else if a.len() == 0 && b.len() == 0 {
        assert(a =~= b);
    }
}

/// The order on names is transitive.
pub proof fn lemma_key_lt_transitive(a: Seq<char>, b: Seq<char>, c: Seq<char>)
    requires
        key_lt(a, b),
        key_lt(b, c),
    ensures
        key_lt(a, c),
    decreases a.len(),
{
    if a.len() > 0 && a[0] == b[0] && b[0] == c[0] {
        lemma_key_lt_transitive(a.drop_first(), b.drop_first(), c.drop_first());
    }
}

/// Every key of `s` comes after `x`.
pub open spec fn all_after(x: Seq<char>, s: Seq<(Seq<char>, u32)>) -> bool {
    forall|i: int| 0 <= i < s.len() ==> key_lt(x, #[trigger] s[i].0)
}

proof fn lemma_insert_all_after(s: Seq<(Seq<char>, u32)>, k: Seq<char>, v: u32, x: Seq<char>)
    requires
        all_after(x, s),
        key_lt(x, k),
    ensures
        all_after(x, insert(s, k, v)),
    decreases s.len(),
{
    if s.len() > 0 {
        let r = s.drop_first();
        assert(all_after(x, r)) by {
            assert forall|i: int| 0 <= i < r.len() implies key_lt(x, #[trigger] r[i].0) by {
                assert(r[i] == s[i + 1]);
            }
        }
        if key_lt(s[0].0, k) {
            lemma_insert_all_after(r, k, v, x);
            let t = seq![s[0]] + insert(r, k, v);
            assert forall|i: int| 0 <= i < t.len() implies key_lt(x, #[trigger] t[i].0) by {
                if i > 0 {
                    assert(t[i] == insert(r, k, v)[i - 1]);
                }
            }
        } else if s[0].0 == k {
            let t = s.update(0, (k, v));
            assert forall|i: int| 0 <= i < t.len() implies key_lt(x, #[trigger] t[i].0) by {
                if i > 0 {
                    assert(t[i] == s[i]);
                }
            }
        } else {
            let t = seq![(k, v)] + s;
            assert forall|i: int| 0 <= i < t.len() implies key_lt(x, #[trigger] t[i].0) by {
                if i > 0 {
                    assert(t[i] == s[i - 1]);
                }
            }
        }
    }
}

/// Inserting into a table whose names are in strictly increasing order keeps
/// them so: the table never holds a name twice.
pub proof fn law_insert_sorted(s: Seq<(Seq<char>, u32)>, k: Seq<char>, v: u32)
    requires
        sorted(s),
    ensures
        sorted(insert(s, k, v)),
    decreases s.len(),
{
    if s.len() > 0 {
        let r = s.drop_first();
        assert(sorted(r)) by {
            assert forall|i: int, j: int| 0 <= i < j < r.len() implies key_lt(#[trigger] r[i].0, #[trigger] r[j].0) by {
                assert(r[i] == s[i + 1] && r[j] == s[j + 1]);
            }
        }
        assert(all_after(s[0].0, r)) by {
            assert forall|i: int| 0 <= i < r.len() implies key_lt(s[0].0, #[trigger] r[i].0) by {
                assert(r[i] == s[i + 1]);
            }
        }
        if key_lt(s[0].0, k) {
            law_insert_sorted(r, k, v);
            lemma_insert_all_after(r, k, v, s[0].0);
            let ins = insert(r, k, v);
            let t = seq![s[0]] + ins;
            assert forall|i: int, j: int| 0 <= i < j < t.len() implies key_lt(#[trigger] t[i].0, #[trigger] t[j].0) by {
                assert(t[j] == ins[j - 1]);
                if i > 0 {
                    assert(t[i] == ins[i - 1]);
                }
            }
        } else if s[0].0 == k {
            let t = s.update(0, (k, v));
            assert forall|i: int, j: int| 0 <= i < j < t.len() implies key_lt(#[trigger] t[i].0, #[trigger] t[j].0) by {
                assert(t[j] == s[j]);
                if i > 0 {
                    assert(t[i] == s[i]);
                }
            }
        } else {
            lemma_key_lt_total(s[0].0, k);
            let t = seq![(k, v)] + s;
            assert forall|i: int, j: int| 0 <= i < j < t.len() implies key_lt(#[trigger] t[i].0, #[trigger] t[j].0) by {
                assert(t[j] == s[j - 1]);
                if i > 0 {
                    assert(t[i] == s[i - 1]);
                } else if j > 1 {
                    lemma_key_lt_transitive(k, s[0].0, s[j - 1].0);
                }
            }
        }
    }
}

/// Looking a name up after an insert gives the inserted id for that name and
/// what it gave before for every other name.
pub proof fn law_lookup_insert(s: Seq<(Seq<char>, u32)>, k: Seq<char>, v: u32, m: Seq<char>)
    ensures
        lookup(insert(s, k, v), m) == if m == k {
            Some(v)
        } else {
            lookup(s, m)
        },
    decreases s.len(),
{
    if s.len() == 0 {
        let t = seq![(k, v)];
        assert(t.drop_first() =~= Seq::<(Seq<char>, u32)>::empty());
        assert(lookup(t, m) == if t[0].0 == m { Some(v) } else { lookup(t.drop_first(), m) });
    } else if key_lt(s[0].0, k) {
        let ins = insert(s.drop_first(), k, v);
        let t = seq![s[0]] + ins;
        assert(insert(s, k, v) == t);
        assert(t.drop_first() =~= ins);
        assert(t[0] == s[0]);
        lemma_key_lt_irreflexive(k);
        law_lookup_insert(s.drop_first(), k, v, m);
        assert(lookup(t, m) == if s[0].0 == m { Some(s[0].1) } else { lookup(ins, m) });
    } else if s[0].0 == k {
        let t = s.update(0, (k, v));
        assert(t.drop_first() =~= s.drop_first());
        assert(lookup(t, m) == if k == m { Some(v) } else { lookup(t.drop_first(), m) });
    } else {
        let t = seq![(k, v)] + s;
        assert(t.drop_first() =~= s);
        assert(lookup(t, m) == if k == m { Some(v) } else { lookup(t.drop_first(), m) });
    }
}

/// A table from rule names to rule ids, kept in key order.
#[derive(Debug)]
pub struct SymbolTable {
    entries: Vec<(Vec<char>, u32)>,
}

impl View for SymbolTable {
    type V = Seq<(Seq<char>, u32)>;

    closed spec fn view(&self) -> Seq<(Seq<char>, u32)> {
        self.entries@.map_values(|e: (Vec<char>, u32)| (e.0@, e.1))
    }
}

impl Clone for SymbolTable {
    fn clone(&self) -> (r: Self)
        ensures
            r@ == self@,
    {
        proof {
            use_type_invariant(self);
        }
        let mut entries: Vec<(Vec<char>, u32)> = Vec::new();
        let mut i: usize = 0;
        while i < self.entries.len()
            invariant
                i <= self.entries@.len(),
                entries@.map_values(|e: (Vec<char>, u32)| (e.0@, e.1)) == self@.subrange(0, i as int),
            decreases self.entries@.len() - i,
        {
            let name = copy_chars(&self.entries[i].0);
            let ghost before = entries@;
            let e = (name, self.entries[i].1);
            entries.push(e);
            assert(entries@ == before.push(e));
            assert(self@[i as int] == (self.entries@[i as int].0@, self.entries@[i as int].1));
            assert(entries@.map_values(|e: (Vec<char>, u32)| (e.0@, e.1)) =~= before.map_values(
                |e: (Vec<char>, u32)| (e.0@, e.1),
            ).push((e.0@, e.1)));
            assert(entries@.map_values(|e: (Vec<char>, u32)| (e.0@, e.1)) =~= self@.subrange(0, i + 1));
            i = i + 1;
        }
        assert(self@.subrange(0, self.entries@.len() as int) =~= self@);
        SymbolTable { entries }
    }
}

fn chars_eq(a: &Vec<char>, b: &Vec<char>) -> (r: bool)
    ensures
        r == (a@ == b@),
{
    if a.len() != b.len() {
        return false;
    }
    let mut i: usize = 0;
    while i < a.len()
        invariant
            a@.len() == b@.len(),
            i <= a@.len(),
            forall|j: int| 0 <= j < i ==> a@[j] == b@[j],
        decreases a@.len() - i,
    {
        if a[i] != b[i] {
            return false;
        }
        i = i + 1;
    }
    assert(a@ =~= b@);
    true
}

fn chars_lt(a: &Vec<char>, b: &Vec<char>) -> (r: bool)
    ensures
        r == key_lt(a@, b@),
{
    let mut i: usize = 0;
    assert(a@.skip(0) =~= a@);
    assert(b@.skip(0) =~= b@);
    while i < a.len() && i < b.len() && a[i] == b[i]
        invariant
            i <= a@.len(),
            i <= b@.len(),
            key_lt(a@, b@) == key_lt(a@.skip(i as int), b@.skip(i as int)),
        decreases a@.len() - i,
    {
        assert(a@.skip(i as int).drop_first() =~= a@.skip(i + 1));
        assert(b@.skip(i as int).drop_first() =~= b@.skip(i + 1));
        i = i + 1;
    }
    if i == a.len() {
        i < b.len()
    } else if i == b.len() {
        false
    } else {
        (a[i] as u32) < (b[i] as u32)
    }
}

impl SymbolTable {
    /// The names are in strictly increasing order, so none occurs twice.
    #[verifier::type_invariant]
    pub open spec fn inv(self) -> bool {
        sorted(self@)
    }

    /// An empty table.
    pub fn new() -> (t: Self)
        ensures
            t@ == Seq::<(Seq<char>, u32)>::empty(),
            sorted(t@),
    {
        let t = SymbolTable { entries: Vec::new() };
        assert(t@ =~= Seq::<(Seq<char>, u32)>::empty());
        t
    }

    /// Number of names in the table.
    pub fn len(&self) -> (n: usize)
        ensures
            n == self@.len(),
    {
        self.entries.len()
    }

    pub(crate) fn lookup_chars(&self, name: &Vec<char>) -> (r: Option<u32>)
        ensures
            r == lookup(self@, name@),
    {
        let mut i: usize = 0;
        assert(self@.skip(0) =~= self@);
        while i < self.entries.len()
            invariant
                i <= self@.len(),
                self@.len() == self.entries@.len(),
                lookup(self@, name@) == lookup(self@.skip(i as int), name@),
            decreases self@.len() - i,
        {
            assert(self@[i as int] == (self.entries@[i as int].0@, self.entries@[i as int].1));
            if chars_eq(&self.entries[i].0, name) {
                return Some(self.entries[i].1);
            }
            assert(self@.skip(i as int).drop_first() =~= self@.skip(i + 1));
            i = i + 1;
        }
        None
    }

    fn index_of(&self, name: &Vec<char>) -> (r: Option<usize>)
        ensures
            match lookup(self@, name@) {
                Some(id) => r matches Some(i) && i < self@.len() && self@[i as int].1 == id,
                None => r is None,
            },
    {
        let mut i: usize = 0;
        assert(self@.skip(0) =~= self@);
        while i < self.entries.len()
            invariant
                i <= self@.len(),
                self@.len() == self.entries@.len(),
                lookup(self@, name@) == lookup(self@.skip(i as int), name@),
            decreases self@.len() - i,
        {
            assert(self@[i as int] == (self.entries@[i as int].0@, self.entries@[i as int].1));
            if chars_eq(&self.entries[i].0, name) {
                return Some(i);
            }
            assert(self@.skip(i as int).drop_first() =~= self@.skip(i + 1));
            i = i + 1;
        }
        None
    }

    /// The id of `name`, if the table holds it.
    pub fn get(&self, name: &str) -> (r: Option<&u32>)
        ensures
            match lookup(self@, name@) {
                Some(id) => r matches Some(v) && *v == id,
                None => r is None,
            },
    {
        let cs = chars_of_str(name);
        match self.index_of(&cs) {
            Some(i) => {
                assert(self@[i as int] == (self.entries@[i as int].0@, self.entries@[i as int].1));
                Some(&self.entries[i].1)
            },
            None => None,
        }
    }

    /// Whether the table holds `name`.
    pub fn contains_key(&self, name: &str) -> (r: bool)
        ensures
            r == (lookup(self@, name@) is Some),
    {
        self.get(name).is_some()
    }

    /// Maps `name` to `id`, replacing an earlier id of that name.
    pub(crate) fn insert(&mut self, name: Vec<char>, id: u32)
        ensures
            final(self)@ == insert(old(self)@, name@, id),
            sorted(final(self)@),
    {
        proof {
            use_type_invariant(&*self);
            law_insert_sorted(self@, name@, id);
        }
        let ghost s = self@;
        let ghost k = name@;
        let mut i: usize = 0;
        assert(s.skip(0) =~= s);
        assert(s.subrange(0, 0) + insert(s, k, id) =~= insert(s, k, id));
        while i < self.entries.len() && chars_lt(&self.entries[i].0, &name)
            invariant
                i <= s.len(),
                self@ == s,
                s.len() == self.entries@.len(),
                k == name@,
                insert(s, k, id) == s.subrange(0, i as int) + insert(s.skip(i as int), k, id),
            decreases s.len() - i,
        {
            assert(s[i as int] == (self.entries@[i as int].0@, self.entries@[i as int].1));
            assert(s.skip(i as int).drop_first() =~= s.skip(i + 1));
            assert(s.subrange(0, i + 1) =~= s.subrange(0, i as int) + seq![s[i as int]]);
            i = i + 1;
        }
        let mut entries: Vec<(Vec<char>, u32)> = Vec::new();
        std::mem::swap(&mut entries, &mut self.entries);
        let ghost ev = entries@.map_values(|e: (Vec<char>, u32)| (e.0@, e.1));
        assert(ev == s);
        if i < entries.len() && chars_eq(&entries[i].0, &name) {
            assert(s[i as int] == (entries@[i as int].0@, entries@[i as int].1));
            entries.set(i, (name, id));
            assert(entries@.map_values(|e: (Vec<char>, u32)| (e.0@, e.1)) =~= s.subrange(0, i as int)
                + s.skip(i as int).update(0, (k, id)));
        } else {
            proof {
                if i < s.len() {
                    assert(s[i as int] == (entries@[i as int].0@, entries@[i as int].1));
                }
            }
            entries.insert(i, (name, id));
            assert(entries@.map_values(|e: (Vec<char>, u32)| (e.0@, e.1)) =~= s.subrange(0, i as int)
                + (seq![(k, id)] + s.skip(i as int)));
        }
        self.entries = entries;
    }

    /// The first name, in key order, that has the given id.
    pub(crate) fn name_with_id(&self, id: u32) -> (r: Option<Vec<char>>)
        ensures
            r matches Some(n) ==> first_name_with(self@, id) == Some(n@),
            r is None ==> first_name_with(self@, id) is None,
    {
        let mut i: usize = 0;
        assert(self@.skip(0) =~= self@);
        while i < self.entries.len()
            invariant
                i <= self@.len(),
                self@.len() == self.entries@.len(),
                first_name_with(self@, id) == first_name_with(self@.skip(i as int), id),
            decreases self@.len() - i,
        {
            assert(self@[i as int] == (self.entries@[i as int].0@, self.entries@[i as int].1));
            if self.entries[i].1 == id {
                return Some(self.entries[i].0.clone());
            }
            assert(self@.skip(i as int).drop_first() =~= self@.skip(i + 1));
            i = i + 1;
        }
        None
    }

    /// The name and id at position `i`, in key order.
    pub(crate) fn entry(&self, i: usize) -> (r: (&Vec<char>, u32))
        requires
            i < self@.len(),
        ensures
            r.0@ == self@[i as int].0,
            r.1 == self@[i as int].1,
    {
        (&self.entries[i].0, self.entries[i].1)
    }
}

} // verus!
