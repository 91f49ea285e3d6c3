use vstd::prelude::*;

use crate::num::{
    is_nan_bits, num_eq_bits, num_lt_bits, num_le_bits, spec_order_key, spec_magnitude,
    num_eq, num_lt, num_le,
};

verus! {

broadcast use vstd::seq::group_seq_axioms, vstd::std_specs::vec::group_vec_axioms,
    vstd::map::group_map_axioms, vstd::set::group_set_axioms;

/// Mathematical reading of a collection key.
pub enum KeyView {
    Index(nat),
    String(Seq<char>),
    Number(Seq<char>),
}

/// Mathematical reading of a runtime value: a number is its IEEE-754 bit
/// pattern, a collection is a finite map from keys to values together with
/// its positional extent.
pub enum ValueView {
    Number(u64),
    String(Seq<char>),
    Bool(bool),
    Collection(CollView),
    Nil,
}

pub struct CollView {
    pub entries: Map<KeyView, ValueView>,
    pub size: nat,
}

/// A collection key: a positional index, a string key, or the decimal text
/// of a numeric key (kept as text so that distinct numeric keys compare
/// reliably).
pub enum CKey {
    Index(usize),
    String(String),
    Number(String),
}

/// A runtime value of the language.
pub enum Value {
    Number(u64),
    String(String),
    Bool(bool),
    Collection(CValue),
    Nil,
}

/// The unified array/object value: an association list from keys to values
/// plus the positional extent `size`.
pub struct CValue {
    pub entries: Vec<(CKey, Value)>,
    pub size: usize,
}

impl View for CKey {
    type V = KeyView;

    open spec fn view(&self) -> KeyView {
        match self {
            CKey::Index(i) => KeyView::Index(*i as nat),
            CKey::String(s) => KeyView::String(s@),
            CKey::Number(s) => KeyView::Number(s@),
        }
    }
}

/// The map that an association list denotes; a later entry would win over
/// an earlier one with the same key, though well-formed collections never
/// hold two entries with the same key.
pub open spec fn assoc_map(s: Seq<(CKey, Value)>) -> Map<KeyView, ValueView>
    decreases s,
{
    if s.len() == 0 {
        Map::empty()
    } else {
        assoc_map(s.drop_last()).insert(s.last().0@, s.last().1@)
    }
}

impl View for Value {
    type V = ValueView;

    open spec fn view(&self) -> ValueView
        decreases self,
    {
        match self {
            Value::Number(b) => ValueView::Number(*b),
            Value::String(s) => ValueView::String(s@),
            Value::Bool(b) => ValueView::Bool(*b),
            Value::Collection(c) => ValueView::Collection(c.view()),
            Value::Nil => ValueView::Nil,
        }
    }
}

impl View for CValue {
    type V = CollView;

    open spec fn view(&self) -> CollView
        decreases self,
    {
        CollView { entries: assoc_map(self.entries@), size: self.size as nat }
    }
}

impl CValue {
    /// Well-formed: no two entries share a key, and every held value is
    /// well-formed in turn.
    pub open spec fn valid(&self) -> bool
        decreases self,
    {
        &&& forall|i: int, j: int|
            0 <= i < j < self.entries@.len() ==> self.entries@[i].0@ != self.entries@[j].0@
        &&& forall|i: int| 0 <= i < self.entries@.len() ==> self.entries@[i].1.valid()
    }
}

impl Value {
    pub open spec fn valid(&self) -> bool
        decreases self,
    {
        match self {
            Value::Collection(c) => c.valid(),
            _ => true,
        }
    }
}

proof fn lemma_assoc_map_contains(s: Seq<(CKey, Value)>, k: KeyView)
    ensures
        assoc_map(s).contains_key(k) <==> exists|i: int| 0 <= i < s.len() && s[i].0@ == k,
    decreases s.len(),
{
    if s.len() > 0 {
        let pre = s.drop_last();
        lemma_assoc_map_contains(pre, k);
        assert(assoc_map(s) == assoc_map(s.drop_last()).insert(s.last().0@, s.last().1@));
        assert(assoc_map(s).dom() == assoc_map(s.drop_last()).dom().insert(s.last().0@));
        if s.last().0@ == k {
            assert(s[s.len() - 1].0@ == k);
            assert(assoc_map(s).contains_key(k));
        } else {
            assert(assoc_map(s).contains_key(k) <==> assoc_map(pre).contains_key(k));
            if assoc_map(pre).contains_key(k) {
                let i = choose|i: int| 0 <= i < pre.len() && pre[i].0@ == k;
                assert(pre[i] == s[i]);
                assert(s[i].0@ == k);
            } else if exists|i: int| 0 <= i < s.len() && s[i].0@ == k {
                let i = choose|i: int| 0 <= i < s.len() && s[i].0@ == k;
                assert(i != s.len() - 1);
                assert(pre[i] == s[i]);
                assert(pre[i].0@ == k);
            }
        }
    }
}

proof fn lemma_assoc_map_unique(s: Seq<(CKey, Value)>, i: int)
    requires
        forall|x: int, y: int| 0 <= x < y < s.len() ==> s[x].0@ != s[y].0@,
        0 <= i < s.len(),
    ensures
        assoc_map(s).contains_key(s[i].0@),
        assoc_map(s)[s[i].0@] == s[i].1@,
    decreases s.len(),
{
    let pre = s.drop_last();
    assert(assoc_map(s) == assoc_map(s.drop_last()).insert(s.last().0@, s.last().1@));
    assert(assoc_map(s).dom() == assoc_map(s.drop_last()).dom().insert(s.last().0@));
    if i == s.len() - 1 {
        assert(s.last() == s[i]);
    } else {
        assert(pre[i] == s[i]);
        assert(forall|x: int, y: int| 0 <= x < y < pre.len() ==> pre[x] == s[x] && pre[y] == s[y]);
        lemma_assoc_map_unique(pre, i);
        assert(s[i].0@ != s.last().0@);
    }
}

proof fn lemma_assoc_map_len(s: Seq<(CKey, Value)>)
    requires
        forall|x: int, y: int| 0 <= x < y < s.len() ==> s[x].0@ != s[y].0@,
    ensures
        assoc_map(s).dom().finite(),
        assoc_map(s).dom().len() == s.len(),
    decreases s.len(),
{
    if s.len() == 0 {
        assert(assoc_map(s).dom() =~= Set::<KeyView>::empty());
    } else {
        let pre = s.drop_last();
        assert(forall|x: int, y: int| 0 <= x < y < pre.len() ==> pre[x] == s[x] && pre[y] == s[y]);
        lemma_assoc_map_len(pre);
        lemma_assoc_map_contains(pre, s.last().0@);
        assert(forall|i: int| 0 <= i < pre.len() ==> pre[i] == s[i] && s[i].0@ != s.last().0@);
        assert(!assoc_map(pre).contains_key(s.last().0@));
        assert(assoc_map(s) == assoc_map(s.drop_last()).insert(s.last().0@, s.last().1@));
        assert(assoc_map(s).dom() == assoc_map(s.drop_last()).dom().insert(s.last().0@));
        vstd::set::axiom_set_insert_len(assoc_map(pre).dom(), s.last().0@);
    }
}

} // verus!

verus! {

proof fn lemma_assoc_map_push(s: Seq<(CKey, Value)>, p: (CKey, Value))
    ensures
        assoc_map(s.push(p)) == assoc_map(s).insert(p.0@, p.1@),
{
    assert(s.push(p).drop_last() =~= s);
    assert(s.push(p).last() == p);
    assert(assoc_map(s.push(p)) == assoc_map(s.push(p).drop_last()).insert(
        s.push(p).last().0@,
        s.push(p).last().1@,
    ));
}

proof fn lemma_assoc_map_remove(s: Seq<(CKey, Value)>, i: int)
    requires
        forall|x: int, y: int| 0 <= x < y < s.len() ==> s[x].0@ != s[y].0@,
        0 <= i < s.len(),
    ensures
        assoc_map(s.remove(i)) =~= assoc_map(s).remove(s[i].0@),
    decreases s.len(),
{
    let pre = s.drop_last();
    assert(assoc_map(s) == assoc_map(s.drop_last()).insert(s.last().0@, s.last().1@));
    if i == s.len() - 1 {
        assert(s.remove(i) =~= pre);
        lemma_assoc_map_contains(pre, s[i].0@);
        assert(forall|x: int| 0 <= x < pre.len() ==> pre[x] == s[x] && s[x].0@ != s[i].0@);
        assert(!assoc_map(pre).contains_key(s[i].0@));
        assert(assoc_map(pre).insert(s.last().0@, s.last().1@).remove(s[i].0@) =~= assoc_map(
            pre,
        ));
    } else {
        assert(forall|x: int, y: int| 0 <= x < y < pre.len() ==> pre[x] == s[x] && pre[y] == s[y]);
        lemma_assoc_map_remove(pre, i);
        assert(s.remove(i).drop_last() =~= pre.remove(i));
        assert(s.remove(i).last() == s.last());
        assert(assoc_map(s.remove(i)) == assoc_map(s.remove(i).drop_last()).insert(
            s.remove(i).last().0@,
            s.remove(i).last().1@,
        ));
        assert(s[i].0@ != s.last().0@);
        assert(assoc_map(pre).remove(s[i].0@).insert(s.last().0@, s.last().1@) =~= assoc_map(
            pre,
        ).insert(s.last().0@, s.last().1@).remove(s[i].0@));
    }
}

impl CKey {
    /// A fresh key equal to this one.
    pub fn duplicate(&self) -> (r: CKey)
        ensures
            r@ == self@,
    {
        match self {
            CKey::Index(i) => CKey::Index(*i),
            CKey::String(s) => CKey::String(s.clone()),
            CKey::Number(s) => CKey::Number(s.clone()),
        }
    }

    /// The two keys denote the same key.
    pub fn key_eq(&self, other: &CKey) -> (r: bool)
        ensures
            r == (self@ == other@),
    {
        match (self, other) {
            (CKey::Index(a), CKey::Index(b)) => a == b,
            (CKey::String(a), CKey::String(b)) => a.eq(b),
            (CKey::Number(a), CKey::Number(b)) => a.eq(b),
            _ => false,
        }
    }
}

impl CValue {
    /// The empty collection.
    pub fn new() -> (r: CValue)
        ensures
            r@.entries == Map::<KeyView, ValueView>::empty(),
            r@.size == 0,
            r.valid(),
    {
        CValue { entries: Vec::new(), size: 0 }
    }

    /// Index of the entry holding `key`, if any.
    fn find_key(&self, key: &CKey) -> (r: Option<usize>)
        ensures
            match r {
                Some(i) => i < self.entries@.len() && self.entries@[i as int].0@ == key@,
                None => forall|j: int| 0 <= j < self.entries@.len() ==> self.entries@[j].0@ != key@,
            },
    {
        let n = self.entries.len();
        let mut i: usize = 0;
        while i < n
            invariant
                n == self.entries@.len(),
                0 <= i <= n,
                forall|j: int| 0 <= j < i ==> self.entries@[j].0@ != key@,
            decreases n - i,
        {
            if self.entries[i].0.key_eq(key) {
                return Some(i);
            }
            i += 1;
        }
        None
    }

    /// Look a key up; a miss is `None`, never an error.
    pub fn get(&self, key: &CKey) -> (r: Option<&Value>)
        requires
            self.valid(),
        ensures
            match r {
                Some(v) => self@.entries.contains_key(key@) && v@ == self@.entries[key@]
                    && v.valid() && exists|j: int|
                    0 <= j < self.entries@.len() && self.entries@[j].0@ == key@ && *v
                        == #[trigger] self.entries@[j].1,
                None => !self@.entries.contains_key(key@),
            },
    {
        proof {
            lemma_assoc_map_contains(self.entries@, key@);
        }
        match self.find_key(key) {
            Some(i) => {
                proof {
                    lemma_assoc_map_unique(self.entries@, i as int);
                }
                Some(&self.entries[i].1)
            },
            None => None,
        }
    }

    /// Replace or add one entry; the positional extent is not touched.
    fn set_key(&mut self, key: CKey, value: Value)
        requires
            old(self).valid(),
            value.valid(),
        ensures
            final(self).valid(),
            final(self)@.entries == old(self)@.entries.insert(key@, value@),
            final(self)@.size == old(self)@.size,
    {
        let ghost s0 = self.entries@;
        match self.find_key(&key) {
            Some(i) => {
                proof {
                    lemma_assoc_map_remove(s0, i as int);
                }
                self.entries.remove(i);
                let ghost s1 = self.entries@;
                proof {
                    assert(forall|x: int| 0 <= x < s1.len() ==> s1[x] == (if x < i as int {
                        s0[x]
                    } else {
                        s0[x + 1]
                    }));
                    assert(forall|x: int, y: int| 0 <= x < y < s1.len() ==> s1[x].0@ != s1[y].0@);
                    assert(forall|x: int| 0 <= x < s1.len() ==> s1[x].1.valid());
                }
                self.entries.push((key, value));
                proof {
                    lemma_assoc_map_push(s1, (key, value));
                    assert(forall|x: int| 0 <= x < s1.len() ==> s1[x].0@ != key@);
                    assert(assoc_map(s0).remove(s0[i as int].0@).insert(key@, value@)
                        =~= assoc_map(s0).insert(key@, value@));
                    let s2 = self.entries@;
                    assert(forall|x: int, y: int|
                        0 <= x < y < s2.len() && y < s2.len() - 1 ==> s2[x] == s1[x] && s2[y]
                            == s1[y]);
                }
            },
            None => {
                self.entries.push((key, value));
                proof {
                    lemma_assoc_map_push(s0, (key, value));
                }
            },
        }
    }
}

} // verus!

verus! {

/// Array-like: positional extent nonzero, or every key positional.
pub open spec fn spec_array_like(c: CollView) -> bool {
    c.size > 0 || forall|k: KeyView| #[trigger] c.entries.contains_key(k) ==> k is Index
}

/// What `len` reports: the positional extent of an array-like collection,
/// else the number of keys.
pub open spec fn spec_coll_len(c: CollView) -> nat {
    if spec_array_like(c) {
        c.size
    } else {
        c.entries.dom().len()
    }
}

/// How an insert at key `k` grows the positional extent `sz`: writing at or
/// beyond the extent moves it just past the written index (capped at the
/// machine limit, where the original would abort).
pub open spec fn spec_insert_size(k: KeyView, sz: nat) -> nat {
    match k {
        KeyView::Index(i) => if i >= sz {
            if i < usize::MAX as nat {
                i + 1
            } else {
                usize::MAX as nat
            }
        } else {
            sz
        },
        _ => sz,
    }
}

impl CValue {
    /// Set a key to a value; an `Index` key at or past the current extent
    /// grows the extent to just past it (sparse growth permitted).
    pub fn insert(&mut self, key: CKey, value: Value)
        requires
            old(self).valid(),
            value.valid(),
        ensures
            final(self).valid(),
            final(self)@.entries == old(self)@.entries.insert(key@, value@),
            final(self)@.size == spec_insert_size(key@, old(self)@.size),
    {
        match &key {
            CKey::Index(i) => {
                if *i >= self.size {
                    self.size = if *i < usize::MAX {
                        *i + 1
                    } else {
                        usize::MAX
                    };
                }
            },
            _ => {},
        }
        self.set_key(key, value);
    }

    /// Append at the current positional extent.
    pub fn push(&mut self, value: Value)
        requires
            old(self).valid(),
            value.valid(),
            old(self)@.size < usize::MAX as nat,
        ensures
            final(self).valid(),
            final(self)@.entries == old(self)@.entries.insert(
                KeyView::Index(old(self)@.size),
                value@,
            ),
            final(self)@.size == old(self)@.size + 1,
    {
        let k = CKey::Index(self.size);
        self.set_key(k, value);
        self.size = self.size + 1;
    }

    /// Remove and return the last positional entry; `None` when the extent
    /// is zero.
    pub fn pop(&mut self) -> (r: Option<Value>)
        requires
            old(self).valid(),
        ensures
            final(self).valid(),
            old(self)@.size == 0 ==> r is None && final(self)@ == old(self)@,
            old(self)@.size > 0 ==> {
                let k = KeyView::Index((old(self)@.size - 1) as nat);
                &&& final(self)@.size == old(self)@.size - 1
                &&& final(self)@.entries == old(self)@.entries.remove(k)
                &&& (old(self)@.entries.contains_key(k) ==> (r matches Some(v) && v@ == old(
                    self,
                )@.entries[k] && v.valid()))
                &&& (!old(self)@.entries.contains_key(k) ==> r is None)
            },
    {
        if self.size == 0 {
            return None;
        }
        self.size = self.size - 1;
        let k = CKey::Index(self.size);
        proof {
            lemma_assoc_map_contains(self.entries@, k@);
        }
        match self.find_key(&k) {
            Some(i) => {
                proof {
                    lemma_assoc_map_unique(self.entries@, i as int);
                    lemma_assoc_map_remove(self.entries@, i as int);
                }
                let ghost s0 = self.entries@;
                let p = self.entries.remove(i);
                proof {
                    let s1 = self.entries@;
                    assert(forall|x: int| 0 <= x < s1.len() ==> s1[x] == (if x < i as int {
                        s0[x]
                    } else {
                        s0[x + 1]
                    }));
                    assert(forall|x: int, y: int| 0 <= x < y < s1.len() ==> s1[x].0@ != s1[y].0@);
                    assert(forall|x: int| 0 <= x < s1.len() ==> s1[x].1.valid());
                }
                Some(p.1)
            },
            None => {
                proof {
                    assert(self@.entries =~= self@.entries.remove(k@));
                }
                None
            },
        }
    }

    /// Array-like test: positional extent nonzero, or every key positional.
    pub fn is_array_like(&self) -> (r: bool)
        ensures
            r == spec_array_like(self@),
    {
        if self.size > 0 {
            return true;
        }
        let n = self.entries.len();
        let mut i: usize = 0;
        while i < n
            invariant
                self.size == 0,
                n == self.entries@.len(),
                0 <= i <= n,
                forall|j: int| 0 <= j < i ==> self.entries@[j].0@ is Index,
            decreases n - i,
        {
            match &self.entries[i].0 {
                CKey::Index(_) => {},
                _ => {
                    proof {
                        let k0 = self.entries@[i as int].0@;
                        lemma_assoc_map_contains(self.entries@, k0);
                        assert(0 <= i < self.entries@.len() && self.entries@[i as int].0@ == k0);
                        assert(self@.entries.contains_key(k0));
                        assert(!(k0 is Index));
                        assert(self@.size == 0);
                        assert(!spec_array_like(self@));
                    }
                    return false;
                },
            }
            i += 1;
        }
        proof {
            assert forall|k: KeyView| self@.entries.contains_key(k) implies k is Index by {
                lemma_assoc_map_contains(self.entries@, k);
            }
        }
        true
    }

    /// Entry count as the language reports it.
    pub fn len(&self) -> (r: usize)
        requires
            self.valid(),
        ensures
            r == spec_coll_len(self@),
    {
        if self.is_array_like() {
            self.size
        } else {
            proof {
                lemma_assoc_map_len(self.entries@);
            }
            self.entries.len()
        }
    }

    /// Look up a positional index.
    pub fn get_by_index(&self, index: usize) -> (r: Option<&Value>)
        requires
            self.valid(),
        ensures
            match r {
                Some(v) => self@.entries.contains_key(KeyView::Index(index as nat)) && v@
                    == self@.entries[KeyView::Index(index as nat)] && v.valid() && exists|j: int|
                    0 <= j < self.entries@.len() && self.entries@[j].0@ == KeyView::Index(
                        index as nat,
                    ) && *v == #[trigger] self.entries@[j].1,
                None => !self@.entries.contains_key(KeyView::Index(index as nat)),
            },
    {
        let k = CKey::Index(index);
        self.get(&k)
    }

    /// Look up a string key.
    pub fn get_by_string(&self, key: &str) -> (r: Option<&Value>)
        requires
            self.valid(),
        ensures
            match r {
                Some(v) => self@.entries.contains_key(KeyView::String(key@)) && v@
                    == self@.entries[KeyView::String(key@)] && v.valid(),
                None => !self@.entries.contains_key(KeyView::String(key@)),
            },
    {
        let k = CKey::String(key.to_owned());
        self.get(&k)
    }
}

} // verus!

verus! {

/// Lexicographic order on character sequences from position `i` on,
/// comparing code points.
pub open spec fn chars_lt_from(s: Seq<char>, t: Seq<char>, i: int) -> bool
    decreases t.len() - i,
{
    if i >= t.len() {
        false
    } else if i >= s.len() {
        true
    } else if s[i] == t[i] {
        chars_lt_from(s, t, i + 1)
    } else {
        (s[i] as u32) < (t[i] as u32)
    }
}

/// Lexicographic order on character sequences, as Rust orders strings.
pub open spec fn chars_lt(s: Seq<char>, t: Seq<char>) -> bool {
    chars_lt_from(s, t, 0)
}

/// The language's `==` on values: defined within one variant only —
/// numbers by IEEE equality, strings and booleans structurally, collections
/// by equal extents, equal key sets and pairwise equal values — and false
/// across variants.
pub open spec fn val_eq(a: ValueView, b: ValueView) -> bool
    decreases a,
{
    match (a, b) {
        (ValueView::Number(x), ValueView::Number(y)) => num_eq_bits(x, y),
        (ValueView::String(s), ValueView::String(t)) => s == t,
        (ValueView::Bool(x), ValueView::Bool(y)) => x == y,
        (ValueView::Nil, ValueView::Nil) => true,
        (ValueView::Collection(c), ValueView::Collection(d)) => {
            &&& c.size == d.size
            &&& c.entries.dom().finite()
            &&& c.entries.dom() =~= d.entries.dom()
            &&& forall|k: KeyView| #[trigger] c.entries.contains_key(k) ==> val_eq(
                c.entries[k],
                d.entries[k],
            )
        },
        _ => false,
    }
}

/// The language's `<` on values: IEEE on numbers, lexicographic on strings,
/// `false < true` on booleans; anything else is unordered, hence false.
pub open spec fn val_lt(a: ValueView, b: ValueView) -> bool {
    match (a, b) {
        (ValueView::Number(x), ValueView::Number(y)) => num_lt_bits(x, y),
        (ValueView::String(s), ValueView::String(t)) => chars_lt(s, t),
        (ValueView::Bool(x), ValueView::Bool(y)) => !x && y,
        _ => false,
    }
}

/// The language's `<=` on values; unordered pairs give false.
pub open spec fn val_le(a: ValueView, b: ValueView) -> bool {
    match (a, b) {
        (ValueView::Number(x), ValueView::Number(y)) => num_le_bits(x, y),
        (ValueView::String(s), ValueView::String(t)) => chars_lt(s, t) || s == t,
        (ValueView::Bool(x), ValueView::Bool(y)) => !x || y,
        _ => false,
    }
}

/// Truthiness: `false`, `nil` and the empty collection are falsy;
/// everything else — 0 and the empty string included — is truthy.
pub open spec fn spec_truthy(v: ValueView) -> bool {
    match v {
        ValueView::Bool(b) => b,
        ValueView::Nil => false,
        ValueView::Collection(c) => !(c.entries.dom() =~= Set::<KeyView>::empty()),
        _ => true,
    }
}

/// The type word used in error messages.
pub open spec fn spec_kind_name(v: ValueView) -> Seq<char> {
    match v {
        ValueView::Number(_) => "number"@,
        ValueView::String(_) => "string"@,
        ValueView::Bool(_) => "bool"@,
        ValueView::Collection(_) => "collection"@,
        ValueView::Nil => "nil"@,
    }
}

impl Value {
    /// The type word used in error messages.
    pub fn kind_name(&self) -> (r: &'static str)
        ensures
            r@ == spec_kind_name(self@),
    {
        match self {
            Value::Number(_) => "number",
            Value::String(_) => "string",
            Value::Bool(_) => "bool",
            Value::Collection(_) => "collection",
            Value::Nil => "nil",
        }
    }

    /// A fresh empty collection value.
    pub fn new_collection() -> (r: Value)
        ensures
            r@ matches ValueView::Collection(c) && c.entries == Map::<KeyView, ValueView>::empty()
                && c.size == 0,
            r.valid(),
    {
        Value::Collection(CValue::new())
    }

    pub fn as_bool_ref(&self) -> (r: Option<bool>)
        ensures
            match r {
                Some(b) => self@ == ValueView::Bool(b),
                None => !(self@ is Bool),
            },
    {
        match self {
            Value::Bool(b) => Some(*b),
            _ => None,
        }
    }

    pub fn is_true(&self) -> (r: bool)
        ensures
            r == (self@ == ValueView::Bool(true)),
    {
        match self {
            Value::Bool(b) => *b,
            _ => false,
        }
    }

    pub fn is_false(&self) -> (r: bool)
        ensures
            r == (self@ == ValueView::Bool(false)),
    {
        match self {
            Value::Bool(b) => !*b,
            _ => false,
        }
    }

    pub fn equals_bool(&self, other: bool) -> (r: bool)
        ensures
            r == (self@ == ValueView::Bool(other)),
    {
        match self {
            Value::Bool(b) => *b == other,
            _ => false,
        }
    }

    /// Truthiness test, per the rule above.
    pub fn is_truthy(&self) -> (r: bool)
        requires
            self.valid(),
        ensures
            r == spec_truthy(self@),
    {
        match self {
            Value::Bool(b) => *b,
            Value::Nil => false,
            Value::Collection(c) => {
                if c.entries.len() == 0 {
                    proof {
                        assert(c@.entries.dom() =~= Set::<KeyView>::empty());
                    }
                    false
                } else {
                    proof {
                        lemma_assoc_map_unique(c.entries@, 0);
                    }
                    true
                }
            },
            _ => true,
        }
    }
}

} // verus!

verus! {

proof fn lemma_assoc_map_congruent(s1: Seq<(CKey, Value)>, s2: Seq<(CKey, Value)>)
    requires
        s1.len() == s2.len(),
        forall|i: int| 0 <= i < s1.len() ==> s1[i].0@ == s2[i].0@ && s1[i].1@ == s2[i].1@,
    ensures
        assoc_map(s1) == assoc_map(s2),
    decreases s1.len(),
{
    if s1.len() > 0 {
        assert(forall|i: int|
            0 <= i < s1.drop_last().len() ==> s1.drop_last()[i] == s1[i] && s2.drop_last()[i]
                == s2[i]);
        lemma_assoc_map_congruent(s1.drop_last(), s2.drop_last());
        assert(assoc_map(s1) == assoc_map(s1.drop_last()).insert(s1.last().0@, s1.last().1@));
        assert(assoc_map(s2) == assoc_map(s2.drop_last()).insert(s2.last().0@, s2.last().1@));
        assert(s1.last().0@ == s2.last().0@ && s1.last().1@ == s2.last().1@);
    }
}

/// Lexicographic comparison of two strings by code point.
fn str_lt(x: &String, y: &String) -> (r: bool)
    ensures
        r == chars_lt(x@, y@),
{
    let n = x.as_str().unicode_len();
    let m = y.as_str().unicode_len();
    let mut i: usize = 0;
    while i < n && i < m
        invariant
            n == x@.len(),
            m == y@.len(),
            0 <= i <= n,
            0 <= i <= m,
            chars_lt(x@, y@) == chars_lt_from(x@, y@, i as int),
        decreases n - i,
    {
        let a = x.as_str().get_char(i);
        let b = y.as_str().get_char(i);
        if a == b {
            proof {
                assert(chars_lt_from(x@, y@, i as int) == chars_lt_from(x@, y@, i + 1));
            }
            i += 1;
        } else {
            return (a as u32) < (b as u32);
        }
    }
    i < m
}

impl CValue {
    /// The language's `==` on two well-formed collections.
    pub fn eq_coll(&self, other: &CValue) -> (r: bool)
        requires
            self.valid(),
            other.valid(),
        ensures
            r == val_eq(ValueView::Collection(self@), ValueView::Collection(other@)),
        decreases self,
    {
        let ghost a = ValueView::Collection(self@);
        let ghost b = ValueView::Collection(other@);
        if self.size != other.size {
            return false;
        }
        if self.entries.len() != other.entries.len() {
            proof {
                lemma_assoc_map_len(self.entries@);
                lemma_assoc_map_len(other.entries@);
                assert(!(self@.entries.dom() =~= other@.entries.dom()));
            }
            return false;
        }
        let n = self.entries.len();
        let mut i: usize = 0;
        while i < n
            invariant
                self.valid(),
                other.valid(),
                n == self.entries@.len(),
                other.entries@.len() == n,
                self.size == other.size,
                0 <= i <= n,
                forall|j: int|
                    0 <= j < i ==> #[trigger] other@.entries.contains_key(self.entries@[j].0@)
                        && val_eq(self.entries@[j].1@, other@.entries[self.entries@[j].0@]),
            decreases n - i,
        {
            proof {
                lemma_assoc_map_unique(self.entries@, i as int);
            }
            match other.get(&self.entries[i].0) {
                None => {
                    proof {
                        let k0 = self.entries@[i as int].0@;
                        assert(self@.entries.contains_key(k0));
                        assert(!other@.entries.contains_key(k0));
                        assert(!(self@.entries.dom() =~= other@.entries.dom()));
                    }
                    return false;
                },
                Some(w) => {
                    let sub = &self.entries[i].1;
                    if !sub.eq_value(w) {
                        proof {
                            let k0 = self.entries@[i as int].0@;
                            assert(self@.entries.contains_key(k0));
                            assert(self@.entries[k0] == self.entries@[i as int].1@);
                            assert(!val_eq(self@.entries[k0], other@.entries[k0]));
                        }
                        return false;
                    }
                    proof {
                        let k0 = self.entries@[i as int].0@;
                        assert(other@.entries.contains_key(k0));
                        assert(val_eq(self.entries@[i as int].1@, other@.entries[k0]));
                        assert forall|j: int| 0 <= j < i + 1 implies #[trigger] other@.entries.contains_key(
                            self.entries@[j].0@,
                        ) && val_eq(self.entries@[j].1@, other@.entries[self.entries@[j].0@]) by {
                            if j == i as int {
                                assert(other@.entries.contains_key(k0));
                            }
                        }
                    }
                    i += 1;
                },
            }
        }
        proof {
            lemma_assoc_map_len(self.entries@);
            lemma_assoc_map_len(other.entries@);
            assert forall|k: KeyView| self@.entries.contains_key(k) implies #[trigger] other@.entries.contains_key(
                k,
            ) && val_eq(self@.entries[k], other@.entries[k]) by {
                lemma_assoc_map_contains(self.entries@, k);
                let j = choose|j: int|
                    0 <= j < self.entries@.len() && self.entries@[j].0@ == k;
                lemma_assoc_map_unique(self.entries@, j);
            }
            assert(self@.entries.dom().subset_of(other@.entries.dom()));
            vstd::set_lib::lemma_subset_equality(self@.entries.dom(), other@.entries.dom());
        }
        true
    }

    /// A fresh collection equal to this one.
    pub fn duplicate_coll(&self) -> (r: CValue)
        ensures
            r@ == self@,
            self.valid() ==> r.valid(),
        decreases self,
    {
        let n = self.entries.len();
        let mut v: Vec<(CKey, Value)> = Vec::new();
        let mut i: usize = 0;
        while i < n
            invariant
                n == self.entries@.len(),
                0 <= i <= n,
                v@.len() == i,
                forall|j: int|
                    0 <= j < i ==> v@[j].0@ == self.entries@[j].0@ && v@[j].1@
                        == self.entries@[j].1@ && (self.entries@[j].1.valid()
                        ==> v@[j].1.valid()),
            decreases n - i,
        {
            let k2 = self.entries[i].0.duplicate();
            let sub = &self.entries[i].1;
            let v2 = sub.duplicate();
            v.push((k2, v2));
            i += 1;
        }
        proof {
            lemma_assoc_map_congruent(v@, self.entries@);
        }
        CValue { entries: v, size: self.size }
    }
}

impl Value {
    /// The language's `==` test on two well-formed values.
    pub fn eq_value(&self, other: &Value) -> (r: bool)
        requires
            self.valid(),
            other.valid(),
        ensures
            r == val_eq(self@, other@),
        decreases self,
    {
        match (self, other) {
            (Value::Number(x), Value::Number(y)) => num_eq(*x, *y),
            (Value::String(s), Value::String(t)) => s.eq(t),
            (Value::Bool(x), Value::Bool(y)) => x == y,
            (Value::Nil, Value::Nil) => true,
            (Value::Collection(c), Value::Collection(d)) => c.eq_coll(d),
            _ => false,
        }
    }

    /// The language's `<` test.
    pub fn lt_value(&self, other: &Value) -> (r: bool)
        ensures
            r == val_lt(self@, other@),
    {
        match (self, other) {
            (Value::Number(x), Value::Number(y)) => num_lt(*x, *y),
            (Value::String(s), Value::String(t)) => str_lt(s, t),
            (Value::Bool(x), Value::Bool(y)) => !*x && *y,
            _ => false,
        }
    }

    /// The language's `<=` test.
    pub fn le_value(&self, other: &Value) -> (r: bool)
        ensures
            r == val_le(self@, other@),
    {
        match (self, other) {
            (Value::Number(x), Value::Number(y)) => num_le(*x, *y),
            (Value::String(s), Value::String(t)) => str_lt(s, t) || s.eq(t),
            (Value::Bool(x), Value::Bool(y)) => !*x || *y,
            _ => false,
        }
    }

    /// A fresh value equal to this one.
    pub fn duplicate(&self) -> (r: Value)
        ensures
            r@ == self@,
            self.valid() ==> r.valid(),
        decreases self,
    {
        match self {
            Value::Number(b) => Value::Number(*b),
            Value::String(s) => Value::String(s.clone()),
            Value::Bool(b) => Value::Bool(*b),
            Value::Nil => Value::Nil,
            Value::Collection(c) => Value::Collection(c.duplicate_coll()),
        }
    }
}

} // verus!

verus! {

/// The decimal digit character for `d`.
pub open spec fn digit_char(d: nat) -> char {
    if d == 0 {
        '0'
    } else if d == 1 {
        '1'
    } else if d == 2 {
        '2'
    } else if d == 3 {
        '3'
    } else if d == 4 {
        '4'
    } else if d == 5 {
        '5'
    } else if d == 6 {
        '6'
    } else if d == 7 {
        '7'
    } else if d == 8 {
        '8'
    } else {
        '9'
    }
}

/// The decimal numeral for `n`, most significant digit first.
pub open spec fn dec_digits(n: nat) -> Seq<char>
    decreases n,
{
    if n < 10 {
        seq![digit_char(n)]
    } else {
        dec_digits(n / 10).push(digit_char(n % 10))
    }
}

fn digit_str(d: usize) -> (r: &'static str)
    requires
        d < 10,
    ensures
        r@ == dec_digits(d as nat),
{
    proof {
        reveal_strlit("0");
        reveal_strlit("1");
        reveal_strlit("2");
        reveal_strlit("3");
        reveal_strlit("4");
        reveal_strlit("5");
        reveal_strlit("6");
        reveal_strlit("7");
        reveal_strlit("8");
        reveal_strlit("9");
    }
    let r: &'static str = if d == 0 {
        "0"
    } else if d == 1 {
        "1"
    } else if d == 2 {
        "2"
    } else if d == 3 {
        "3"
    } else if d == 4 {
        "4"
    } else if d == 5 {
        "5"
    } else if d == 6 {
        "6"
    } else if d == 7 {
        "7"
    } else if d == 8 {
        "8"
    } else {
        "9"
    };
    proof {
        assert(r@ =~= dec_digits(d as nat));
    }
    r
}

/// The decimal numeral of an unsigned machine integer.
pub fn render_integer(n: usize) -> (r: String)
    ensures
        r@ == dec_digits(n as nat),
    decreases n,
{
    if n < 10 {
        digit_str(n).to_owned()
    } else {
        let mut s = render_integer(n / 10);
        s.append(digit_str(n % 10));
        proof {
            assert(dec_digits((n / 10) as nat).push(digit_char(n as nat % 10)) =~= dec_digits(
                (n / 10) as nat,
            ) + dec_digits((n % 10) as nat));
            assert(dec_digits(n as nat) == dec_digits(n as nat / 10).push(
                digit_char(n as nat % 10),
            ));
        }
        s
    }
}

/// Whether two string slices hold the same text.
pub fn str_eq(a: &str, b: &str) -> (r: bool)
    ensures
        r == (a@ == b@),
{
    let sa = a.to_owned();
    let sb = b.to_owned();
    sa.eq(&sb)
}

/// How many bytes the UTF-8 encoding of one character takes.
pub open spec fn char_utf8_len(c: char) -> nat {
    if (c as u32) < 0x80 {
        1
    } else if (c as u32) < 0x800 {
        2
    } else if (c as u32) < 0x10000 {
        3
    } else {
        4
    }
}

/// How many bytes the UTF-8 encoding of the text takes.
pub open spec fn utf8_len(s: Seq<char>) -> nat
    decreases s.len(),
{
    if s.len() == 0 {
        0
    } else {
        utf8_len(s.drop_last()) + char_utf8_len(s.last())
    }
}

/// Byte length of a string, the measure the language's `len` reports.
pub fn utf8_length(s: &String) -> (r: usize)
    ensures
        r == utf8_len(s@) as usize,
{
    let n = s.as_str().unicode_len();
    let mut total: u128 = 0;
    let mut i: usize = 0;
    while i < n
        invariant
            n == s@.len(),
            0 <= i <= n,
            total == utf8_len(s@.take(i as int)),
            total <= 4 * i,
        decreases n - i,
    {
        let c = s.as_str().get_char(i);
        let w: u128 = if (c as u32) < 0x80 {
            1
        } else if (c as u32) < 0x800 {
            2
        } else if (c as u32) < 0x10000 {
            3
        } else {
            4
        };
        proof {
            assert(s@.take(i + 1).drop_last() =~= s@.take(i as int));
            assert(s@.take(i + 1).last() == s@[i as int]);
            assert(w == char_utf8_len(s@[i as int]));
        }
        total = total + w;
        i += 1;
    }
    proof {
        assert(s@.take(n as int) =~= s@);
    }
    #[verifier::truncate] (total as usize)
}

} // verus!

verus! {

/// The views of a sequence of values.
pub open spec fn views_of(s: Seq<Value>) -> Seq<ValueView> {
    s.map_values(|v: Value| v@)
}

/// The collection key a value denotes when used as one: a number is
/// truncated to a positional index, a string keys by text, anything else
/// is rejected.
pub open spec fn spec_key_of(v: ValueView) -> Option<KeyView> {
    match v {
        ValueView::Number(n) => Some(KeyView::Index((crate::num::spec_trunc_bits(n) as usize) as nat)),
        ValueView::String(s) => Some(KeyView::String(s)),
        _ => None,
    }
}

/// Receiver and outcome of one method call.
pub struct MethodStep {
    pub receiver: ValueView,
    pub outcome: Result<ValueView, Seq<char>>,
}

/// What calling `m` with `args` on receiver `v` does: the collection
/// methods `push`, `pop`, `size`, `get` and `insert`, the string method
/// `len`, and an error for everything else. The receiver component is the
/// value the receiver holds afterwards.
pub open spec fn spec_method_step(v: ValueView, m: Seq<char>, args: Seq<ValueView>) -> MethodStep {
    match v {
        ValueView::Collection(c) => if m == "push"@ {
            if args.len() != 1 {
                MethodStep {
                    receiver: v,
                    outcome: Err("push method on array expects 1 argument, got "@ + dec_digits(args.len())),
                }
            } else if c.size >= usize::MAX as nat {
                MethodStep { receiver: v, outcome: Err("collection size overflow"@) }
            } else {
                MethodStep {
                    receiver: ValueView::Collection(
                        CollView {
                            entries: c.entries.insert(KeyView::Index(c.size), args[0]),
                            size: c.size + 1,
                        },
                    ),
                    outcome: Ok(ValueView::Nil),
                }
            }
        } else if m == "pop"@ {
            if args.len() != 0 {
                MethodStep {
                    receiver: v,
                    outcome: Err("pop method on array expects no argument, got "@ + dec_digits(args.len())),
                }
            } else if c.size == 0 {
                MethodStep { receiver: v, outcome: Ok(ValueView::Nil) }
            } else {
                let k = KeyView::Index((c.size - 1) as nat);
                MethodStep {
                    receiver: ValueView::Collection(
                        CollView { entries: c.entries.remove(k), size: (c.size - 1) as nat },
                    ),
                    outcome: Ok(
                        if c.entries.contains_key(k) {
                            c.entries[k]
                        } else {
                            ValueView::Nil
                        },
                    ),
                }
            }
        } else if m == "size"@ {
            if args.len() != 0 {
                MethodStep {
                    receiver: v,
                    outcome: Err("size method on array expects no argument, got "@ + dec_digits(args.len())),
                }
            } else {
                MethodStep {
                    receiver: v,
                    outcome: Ok(ValueView::Number(crate::num::bits_of_len(spec_coll_len(c) as usize))),
                }
            }
        } else if m == "get"@ {
            if args.len() != 1 {
                MethodStep {
                    receiver: v,
                    outcome: Err("get method expects 1 argument, got "@ + dec_digits(args.len())),
                }
            } else {
                match spec_key_of(args[0]) {
                    None => MethodStep {
                        receiver: v,
                        outcome: Err("collection key must be a number or string"@),
                    },
                    Some(k) => MethodStep {
                        receiver: v,
                        outcome: Ok(
                            if c.entries.contains_key(k) {
                                c.entries[k]
                            } else {
                                ValueView::Nil
                            },
                        ),
                    },
                }
            }
        } else if m == "insert"@ {
            if args.len() != 2 {
                MethodStep {
                    receiver: v,
                    outcome: Err("insert method expects 2 arguments, got "@ + dec_digits(args.len())),
                }
            } else {
                match args[0] {
                    ValueView::Number(n) => {
                        let idx = (crate::num::spec_trunc_bits(n) as usize) as nat;
                        if spec_array_like(c) && idx > c.size {
                            MethodStep {
                                receiver: v,
                                outcome: Err("index "@ + dec_digits(idx) + " is out of bounds"@),
                            }
                        } else {
                            let k = KeyView::Index(idx);
                            MethodStep {
                                receiver: ValueView::Collection(
                                    CollView {
                                        entries: c.entries.insert(k, args[1]),
                                        size: spec_insert_size(k, c.size),
                                    },
                                ),
                                outcome: Ok(ValueView::Nil),
                            }
                        }
                    },
                    ValueView::String(s) => {
                        let k = KeyView::String(s);
                        MethodStep {
                            receiver: ValueView::Collection(
                                CollView {
                                    entries: c.entries.insert(k, args[1]),
                                    size: spec_insert_size(k, c.size),
                                },
                            ),
                            outcome: Ok(ValueView::Nil),
                        }
                    },
                    _ => MethodStep {
                        receiver: v,
                        outcome: Err("insert key must be a number or string"@),
                    },
                }
            }
        } else {
            MethodStep {
                receiver: v,
                outcome: Err("unknown method '"@ + m + "' for array."@),
            }
        },
        ValueView::String(s) => if m == "len"@ {
            if args.len() != 0 {
                MethodStep {
                    receiver: v,
                    outcome: Err("len method on string expects no arguments, got "@ + dec_digits(args.len())),
                }
            } else {
                MethodStep {
                    receiver: v,
                    outcome: Ok(ValueView::Number(crate::num::bits_of_len(utf8_len(s) as usize))),
                }
            }
        } else {
            MethodStep {
                receiver: v,
                outcome: Err("unknown method '"@ + m + "' for string."@),
            }
        },
        _ => MethodStep {
            receiver: v,
            outcome: Err(
                "cannot call method '"@ + m + "' on \""@ + spec_kind_name(v) + "\""@,
            ),
        },
    }
}

/// The methods a value answers to.
pub open spec fn spec_got_method(v: ValueView, m: Seq<char>) -> bool {
    match v {
        ValueView::Collection(_) => m == "push"@ || m == "pop"@ || m == "size"@ || m == "get"@
            || m == "insert"@,
        ValueView::String(_) => m == "len"@,
        _ => false,
    }
}

impl Value {
    /// Whether this value answers to method `m`.
    pub fn got_method(&self, method: &str) -> (r: bool)
        ensures
            r == spec_got_method(self@, method@),
    {
        match self {
            Value::Collection(_) => str_eq(method, "push") || str_eq(method, "pop") || str_eq(
                method,
                "size",
            ) || str_eq(method, "get") || str_eq(method, "insert"),
            Value::String(_) => str_eq(method, "len"),
            _ => false,
        }
    }

    /// Dispatch a method call on this value, mutating it in place; the
    /// behaviour is `spec_method_step` of the old value.
    pub fn call_method(&mut self, method: &str, args: &Vec<Value>) -> (r: Result<Value, String>)
        requires
            old(self).valid(),
            forall|i: int| 0 <= i < args@.len() ==> #[trigger] args@[i].valid(),
        ensures
            final(self).valid(),
            final(self)@ == spec_method_step(old(self)@, method@, views_of(args@)).receiver,
            match (r, spec_method_step(old(self)@, method@, views_of(args@)).outcome) {
                (Ok(v), Ok(w)) => v@ == w && v.valid(),
                (Err(e), Err(t)) => e@ == t,
                _ => false,
            },
    {
        let ghost argviews = views_of(args@);
        match self {
            Value::Collection(c) => {
                if str_eq(method, "push") {
                    if args.len() != 1 {
                        return Err(
                            String::from_str("push method on array expects 1 argument, got ")
                                .concat(render_integer(args.len()).as_str()),
                        );
                    }
                    if c.size == usize::MAX {
                        return Err(String::from_str("collection size overflow"));
                    }
                    let v0 = args[0].duplicate();
                    c.push(v0);
                    proof {
                        assert(argviews[0] == args@[0]@);
                    }
                    Ok(Value::Nil)
                } else if str_eq(method, "pop") {
                    if args.len() != 0 {
                        return Err(
                            String::from_str("pop method on array expects no argument, got ")
                                .concat(render_integer(args.len()).as_str()),
                        );
                    }
                    match c.pop() {
                        Some(v) => Ok(v),
                        None => Ok(Value::Nil),
                    }
                } else if str_eq(method, "size") {
                    if args.len() != 0 {
                        return Err(
                            String::from_str("size method on array expects no argument, got ")
                                .concat(render_integer(args.len()).as_str()),
                        );
                    }
                    let n = c.len();
                    Ok(Value::Number(crate::num::length_bits(n)))
                } else if str_eq(method, "get") {
                    if args.len() != 1 {
                        return Err(
                            String::from_str("get method expects 1 argument, got ").concat(
                                render_integer(args.len()).as_str(),
                            ),
                        );
                    }
                    let key = match &args[0] {
                        Value::Number(n) => CKey::Index(crate::num::trunc_bits(*n)),
                        Value::String(s) => CKey::String(s.clone()),
                        _ => {
                            return Err(
                                String::from_str("collection key must be a number or string"),
                            );
                        },
                    };
                    proof {
                        assert(argviews[0] == args@[0]@);
                    }
                    match c.get(&key) {
                        Some(v) => Ok(v.duplicate()),
                        None => Ok(Value::Nil),
                    }
                } else if str_eq(method, "insert") {
                    if args.len() != 2 {
                        return Err(
                            String::from_str("insert method expects 2 arguments, got ").concat(
                                render_integer(args.len()).as_str(),
                            ),
                        );
                    }
                    proof {
                        assert(argviews[0] == args@[0]@);
                        assert(argviews[1] == args@[1]@);
                    }
                    let key = match &args[0] {
                        Value::Number(n) => {
                            let idx = crate::num::trunc_bits(*n);
                            if c.is_array_like() && idx > c.size {
                                return Err(
                                    String::from_str("index ").concat(
                                        render_integer(idx).as_str(),
                                    ).concat(" is out of bounds"),
                                );
                            }
                            CKey::Index(idx)
                        },
                        Value::String(s) => CKey::String(s.clone()),
                        _ => {
                            return Err(
                                String::from_str("insert key must be a number or string"),
                            );
                        },
                    };
                    let v1 = args[1].duplicate();
                    c.insert(key, v1);
                    Ok(Value::Nil)
                } else {
                    Err(
                        String::from_str("unknown method '").concat(method).concat(
                            "' for array.",
                        ),
                    )
                }
            },
            Value::String(s) => {
                if str_eq(method, "len") {
                    if args.len() != 0 {
                        return Err(
                            String::from_str("len method on string expects no arguments, got ")
                                .concat(render_integer(args.len()).as_str()),
                        );
                    }
                    let n = utf8_length(s);
                    Ok(Value::Number(crate::num::length_bits(n)))
                } else {
                    Err(
                        String::from_str("unknown method '").concat(method).concat(
                            "' for string.",
                        ),
                    )
                }
            },
            _ => {
                let t = self.kind_name();
                Err(
                    String::from_str("cannot call method '").concat(method).concat(
                        "' on \"",
                    ).concat(t).concat("\""),
                )
            },
        }
    }
}

} // verus!

verus! {

use crate::num::spec_num_text;
use vstd::string::StringExecFns;

/// The text a key is shown under: its own text for string and numeric
/// keys, the decimal numeral for a positional index.
pub open spec fn key_text(k: KeyView) -> Seq<char> {
    match k {
        KeyView::String(t) => t,
        KeyView::Number(t) => t,
        KeyView::Index(i) => dec_digits(i),
    }
}

/// The entry an association list holds at key `k`: the latest one, which
/// is the one its map denotes.
pub open spec fn spec_lookup(s: Seq<(CKey, Value)>, k: KeyView) -> Option<Value>
    decreases s,
{
    if s.len() == 0 {
        None
    } else if s.last().0@ == k {
        Some(s.last().1)
    } else {
        spec_lookup(s.drop_last(), k)
    }
}

/// A held entry sits below its list in the termination order.
proof fn lemma_lookup_height(s: Seq<(CKey, Value)>, k: KeyView)
    ensures
        spec_lookup(s, k) is Some ==> (decreases_to!(s => spec_lookup(s, k)->Some_0)),
    decreases s,
{
    if s.len() > 0 {
        if s.last().0@ == k {
            assert(decreases_to!(s => s[s.len() - 1]));
            assert(decreases_to!(s[s.len() - 1] => s[s.len() - 1].1));
        } else {
            lemma_lookup_height(s.drop_last(), k);
            if spec_lookup(s, k) is Some {
                assert(decreases_to!(s => s.drop_last()));
            }
        }
    }
}

proof fn lemma_lookup_unique(s: Seq<(CKey, Value)>, j: int)
    requires
        forall|x: int, y: int| 0 <= x < y < s.len() ==> s[x].0@ != s[y].0@,
        0 <= j < s.len(),
    ensures
        spec_lookup(s, s[j].0@) == Some(s[j].1),
    decreases s,
{
    if j == s.len() - 1 {
        assert(s.last() == s[j]);
    } else {
        let pre = s.drop_last();
        assert(forall|x: int, y: int| 0 <= x < y < pre.len() ==> pre[x] == s[x] && pre[y] == s[y]);
        assert(pre[j] == s[j]);
        lemma_lookup_unique(pre, j);
        assert(s[j].0@ != s.last().0@);
    }
}

proof fn lemma_lookup_absent(s: Seq<(CKey, Value)>, k: KeyView)
    requires
        forall|i: int| 0 <= i < s.len() ==> s[i].0@ != k,
    ensures
        spec_lookup(s, k) is None,
    decreases s,
{
    if s.len() > 0 {
        let pre = s.drop_last();
        assert(forall|i: int| 0 <= i < pre.len() ==> pre[i] == s[i]);
        lemma_lookup_absent(pre, k);
    }
}

/// The text a value shows as: scalars by `spec_num_text` and the fixed
/// words, a collection as a bracketed comma-joined list — positions
/// `0..size` for an array-like one, `nil` at a gap, and `key = value`
/// pairs in entry order otherwise.
pub open spec fn render_value(v: Value) -> Seq<char>
    decreases v, 0int,
    via render_value_dec
{
    match v {
        Value::Number(b) => spec_num_text(b),
        Value::String(s) => s@,
        Value::Bool(b) => if b {
            "true"@
        } else {
            "false"@
        },
        Value::Nil => "nil"@,
        Value::Collection(c) => "["@ + (if spec_array_like(c.view()) {
            positions_text(c.entries@, c.size as nat)
        } else {
            pairs_text(c.entries@)
        }) + "]"@,
    }
}

#[via_fn]
proof fn render_value_dec(v: Value) {
    match v {
        Value::Collection(c) => {
            assert(decreases_to!(v => c));
            assert(decreases_to!(c => c.entries));
            assert(decreases_to!(c.entries => c.entries@));
        },
        _ => {},
    }
}

/// The joined texts of positions `0..n`.
pub open spec fn positions_text(s: Seq<(CKey, Value)>, n: nat) -> Seq<char>
    decreases s, n as int,
    via positions_text_dec
{
    if n == 0 {
        Seq::empty()
    } else {
        let item = match spec_lookup(s, KeyView::Index((n - 1) as nat)) {
            Some(v) => render_value(v),
            None => "nil"@,
        };
        if n == 1 {
            item
        } else {
            positions_text(s, (n - 1) as nat) + ", "@ + item
        }
    }
}

#[via_fn]
proof fn positions_text_dec(s: Seq<(CKey, Value)>, n: nat) {
    if n > 0 {
        lemma_lookup_height(s, KeyView::Index((n - 1) as nat));
    }
}

/// The joined `key = value` texts of the entries, in order.
pub open spec fn pairs_text(s: Seq<(CKey, Value)>) -> Seq<char>
    decreases s, 0int,
    via pairs_text_dec
{
    if s.len() == 0 {
        Seq::empty()
    } else {
        let item = key_text(s.last().0@) + " = "@ + render_value(s.last().1);
        if s.len() == 1 {
            item
        } else {
            pairs_text(s.drop_last()) + ", "@ + item
        }
    }
}

#[via_fn]
proof fn pairs_text_dec(s: Seq<(CKey, Value)>) {
    if s.len() > 0 {
        assert(decreases_to!(s => s[s.len() - 1]));
        assert(decreases_to!(s[s.len() - 1] => s[s.len() - 1].1));
    }
}

/// The text a collection shows as.
pub open spec fn render_coll_text(c: CValue) -> Seq<char> {
    "["@ + (if spec_array_like(c.view()) {
        positions_text(c.entries@, c.size as nat)
    } else {
        pairs_text(c.entries@)
    }) + "]"@
}

impl CValue {
    /// Render a collection: positions for an array-like one, `key = value`
    /// pairs in entry order otherwise.
    pub fn render_coll(&self) -> (r: String)
        requires
            self.valid(),
        ensures
            r@ == render_coll_text(*self),
        decreases self,
    {
        let mut out = String::from_str("[");
        if self.is_array_like() {
            let n = self.size;
            let mut i: usize = 0;
            while i < n
                invariant
                    self.valid(),
                    n == self.size,
                    0 <= i <= n,
                    out@ == "["@ + positions_text(self.entries@, i as nat),
                decreases n - i,
            {
                if i > 0 {
                    out.append(", ");
                }
                let ghost pre = out@;
                let piece: String = match self.get_by_index(i) {
                    Some(v) => {
                        proof {
                            let j = choose|j: int|
                                0 <= j < self.entries@.len() && self.entries@[j].0@
                                    == KeyView::Index(i as nat) && *v == self.entries@[j].1;
                            lemma_lookup_unique(self.entries@, j);
                            assert(spec_lookup(self.entries@, KeyView::Index(i as nat)) == Some(
                                *v,
                            ));
                            assert(decreases_to!(*self => self.entries));
                            assert(decreases_to!(self.entries => self.entries@[j]));
                            assert(decreases_to!(self.entries@[j] => self.entries@[j].1));
                            assert(decreases_to!(*self => *v));
                        }
                        v.render()
                    },
                    None => {
                        proof {
                            assert(forall|j: int|
                                0 <= j < self.entries@.len() ==> self.entries@[j].0@
                                    != KeyView::Index(i as nat)) by {
                                lemma_assoc_map_contains(
                                    self.entries@,
                                    KeyView::Index(i as nat),
                                );
                            }
                            lemma_lookup_absent(self.entries@, KeyView::Index(i as nat));
                        }
                        String::from_str("nil")
                    },
                };
                out.append(piece.as_str());
                proof {
                    if i > 0 {
                        assert(out@ =~= "["@ + (positions_text(self.entries@, i as nat) + ", "@
                            + piece@));
                        assert(positions_text(self.entries@, (i + 1) as nat) == positions_text(
                            self.entries@,
                            i as nat,
                        ) + ", "@ + piece@);
                    } else {
                        assert(out@ =~= "["@ + piece@);
                        assert(positions_text(self.entries@, 1) == piece@);
                    }
                }
                i += 1;
            }
        } else {
            let n = self.entries.len();
            let mut i: usize = 0;
            proof {
                assert(self.entries@.take(0).len() == 0);
            }
            while i < n
                invariant
                    self.valid(),
                    n == self.entries@.len(),
                    0 <= i <= n,
                    out@ == "["@ + pairs_text(self.entries@.take(i as int)),
                decreases n - i,
            {
                if i > 0 {
                    out.append(", ");
                }
                let key_s: String = match &self.entries[i].0 {
                    CKey::String(t) => t.clone(),
                    CKey::Number(t) => t.clone(),
                    CKey::Index(ix) => render_integer(*ix),
                };
                let sub = &self.entries[i].1;
                let vt = sub.render();
                let piece = key_s.concat(" = ").concat(vt.as_str());
                out.append(piece.as_str());
                proof {
                    let t = self.entries@.take(i + 1);
                    assert(t.drop_last() =~= self.entries@.take(i as int));
                    assert(t.last() == self.entries@[i as int]);
                    assert(piece@ =~= key_text(self.entries@[i as int].0@) + " = "@ + vt@);
                    if i > 0 {
                        assert(out@ =~= "["@ + (pairs_text(self.entries@.take(i as int)) + ", "@
                            + piece@));
                        assert(pairs_text(t) == pairs_text(t.drop_last()) + ", "@ + (key_text(
                            t.last().0@,
                        ) + " = "@ + render_value(t.last().1)));
                    } else {
                        assert(out@ =~= "["@ + piece@);
                        assert(pairs_text(t) == piece@);
                    }
                }
                i += 1;
            }
            proof {
                assert(self.entries@.take(n as int) =~= self.entries@);
            }
        }
        out.append("]");
        proof {
            if spec_array_like(self@) {
                assert(out@ =~= ("["@ + positions_text(self.entries@, self.size as nat))
                    + "]"@);
                assert(out@ =~= "["@ + positions_text(self.entries@, self.size as nat) + "]"@);
            } else {
                assert(out@ =~= ("["@ + pairs_text(self.entries@)) + "]"@);
                assert(out@ =~= "["@ + pairs_text(self.entries@) + "]"@);
            }
        }
        out
    }
}

impl Value {
    /// The text the interpreter shows for this value.
    pub fn render(&self) -> (r: String)
        requires
            self.valid(),
        ensures
            r@ == render_value(*self),
        decreases self,
    {
        match self {
            Value::Number(b) => crate::num::render_number(*b),
            Value::String(s) => s.clone(),
            Value::Bool(b) => if *b {
                String::from_str("true")
            } else {
                String::from_str("false")
            },
            Value::Nil => String::from_str("nil"),
            Value::Collection(c) => {
                let r = c.render_coll();
                proof {
                    assert(render_value(*self) == render_coll_text(*c));
                }
                r
            },
        }
    }
}

} // verus!

verus! {

/// The map a value list denotes under consecutive indices from 0.
pub open spec fn arr_map(s: Seq<Value>) -> Map<KeyView, ValueView>
    decreases s,
{
    if s.len() == 0 {
        Map::empty()
    } else {
        arr_map(s.drop_last()).insert(KeyView::Index((s.len() - 1) as nat), s.last()@)
    }
}

/// The map a pair list denotes under its string keys, a later pair
/// overriding an earlier one with the same key.
pub open spec fn obj_map(s: Seq<(String, Value)>) -> Map<KeyView, ValueView>
    decreases s,
{
    if s.len() == 0 {
        Map::empty()
    } else {
        obj_map(s.drop_last()).insert(KeyView::String(s.last().0@), s.last().1@)
    }
}

impl CValue {
    /// An array-like collection of the given values, in order.
    pub fn from_array(values: Vec<Value>) -> (r: CValue)
        requires
            forall|i: int| 0 <= i < values@.len() ==> #[trigger] values@[i].valid(),
        ensures
            r.valid(),
            r@.entries == arr_map(values@),
            r@.size == values@.len(),
    {
        let n = values.len();
        let mut c = CValue::new();
        let mut i: usize = 0;
        proof {
            assert(arr_map(values@.take(0)) =~= Map::<KeyView, ValueView>::empty());
        }
        while i < n
            invariant
                n == values@.len(),
                0 <= i <= n,
                c.valid(),
                c@.entries == arr_map(values@.take(i as int)),
                c@.size == i,
                forall|j: int| 0 <= j < n ==> #[trigger] values@[j].valid(),
            decreases n - i,
        {
            let v = values[i].duplicate();
            c.insert(CKey::Index(i), v);
            proof {
                assert(values@.take(i + 1).drop_last() =~= values@.take(i as int));
                assert(values@.take(i + 1).last() == values@[i as int]);
                assert(arr_map(values@.take(i + 1)) == arr_map(values@.take(i as int)).insert(
                    KeyView::Index(i as nat),
                    values@[i as int]@,
                ));
            }
            i += 1;
        }
        proof {
            assert(values@.take(n as int) =~= values@);
        }
        c
    }

    /// A map-like collection of the given string-keyed pairs.
    pub fn from_object(obj: Vec<(String, Value)>) -> (r: CValue)
        requires
            forall|i: int| 0 <= i < obj@.len() ==> #[trigger] obj@[i].1.valid(),
        ensures
            r.valid(),
            r@.entries == obj_map(obj@),
            r@.size == 0,
    {
        let n = obj.len();
        let mut c = CValue::new();
        let mut i: usize = 0;
        proof {
            assert(obj_map(obj@.take(0)) =~= Map::<KeyView, ValueView>::empty());
        }
        while i < n
            invariant
                n == obj@.len(),
                0 <= i <= n,
                c.valid(),
                c@.entries == obj_map(obj@.take(i as int)),
                c@.size == 0,
                forall|j: int| 0 <= j < n ==> #[trigger] obj@[j].1.valid(),
            decreases n - i,
        {
            let k = obj[i].0.clone();
            let v = obj[i].1.duplicate();
            c.insert(CKey::String(k), v);
            proof {
                assert(obj@.take(i + 1).drop_last() =~= obj@.take(i as int));
                assert(obj@.take(i + 1).last() == obj@[i as int]);
                assert(obj_map(obj@.take(i + 1)) == obj_map(obj@.take(i as int)).insert(
                    KeyView::String(obj@[i as int].0@),
                    obj@[i as int].1@,
                ));
            }
            i += 1;
        }
        proof {
            assert(obj@.take(n as int) =~= obj@);
        }
        c
    }
}

impl Value {
    /// A collection value of the given string-keyed pairs.
    pub fn from_pairs(pairs: Vec<(String, Value)>) -> (r: Value)
        requires
            forall|i: int| 0 <= i < pairs@.len() ==> #[trigger] pairs@[i].1.valid(),
        ensures
            r.valid(),
            r@ matches ValueView::Collection(c) && c.entries == obj_map(pairs@) && c.size == 0,
    {
        Value::Collection(CValue::from_object(pairs))
    }

    /// The held text of a string value; anything else is an error naming
    /// the value's kind.
    pub fn as_string(self) -> (r: Result<String, String>)
        ensures
            match r {
                Ok(t) => self@ == ValueView::String(t@),
                Err(m) => !(self@ is String) && m@ == spec_kind_name(self@)
                    + " is not a string"@,
            },
    {
        match self {
            Value::String(s) => Ok(s),
            other => {
                let t = other.kind_name();
                Err(String::from_str(t).concat(" is not a string"))
            },
        }
    }
}

} // verus!
