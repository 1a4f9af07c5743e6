use vstd::prelude::*;

use crate::error::HmmError;
use crate::frac::{cadd, cdiv, csum, csum_fits, rat_eq, rat_near_one, rat_one, rat_zero, Frac, Rat};
use crate::model::{Emitter, Model, Starter, Transor};

verus! {

/// A copyable key with decidable equality, usable by the sparse maps: the
/// executable comparison agrees with mathematical equality.
pub trait StateKey: Copy {
    fn same(&self, other: &Self) -> (r: bool)
        ensures
            r <==> *self == *other,
    ;
}

impl StateKey for usize {
    fn same(&self, other: &Self) -> (r: bool) {
        *self == *other
    }
}

impl StateKey for char {
    fn same(&self, other: &Self) -> (r: bool) {
        *self == *other
    }
}

/// No key is bound twice: what every constructor and mutator of the
/// sparse maps preserves, and what makes the enumeration of a table's
/// source keys a true state set.
pub open spec fn unique_keys<K, V>(s: Seq<(K, V)>) -> bool {
    forall|x: int, y: int| 0 <= x < y < s.len() ==> (#[trigger] s[x]).0 != (#[trigger] s[y]).0
}

/// The first value bound to `k`, scanning left to right.
pub open spec fn assoc_get<K, V>(s: Seq<(K, V)>, k: K) -> Option<V>
    decreases s.len(),
{
    if s.len() == 0 {
        None
    } else if s[0].0 == k {
        Some(s[0].1)
    } else {
        assoc_get(s.drop_first(), k)
    }
}

/// Bind `k` to `v`: replace its first binding, or append one.
pub open spec fn assoc_set<K, V>(s: Seq<(K, V)>, k: K, v: V) -> Seq<(K, V)>
    decreases s.len(),
{
    if s.len() == 0 {
        seq![(k, v)]
    } else if s[0].0 == k {
        s.update(0, (k, v))
    } else {
        seq![s[0]] + assoc_set(s.drop_first(), k, v)
    }
}

proof fn lemma_assoc_set_found<K, V>(s: Seq<(K, V)>, k: K, v: V, i: int)
    requires
        0 <= i < s.len(),
        s[i].0 == k,
        forall|x: int| 0 <= x < i ==> s[x].0 != k,
    ensures
        assoc_set(s, k, v) == s.update(i, (k, v)),
    decreases s.len(),
{
    if i == 0 {
    } else {
        lemma_assoc_set_found(s.drop_first(), k, v, i - 1);
        assert(s.drop_first().update(i - 1, (k, v)) =~= s.update(i, (k, v)).drop_first());
        assert(seq![s[0]] + s.drop_first().update(i - 1, (k, v)) =~= s.update(i, (k, v)));
    }
}

proof fn lemma_assoc_set_missing<K, V>(s: Seq<(K, V)>, k: K, v: V)
    requires
        forall|x: int| 0 <= x < s.len() ==> s[x].0 != k,
    ensures
        assoc_set(s, k, v) == s.push((k, v)),
    decreases s.len(),
{
    if s.len() == 0 {
        assert(seq![(k, v)] =~= s.push((k, v)));
    } else {
        lemma_assoc_set_missing(s.drop_first(), k, v);
        assert(seq![s[0]] + s.drop_first().push((k, v)) =~= s.push((k, v)));
    }
}

/// Binding an absent key appends it.
pub proof fn lemma_assoc_set_absent<K, V>(s: Seq<(K, V)>, k: K, v: V)
    requires
        assoc_get(s, k) is None,
    ensures
        assoc_set(s, k, v) == s.push((k, v)),
    decreases s.len(),
{
    if s.len() == 0 {
        assert(seq![(k, v)] =~= s.push((k, v)));
    } else {
        lemma_assoc_set_absent(s.drop_first(), k, v);
        assert(seq![s[0]] + s.drop_first().push((k, v)) =~= s.push((k, v)));
    }
}

/// A sparse map from keys to copyable values, kept in first-insertion
/// order. Lookups take the first binding of a key.
pub struct SparseMap<K: StateKey, V: Copy> {
    entries: Vec<(K, V)>,
}

impl<K: StateKey, V: Copy> View for SparseMap<K, V> {
    type V = Seq<(K, V)>;

    closed spec fn view(&self) -> Seq<(K, V)> {
        self.entries@
    }
}

impl<K: StateKey, V: Copy> SparseMap<K, V> {
    pub fn new() -> (r: SparseMap<K, V>)
        ensures
            r@ == Seq::<(K, V)>::empty(),
            unique_keys(r@),
    {
        SparseMap { entries: Vec::new() }
    }

    pub open spec fn spec_keys(&self) -> Seq<K> {
        self@.map_values(|e: (K, V)| e.0)
    }

    pub fn len(&self) -> (r: usize)
        ensures
            r == self@.len(),
    {
        self.entries.len()
    }

    pub fn get(&self, k: &K) -> (r: Option<V>)
        ensures
            r == assoc_get(self@, *k),
    {
        let n = self.entries.len();
        let mut i: usize = 0;
        assert(self@.skip(0) =~= self@);
        while i < n
            invariant
                0 <= i <= n,
                n == self@.len(),
                assoc_get(self@, *k) == assoc_get(self@.skip(i as int), *k),
            decreases n - i,
        {
            proof {
                assert(self@.skip(i as int)[0] == self@[i as int]);
                assert(self@.skip(i as int).drop_first() =~= self@.skip(i + 1));
            }
            if self.entries[i].0.same(k) {
                return Some(self.entries[i].1);
            }
            i = i + 1;
        }
        proof {
            assert(self@.skip(n as int) =~= Seq::<(K, V)>::empty());
        }
        None
    }

    pub fn insert(&mut self, k: K, v: V)
        ensures
            final(self)@ == assoc_set(old(self)@, k, v),
            unique_keys(old(self)@) ==> unique_keys(final(self)@),
    {
        let ghost s = self@;
        let n = self.entries.len();
        let mut i: usize = 0;
        while i < n
            invariant
                0 <= i <= n,
                n == self@.len(),
                s == self@,
                s == old(self)@,
                forall|x: int| 0 <= x < i ==> (#[trigger] self@[x]).0 != k,
            decreases n - i,
        {
            if self.entries[i].0.same(&k) {
                self.entries[i] = (k, v);
                proof {
                    lemma_assoc_set_found(s, k, v, i as int);
                }
                return ;
            }
            i = i + 1;
        }
        self.entries.push((k, v));
        proof {
            lemma_assoc_set_missing(s, k, v);
        }
    }

    /// The keys in first-insertion order.
    pub fn keys(&self) -> (r: Vec<K>)
        ensures
            r@ == self.spec_keys(),
    {
        let n = self.entries.len();
        let mut r: Vec<K> = Vec::new();
        let mut i: usize = 0;
        while i < n
            invariant
                0 <= i <= n,
                n == self@.len(),
                r@.len() == i,
                forall|x: int| 0 <= x < i ==> (#[trigger] r@[x]) == self@[x].0,
            decreases n - i,
        {
            let e = self.entries[i];
            r.push(e.0);
            i = i + 1;
        }
        proof {
            assert(r@ =~= self.spec_keys());
        }
        r
    }

    /// The entry at position `i`.
    pub fn entry_at(&self, i: usize) -> (r: (K, V))
        requires
            i < self@.len(),
        ensures
            r == self@[i as int],
    {
        self.entries[i]
    }

    /// Replace the entry at position `i`, keeping its key.
    fn set_value_at(&mut self, i: usize, v: V)
        requires
            i < old(self)@.len(),
        ensures
            final(self)@ == old(self)@.update(i as int, (old(self)@[i as int].0, v)),
    {
        let k = self.entries[i].0;
        self.entries[i] = (k, v);
    }
}

/// The bindings as key/rational-value pairs.
pub open spec fn rat_entries<K>(s: Seq<(K, Frac)>) -> Seq<(K, Rat)> {
    s.map_values(|e: (K, Frac)| (e.0, e.1@))
}

/// Add one to the first binding of `k`, or append a binding of one.
pub open spec fn bump_assoc<K>(s: Seq<(K, Rat)>, k: K) -> Seq<(K, Rat)>
    decreases s.len(),
{
    if s.len() == 0 {
        seq![(k, rat_one())]
    } else if s[0].0 == k {
        s.update(0, (k, cadd(s[0].1, rat_one())))
    } else {
        seq![s[0]] + bump_assoc(s.drop_first(), k)
    }
}

/// Whether adding one to the first binding of `k` stays within 64-bit form.
pub open spec fn bump_fits<K>(s: Seq<(K, Rat)>, k: K) -> bool {
    match assoc_get(s, k) {
        Some(v) => crate::frac::add_fits(v, rat_one()),
        None => true,
    }
}

proof fn lemma_bump_assoc<K>(s: Seq<(K, Rat)>, k: K, i: int)
    requires
        0 <= i < s.len(),
        s[i].0 == k,
        forall|x: int| 0 <= x < i ==> s[x].0 != k,
    ensures
        assoc_get(s, k) == Some(s[i].1),
        bump_assoc(s, k) == s.update(i, (k, cadd(s[i].1, rat_one()))),
    decreases s.len(),
{
    if i == 0 {
    } else {
        lemma_bump_assoc(s.drop_first(), k, i - 1);
        assert(s.drop_first().update(i - 1, (k, cadd(s[i].1, rat_one()))) =~= s.update(
            i,
            (k, cadd(s[i].1, rat_one())),
        ).drop_first());
        assert(seq![s[0]] + s.drop_first().update(i - 1, (k, cadd(s[i].1, rat_one()))) =~= s.update(
            i,
            (k, cadd(s[i].1, rat_one())),
        ));
    }
}

proof fn lemma_bump_assoc_missing<K>(s: Seq<(K, Rat)>, k: K)
    requires
        forall|x: int| 0 <= x < s.len() ==> s[x].0 != k,
    ensures
        assoc_get(s, k) is None,
        bump_assoc(s, k) == s.push((k, rat_one())),
    decreases s.len(),
{
    if s.len() == 0 {
        assert(seq![(k, rat_one())] =~= s.push((k, rat_one())));
    } else {
        lemma_bump_assoc_missing(s.drop_first(), k);
        assert(seq![s[0]] + s.drop_first().push((k, rat_one())) =~= s.push((k, rat_one())));
    }
}

impl<K: StateKey> SparseMap<K, Frac> {
    /// The map's contents as rational values.
    pub open spec fn rats(&self) -> Seq<(K, Rat)> {
        rat_entries(self@)
    }

    /// Add one to the count bound to `k` (zero when absent). Fails exactly
    /// when the grown count would not fit 64-bit form.
    pub fn bump(&mut self, k: K) -> (r: Result<(), HmmError>)
        ensures
            match r {
                Ok(()) => final(self).rats() == bump_assoc(old(self).rats(), k) && bump_fits(
                    old(self).rats(),
                    k,
                ) && (unique_keys(old(self)@) ==> unique_keys(final(self)@)),
                Err(e) => e == HmmError::Overflow && !bump_fits(old(self).rats(), k) && final(self)@
                    == old(self)@,
            },
    {
        let ghost s0 = self.rats();
        let n = self.entries.len();
        let mut i: usize = 0;
        while i < n
            invariant
                0 <= i <= n,
                n == self@.len(),
                s0 == self.rats(),
                self@ == old(self)@,
                forall|x: int| 0 <= x < i ==> (#[trigger] self@[x]).0 != k,
            decreases n - i,
        {
            if self.entries[i].0.same(&k) {
                let old_v = self.entries[i].1;
                proof {
                    assert(s0[i as int] == (k, old_v@));
                    assert(forall|x: int| 0 <= x < i ==> (#[trigger] s0[x]).0 != k);
                    lemma_bump_assoc(s0, k, i as int);
                }
                match old_v.try_add(Frac::one()) {
                    Ok(nv) => {
                        self.set_value_at(i, nv);
                        proof {
                            assert(self.rats() =~= bump_assoc(s0, k));
                        }
                        return Ok(());
                    },
                    Err(e) => {
                        return Err(e);
                    },
                }
            }
            i = i + 1;
        }
        proof {
            assert(forall|x: int| 0 <= x < s0.len() ==> (#[trigger] s0[x]).0 != k);
            lemma_bump_assoc_missing(s0, k);
        }
        self.entries.push((k, Frac::one()));
        proof {
            assert(self.rats() =~= bump_assoc(s0, k));
        }
        Ok(())
    }
}

/// A sparse two-level table: per source key, a sparse distribution over
/// target keys. Rows are kept in first-insertion order.
pub struct SparseTable<A: StateKey, B: StateKey> {
    rows: Vec<(A, SparseMap<B, Frac>)>,
}

/// The table's contents as nested key/rational-value rows.
pub open spec fn table_view<A: StateKey, B: StateKey>(
    rows: Seq<(A, SparseMap<B, Frac>)>,
) -> Seq<(A, Seq<(B, Rat)>)> {
    rows.map_values(|r: (A, SparseMap<B, Frac>)| (r.0, rat_entries(r.1@)))
}

impl<A: StateKey, B: StateKey> View for SparseTable<A, B> {
    type V = Seq<(A, Seq<(B, Rat)>)>;

    closed spec fn view(&self) -> Seq<(A, Seq<(B, Rat)>)> {
        table_view(self.rows@)
    }
}

impl<A: StateKey, B: StateKey> SparseTable<A, B> {
    pub fn new() -> (r: SparseTable<A, B>)
        ensures
            r@ == Seq::<(A, Seq<(B, Rat)>)>::empty(),
            unique_keys(r@),
    {
        let r = SparseTable::<A, B> { rows: Vec::new() };
        proof {
            assert(r@ =~= Seq::<(A, Seq<(B, Rat)>)>::empty());
        }
        r
    }

    pub open spec fn spec_keys(&self) -> Seq<A> {
        self@.map_values(|e: (A, Seq<(B, Rat)>)| e.0)
    }

    /// The row index of the first row bound to `a`, if any.
    fn find_row(&self, a: &A) -> (r: Option<usize>)
        ensures
            match r {
                Some(i) => i < self@.len() && self@[i as int].0 == *a && forall|x: int|
                    0 <= x < i ==> (#[trigger] self@[x]).0 != *a,
                None => forall|x: int| 0 <= x < self@.len() ==> (#[trigger] self@[x]).0 != *a,
            },
    {
        let n = self.rows.len();
        let mut i: usize = 0;
        while i < n
            invariant
                0 <= i <= n,
                n == self@.len(),
                self@.len() == self.rows@.len(),
                forall|x: int| 0 <= x < i ==> (#[trigger] self@[x]).0 != *a,
            decreases n - i,
        {
            if self.rows[i].0.same(a) {
                return Some(i);
            }
            i = i + 1;
        }
        None
    }
}

/// The row bound to `a`, or the empty row.
pub open spec fn row_of<A, B>(s: Seq<(A, Seq<(B, Rat)>)>, a: A) -> Seq<(B, Rat)> {
    match assoc_get(s, a) {
        Some(row) => row,
        None => Seq::empty(),
    }
}

/// Add one to cell `(a, b)` of a two-level table, creating the row or the
/// cell as needed.
pub open spec fn table_bump<A, B>(s: Seq<(A, Seq<(B, Rat)>)>, a: A, b: B) -> Seq<
    (A, Seq<(B, Rat)>),
> {
    assoc_set(s, a, bump_assoc(row_of(s, a), b))
}

/// Whether that increment stays within 64-bit form.
pub open spec fn table_bump_fits<A, B>(s: Seq<(A, Seq<(B, Rat)>)>, a: A, b: B) -> bool {
    bump_fits(row_of(s, a), b)
}

proof fn lemma_rat_entries_set<K>(s: Seq<(K, Frac)>, k: K, v: Frac)
    ensures
        rat_entries(assoc_set(s, k, v)) == assoc_set(rat_entries(s), k, v@),
    decreases s.len(),
{
    if s.len() == 0 {
        assert(rat_entries(assoc_set(s, k, v)) =~= assoc_set(rat_entries(s), k, v@));
    } else if s[0].0 == k {
        assert(rat_entries(assoc_set(s, k, v)) =~= assoc_set(rat_entries(s), k, v@));
    } else {
        lemma_rat_entries_set(s.drop_first(), k, v);
        assert(rat_entries(s).drop_first() =~= rat_entries(s.drop_first()));
        assert(rat_entries(assoc_set(s, k, v)) =~= assoc_set(rat_entries(s), k, v@));
    }
}

impl<A: StateKey, B: StateKey> SparseTable<A, B> {
    /// Add one to the count in cell `(a, b)`, creating the row or the cell
    /// as needed. Fails exactly when the grown count would not fit 64-bit
    /// form; the table is unchanged then.
    pub fn bump(&mut self, a: A, b: B) -> (r: Result<(), HmmError>)
        ensures
            match r {
                Ok(()) => final(self)@ == table_bump(old(self)@, a, b) && table_bump_fits(
                    old(self)@,
                    a,
                    b,
                ) && (unique_keys(old(self)@) ==> unique_keys(final(self)@)),
                Err(e) => e == HmmError::Overflow && !table_bump_fits(old(self)@, a, b)
                    && final(self)@ == old(self)@,
            },
    {
        let ghost s = self@;
        match self.find_row(&a) {
            Some(i) => {
                let (key, mut row) = self.rows.remove(i);
                proof {
                    assert(s[i as int].1 == row.rats());
                    assert(assoc_get(s, a) == Some(row.rats())) by {
                        lemma_assoc_found_get(s, a, i as int);
                    }
                }
                let rr = row.bump(b);
                match rr {
                    Ok(()) => {
                        self.rows.insert(i, (key, row));
                        proof {
                            lemma_assoc_set_found(s, a, bump_assoc(row_of(s, a), b), i as int);
                            assert(self@ =~~= table_bump(s, a, b));
                        }
                        Ok(())
                    },
                    Err(e) => {
                        self.rows.insert(i, (key, row));
                        proof {
                            assert(self@ =~~= s);
                        }
                        Err(e)
                    },
                }
            },
            None => {
                let mut row: SparseMap<B, Frac> = SparseMap::new();
                let rr = row.bump(b);
                proof {
                    lemma_bump_assoc_missing(Seq::<(B, Rat)>::empty(), b);
                }
                match rr {
                    Ok(()) => {},
                    Err(_) => {
                        proof {
                            assert(false);
                        }
                    },
                }
                self.rows.push((a, row));
                proof {
                    assert(assoc_get(s, a) is None) by {
                        lemma_assoc_missing_get(s, a);
                    }
                    lemma_assoc_set_missing(s, a, bump_assoc(row_of(s, a), b));
                    assert(self@ =~~= table_bump(s, a, b));
                }
                Ok(())
            },
        }
    }

    /// Force cell `(a, b)` to the probability `p`, creating the row or the
    /// cell as needed: the manual transition override.
    pub fn set(&mut self, a: A, b: B, p: Frac)
        ensures
            final(self)@ == assoc_set(old(self)@, a, assoc_set(row_of(old(self)@, a), b, p@)),
            unique_keys(old(self)@) ==> unique_keys(final(self)@),
    {
        let ghost s = self@;
        match self.find_row(&a) {
            Some(i) => {
                let (key, mut row) = self.rows.remove(i);
                proof {
                    assert(s[i as int].1 == row.rats());
                    assert(assoc_get(s, a) == Some(row.rats())) by {
                        lemma_assoc_found_get(s, a, i as int);
                    }
                }
                let ghost rowv = row@;
                row.insert(b, p);
                proof {
                    lemma_rat_entries_set(rowv, b, p);
                }
                self.rows.insert(i, (key, row));
                proof {
                    lemma_assoc_set_found(s, a, assoc_set(row_of(s, a), b, p@), i as int);
                    assert(self@ =~~= assoc_set(s, a, assoc_set(row_of(s, a), b, p@)));
                }
            },
            None => {
                let mut row: SparseMap<B, Frac> = SparseMap::new();
                row.insert(b, p);
                self.rows.push((a, row));
                proof {
                    assert(assoc_get(s, a) is None) by {
                        lemma_assoc_missing_get(s, a);
                    }
                    lemma_rat_entries_set(Seq::<(B, Frac)>::empty(), b, p);
                    lemma_assoc_set_missing(s, a, assoc_set(row_of(s, a), b, p@));
                    assert(self@ =~~= assoc_set(s, a, assoc_set(row_of(s, a), b, p@)));
                }
            },
        }
    }
}

proof fn lemma_assoc_found_get<K, V>(s: Seq<(K, V)>, k: K, i: int)
    requires
        0 <= i < s.len(),
        s[i].0 == k,
        forall|x: int| 0 <= x < i ==> s[x].0 != k,
    ensures
        assoc_get(s, k) == Some(s[i].1),
    decreases s.len(),
{
    if i > 0 {
        lemma_assoc_found_get(s.drop_first(), k, i - 1);
    }
}

proof fn lemma_assoc_missing_get<K, V>(s: Seq<(K, V)>, k: K)
    requires
        forall|x: int| 0 <= x < s.len() ==> s[x].0 != k,
    ensures
        assoc_get(s, k) is None,
    decreases s.len(),
{
    if s.len() > 0 {
        lemma_assoc_missing_get(s.drop_first(), k);
    }
}

proof fn lemma_rat_entries_get<K>(s: Seq<(K, Frac)>, k: K)
    ensures
        assoc_get(rat_entries(s), k) == match assoc_get(s, k) {
            Some(v) => Some(v@),
            None => None::<Rat>,
        },
    decreases s.len(),
{
    if s.len() > 0 && s[0].0 != k {
        lemma_rat_entries_get(s.drop_first(), k);
        assert(rat_entries(s).drop_first() =~= rat_entries(s.drop_first()));
    }
}

/// The sparse `Starter`: a state with no recorded count simply has start
/// probability zero; no query is an error.
impl<S: StateKey> Starter<S> for SparseMap<S, Frac> {
    open spec fn start_spec(&self, s: S) -> Option<Rat> {
        Some(
            match assoc_get(self.rats(), s) {
                Some(v) => v,
                None => rat_zero(),
            },
        )
    }

    open spec fn start_err(&self, s: S) -> HmmError {
        HmmError::UnknownState
    }

    fn startp(&self, s: S) -> (r: Result<Frac, HmmError>) {
        proof {
            lemma_rat_entries_get(self@, s);
        }
        match self.get(&s) {
            Some(p) => Ok(p),
            None => Ok(Frac::zero()),
        }
    }
}

/// The sparse `Emitter`: a known state with an unseen observation has
/// probability zero, while a wholly unknown state is a malformed query and
/// an error.
impl<A: StateKey, B: StateKey> Emitter<A, B> for SparseTable<A, B> {
    open spec fn emit_spec(&self, state: A, observation: B) -> Option<Rat> {
        match assoc_get(self@, state) {
            Some(row) => Some(
                match assoc_get(row, observation) {
                    Some(v) => v,
                    None => rat_zero(),
                },
            ),
            None => None,
        }
    }

    open spec fn emit_err(&self, state: A, observation: B) -> HmmError {
        HmmError::UnknownState
    }

    fn emitp(&self, state: A, observation: B) -> (r: Result<Frac, HmmError>) {
        match self.find_row(&state) {
            Some(i) => {
                proof {
                    lemma_assoc_found_get(self@, state, i as int);
                    assert(self@[i as int].1 == rat_entries(self.rows@[i as int].1@));
                    lemma_rat_entries_get(self.rows@[i as int].1@, observation);
                }
                match self.rows[i].1.get(&observation) {
                    Some(v) => Ok(v),
                    None => Ok(Frac::zero()),
                }
            },
            None => {
                proof {
                    lemma_assoc_missing_get(self@, state);
                }
                Err(HmmError::UnknownState)
            },
        }
    }
}

/// The sparse `Transor`: a known source state with an unseen target has
/// probability zero, while a wholly unknown source state is an error. The
/// state set is the list of source states in first-insertion order.
impl<A: StateKey> Transor<A> for SparseTable<A, A> {
    open spec fn trans_spec(&self, a: A, b: A) -> Option<Rat> {
        match assoc_get(self@, a) {
            Some(row) => Some(
                match assoc_get(row, b) {
                    Some(v) => v,
                    None => rat_zero(),
                },
            ),
            None => None,
        }
    }

    open spec fn states_spec(&self) -> Seq<A> {
        self.spec_keys()
    }

    open spec fn trans_err(&self, a: A, b: A) -> HmmError {
        HmmError::UnknownState
    }

    fn transp(&self, a: A, b: A) -> (r: Result<Frac, HmmError>) {
        match self.find_row(&a) {
            Some(i) => {
                proof {
                    lemma_assoc_found_get(self@, a, i as int);
                    assert(self@[i as int].1 == rat_entries(self.rows@[i as int].1@));
                    lemma_rat_entries_get(self.rows@[i as int].1@, b);
                }
                match self.rows[i].1.get(&b) {
                    Some(v) => Ok(v),
                    None => Ok(Frac::zero()),
                }
            },
            None => {
                proof {
                    lemma_assoc_missing_get(self@, a);
                }
                Err(HmmError::UnknownState)
            },
        }
    }

    fn states(&self) -> (r: Vec<A>) {
        let n = self.rows.len();
        let mut r: Vec<A> = Vec::new();
        let mut i: usize = 0;
        while i < n
            invariant
                0 <= i <= n,
                n == self.rows@.len(),
                self@.len() == self.rows@.len(),
                forall|x: int| 0 <= x < n ==> (#[trigger] self@[x]).0 == self.rows@[x].0,
                r@.len() == i,
                forall|x: int| 0 <= x < i ==> (#[trigger] r@[x]) == self@[x].0,
            decreases n - i,
        {
            let e = &self.rows[i];
            r.push(e.0);
            i = i + 1;
        }
        proof {
            assert(r@ =~= self.states_spec());
        }
        r
    }
}

/// The values of an association list, in order.
pub open spec fn values_of<K>(s: Seq<(K, Rat)>) -> Seq<Rat> {
    s.map_values(|e: (K, Rat)| e.1)
}

/// Normalize an association list of counts into a distribution: divide
/// every value by the total. An empty or all-zero list is left unchanged
/// (there is nothing to normalize).
pub open spec fn normalize_assoc<K>(s: Seq<(K, Rat)>) -> Seq<(K, Rat)> {
    let total = csum(values_of(s));
    if total.n == 0 {
        s
    } else {
        s.map_values(|e: (K, Rat)| (e.0, cdiv(e.1, total)))
    }
}

/// Whether normalizing stays within 64-bit form.
pub open spec fn normalize_fits<K>(s: Seq<(K, Rat)>) -> bool {
    let total = csum(values_of(s));
    csum_fits(values_of(s)) && (total.n == 0 || forall|i: int|
        0 <= i < s.len() ==> crate::frac::div_fits((#[trigger] s[i]).1, total))
}

/// Normalize every row of a two-level table independently.
pub open spec fn normalize_table<A, B>(s: Seq<(A, Seq<(B, Rat)>)>) -> Seq<(A, Seq<(B, Rat)>)> {
    s.map_values(|r: (A, Seq<(B, Rat)>)| (r.0, normalize_assoc(r.1)))
}

pub open spec fn normalize_table_fits<A, B>(s: Seq<(A, Seq<(B, Rat)>)>) -> bool {
    forall|i: int| 0 <= i < s.len() ==> normalize_fits((#[trigger] s[i]).1)
}

impl<K: StateKey> SparseMap<K, Frac> {
    /// Turn counts into a distribution: divide every value by the total.
    /// When every count is zero there is nothing to divide by and the map
    /// is left unchanged. Fails exactly when a sum or quotient leaves
    /// 64-bit form; the counts already divided stay divided then.
    pub fn stochast(&mut self) -> (r: Result<(), HmmError>)
        ensures
            match r {
                Ok(()) => final(self).rats() == normalize_assoc(old(self).rats()) && normalize_fits(
                    old(self).rats(),
                ) && final(self)@.len() == old(self)@.len() && (forall|x: int|
                    0 <= x < old(self)@.len() ==> (#[trigger] final(self)@[x]).0 == old(
                        self,
                    )@[x].0),
                Err(e) => e == HmmError::Overflow && !normalize_fits(old(self).rats()),
            },
    {
        let ghost s0 = self.rats();
        let n = self.entries.len();
        let mut vals: Vec<Frac> = Vec::new();
        let mut i: usize = 0;
        while i < n
            invariant
                0 <= i <= n,
                n == self@.len(),
                self@ == old(self)@,
                s0 == self.rats(),
                vals@.len() == i,
                forall|x: int| 0 <= x < i ==> (#[trigger] vals@[x]) == self@[x].1,
            decreases n - i,
        {
            let e = self.entries[i];
            vals.push(e.1);
            i = i + 1;
        }
        proof {
            assert(crate::frac::seq_rats(vals@) =~= values_of(s0));
        }
        let total = match crate::frac::sum_fracs(&vals) {
            Ok(t) => t,
            Err(e) => {
                return Err(e);
            },
        };
        if total.is_zero() {
            return Ok(());
        }
        proof {
            use_type_invariant(total);
        }
        let mut j: usize = 0;
        while j < n
            invariant
                0 <= j <= n,
                n == self@.len(),
                s0 == old(self).rats(),
                s0.len() == n,
                self@.len() == n,
                total@ == csum(values_of(s0)),
                total@.n > 0,
                total.wf(),
                csum_fits(values_of(s0)),
                forall|x: int|
                    0 <= x < j ==> (#[trigger] self.rats()[x]) == (s0[x].0, cdiv(s0[x].1, total@))
                        && crate::frac::div_fits(s0[x].1, total@),
                forall|x: int| j <= x < n ==> (#[trigger] self.rats()[x]) == s0[x],
            decreases n - j,
        {
            let e = self.entries[j];
            proof {
                assert(self.rats()[j as int] == s0[j as int]);
                assert(e.1@ == s0[j as int].1);
            }
            let nv = match e.1.try_div(total) {
                Ok(v) => v,
                Err(er) => {
                    proof {
                        assert(!crate::frac::div_fits(s0[j as int].1, csum(values_of(s0))));
                        assert(!normalize_fits(s0));
                    }
                    return Err(er);
                },
            };
            let ghost before_r = self.rats();
            self.set_value_at(j, nv);
            proof {
                assert(self.rats() =~= before_r.update(j as int, (s0[j as int].0, nv@)));
            }
            j = j + 1;
        }
        proof {
            assert forall|x: int| 0 <= x < s0.len() implies crate::frac::div_fits(
                (#[trigger] s0[x]).1,
                csum(values_of(s0)),
            ) by {
                assert(self.rats()[x] == (s0[x].0, cdiv(s0[x].1, total@)));
            }
            assert(self.rats() =~= normalize_assoc(s0));
            assert forall|x: int| 0 <= x < old(self)@.len() implies (#[trigger] self@[x]).0 == old(
                self,
            )@[x].0 by {
                assert(self.rats()[x] == (s0[x].0, cdiv(s0[x].1, total@)));
                assert(self.rats()[x].0 == self@[x].0);
                assert(s0[x].0 == old(self)@[x].0);
            }
        }
        Ok(())
    }
}

impl<A: StateKey, B: StateKey> SparseTable<A, B> {
    /// Normalize every row independently into a distribution over targets.
    pub fn stochast(&mut self) -> (r: Result<(), HmmError>)
        ensures
            match r {
                Ok(()) => final(self)@ == normalize_table(old(self)@) && normalize_table_fits(
                    old(self)@,
                ) && final(self)@.len() == old(self)@.len() && (forall|x: int|
                    0 <= x < old(self)@.len() ==> (#[trigger] final(self)@[x]).0 == old(
                        self,
                    )@[x].0),
                Err(e) => e == HmmError::Overflow && !normalize_table_fits(old(self)@),
            },
    {
        let ghost s0 = self@;
        let n = self.rows.len();
        let mut i: usize = 0;
        while i < n
            invariant
                0 <= i <= n,
                n == self.rows@.len(),
                self.rows@.len() == s0.len(),
                s0 == old(self)@,
                self@.len() == s0.len(),
                forall|x: int|
                    0 <= x < i ==> (#[trigger] self@[x]) == (s0[x].0, normalize_assoc(s0[x].1))
                        && normalize_fits(s0[x].1),
                forall|x: int| i <= x < s0.len() ==> (#[trigger] self@[x]) == s0[x],
            decreases n - i,
        {
            let ghost pre = self@;
            proof {
                assert(pre[i as int] == s0[i as int]);
            }
            let (key, mut row) = self.rows.remove(i);
            proof {
                assert(row.rats() == pre[i as int].1);
            }
            let rr = row.stochast();
            match rr {
                Ok(()) => {},
                Err(e) => {
                    proof {
                        assert(!normalize_fits(s0[i as int].1));
                    }
                    return Err(e);
                },
            }
            self.rows.insert(i, (key, row));
            proof {
                assert(self@ =~~= pre.update(
                    i as int,
                    (s0[i as int].0, normalize_assoc(s0[i as int].1)),
                ));
            }
            i = i + 1;
        }
        proof {
            assert forall|x: int| 0 <= x < s0.len() implies normalize_fits(
                (#[trigger] s0[x]).1,
            ) by {
                assert(self@[x] == (s0[x].0, normalize_assoc(s0[x].1)));
            }
            assert(self@ =~~= normalize_table(s0));
        }
        Ok(())
    }
}

/// The emission counts after observing the first `t` points of a path.
pub open spec fn emit_path<S, O>(ev: Seq<(S, Seq<(O, Rat)>)>, points: Seq<(S, O)>, t: int) -> Seq<
    (S, Seq<(O, Rat)>),
>
    decreases t,
{
    if t <= 0 {
        ev
    } else {
        table_bump(emit_path(ev, points, t - 1), points[t - 1].0, points[t - 1].1)
    }
}

pub open spec fn emit_path_fits<S, O>(
    ev: Seq<(S, Seq<(O, Rat)>)>,
    points: Seq<(S, O)>,
    t: int,
) -> bool
    decreases t,
{
    if t <= 0 {
        true
    } else {
        emit_path_fits(ev, points, t - 1) && table_bump_fits(
            emit_path(ev, points, t - 1),
            points[t - 1].0,
            points[t - 1].1,
        )
    }
}

/// The transition counts after observing the first `t` points of a path:
/// one count per adjacent pair.
pub open spec fn trans_path<S, O>(tv: Seq<(S, Seq<(S, Rat)>)>, points: Seq<(S, O)>, t: int) -> Seq<
    (S, Seq<(S, Rat)>),
>
    decreases t,
{
    if t <= 1 {
        tv
    } else {
        table_bump(trans_path(tv, points, t - 1), points[t - 2].0, points[t - 1].0)
    }
}

pub open spec fn trans_path_fits<S, O>(
    tv: Seq<(S, Seq<(S, Rat)>)>,
    points: Seq<(S, O)>,
    t: int,
) -> bool
    decreases t,
{
    if t <= 1 {
        true
    } else {
        trans_path_fits(tv, points, t - 1) && table_bump_fits(
            trans_path(tv, points, t - 1),
            points[t - 2].0,
            points[t - 1].0,
        )
    }
}

/// The supervised discrete trainer: accumulates start, emission and
/// transition counts from labeled paths, then normalizes them into
/// distributions.
pub struct Discrete<S: StateKey, O: StateKey> {
    pub start: SparseMap<S, Frac>,
    pub emit: SparseTable<S, O>,
    pub trans: SparseTable<S, S>,
}

impl<S: StateKey, O: StateKey> Discrete<S, O> {
    pub fn new() -> (r: Discrete<S, O>)
        ensures
            r.start.rats() == Seq::<(S, Rat)>::empty(),
            r.emit@ == Seq::<(S, Seq<(O, Rat)>)>::empty(),
            r.trans@ == Seq::<(S, Seq<(S, Rat)>)>::empty(),
    {
        let r = Discrete { start: SparseMap::new(), emit: SparseTable::new(), trans: SparseTable::new() };
        proof {
            assert(r.start.rats() =~= Seq::<(S, Rat)>::empty());
        }
        r
    }

    /// Record one labeled path: one start count for its first state, one
    /// emission count per point, and one transition count per adjacent
    /// pair. Paths are never treated as connected to each other. On
    /// overflow the counts already recorded stay in place.
    pub fn observe_state_path(&mut self, points: &Vec<(S, O)>) -> (r: Result<(), HmmError>)
        requires
            points@.len() >= 1,
        ensures
            match r {
                Ok(()) => final(self).start.rats() == bump_assoc(
                    old(self).start.rats(),
                    points@[0].0,
                ) && final(self).emit@ == emit_path(old(self).emit@, points@, points@.len() as int)
                    && final(self).trans@ == trans_path(
                    old(self).trans@,
                    points@,
                    points@.len() as int,
                ) && bump_fits(old(self).start.rats(), points@[0].0) && emit_path_fits(
                    old(self).emit@,
                    points@,
                    points@.len() as int,
                ) && trans_path_fits(old(self).trans@, points@, points@.len() as int),
                Err(e) => e == HmmError::Overflow && !(bump_fits(
                    old(self).start.rats(),
                    points@[0].0,
                ) && emit_path_fits(old(self).emit@, points@, points@.len() as int)
                    && trans_path_fits(old(self).trans@, points@, points@.len() as int)),
            },
    {
        let ghost s_start = self.start.rats();
        let ghost s_emit = self.emit@;
        let ghost s_trans = self.trans@;
        let ghost pts = points@;
        let n = points.len();
        let first = points[0].0;
        match self.start.bump(first) {
            Ok(()) => {},
            Err(e) => {
                return Err(e);
            },
        }
        let mut t: usize = 0;
        while t < n
            invariant
                0 <= t <= n,
                n == pts.len(),
                n >= 1,
                pts == points@,
                self.start.rats() == bump_assoc(s_start, pts[0].0),
                bump_fits(s_start, pts[0].0),
                self.emit@ == emit_path(s_emit, pts, t as int),
                emit_path_fits(s_emit, pts, t as int),
                self.trans@ == trans_path(s_trans, pts, t as int),
                trans_path_fits(s_trans, pts, t as int),
                s_start == old(self).start.rats(),
                s_emit == old(self).emit@,
                s_trans == old(self).trans@,
            decreases n - t,
        {
            let (state, obs) = points[t];
            match self.emit.bump(state, obs) {
                Ok(()) => {},
                Err(e) => {
                    proof {
                        if emit_path_fits(s_emit, pts, n as int) {
                            lemma_emit_path_fits_prefix(s_emit, pts, t as int, n as int);
                        }
                    }
                    return Err(e);
                },
            }
            if t >= 1 {
                let prev = points[t - 1].0;
                match self.trans.bump(prev, state) {
                    Ok(()) => {},
                    Err(e) => {
                        proof {
                            if trans_path_fits(s_trans, pts, n as int) {
                                lemma_trans_path_fits_prefix(s_trans, pts, t + 1, n as int);
                            }
                        }
                        return Err(e);
                    },
                }
            }
            t = t + 1;
        }
        Ok(())
    }

    /// Normalize all three count tables into distributions. On overflow the
    /// tables already normalized stay normalized.
    pub fn stochast(&mut self) -> (r: Result<(), HmmError>)
        ensures
            match r {
                Ok(()) => final(self).start.rats() == normalize_assoc(old(self).start.rats())
                    && final(self).emit@ == normalize_table(old(self).emit@) && final(self).trans@
                    == normalize_table(old(self).trans@) && normalize_fits(old(self).start.rats())
                    && normalize_table_fits(old(self).emit@) && normalize_table_fits(
                    old(self).trans@,
                ),
                Err(e) => e == HmmError::Overflow && !(normalize_fits(old(self).start.rats())
                    && normalize_table_fits(old(self).emit@) && normalize_table_fits(
                    old(self).trans@,
                )),
            },
    {
        match self.start.stochast() {
            Ok(()) => {},
            Err(e) => {
                return Err(e);
            },
        }
        match self.emit.stochast() {
            Ok(()) => {},
            Err(e) => {
                return Err(e);
            },
        }
        match self.trans.stochast() {
            Ok(()) => {},
            Err(e) => {
                return Err(e);
            },
        }
        Ok(())
    }

    /// Compose the trained distributions into a validated model.
    pub fn model(self) -> (r: Result<
        Model<S, O, SparseMap<S, Frac>, SparseTable<S, O>, SparseTable<S, S>>,
        HmmError,
    >)
        ensures
            r is Ok <==> crate::model::from_ok(self.start, self.trans, crate::frac::spec_tolerance()),
            match r {
                Ok(m) => m.start == self.start && m.emitter == self.emit && m.trans == self.trans
                    && crate::model::stochastic_model(m, crate::frac::spec_tolerance()),
                Err(_) => true,
            },
    {
        Model::from(self.start, self.emit, self.trans)
    }
}

proof fn lemma_emit_path_fits_prefix<S, O>(
    ev: Seq<(S, Seq<(O, Rat)>)>,
    points: Seq<(S, O)>,
    t: int,
    full: int,
)
    requires
        emit_path_fits(ev, points, full),
        0 <= t < full,
    ensures
        table_bump_fits(emit_path(ev, points, t), points[t].0, points[t].1),
    decreases full,
{
    if t < full - 1 {
        lemma_emit_path_fits_prefix(ev, points, t, full - 1);
    }
}

proof fn lemma_trans_path_fits_prefix<S, O>(
    tv: Seq<(S, Seq<(S, Rat)>)>,
    points: Seq<(S, O)>,
    t: int,
    full: int,
)
    requires
        trans_path_fits(tv, points, full),
        2 <= t <= full,
    ensures
        table_bump_fits(trans_path(tv, points, t - 1), points[t - 2].0, points[t - 1].0),
    decreases full,
{
    if t < full {
        lemma_trans_path_fits_prefix(tv, points, t, full - 1);
    }
}

proof fn lemma_div_sum(vs: Seq<Rat>, t: Rat)
    requires
        crate::frac::all_wf(vs),
        crate::frac::rat_wf(t),
        t.n > 0,
    ensures
        crate::frac::all_wf(vs.map_values(|v: Rat| cdiv(v, t))),
        crate::frac::rat_wf(crate::frac::rsum(vs)),
        rat_eq(
            crate::frac::rsum(vs.map_values(|v: Rat| cdiv(v, t))),
            crate::frac::rat_div(crate::frac::rsum(vs), t),
        ),
    decreases vs.len(),
{
    let m = vs.map_values(|v: Rat| cdiv(v, t));
    assert forall|x: int| 0 <= x < m.len() implies crate::frac::rat_wf(#[trigger] m[x]) by {
        crate::frac::lemma_cdiv(vs[x], t);
    }
    if vs.len() == 0 {
        let z = crate::frac::rat_zero();
        let d0 = crate::frac::rat_div(z, t);
        assert(z.n * d0.d == d0.n * z.d) by (nonlinear_arith)
            requires
                z.n == 0,
                z.d == 1,
                d0.n == 0 * t.d,
                d0.d == 1 * t.n,
        ;
        assert(crate::frac::rsum(m) == z);
        assert(crate::frac::rsum(vs) == z);
    } else {
        let vdl = vs.drop_last();
        lemma_div_sum(vdl, t);
        assert(m.drop_last() =~= vdl.map_values(|v: Rat| cdiv(v, t)));
        let sdl = crate::frac::rsum(vdl);
        let last = vs.last();
        crate::frac::lemma_cdiv(last, t);
        crate::frac::lemma_csum_value(m.drop_last());
        crate::frac::lemma_div_add(sdl, last, t);
        crate::frac::lemma_radd_cong(
            crate::frac::rsum(m.drop_last()),
            crate::frac::rat_div(sdl, t),
            m.last(),
            crate::frac::rat_div(last, t),
        );
        assert(crate::frac::rsum(m) == crate::frac::rat_add(
            crate::frac::rsum(m.drop_last()),
            m.last(),
        ));
        assert(crate::frac::rsum(vs) == crate::frac::rat_add(sdl, last));
        vstd::arithmetic::mul::lemma_mul_strictly_positive(crate::frac::rsum(vs).d, t.n);
        vstd::arithmetic::mul::lemma_mul_nonnegative(crate::frac::rsum(vs).n, t.d);
        crate::frac::lemma_rat_eq_trans(
            crate::frac::rsum(m),
            crate::frac::rat_add(crate::frac::rat_div(sdl, t), crate::frac::rat_div(last, t)),
            crate::frac::rat_div(crate::frac::rsum(vs), t),
        );
    }
}

/// Law: a normalized count row is exactly stochastic. Whenever the counts
/// are well formed and their total is positive — as after any supervised
/// training — the values of the normalized row sum to exactly one, and so
/// lie within every tolerance of one.
pub proof fn lemma_normalize_sums_to_one<K>(s: Seq<(K, Rat)>)
    requires
        crate::frac::all_wf(values_of(s)),
        csum(values_of(s)).n > 0,
    ensures
        rat_eq(csum(values_of(normalize_assoc(s))), crate::frac::rat_one()),
        rat_near_one(csum(values_of(normalize_assoc(s))), crate::frac::spec_tolerance()),
{
    let vs = values_of(s);
    let total = csum(vs);
    crate::frac::lemma_csum_value(vs);
    let m = vs.map_values(|v: Rat| cdiv(v, total));
    assert(values_of(normalize_assoc(s)) =~= m);
    lemma_div_sum(vs, total);
    crate::frac::lemma_csum_value(m);
    let dv = crate::frac::rat_div(crate::frac::rsum(vs), total);
    assert(crate::frac::rat_wf(dv)) by {
        vstd::arithmetic::mul::lemma_mul_strictly_positive(crate::frac::rsum(vs).d, total.n);
        vstd::arithmetic::mul::lemma_mul_nonnegative(crate::frac::rsum(vs).n, total.d);
    }
    assert(rat_eq(dv, crate::frac::rat_one())) by {
        assert(dv.n * 1 == 1 * dv.d) by (nonlinear_arith)
            requires
                dv.n == crate::frac::rsum(vs).n * total.d,
                dv.d == crate::frac::rsum(vs).d * total.n,
                total.n * crate::frac::rsum(vs).d == crate::frac::rsum(vs).n * total.d,
        ;
    }
    crate::frac::lemma_rat_eq_trans(csum(m), crate::frac::rsum(m), dv);
    crate::frac::lemma_rat_eq_trans(csum(m), dv, crate::frac::rat_one());
    crate::frac::lemma_eq_one_near_one(csum(m), crate::frac::spec_tolerance());
}

/// Law, lifted to whole tables: after normalization, every row whose
/// counts were well formed with a positive total sums to exactly one —
/// the re-estimated transition and emission rows are row stochastic.
pub proof fn lemma_normalize_table_row_sums_to_one<A, B>(s: Seq<(A, Seq<(B, Rat)>)>, i: int)
    requires
        0 <= i < s.len(),
        crate::frac::all_wf(values_of(s[i].1)),
        csum(values_of(s[i].1)).n > 0,
    ensures
        rat_eq(
            csum(values_of(normalize_table(s)[i].1)),
            crate::frac::rat_one(),
        ),
        rat_near_one(
            csum(values_of(normalize_table(s)[i].1)),
            crate::frac::spec_tolerance(),
        ),
{
    assert(normalize_table(s)[i].1 == normalize_assoc(s[i].1));
    lemma_normalize_sums_to_one(s[i].1);
}

/// The labeled paths as sequences.
pub open spec fn paths_view<S, O>(p: Seq<Vec<(S, O)>>) -> Seq<Seq<(S, O)>> {
    p.map_values(|v: Vec<(S, O)>| v@)
}

/// Start counts accumulated over the first `i` paths.
pub open spec fn start_counts<S, O>(paths: Seq<Seq<(S, O)>>, i: int) -> Seq<(S, Rat)>
    decreases i,
{
    if i <= 0 {
        Seq::empty()
    } else {
        bump_assoc(start_counts(paths, i - 1), paths[i - 1][0].0)
    }
}

/// Emission counts accumulated over the first `i` paths.
pub open spec fn emit_counts<S, O>(paths: Seq<Seq<(S, O)>>, i: int) -> Seq<(S, Seq<(O, Rat)>)>
    decreases i,
{
    if i <= 0 {
        Seq::empty()
    } else {
        emit_path(emit_counts(paths, i - 1), paths[i - 1], paths[i - 1].len() as int)
    }
}

/// Transition counts accumulated over the first `i` paths.
pub open spec fn trans_counts<S, O>(paths: Seq<Seq<(S, O)>>, i: int) -> Seq<(S, Seq<(S, Rat)>)>
    decreases i,
{
    if i <= 0 {
        Seq::empty()
    } else {
        trans_path(trans_counts(paths, i - 1), paths[i - 1], paths[i - 1].len() as int)
    }
}

/// Whether all counting over the first `i` paths stays within 64-bit form.
pub open spec fn counts_fit<S, O>(paths: Seq<Seq<(S, O)>>, i: int) -> bool
    decreases i,
{
    if i <= 0 {
        true
    } else {
        counts_fit(paths, i - 1) && bump_fits(start_counts(paths, i - 1), paths[i - 1][0].0)
            && emit_path_fits(emit_counts(paths, i - 1), paths[i - 1], paths[i - 1].len() as int)
            && trans_path_fits(trans_counts(paths, i - 1), paths[i - 1], paths[i - 1].len() as int)
    }
}

/// The manual transition overrides as rational values.
pub open spec fn tunings_view<S>(ts: Seq<((S, S), Frac)>) -> Seq<((S, S), Rat)> {
    ts.map_values(|e: ((S, S), Frac)| (e.0, e.1@))
}

/// The transition table after the first `j` overrides are forced in.
pub open spec fn apply_tunings<S>(
    tv: Seq<(S, Seq<(S, Rat)>)>,
    ts: Seq<((S, S), Rat)>,
    j: int,
) -> Seq<(S, Seq<(S, Rat)>)>
    decreases j,
{
    if j <= 0 {
        tv
    } else {
        let prev = apply_tunings(tv, ts, j - 1);
        let a = ts[j - 1].0.0;
        let b = ts[j - 1].0.1;
        assoc_set(prev, a, assoc_set(row_of(prev, a), b, ts[j - 1].1))
    }
}

/// The value bound to `k`, or zero.
pub open spec fn assoc_or_zero<K>(s: Seq<(K, Rat)>, k: K) -> Rat {
    match assoc_get(s, k) {
        Some(v) => v,
        None => rat_zero(),
    }
}

/// What `Model::from` checks, read off the sparse distributions' contents:
/// more than one source state, and the start row and every transition row
/// summing to one within `tol` over the enumerated states.
pub open spec fn sparse_from_ok<S>(
    ns: Seq<(S, Rat)>,
    nt: Seq<(S, Seq<(S, Rat)>)>,
    tol: Rat,
) -> bool {
    let states = nt.map_values(|e: (S, Seq<(S, Rat)>)| e.0);
    let srow = Seq::new(states.len(), |i: int| assoc_or_zero(ns, states[i]));
    &&& states.len() > 1
    &&& csum_fits(srow)
    &&& rat_near_one(csum(srow), tol)
    &&& forall|a: int|
        0 <= a < states.len() ==> {
            let row = Seq::new(
                states.len(),
                |j: int| assoc_or_zero(row_of(nt, #[trigger] states[a]), states[j]),
            );
            csum_fits(row) && rat_near_one(csum(row), tol)
        }
}

proof fn lemma_assoc_self_key<K, V>(s: Seq<(K, V)>, i: int)
    requires
        0 <= i < s.len(),
    ensures
        assoc_get(s, s[i].0) is Some,
    decreases i,
{
    if s[0].0 == s[i].0 {
    } else {
        lemma_assoc_self_key(s.drop_first(), i - 1);
    }
}

proof fn lemma_counts_fit_prefix<S, O>(paths: Seq<Seq<(S, O)>>, i: int, full: int)
    requires
        counts_fit(paths, full),
        0 <= i < full,
    ensures
        bump_fits(start_counts(paths, i), paths[i][0].0),
        emit_path_fits(emit_counts(paths, i), paths[i], paths[i].len() as int),
        trans_path_fits(trans_counts(paths, i), paths[i], paths[i].len() as int),
    decreases full,
{
    if i < full - 1 {
        lemma_counts_fit_prefix(paths, i, full - 1);
    }
}

/// Supervised training over a collection of labeled paths, with optional
/// manual transition-probability overrides forced in after normalization.
/// Counts every path's start state, every visited (state, observation)
/// pair and every adjacent state pair, normalizes the counts into
/// distributions, and composes them into a validated sparse model.
pub fn discrete<S: StateKey, O: StateKey>(
    paths: &Vec<Vec<(S, O)>>,
    trans_tunings: Option<Vec<((S, S), Frac)>>,
) -> (r: Result<Model<S, O, SparseMap<S, Frac>, SparseTable<S, O>, SparseTable<S, S>>, HmmError>)
    requires
        forall|p: int| 0 <= p < paths@.len() ==> (#[trigger] paths@[p])@.len() >= 1,
    ensures
        ({
            let pv = paths_view(paths@);
            let np = pv.len() as int;
            let cs = start_counts(pv, np);
            let ce = emit_counts(pv, np);
            let ct = trans_counts(pv, np);
            let ns = normalize_assoc(cs);
            let ne = normalize_table(ce);
            let tv = match trans_tunings {
                Some(ts) => tunings_view(ts@),
                None => Seq::empty(),
            };
            let nt = apply_tunings(normalize_table(ct), tv, tv.len() as int);
            &&& (r is Ok <==> counts_fit(pv, np) && normalize_fits(cs) && normalize_table_fits(ce)
                && normalize_table_fits(ct) && sparse_from_ok(ns, nt, crate::frac::spec_tolerance()))
            &&& match r {
                Ok(m) => m.start.rats() == ns && m.emitter@ == ne && m.trans@ == nt
                    && crate::model::stochastic_model(m, crate::frac::spec_tolerance()),
                Err(_) => true,
            }
        }),
{
    let ghost pv = paths_view(paths@);
    let ghost np = pv.len() as int;
    let mut train: Discrete<S, O> = Discrete::new();
    let n = paths.len();
    let mut p: usize = 0;
    while p < n
        invariant
            0 <= p <= n,
            n == paths@.len(),
            pv == paths_view(paths@),
            forall|x: int| 0 <= x < paths@.len() ==> (#[trigger] paths@[x])@.len() >= 1,
            train.start.rats() == start_counts(pv, p as int),
            train.emit@ == emit_counts(pv, p as int),
            train.trans@ == trans_counts(pv, p as int),
            counts_fit(pv, p as int),
        decreases n - p,
    {
        proof {
            assert(pv[p as int] == paths@[p as int]@);
        }
        match train.observe_state_path(&paths[p]) {
            Ok(()) => {},
            Err(e) => {
                proof {
                    if counts_fit(pv, pv.len() as int) {
                        lemma_counts_fit_prefix(pv, p as int, pv.len() as int);
                    }
                }
                return Err(e);
            },
        }
        p = p + 1;
    }
    match train.stochast() {
        Ok(()) => {},
        Err(e) => {
            return Err(e);
        },
    }
    let ghost nt0 = normalize_table(trans_counts(pv, np));
    let ghost ns = normalize_assoc(start_counts(pv, np));
    let ghost ne = normalize_table(emit_counts(pv, np));
    let ghost tv = match trans_tunings {
        Some(ref ts) => tunings_view(ts@),
        None => Seq::<((S, S), Rat)>::empty(),
    };
    match trans_tunings {
        Some(ts) => {
            let tn = ts.len();
            let mut j: usize = 0;
            while j < tn
                invariant
                    0 <= j <= tn,
                    tn == ts@.len(),
                    tv == tunings_view(ts@),
                    train.start.rats() == ns,
                    train.emit@ == ne,
                    train.trans@ == apply_tunings(nt0, tv, j as int),
                decreases tn - j,
            {
                let ((a, b), pr) = ts[j];
                train.trans.set(a, b, pr);
                j = j + 1;
            }
        },
        None => {},
    }
    let ghost nt = apply_tunings(nt0, tv, tv.len() as int);
    proof {
        assert(train.start.rats() == ns);
        assert(train.trans@ == nt);
        lemma_sparse_from_ok(train.start, train.trans, ns, nt);
    }
    train.model()
}

/// For the sparse distributions, `Model::from`'s acceptance condition is
/// exactly `sparse_from_ok` of their contents.
proof fn lemma_sparse_from_ok<S: StateKey>(
    start: SparseMap<S, Frac>,
    trans: SparseTable<S, S>,
    ns: Seq<(S, Rat)>,
    nt: Seq<(S, Seq<(S, Rat)>)>,
)
    requires
        start.rats() == ns,
        trans@ == nt,
    ensures
        crate::model::from_ok(start, trans, crate::frac::spec_tolerance()) == sparse_from_ok(
            ns,
            nt,
            crate::frac::spec_tolerance(),
        ),
{
    let tol = crate::frac::spec_tolerance();
    let states = trans.states_spec();
    assert(states =~= nt.map_values(|e: (S, Seq<(S, Rat)>)| e.0));
    let srow = Seq::new(states.len(), |i: int| assoc_or_zero(ns, states[i]));
    assert(crate::model::starts_known(start, states));
    assert(crate::model::start_row_rats(start, states) =~= srow);
    assert forall|a: int, j: int|
        0 <= a < states.len() && 0 <= j < states.len() implies (#[trigger] trans.trans_spec(
        states[a],
        states[j],
    )) is Some by {
        lemma_assoc_self_key(nt, a);
    }
    if states.len() > 1 {
        assert forall|a: int| 0 <= a < states.len() implies crate::model::trans_row_rats(
            trans,
            states,
            a,
        ) =~= Seq::new(
            states.len(),
            |j: int| assoc_or_zero(row_of(nt, states[a]), states[j]),
        ) by {
            lemma_assoc_self_key(nt, a);
        }
        if crate::model::from_ok(start, trans, tol) {
            assert forall|a: int| 0 <= a < states.len() implies {
                let row = Seq::new(
                    states.len(),
                    |j: int| assoc_or_zero(row_of(nt, #[trigger] states[a]), states[j]),
                );
                csum_fits(row) && rat_near_one(csum(row), tol)
            } by {
                assert(crate::model::trans_row_rats(trans, states, a) == Seq::new(
                    states.len(),
                    |j: int| assoc_or_zero(row_of(nt, states[a]), states[j]),
                ));
            }
        }
        if sparse_from_ok(ns, nt, tol) {
            assert forall|a: int|
                0 <= a < states.len() implies csum_fits(#[trigger] crate::model::trans_row_rats(
                trans,
                states,
                a,
            )) && rat_near_one(csum(crate::model::trans_row_rats(trans, states, a)), tol) by {
                assert(Seq::new(
                    states.len(),
                    |j: int| assoc_or_zero(row_of(nt, states[a]), states[j]),
                ) == crate::model::trans_row_rats(trans, states, a));
            }
        }
    }
}

} // verus!
