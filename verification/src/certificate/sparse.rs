//! Sparse prime-field columns held as entries in ascending key order.

use vstd::arithmetic::div_mod::*;
use vstd::prelude::*;

verus! {

/// Coefficient stored for `key` in a sparse column, or zero when absent.
pub open spec fn lookup(s: Seq<(usize, u64)>, key: usize) -> nat
    decreases s.len(),
{
    if s.len() == 0 {
        0
    } else if s.last().0 == key {
        s.last().1 as nat
    } else {
        lookup(s.drop_last(), key)
    }
}

/// Keys strictly increase along the entries.
pub open spec fn sorted_keys(s: Seq<(usize, u64)>) -> bool {
    forall|i: int, j: int| 0 <= i < j < s.len() ==> s[i].0 < s[j].0
}

/// Every stored coefficient is a nonzero residue modulo `p`.
pub open spec fn nonzero_below(s: Seq<(usize, u64)>, p: nat) -> bool {
    forall|i: int| 0 <= i < s.len() ==> 0 < #[trigger] s[i].1 < p
}

/// Canonical sparse column over the field of `p` elements.
pub open spec fn wf_column(s: Seq<(usize, u64)>, p: nat) -> bool {
    sorted_keys(s) && nonzero_below(s, p)
}

/// Key of the last nonzero entry, when there is one.
pub open spec fn spec_pivot(s: Seq<(usize, u64)>) -> Option<(usize, u64)> {
    if s.len() == 0 {
        None
    } else {
        Some(s.last())
    }
}

pub proof fn lemma_lookup_absent(s: Seq<(usize, u64)>, key: usize)
    requires
        forall|i: int| 0 <= i < s.len() ==> #[trigger] s[i].0 != key,
    ensures
        lookup(s, key) == 0,
    decreases s.len(),
{
    if s.len() > 0 {
        assert(s.last().0 != key);
        lemma_lookup_absent(s.drop_last(), key);
    }
}

pub proof fn lemma_lookup_push(s: Seq<(usize, u64)>, e: (usize, u64), key: usize)
    ensures
        lookup(s.push(e), key) == if e.0 == key {
            e.1 as nat
        } else {
            lookup(s, key)
        },
{
    assert(s.push(e).drop_last() =~= s);
}

pub proof fn lemma_lookup_take(s: Seq<(usize, u64)>, n: int, key: usize)
    requires
        0 <= n < s.len(),
    ensures
        lookup(s.take(n + 1), key) == if s[n].0 == key {
            s[n].1 as nat
        } else {
            lookup(s.take(n), key)
        },
{
    assert(s.take(n + 1) =~= s.take(n).push(s[n]));
    lemma_lookup_push(s.take(n), s[n], key);
}

pub proof fn lemma_lookup_at(s: Seq<(usize, u64)>, n: int)
    requires
        sorted_keys(s),
        0 <= n < s.len(),
    ensures
        lookup(s, s[n].0) == s[n].1,
    decreases s.len(),
{
    if n == s.len() - 1 {
    } else {
        assert(s.last().0 != s[n].0);
        assert(s.drop_last()[n] == s[n]);
        lemma_lookup_at(s.drop_last(), n);
    }
}

pub proof fn lemma_lookup_below_all(s: Seq<(usize, u64)>, key: usize)
    requires
        forall|i: int| 0 <= i < s.len() ==> key < #[trigger] s[i].0 || #[trigger] s[i].0 < key,
        forall|i: int| 0 <= i < s.len() ==> s[i].0 != key,
    ensures
        lookup(s, key) == 0,
{
    lemma_lookup_absent(s, key);
}

/// Above the pivot every coefficient is zero, and the pivot carries its
/// own nonzero coefficient.
pub proof fn lemma_pivot_is_last_nonzero(s: Seq<(usize, u64)>, p: nat)
    requires
        wf_column(s, p),
        s.len() > 0,
    ensures
        lookup(s, s.last().0) == s.last().1 as nat,
        s.last().1 != 0,
        forall|key: usize| key > s.last().0 ==> lookup(s, key) == 0,
{
    lemma_lookup_at(s, s.len() - 1);
    assert forall|key: usize| key > s.last().0 implies lookup(s, key) == 0 by {
        assert forall|i: int| 0 <= i < s.len() implies #[trigger] s[i].0 != key by {
            if i < s.len() - 1 {
                assert(s[i].0 < s[s.len() - 1].0);
            }
        }
        lemma_lookup_absent(s, key);
    }
}

/// A canonical column without entries has every coefficient zero.
pub proof fn lemma_empty_column(s: Seq<(usize, u64)>, key: usize)
    requires
        s.len() == 0,
    ensures
        lookup(s, key) == 0,
{
}

/// Every stored coefficient is below `p`.
pub proof fn lemma_lookup_below(s: Seq<(usize, u64)>, p: nat, key: usize)
    requires
        wf_column(s, p),
        p > 0,
    ensures
        lookup(s, key) < p,
    decreases s.len(),
{
    if s.len() > 0 {
        assert(s.last() == s[s.len() - 1]);
        if s.last().0 != key {
            assert(wf_column(s.drop_last(), p)) by {
                assert forall|i: int| 0 <= i < s.drop_last().len() implies 0
                    < #[trigger] s.drop_last()[i].1 < p by {
                    assert(s.drop_last()[i] == s[i]);
                }
            }
            lemma_lookup_below(s.drop_last(), p, key);
        } else {
            assert(0 < s[s.len() - 1].1 < p);
        }
    }
}

/// A sparse column over a prime field, entries in ascending row order.
#[derive(Debug, PartialEq, Eq)]
pub struct SparseColumn {
    /// Nonzero `(row, coefficient)` entries in strictly ascending row order.
    pub entries: Vec<(usize, u64)>,
}

impl View for SparseColumn {
    type V = Seq<(usize, u64)>;

    open spec fn view(&self) -> Seq<(usize, u64)> {
        self.entries@
    }
}

impl SparseColumn {
    /// The zero column.
    pub fn new() -> (column: Self)
        ensures
            column@ == Seq::<(usize, u64)>::empty(),
    {
        SparseColumn { entries: Vec::new() }
    }

    /// An entry-by-entry copy.
    pub fn duplicate(&self) -> (copy: Self)
        ensures
            copy@ == self@,
    {
        let mut entries: Vec<(usize, u64)> = Vec::new();
        let mut index: usize = 0;
        while index < self.entries.len()
            invariant
                index <= self.entries.len(),
                entries@ == self.entries@.take(index as int),
            decreases self.entries.len() - index,
        {
            entries.push(self.entries[index]);
            index += 1;
            assert(entries@ =~= self.entries@.take(index as int));
        }
        assert(entries@ =~= self.entries@);
        SparseColumn { entries }
    }

    /// Whether the column is zero.
    pub fn is_zero(&self) -> (zero: bool)
        ensures
            zero == (self@.len() == 0),
    {
        self.entries.len() == 0
    }

    /// Set the coefficient of `index`; a zero coefficient leaves the column
    /// unchanged.
    pub fn insert(&mut self, index: usize, coefficient: u64)
        requires
            sorted_keys(old(self)@),
        ensures
            sorted_keys(final(self)@),
            forall|key: usize|
                #![trigger lookup(final(self)@, key)]
                lookup(final(self)@, key) == if coefficient != 0 && key == index {
                    coefficient as nat
                } else {
                    lookup(old(self)@, key)
                },
            forall|i: int|
                0 <= i < final(self)@.len() ==> #[trigger] final(self)@[i] == (index, coefficient)
                    || old(self)@.contains(final(self)@[i]),
            coefficient != 0 && (forall|i: int|
                0 <= i < old(self)@.len() ==> #[trigger] old(self)@[i].0 < index) ==> final(self)@
                == old(self)@.push((index, coefficient)),
    {
        if coefficient == 0 {
            return;
        }
        let ghost old_entries = self.entries@;
        let mut out: Vec<(usize, u64)> = Vec::new();
        let mut i: usize = 0;
        let mut placed = false;
        while i < self.entries.len()
            invariant
                self.entries@ == old_entries,
                sorted_keys(old_entries),
                coefficient != 0,
                i <= old_entries.len(),
                sorted_keys(out@),
                placed ==> out@.len() > 0,
                out@.len() > 0 && i < old_entries.len() ==> out@.last().0 < old_entries[i as int].0,
                placed == (i > 0 && old_entries[i - 1].0 >= index),
                !placed ==> forall|t: int| 0 <= t < out@.len() ==> #[trigger] out@[t].0 < index,
                placed ==> out@.len() > 0 && out@.last().0 >= index,
                forall|key: usize|
                    #![trigger lookup(out@, key)]
                    lookup(out@, key) == if placed && key == index {
                        coefficient as nat
                    } else if key == index {
                        0
                    } else {
                        lookup(old_entries.take(i as int), key)
                    },
                forall|t: int|
                    0 <= t < out@.len() ==> #[trigger] out@[t] == (index, coefficient)
                        || old_entries.contains(out@[t]),
                (forall|t: int| 0 <= t < old_entries.len() ==> #[trigger] old_entries[t].0 < index)
                    ==> out@ == old_entries.take(i as int),
            decreases old_entries.len() - i,
        {
            let entry = self.entries[i];
            proof {
                assert(old_entries[i as int] == entry);
                assert forall|key: usize| #[trigger]
                    lookup(old_entries.take(i as int + 1), key) == if entry.0 == key {
                        entry.1 as nat
                    } else {
                        lookup(old_entries.take(i as int), key)
                    } by {
                    lemma_lookup_take(old_entries, i as int, key);
                }
                assert(old_entries.contains(entry));
            }
            if !placed && entry.0 >= index {
                let ghost before = out@;
                out.push((index, coefficient));
                proof {
                    assert forall|key: usize| #![trigger lookup(out@, key)]
                        lookup(out@, key) == if key == index {
                            coefficient as nat
                        } else {
                            lookup(before, key)
                        } by {
                        lemma_lookup_push(before, (index, coefficient), key);
                    }
                }
                placed = true;
                if entry.0 > index {
                    let ghost before2 = out@;
                    out.push(entry);
                    proof {
                        assert forall|key: usize| #![trigger lookup(out@, key)]
                            lookup(out@, key) == if key == entry.0 {
                                entry.1 as nat
                            } else {
                                lookup(before2, key)
                            } by {
                            lemma_lookup_push(before2, entry, key);
                        }
                    }
                }
            } else {
                let ghost before = out@;
                out.push(entry);
                proof {
                    assert forall|key: usize| #![trigger lookup(out@, key)]
                        lookup(out@, key) == if key == entry.0 {
                            entry.1 as nat
                        } else {
                            lookup(before, key)
                        } by {
                        lemma_lookup_push(before, entry, key);
                    }
                    assert(old_entries.take(i + 1) =~= old_entries.take(i as int).push(entry));
                }
            }
            i += 1;
            proof {
                if i < old_entries.len() {
                    assert(old_entries[i - 1].0 < old_entries[i as int].0);
                }
            }
        }
        if !placed {
            let ghost before = out@;
            out.push((index, coefficient));
            proof {
                assert forall|key: usize| #![trigger lookup(out@, key)]
                    lookup(out@, key) == if key == index {
                        coefficient as nat
                    } else {
                        lookup(before, key)
                    } by {
                    lemma_lookup_push(before, (index, coefficient), key);
                }
            }
        }
        proof {
            assert(old_entries.take(old_entries.len() as int) =~= old_entries);
            assert forall|key: usize| #![trigger lookup(out@, key)]
                lookup(out@, key) == if key == index {
                    coefficient as nat
                } else {
                    lookup(old_entries, key)
                } by {
                if key == index && !placed {
                }
            }
        }
        self.entries = out;
    }

    /// Add `factor` times `source` to this column modulo `modulus`.
    pub fn add_scaled(&mut self, source: &Self, factor: u64, modulus: u64)
        requires
            2 <= modulus <= u32::MAX,
            factor < modulus,
            wf_column(old(self)@, modulus as nat),
            wf_column(source@, modulus as nat),
        ensures
            wf_column(final(self)@, modulus as nat),
            forall|key: usize|
                #![trigger lookup(final(self)@, key)]
                lookup(final(self)@, key) == (lookup(old(self)@, key) + factor * lookup(source@, key))
                    % (modulus as int),
    {
        let ghost m = modulus as nat;
        if factor == 0 {
            proof {
                assert forall|key: usize| #![trigger lookup(self@, key)]
                    lookup(self@, key) == (lookup(self@, key) + factor * lookup(source@, key)) % (m as int) by {
                    lemma_lookup_below(self@, m, key);
                    lemma_small_mod(lookup(self@, key), m);
                }
            }
            return;
        }
        let ghost a = self.entries@;
        let ghost b = source.entries@;
        let mut out: Vec<(usize, u64)> = Vec::new();
        let mut i: usize = 0;
        let mut j: usize = 0;
        proof {
            assert forall|key: usize| #![trigger lookup(out@, key)]
                lookup(out@, key) == (lookup(a.take(0), key) + factor * lookup(b.take(0), key)) % (
                m as int) by {
                assert(a.take(0).len() == 0);
                assert(b.take(0).len() == 0);
                assert(lookup(a.take(0), key) == 0);
                assert(lookup(b.take(0), key) == 0);
                assert(factor * 0 == 0);
                lemma_small_mod(0, m);
            }
        }
        while i < self.entries.len() || j < source.entries.len()
            invariant
                self.entries@ == a,
                source.entries@ == b,
                2 <= modulus <= u32::MAX,
                0 < factor < modulus,
                m == modulus as nat,
                wf_column(a, m),
                wf_column(b, m),
                i <= a.len(),
                j <= b.len(),
                wf_column(out@, m),
                out@.len() > 0 && i < a.len() ==> out@.last().0 < a[i as int].0,
                out@.len() > 0 && j < b.len() ==> out@.last().0 < b[j as int].0,
                forall|t: int| 0 <= t < j && i < a.len() ==> #[trigger] b[t].0 < a[i as int].0,
                forall|t: int| 0 <= t < i && j < b.len() ==> #[trigger] a[t].0 < b[j as int].0,
                forall|key: usize|
                    #![trigger lookup(out@, key)]
                    lookup(out@, key) == (lookup(a.take(i as int), key) + factor * lookup(
                        b.take(j as int),
                        key,
                    )) % (m as int),
            decreases a.len() - i + b.len() - j,
        {
            let ghost before = out@;
            let take_left = j == source.entries.len() || (i < self.entries.len()
                && self.entries[i].0 < source.entries[j].0);
            let take_right = i == self.entries.len() || (j < source.entries.len()
                && source.entries[j].0 < self.entries[i].0);
            if take_left {
                let entry = self.entries[i];
                proof {
                    assert(entry == a[i as int]);
                    assert forall|key: usize| #![trigger lookup(out@.push(entry), key)]
                        lookup(out@.push(entry), key) == (lookup(a.take(i as int + 1), key)
                            + factor * lookup(b.take(j as int), key)) % (m as int) by {
                        lemma_lookup_push(before, entry, key);
                        lemma_lookup_take(a, i as int, key);
                        if key == entry.0 {
                            assert forall|t: int| 0 <= t < b.take(j as int).len() implies #[trigger] b.take(
                                j as int,
                            )[t].0 != key by {
                                assert(b.take(j as int)[t] == b[t]);
                            }
                            lemma_lookup_absent(b.take(j as int), key);
                            lemma_small_mod(entry.1 as nat, m);
                        }
                    }
                }
                out.push(entry);
                i += 1;
                proof {
                    if i < a.len() {
                        assert(a[i - 1].0 < a[i as int].0);
                        assert forall|t: int| 0 <= t < j && i < a.len() implies #[trigger] b[t].0
                            < a[i as int].0 by {
                            assert(b[t].0 < a[i - 1].0);
                        }
                    }
                }
            } else if take_right {
                let entry = source.entries[j];
                proof {
                    assert(entry == b[j as int]);
                    assert((factor as int) * (entry.1 as int) < 0x1_0000_0000_0000_0000)
                        by (nonlinear_arith)
                        requires
                            factor < modulus,
                            entry.1 < modulus,
                            modulus <= u32::MAX,
                    ;
                }
                let value = factor * entry.1 % modulus;
                proof {
                    assert forall|key: usize| #![trigger lookup(a.take(i as int), key)]
                        key == entry.0 ==> lookup(a.take(i as int), key) == 0 by {
                        if key == entry.0 {
                            assert forall|t: int| 0 <= t < a.take(i as int).len() implies #[trigger] a.take(
                                i as int,
                            )[t].0 != key by {
                                assert(a.take(i as int)[t] == a[t]);
                            }
                            lemma_lookup_absent(a.take(i as int), key);
                        }
                    }
                    assert forall|key: usize| #![trigger lookup(b.take(j as int + 1), key)]
                        lookup(b.take(j as int + 1), key) == if b[j as int].0 == key {
                            b[j as int].1 as nat
                        } else {
                            lookup(b.take(j as int), key)
                        } by {
                        lemma_lookup_take(b, j as int, key);
                    }
                }
                if value != 0 {
                    proof {
                        assert forall|key: usize| #![trigger lookup(out@.push((entry.0, value)), key)]
                            lookup(out@.push((entry.0, value)), key) == (lookup(a.take(i as int), key)
                                + factor * lookup(b.take(j as int + 1), key)) % (m as int) by {
                            lemma_lookup_push(before, (entry.0, value), key);
                        }
                    }
                    out.push((entry.0, value));
                } else {
                    proof {
                        assert forall|key: usize| #![trigger lookup(out@, key)]
                            lookup(out@, key) == (lookup(a.take(i as int), key) + factor * lookup(
                                b.take(j as int + 1),
                                key,
                            )) % (m as int) by {
                            if key == entry.0 {
                                assert forall|t: int| 0 <= t < out@.len() implies #[trigger] out@[t].0
                                    != key by {
                                    if t < out@.len() - 1 {
                                        assert(out@[t].0 < out@[out@.len() - 1].0);
                                    }
                                }
                                lemma_lookup_absent(out@, key);
                            }
                        }
                    }
                }
                j += 1;
                proof {
                    if j < b.len() {
                        assert(b[j - 1].0 < b[j as int].0);
                        assert forall|t: int| 0 <= t < i && j < b.len() implies #[trigger] a[t].0
                            < b[j as int].0 by {
                            assert(a[t].0 < b[j - 1].0);
                        }
                    }
                }
            } else {
                let left = self.entries[i];
                let right = source.entries[j];
                proof {
                    assert(left == a[i as int]);
                    assert(right == b[j as int]);
                    assert(left.0 == right.0);
                    assert((factor as int) * (right.1 as int) + (left.1 as int)
                        < 0x1_0000_0000_0000_0000) by (nonlinear_arith)
                        requires
                            factor < modulus,
                            right.1 < modulus,
                            left.1 < modulus,
                            modulus <= u32::MAX,
                    ;
                }
                let value = (left.1 + factor * right.1) % modulus;
                proof {
                    assert forall|key: usize| #![trigger lookup(a.take(i as int + 1), key)]
                        lookup(a.take(i as int + 1), key) == if a[i as int].0 == key {
                            a[i as int].1 as nat
                        } else {
                            lookup(a.take(i as int), key)
                        } by {
                        lemma_lookup_take(a, i as int, key);
                    }
                    assert forall|key: usize| #![trigger lookup(b.take(j as int + 1), key)]
                        lookup(b.take(j as int + 1), key) == if b[j as int].0 == key {
                            b[j as int].1 as nat
                        } else {
                            lookup(b.take(j as int), key)
                        } by {
                        lemma_lookup_take(b, j as int, key);
                    }
                }
                if value != 0 {
                    proof {
                        assert forall|key: usize| #![trigger lookup(out@.push((left.0, value)), key)]
                            lookup(out@.push((left.0, value)), key) == (lookup(
                                a.take(i as int + 1),
                                key,
                            ) + factor * lookup(b.take(j as int + 1), key)) % (m as int) by {
                            lemma_lookup_push(before, (left.0, value), key);
                        }
                    }
                    out.push((left.0, value));
                } else {
                    proof {
                        assert forall|key: usize| #![trigger lookup(out@, key)]
                            lookup(out@, key) == (lookup(a.take(i as int + 1), key) + factor
                                * lookup(b.take(j as int + 1), key)) % (m as int) by {
                            if key == left.0 {
                                assert forall|t: int| 0 <= t < out@.len() implies #[trigger] out@[t].0
                                    != key by {
                                    if t < out@.len() - 1 {
                                        assert(out@[t].0 < out@[out@.len() - 1].0);
                                    }
                                }
                                lemma_lookup_absent(out@, key);
                            }
                        }
                    }
                }
                i += 1;
                j += 1;
                proof {
                    if i < a.len() {
                        assert(a[i - 1].0 < a[i as int].0);
                        assert forall|t: int| 0 <= t < j && i < a.len() implies #[trigger] b[t].0
                            < a[i as int].0 by {
                            if t < j - 1 {
                                assert(b[t].0 < b[j - 1].0);
                            }
                        }
                    }
                    if j < b.len() {
                        assert(b[j - 1].0 < b[j as int].0);
                        assert forall|t: int| 0 <= t < i && j < b.len() implies #[trigger] a[t].0
                            < b[j as int].0 by {
                            if t < i - 1 {
                                assert(a[t].0 < a[i - 1].0);
                            }
                        }
                    }
                }
            }
        }
        proof {
            assert(a.take(a.len() as int) =~= a);
            assert(b.take(b.len() as int) =~= b);
        }
        self.entries = out;
    }

    /// The last nonzero entry, which holds the largest row.
    pub fn pivot(&self) -> (pivot: Option<(usize, u64)>)
        ensures
            pivot == spec_pivot(self@),
    {
        if self.entries.len() == 0 {
            None
        } else {
            Some(self.entries[self.entries.len() - 1])
        }
    }
}

} // verus!
