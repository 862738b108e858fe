//! The lookup from a field element of the coset union to the coset and the
//! row at which it stands.

use crate::domain::{
    coset_shift, coset_value, get_ks, get_roots, gl_pow, lemma_coset_values_distinct,
    lemma_gl_pow_succ, lemma_gl_pow_zero, lemma_root_bound, root_of_unity, MAX_COSETS,
    MAX_LOG_SIZE,
};
use crate::field::{Fgl, MODULUS};
use std::collections::HashMap;
use vstd::arithmetic::power2::*;
use vstd::prelude::*;

verus! {

broadcast use vstd::std_specs::hash::group_hash_axioms;

/// The upper twelve bits of a key.
pub open spec fn key_high(v: u64) -> u64 {
    v >> 52
}

/// The twelve bits of a key below its upper twelve.
pub open spec fn key_mid(v: u64) -> u64 {
    (v >> 40) & 0xFFF
}

/// The lower forty bits of a key.
pub open spec fn key_low(v: u64) -> u64 {
    v & 0xFF_FFFF_FFFF
}

/// Splits a key into its three parts.
pub fn split_key(v: u64) -> (parts: (u64, u64, u64))
    ensures
        parts == (key_high(v), key_mid(v), key_low(v)),
{
    (v >> 52, (v >> 40) & 0xFFF, v & 0xFF_FFFF_FFFF)
}

/// Two keys with the same three parts are the same key.
pub proof fn lemma_split_key_injective(v: u64, w: u64)
    requires
        key_high(v) == key_high(w),
        key_mid(v) == key_mid(w),
        key_low(v) == key_low(w),
    ensures
        v == w,
{
    assert(v == w) by (bit_vector)
        requires
            v >> 52 == w >> 52,
            (v >> 40) & 0xFFF == (w >> 40) & 0xFFF,
            v & 0xFF_FFFF_FFFF == w & 0xFF_FFFF_FFFF,
    ;
}

/// A map from field elements, by their canonical values, to pairs of a
/// coset and a row. It is kept in three levels, one for each part of a key.
pub struct ConnectionMap {
    levels: HashMap<u64, HashMap<u64, HashMap<u64, (u64, u64)>>>,
    entries: u64,
}

impl ConnectionMap {
    spec fn holds(&self, v: u64) -> bool {
        &&& self.levels@.contains_key(key_high(v))
        &&& self.levels@[key_high(v)]@.contains_key(key_mid(v))
        &&& self.levels@[key_high(v)]@[key_mid(v)]@.contains_key(key_low(v))
    }

    spec fn at(&self, v: u64) -> (u64, u64) {
        self.levels@[key_high(v)]@[key_mid(v)]@[key_low(v)]
    }

    /// The number of entries is the number that is kept.
    pub closed spec fn wf(&self) -> bool {
        &&& self@.dom().finite()
        &&& self@.dom().len() == self.entries
    }

    /// The empty map.
    pub fn new() -> (m: ConnectionMap)
        ensures
            m.wf(),
            m@ == Map::<u64, (u64, u64)>::empty(),
    {
        let m = ConnectionMap { levels: HashMap::new(), entries: 0 };
        assert(m@ =~= Map::<u64, (u64, u64)>::empty());
        m
    }

    /// The number of entries.
    pub fn len(&self) -> (n: u64)
        requires
            self.wf(),
        ensures
            n == self@.dom().len(),
    {
        self.entries
    }

    /// The pair that is kept for the key `v`, if there is one.
    pub fn get(&self, v: u64) -> (r: Option<(u64, u64)>)
        ensures
            r == (if self@.contains_key(v) {
                Some(self@[v])
            } else {
                None
            }),
    {
        let (a1, a2, a3) = split_key(v);
        match self.levels.get(&a1) {
            None => None,
            Some(second) => match second.get(&a2) {
                None => None,
                Some(third) => match third.get(&a3) {
                    None => None,
                    Some(pair) => Some(*pair),
                },
            },
        }
    }

    /// Keeps `target` for the key `v`, in place of what was kept for it.
    pub fn insert(&mut self, v: u64, target: (u64, u64))
        requires
            old(self).wf(),
            old(self)@.dom().len() < u64::MAX,
        ensures
            final(self).wf(),
            final(self)@ == old(self)@.insert(v, target),
    {
        let ghost before = *self;
        let known = self.get(v).is_some();
        let (a1, a2, a3) = split_key(v);
        let mut second = match self.levels.remove(&a1) {
            Some(m) => m,
            None => HashMap::new(),
        };
        let mut third = match second.remove(&a2) {
            Some(m) => m,
            None => HashMap::new(),
        };
        third.insert(a3, target);
        second.insert(a2, third);
        self.levels.insert(a1, second);
        if !known {
            self.entries = self.entries + 1;
        }
        proof {
            assert forall|w: u64| self.holds(w) == (w == v || before.holds(w)) by {
                if key_high(w) == a1 && key_mid(w) == a2 && key_low(w) == a3 {
                    lemma_split_key_injective(v, w);
                }
            }
            assert forall|w: u64| self.holds(w) implies self.at(w) == (if w == v {
                target
            } else {
                before.at(w)
            }) by {
                if key_high(w) == a1 && key_mid(w) == a2 && key_low(w) == a3 {
                    lemma_split_key_injective(v, w);
                }
            }
            assert(self@ =~= before@.insert(v, target));
        }
    }
}

impl Clone for ConnectionMap {
    fn clone(&self) -> (m: ConnectionMap)
        ensures
            m@ == self@,
            m.wf() == self.wf(),
    {
        let m = ConnectionMap { levels: self.levels.clone(), entries: self.entries };
        assert(m@ =~= self@);
        m
    }
}

impl View for ConnectionMap {
    type V = Map<u64, (u64, u64)>;

    /// The pairs that are kept, by their keys.
    closed spec fn view(&self) -> Map<u64, (u64, u64)> {
        Map::new(|v: u64| self.holds(v), |v: u64| self.at(v))
    }
}

/// Whether row `i2` of coset `j2` comes before row `i` of coset `j` where
/// the cosets of each row are taken in turn, row after row.
pub open spec fn comes_before(i2: int, j2: int, i: int, j: int) -> bool {
    i2 < i || (i2 == i && j2 < j)
}

/// Whether `m` is the map of the first `k` cosets of the subgroup of order
/// `2^log_n`: it keeps `(j, i)` for the element `KAPPA^j * w^i`, for each
/// coset `j` below `k` and each row `i` below `2^log_n`, and nothing else,
/// which makes `2^log_n * k` entries.
pub open spec fn is_coset_map(m: ConnectionMap, log_n: nat, k: nat) -> bool {
    &&& m.wf()
    &&& m@.dom().len() == pow2(log_n) * k
    &&& forall|v: u64| #[trigger]
        m@.contains_key(v) ==> m@[v].0 < k && m@[v].1 < pow2(log_n) && coset_value(
            log_n,
            m@[v].0 as nat,
            m@[v].1 as nat,
        ) == v
    &&& forall|j: nat, i: nat|
        j < k && i < pow2(log_n) ==> m@.contains_key(#[trigger] coset_value(log_n, j, i) as u64)
            && m@[coset_value(log_n, j, i) as u64] == (j as u64, i as u64)
}

/// Whether `a` is the element at row `i` of coset `j`, among the first `k`
/// cosets of the subgroup of order `2^log_n`.
pub open spec fn in_coset(log_n: nat, k: nat, a: nat, j: nat, i: nat) -> bool {
    j < k && i < pow2(log_n) && coset_value(log_n, j, i) == a
}

/// The coset and the row at which `a` stands, if it is in the union of the
/// first `k` cosets.
pub open spec fn coset_position(log_n: nat, k: nat, a: nat) -> Option<(nat, nat)> {
    if exists|j: nat, i: nat| in_coset(log_n, k, a, j, i) {
        Some(choose|p: (nat, nat)| in_coset(log_n, k, a, p.0, p.1))
    } else {
        None
    }
}

/// A lookup in the map of the cosets gives the position of the key.
pub proof fn lemma_coset_map_position(m: ConnectionMap, log_n: nat, k: nat, a: u64)
    requires
        is_coset_map(m, log_n, k),
        log_n <= MAX_LOG_SIZE,
        k <= MAX_COSETS,
    ensures
        coset_position(log_n, k, a as nat) == (if m@.contains_key(a) {
            Some((m@[a].0 as nat, m@[a].1 as nat))
        } else {
            None
        }),
{
    if m@.contains_key(a) {
        let j = m@[a].0 as nat;
        let i = m@[a].1 as nat;
        assert(in_coset(log_n, k, a as nat, j, i));
        let p = choose|p: (nat, nat)| in_coset(log_n, k, a as nat, p.0, p.1);
        assert(in_coset(log_n, k, a as nat, (j, i).0, (j, i).1));
        lemma_coset_values_distinct(log_n, p.0, p.1, j, i);
    } else {
        if exists|j: nat, i: nat| in_coset(log_n, k, a as nat, j, i) {
            let (j, i) = choose|j: nat, i: nat| in_coset(log_n, k, a as nat, j, i);
            assert(m@.contains_key(coset_value(log_n, j, i) as u64));
        }
    }
}

/// Builds the map of the first `k` cosets of the subgroup of order
/// `2^log_n`.
pub fn build_connection_map(log_n: u32, k: usize) -> (m: ConnectionMap)
    requires
        log_n <= MAX_LOG_SIZE,
        k <= MAX_COSETS,
    ensures
        is_coset_map(m, log_n as nat, k as nat),
{
    if k == 0 {
        let empty = ConnectionMap::new();
        assert(pow2(log_n as nat) * 0 == 0);
        return empty;
    }
    let roots = get_roots();
    let ks = get_ks(k);
    let wi = roots[log_n as usize];
    let ghost lg = log_n as nat;
    let mut n: u64 = 1;
    let mut doubled: u32 = 0;
    proof {
        lemma2_to64();
    }
    while doubled < log_n
        invariant
            doubled <= log_n <= 32,
            n == pow2(doubled as nat),
            n <= 0x1_0000_0000,
        decreases log_n - doubled,
    {
        proof {
            lemma_pow2_unfold((doubled + 1) as nat);
            lemma2_to64();
            if doubled + 1 < 32 {
                lemma_pow2_strictly_increases((doubled + 1) as nat, 32);
            }
        }
        n = n * 2;
        doubled = doubled + 1;
    }
    let mut m = ConnectionMap::new();
    let mut w = Fgl::one();
    let mut i: u64 = 0;
    proof {
        lemma_gl_pow_zero(root_of_unity(lg));
        assert(0 * (k as int) == 0);
    }
    while i < n
        invariant
            i <= n,
            n == pow2(lg),
            n <= 0x1_0000_0000,
            lg == log_n,
            lg <= 32,
            k <= MAX_COSETS,
            ks.len() == k,
            forall|j: int| 0 <= j < k ==> (#[trigger] ks[j])@ == coset_shift(j as nat),
            wi@ == root_of_unity(lg),
            w@ == gl_pow(root_of_unity(lg), i as nat),
            m.wf(),
            m@.dom().len() == i * k,
            forall|v: u64| #[trigger]
                m@.contains_key(v) ==> m@[v].0 < k && m@[v].1 < i && coset_value(
                    lg,
                    m@[v].0 as nat,
                    m@[v].1 as nat,
                ) == v,
            forall|j2: nat, i2: nat|
                j2 < k && i2 < i ==> m@.contains_key(#[trigger] coset_value(lg, j2, i2) as u64)
                    && m@[coset_value(lg, j2, i2) as u64] == (j2 as u64, i2 as u64),
        decreases n - i,
    {
        let mut j: usize = 0;
        while j < k
            invariant
                j <= k,
                i < n,
                n == pow2(lg),
                n <= 0x1_0000_0000,
                lg <= 32,
                k <= MAX_COSETS,
                ks.len() == k,
                forall|t: int| 0 <= t < k ==> (#[trigger] ks[t])@ == coset_shift(t as nat),
                w@ == gl_pow(root_of_unity(lg), i as nat),
                m.wf(),
                m@.dom().len() == i * k + j,
                forall|v: u64| #[trigger]
                    m@.contains_key(v) ==> m@[v].0 < k && m@[v].1 < n && comes_before(
                        m@[v].1 as int,
                        m@[v].0 as int,
                        i as int,
                        j as int,
                    ) && coset_value(lg, m@[v].0 as nat, m@[v].1 as nat) == v,
                forall|j2: nat, i2: nat|
                    j2 < k && comes_before(i2 as int, j2 as int, i as int, j as int)
                        ==> m@.contains_key(#[trigger] coset_value(lg, j2, i2) as u64)
                        && m@[coset_value(lg, j2, i2) as u64] == (j2 as u64, i2 as u64),
            decreases k - j,
        {
            let a = ks[j].mul(w);
            let key = a.as_int();
            let ghost earlier = m@;
            proof {
                assert(key == coset_value(lg, j as nat, i as nat));
                assert(i * k + j < u64::MAX) by (nonlinear_arith)
                    requires
                        i < 0x1_0000_0000,
                        j < k,
                        k <= 33,
                ;
                if earlier.contains_key(key) {
                    lemma_coset_values_distinct(
                        lg,
                        earlier[key].0 as nat,
                        earlier[key].1 as nat,
                        j as nat,
                        i as nat,
                    );
                }
            }
            m.insert(key, (j as u64, i));
            proof {
                assert forall|j2: nat, i2: nat|
                    j2 < k && comes_before(
                        i2 as int,
                        j2 as int,
                        i as int,
                        j + 1,
                    ) implies m@.contains_key(#[trigger] coset_value(lg, j2, i2) as u64)
                    && m@[coset_value(lg, j2, i2) as u64] == (j2 as u64, i2 as u64) by {
                    lemma_coset_value_bound(lg, j2, i2);
                    if coset_value(lg, j2, i2) == key as nat {
                        lemma_coset_values_distinct(lg, j2, i2, j as nat, i as nat);
                    }
                }
            }
            j = j + 1;
        }
        proof {
            lemma_root_bound(lg);
            lemma_gl_pow_succ(root_of_unity(lg), i as nat);
            assert((i + 1) * k == i * k + k) by (nonlinear_arith);
        }
        w = w.mul(wi);
        i = i + 1;
    }
    m
}

/// Every element of a coset is a canonical value.
pub proof fn lemma_coset_value_bound(log_n: nat, j: nat, i: nat)
    ensures
        coset_value(log_n, j, i) < MODULUS,
{
}

} // verus!
