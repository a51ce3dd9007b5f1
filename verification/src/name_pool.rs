//! Collision-free identifier allocation within one scope.
//!
//! Each scope of generated code (a module, a class) owns one `NamePool`.
//! `allocate` returns the desired name when it is free, and otherwise applies
//! a deterministic suffixing scheme derived from the caller's disambiguator,
//! so that repeated runs over unchanged input produce byte-identical
//! identifiers. A static reserved-word table substitutes host-language
//! keywords with a safe alternative spelling before collision resolution.
use vstd::prelude::*;

use crate::bytes_eq;
use crate::bytes_from_slice;
use crate::bytes_push_all;

verus! {

broadcast use
    vstd::seq_lib::group_seq_properties,
    vstd::seq_lib::group_seq_lib_default,
    Seq::lemma_push_map_commute,
    Seq::lemma_push_to_set_commute,
;

/// The decimal digits of `n`, most significant first, as ASCII bytes.
pub open spec fn dec_digits(n: nat) -> Seq<u8>
    decreases n,
{
    if n < 10 {
        seq![(48 + n) as u8]
    } else {
        dec_digits(n / 10).push((48 + n % 10) as u8)
    }
}

/// Reads a digit string back as a number; inverse of `dec_digits`.
spec fn undec(s: Seq<u8>) -> nat
    decreases s.len(),
{
    if s.len() == 0 {
        0
    } else {
        (undec(s.drop_last()) * 10 + (s.last() - 48)) as nat
    }
}

proof fn lemma_undec_dec(n: nat)
    ensures
        undec(dec_digits(n)) == n,
    decreases n,
{
    if n < 10 {
        let s = dec_digits(n);
        assert(s == seq![(48 + n) as u8]);
        assert(s.drop_last() =~= Seq::<u8>::empty());
        assert(s.last() == (48 + n) as u8);
        assert((48 + n) as u8 == 48 + n);
        assert(undec(Seq::<u8>::empty()) == 0);
        assert(undec(s) == (undec(s.drop_last()) * 10 + (s.last() - 48)) as nat);
    } else {
        lemma_undec_dec(n / 10);
        let s = dec_digits(n);
        assert(s == dec_digits(n / 10).push((48 + n % 10) as u8));
        assert(s.drop_last() =~= dec_digits(n / 10));
        assert(s.last() == (48 + n % 10) as u8);
        assert((48 + n % 10) as u8 == 48 + n % 10);
        assert(n / 10 * 10 + n % 10 == n) by {
            vstd::arithmetic::div_mod::lemma_fundamental_div_mod(n as int, 10);
        };
    }
}

proof fn lemma_dec_injective(a: nat, b: nat)
    requires
        dec_digits(a) == dec_digits(b),
    ensures
        a == b,
{
    lemma_undec_dec(a);
    lemma_undec_dec(b);
}

proof fn lemma_concat_cancel(p: Seq<u8>, x: Seq<u8>, y: Seq<u8>)
    requires
        p + x == p + y,
    ensures
        x == y,
{
    assert((p + x).len() == p.len() + x.len());
    assert((p + y).len() == p.len() + y.len());
    assert(x.len() == y.len());
    assert forall|i: int| 0 <= i < x.len() implies x[i] == y[i] by {
        assert((p + x)[p.len() + i] == x[i]);
        assert((p + y)[p.len() + i] == y[i]);
    }
    assert(x =~= y);
}

/// The `k`-th suffixed candidate for a contested name.
pub open spec fn cand(prefix: Seq<u8>, k: nat) -> Seq<u8> {
    prefix + dec_digits(k)
}

proof fn lemma_cand_injective(prefix: Seq<u8>, j: nat, k: nat)
    requires
        cand(prefix, j) == cand(prefix, k),
    ensures
        j == k,
{
    lemma_concat_cancel(prefix, dec_digits(j), dec_digits(k));
    lemma_dec_injective(j, k);
}

/// The first suffixed candidate, starting at index `k`, that is not yet
/// used; `fuel` bounds the search and is always chosen large enough that a
/// free candidate exists before it runs out.
pub open spec fn first_free_from(used: Seq<Seq<u8>>, prefix: Seq<u8>, k: nat, fuel: nat) -> Seq<u8>
    decreases fuel,
{
    let c = cand(prefix, k);
    if fuel == 0 {
        c
    } else if !used.contains(c) {
        c
    } else {
        first_free_from(used, prefix, (k + 1) as nat, (fuel - 1) as nat)
    }
}

/// Pigeonhole: suffixed candidates are pairwise distinct, so a search whose
/// fuel exceeds the number of used names always ends on a free candidate.
proof fn lemma_first_free(used: Seq<Seq<u8>>, prefix: Seq<u8>, k0: nat, fuel: nat, s: Set<Seq<u8>>)
    requires
        s.finite(),
        s.len() < fuel,
        forall|j: nat| j >= k0 && used.contains(#[trigger] cand(prefix, j)) ==> s.contains(
            cand(prefix, j),
        ),
    ensures
        !used.contains(first_free_from(used, prefix, k0, fuel)),
        exists|k: nat|
            k0 <= k < k0 + fuel && first_free_from(used, prefix, k0, fuel) == cand(prefix, k),
    decreases fuel,
{
    broadcast use vstd::set::group_set_axioms;

    let c = cand(prefix, k0);
    if !used.contains(c) {
        assert(first_free_from(used, prefix, k0, fuel) == c);
        assert(k0 <= k0 < k0 + fuel && first_free_from(used, prefix, k0, fuel) == cand(prefix, k0));
    } else {
        assert(s.contains(c));
        let s2 = s.remove(c);
        assert(s2.len() == s.len() - 1);
        assert forall|j: nat|
            j >= k0 + 1 && used.contains(#[trigger] cand(prefix, j)) implies s2.contains(
            cand(prefix, j),
        ) by {
            if cand(prefix, j) == c {
                lemma_cand_injective(prefix, j, k0);
                assert(false);
            }
            assert(s.contains(cand(prefix, j)));
        }
        lemma_first_free(used, prefix, (k0 + 1) as nat, (fuel - 1) as nat, s2);
        let k = choose|k: nat|
            k0 + 1 <= k < k0 + 1 + (fuel - 1)
                && first_free_from(used, prefix, (k0 + 1) as nat, (fuel - 1) as nat)
                == cand(prefix, k);
        assert(first_free_from(used, prefix, k0, fuel) == cand(prefix, k));
    }
}

/// Links the executable search to the specification: if every candidate
/// before `k` is used and `k` itself is free, the search answers `k`.
proof fn lemma_first_free_eq(used: Seq<Seq<u8>>, prefix: Seq<u8>, k0: nat, k: nat, fuel: nat)
    requires
        k0 <= k,
        k - k0 <= fuel,
        forall|j: nat| k0 <= j < k ==> used.contains(#[trigger] cand(prefix, j)),
        !used.contains(cand(prefix, k)),
    ensures
        first_free_from(used, prefix, k0, fuel) == cand(prefix, k),
    decreases fuel,
{
    if k == k0 {
    } else {
        assert(used.contains(cand(prefix, k0)));
        lemma_first_free_eq(used, prefix, (k0 + 1) as nat, k, (fuel - 1) as nat);
    }
}

// ---- the reserved-word table ----
pub open spec fn kw_box() -> Seq<u8> {
    seq![98u8, 111u8, 120u8]
}

pub open spec fn kw_fn() -> Seq<u8> {
    seq![102u8, 110u8]
}

pub open spec fn kw_in() -> Seq<u8> {
    seq![105u8, 110u8]
}

pub open spec fn kw_match() -> Seq<u8> {
    seq![109u8, 97u8, 116u8, 99u8, 104u8]
}

pub open spec fn kw_move() -> Seq<u8> {
    seq![109u8, 111u8, 118u8, 101u8]
}

pub open spec fn kw_ref() -> Seq<u8> {
    seq![114u8, 101u8, 102u8]
}

pub open spec fn kw_type() -> Seq<u8> {
    seq![116u8, 121u8, 112u8, 101u8]
}

pub open spec fn kw_use() -> Seq<u8> {
    seq![117u8, 115u8, 101u8]
}

pub open spec fn kw_impl() -> Seq<u8> {
    seq![105u8, 109u8, 112u8, 108u8]
}

pub open spec fn kw_loop() -> Seq<u8> {
    seq![108u8, 111u8, 111u8, 112u8]
}

pub open spec fn kw_yield() -> Seq<u8> {
    seq![121u8, 105u8, 101u8, 108u8, 100u8]
}

/// Whether `s` spells a host-language keyword that generated identifiers
/// must avoid.
pub open spec fn spec_is_reserved(s: Seq<u8>) -> bool {
    ||| s == kw_box()
    ||| s == kw_fn()
    ||| s == kw_in()
    ||| s == kw_match()
    ||| s == kw_move()
    ||| s == kw_ref()
    ||| s == kw_type()
    ||| s == kw_use()
    ||| s == kw_impl()
    ||| s == kw_loop()
    ||| s == kw_yield()
}

/// The safe alternative spelling: reserved words get a trailing underscore.
pub open spec fn spec_reserved_rename(s: Seq<u8>) -> Seq<u8> {
    if spec_is_reserved(s) {
        s.push(95u8)
    } else {
        s
    }
}

fn is_reserved(val: &[u8]) -> (r: bool)
    ensures
        r == spec_is_reserved(val@),
{
    let w_box: [u8; 3] = [98, 111, 120];
    let w_fn: [u8; 2] = [102, 110];
    let w_in: [u8; 2] = [105, 110];
    let w_match: [u8; 5] = [109, 97, 116, 99, 104];
    let w_move: [u8; 4] = [109, 111, 118, 101];
    let w_ref: [u8; 3] = [114, 101, 102];
    let w_type: [u8; 4] = [116, 121, 112, 101];
    let w_use: [u8; 3] = [117, 115, 101];
    let w_impl: [u8; 4] = [105, 109, 112, 108];
    let w_loop: [u8; 4] = [108, 111, 111, 112];
    let w_yield: [u8; 5] = [121, 105, 101, 108, 100];
    proof {
        assert(w_box@ =~= kw_box());
        assert(w_fn@ =~= kw_fn());
        assert(w_in@ =~= kw_in());
        assert(w_match@ =~= kw_match());
        assert(w_move@ =~= kw_move());
        assert(w_ref@ =~= kw_ref());
        assert(w_type@ =~= kw_type());
        assert(w_use@ =~= kw_use());
        assert(w_impl@ =~= kw_impl());
        assert(w_loop@ =~= kw_loop());
        assert(w_yield@ =~= kw_yield());
    }
    bytes_eq(val, w_box.as_slice()) || bytes_eq(val, w_fn.as_slice()) || bytes_eq(
        val,
        w_in.as_slice(),
    ) || bytes_eq(val, w_match.as_slice()) || bytes_eq(val, w_move.as_slice()) || bytes_eq(
        val,
        w_ref.as_slice(),
    ) || bytes_eq(val, w_type.as_slice()) || bytes_eq(val, w_use.as_slice()) || bytes_eq(
        val,
        w_impl.as_slice(),
    ) || bytes_eq(val, w_loop.as_slice()) || bytes_eq(val, w_yield.as_slice())
}

/// Substitutes a host-language keyword with its safe alternative spelling;
/// any other name passes through unchanged.
pub fn reserved_rename(val: &[u8]) -> (r: Vec<u8>)
    ensures
        r@ == spec_reserved_rename(val@),
{
    let mut r = bytes_from_slice(val);
    if is_reserved(val) {
        r.push(95);
    }
    r
}

/// Writes the decimal digits of `n` onto `out`.
pub fn push_dec(out: &mut Vec<u8>, n: u128)
    ensures
        final(out)@ == old(out)@ + dec_digits(n as nat),
    decreases n,
{
    if n < 10 {
        out.push(48 + n as u8);
        proof {
            assert(out@ =~= old(out)@ + dec_digits(n as nat));
        }
    } else {
        push_dec(out, n / 10);
        out.push(48 + (n % 10) as u8);
        proof {
            assert(dec_digits(n as nat) == dec_digits(n as nat / 10).push(
                (48 + n as nat % 10) as u8,
            ));
            assert(n as nat / 10 == (n / 10) as nat);
            assert((48 + n as nat % 10) as u8 == 48 + (n % 10) as u8);
            assert(out@ =~= old(out)@ + dec_digits(n as nat));
        }
    }
}

/// The view of a collection of owned names as a sequence of byte strings.
pub open spec fn names_view(s: Seq<Vec<u8>>) -> Seq<Seq<u8>> {
    s.map_values(|v: Vec<u8>| v@)
}

/// The allocated identifier set of one scope.
pub struct NamePool {
    used: Vec<Vec<u8>>,
}

impl NamePool {
    /// Every identifier this pool has handed out, in allocation order.
    pub closed spec fn used_names(&self) -> Seq<Seq<u8>> {
        names_view(self.used@)
    }

    /// A pool with no allocations yet.
    pub fn new() -> (r: Self)
        ensures
            r.used_names() == Seq::<Seq<u8>>::empty(),
    {
        let r = NamePool { used: Vec::new() };
        proof {
            assert(r.used_names() =~= Seq::<Seq<u8>>::empty());
        }
        r
    }

    fn contains_name(&self, name: &[u8]) -> (r: bool)
        ensures
            r == self.used_names().contains(name@),
    {
        let mut i: usize = 0;
        let n = self.used.len();
        while i < n
            invariant
                0 <= i <= self.used@.len(),
                n == self.used@.len(),
                forall|j: int| 0 <= j < i ==> self.used_names()[j] != name@,
            decreases n - i,
        {
            if bytes_eq(self.used[i].as_slice(), name) {
                proof {
                    assert(self.used_names()[i as int] == name@);
                }
                return true;
            }
            proof {
                assert(self.used_names()[i as int] == self.used@[i as int]@);
            }
            i += 1;
        }
        proof {
            assert forall|j: int| 0 <= j < self.used_names().len()
                implies self.used_names()[j] != name@ by {}
        }
        false
    }

    /// What `allocate` answers, as a function of the pool's state and the
    /// request alone — the determinism half of the pool's contract.
    pub open spec fn spec_allocate(used: Seq<Seq<u8>>, desired: Seq<u8>, dis: Seq<u8>) -> Seq<u8> {
        let base = spec_reserved_rename(desired);
        if !used.contains(base) {
            base
        } else {
            let c1 = base.push(95u8) + dis;
            if !used.contains(c1) {
                c1
            } else {
                first_free_from(used, c1.push(95u8), 1, used.len() + 1)
            }
        }
    }

    /// Allocates a collision-free identifier for `desired` in this scope.
    ///
    /// The answer is a function of the pool's state and the request alone
    /// (deterministic), was never handed out before by this pool (unique),
    /// and is recorded so later requests avoid it.
    pub fn allocate(&mut self, desired: &[u8], dis: &[u8]) -> (r: Vec<u8>)
        ensures
            r@ == Self::spec_allocate(old(self).used_names(), desired@, dis@),
            !old(self).used_names().contains(r@),
            final(self).used_names() == old(self).used_names().push(r@),
    {
        let ghost used = self.used_names();
        let base = reserved_rename(desired);
        if !self.contains_name(base.as_slice()) {
            let copy = bytes_from_slice(base.as_slice());
            self.used.push(copy);
            proof {
                assert(self.used_names() =~= old(self).used_names().push(base@));
            }
            return base;
        }
        let mut c1 = base;
        c1.push(95);
        bytes_push_all(&mut c1, dis);
        proof {
            assert(c1@ == spec_reserved_rename(desired@).push(95u8) + dis@);
        }
        if !self.contains_name(c1.as_slice()) {
            let copy = bytes_from_slice(c1.as_slice());
            self.used.push(copy);
            proof {
                assert(self.used_names() =~= old(self).used_names().push(c1@));
            }
            return c1;
        }
        proof {
            assert(used.contains(spec_reserved_rename(desired@)));
            assert(used.contains(spec_reserved_rename(desired@).push(95u8) + dis@));
        }
        let n = self.used.len();
        let mut prefix = c1;
        prefix.push(95);
        let ghost pfx = prefix@;
        proof {
            assert(used.len() == n as nat);
            assert(pfx == (spec_reserved_rename(desired@).push(95u8) + dis@).push(95u8));
            used.lemma_cardinality_of_set();
            lemma_first_free(used, pfx, 1, (used.len() + 1) as nat, used.to_set());
        }
        let ghost kk = choose|k: nat|
            1 <= k < 1 + (used.len() + 1) && first_free_from(used, pfx, 1, used.len() + 1)
                == cand(pfx, k);
        proof {
            assert(!used.contains(cand(pfx, kk)));
        }
        let mut k: u128 = 1;
        loop
            invariant
                1 <= k <= kk,
                kk < used.len() + 2,
                used.len() == n as nat,
                used == old(self).used_names(),
                used.contains(spec_reserved_rename(desired@)),
                used.contains(spec_reserved_rename(desired@).push(95u8) + dis@),
                pfx == (spec_reserved_rename(desired@).push(95u8) + dis@).push(95u8),
                forall|j: nat| 1 <= j < k ==> used.contains(#[trigger] cand(pfx, j)),
                used == self.used_names(),
                pfx == prefix@,
                self == old(self),
                !used.contains(cand(pfx, kk)),
            decreases kk - k,
        {
            let mut c = bytes_from_slice(prefix.as_slice());
            push_dec(&mut c, k);
            proof {
                assert(c@ == cand(pfx, k as nat));
            }
            if !self.contains_name(c.as_slice()) {
                proof {
                    assert(k as nat - 1 <= used.len() + 1);
                    lemma_first_free_eq(used, pfx, 1, k as nat, used.len() + 1);
                    assert(Self::spec_allocate(used, desired@, dis@) == first_free_from(
                        used,
                        pfx,
                        1,
                        used.len() + 1,
                    ));
                    assert(c@ == Self::spec_allocate(old(self).used_names(), desired@, dis@));
                }
                let copy = bytes_from_slice(c.as_slice());
                self.used.push(copy);
                proof {
                    assert(self.used_names() =~= old(self).used_names().push(c@));
                }
                return c;
            }
            proof {
                assert(used.contains(cand(pfx, k as nat)));
                assert(k as nat != kk);
            }
            k += 1;
        }
    }
}

/// Law (uniqueness): identifiers that a pool hands out are pairwise
/// distinct. Each allocation's answer avoids everything allocated before it,
/// so any trace of allocations — `names[i]` fresh with respect to the pool
/// state that already holds `names[0 .. i]` — contains no repetition.
pub proof fn lemma_allocation_trace_distinct(names: Seq<Seq<u8>>, start: Seq<Seq<u8>>)
    requires
        forall|i: int| 0 <= i < names.len() ==> !(start + names.take(i)).contains(
            #[trigger] names[i],
        ),
    ensures
        forall|i: int, j: int| 0 <= i < j < names.len() ==> names[i] != names[j],
{
    assert forall|i: int, j: int| 0 <= i < j < names.len() implies names[i] != names[j] by {
        if names[i] == names[j] {
            assert(names.take(j)[i] == names[i]);
            assert((start + names.take(j))[start.len() + i] == names[i]);
            assert((start + names.take(j)).contains(names[j]));
        }
    }
}

/// Law (determinism): re-running allocation over a pool in the same state
/// with the same request yields the byte-identical identifier.
pub proof fn lemma_allocate_deterministic(
    p1: NamePool,
    p2: NamePool,
    desired: Seq<u8>,
    dis: Seq<u8>,
)
    requires
        p1.used_names() == p2.used_names(),
    ensures
        NamePool::spec_allocate(p1.used_names(), desired, dis) == NamePool::spec_allocate(
            p2.used_names(),
            desired,
            dis,
        ),
{
}

} // verus!
