//! Identifiers handed out by a wide counter with carry.

use vstd::prelude::*;

verus! {

/// The number of values of one limb: 2^128.
pub open spec fn limb_base() -> nat {
    (u128::MAX + 1) as nat
}

/// The value that a little-endian sequence of 128-bit limbs stands for.
pub open spec fn limbs_value(limbs: Seq<u128>) -> nat
    decreases limbs.len(),
{
    if limbs.len() == 0 {
        0
    } else {
        limbs[0] as nat + limb_base() * limbs_value(limbs.drop_first())
    }
}

/// The weight of the limb at `index`: 2^128 to the power `index`.
pub open spec fn limb_weight(index: nat) -> nat
    decreases index,
{
    if index == 0 {
        1
    } else {
        limb_base() * limb_weight((index - 1) as nat)
    }
}

/// Replacing one limb moves the value by the difference times the limb's weight.
pub proof fn lemma_update_limb(limbs: Seq<u128>, index: int, limb: u128)
    requires
        0 <= index < limbs.len(),
    ensures
        limbs_value(limbs.update(index, limb)) + limbs[index] * limb_weight(index as nat)
            == limbs_value(limbs) + limb * limb_weight(index as nat),
    decreases limbs.len(),
{
    let base = limb_base() as int;
    let changed = limbs.update(index, limb);
    let rest = limbs.drop_first();
    if index == 0 {
        assert(changed.drop_first() =~= rest);
        assert(limb_weight(0) == 1);
        assert(limbs[0] * 1 == limbs[0] && limb * 1 == limb);
    } else {
        lemma_update_limb(rest, index - 1, limb);
        assert(changed.drop_first() =~= rest.update(index - 1, limb));
        let w = limb_weight((index - 1) as nat) as int;
        let a = limbs_value(rest.update(index - 1, limb)) as int;
        let b = limbs_value(rest) as int;
        let x = limbs[index] as int;
        let y = limb as int;
        let weight = limb_weight(index as nat) as int;
        assert(weight == base * w);
        assert(limbs_value(changed) == limbs[0] + base * a);
        assert(limbs_value(limbs) == limbs[0] + base * b);
        assert(rest[index - 1] == limbs[index]);
        assert(a + x * w == b + y * w);
        assert(base * a + x * weight == base * b + y * weight) by (nonlinear_arith)
            requires
                a + x * w == b + y * w,
                weight == base * w,
        ;
    }
}

/// A sequence of limbs stands for a value below the weight of its length, and
/// for the largest such value exactly when every limb is at its maximum.
pub proof fn lemma_value_bound(limbs: Seq<u128>)
    ensures
        limbs_value(limbs) + 1 <= limb_weight(limbs.len()),
        limbs_value(limbs) + 1 == limb_weight(limbs.len()) <==> forall|i: int|
            0 <= i < limbs.len() ==> limbs[i] == u128::MAX,
    decreases limbs.len(),
{
    if limbs.len() > 0 {
        let rest = limbs.drop_first();
        lemma_value_bound(rest);
        let v = limbs_value(rest);
        let w = limb_weight(rest.len());
        let base = limb_base();
        assert(limb_weight(limbs.len()) == base * w);
        assert(limbs_value(limbs) == limbs[0] as nat + base * v);
        assert(base * v + base <= base * w) by (nonlinear_arith)
            requires
                v + 1 <= w,
        ;
        assert(v + 1 == w ==> base * v + base == base * w) by (nonlinear_arith);
        assert(v + 1 < w ==> base * v + base + base <= base * w) by (nonlinear_arith);
        if limbs_value(limbs) + 1 == limb_weight(limbs.len()) {
            assert(limbs[0] == u128::MAX && v + 1 == w);
            assert forall|i: int| 0 <= i < limbs.len() implies limbs[i] == u128::MAX by {
                if i > 0 {
                    assert(limbs[i] == rest[i - 1]);
                }
            }
        }
        if forall|i: int| 0 <= i < limbs.len() ==> limbs[i] == u128::MAX {
            assert forall|i: int| 0 <= i < rest.len() implies rest[i] == u128::MAX by {
                assert(rest[i] == limbs[i + 1]);
            }
        }
    }
}

/// Limbs that are all zero stand for zero.
pub proof fn lemma_zero_limbs(limbs: Seq<u128>)
    requires
        forall|i: int| 0 <= i < limbs.len() ==> limbs[i] == 0,
    ensures
        limbs_value(limbs) == 0,
    decreases limbs.len(),
{
    if limbs.len() > 0 {
        let rest = limbs.drop_first();
        assert forall|i: int| 0 <= i < rest.len() implies rest[i] == 0 by {
            assert(rest[i] == limbs[i + 1]);
        }
        lemma_zero_limbs(rest);
        assert(limb_base() * 0 == 0);
    }
}

/// Sequences of limbs of one length that stand for the same value are the
/// same sequence.
pub proof fn lemma_value_names_limbs(a: Seq<u128>, b: Seq<u128>)
    requires
        a.len() == b.len(),
        limbs_value(a) == limbs_value(b),
    ensures
        a == b,
    decreases a.len(),
{
    if a.len() > 0 {
        let base = limb_base() as int;
        let x = a[0] as int;
        let y = b[0] as int;
        let v = limbs_value(a.drop_first()) as int;
        let w = limbs_value(b.drop_first()) as int;
        assert(x + base * v == y + base * w);
        assert(v == w) by (nonlinear_arith)
            requires
                x + base * v == y + base * w,
                0 <= x < base,
                0 <= y < base,
                0 <= v,
                0 <= w,
        ;
        lemma_value_names_limbs(a.drop_first(), b.drop_first());
        assert forall|i: int| 0 <= i < a.len() implies a[i] == b[i] by {
            if i > 0 {
                assert(a[i] == a.drop_first()[i - 1]);
                assert(b[i] == b.drop_first()[i - 1]);
            }
        }
    }
    assert(a =~= b);
}

/// How many identifiers one counter can hand out: 2^2048 less one.
pub open spec fn symbol_limit() -> nat {
    (limb_weight(16) - 1) as nat
}

/// The limit leaves room for more identifiers than any program will ask for.
pub proof fn lemma_limit_is_large()
    ensures
        symbol_limit() >= u128::MAX,
{
    reveal_with_fuel(limb_weight, 17);
    let base = limb_base();
    assert forall|index: nat| limb_weight(index) >= 1 by {
        lemma_weight_positive(index);
    }
    assert(limb_weight(16) == base * limb_weight(15));
    assert(base * limb_weight(15) >= base) by (nonlinear_arith)
        requires
            limb_weight(15) >= 1,
    ;
}

/// Every limb has a weight of at least one.
pub proof fn lemma_weight_positive(index: nat)
    ensures
        limb_weight(index) >= 1,
    decreases index,
{
    if index > 0 {
        lemma_weight_positive((index - 1) as nat);
        assert(limb_base() * limb_weight((index - 1) as nat) >= 1) by (nonlinear_arith)
            requires
                limb_base() >= 1,
                limb_weight((index - 1) as nat) >= 1,
        ;
    }
}

/// A counter of sixteen 128-bit limbs, least significant first.
#[derive(Clone, Copy)]
pub struct CounterStruct {
    limbs: [u128; 16],
}

impl CounterStruct {
    /// The limbs, least significant first.
    pub closed spec fn limbs(&self) -> Seq<u128> {
        self.limbs@
    }

    /// The number of values handed out so far.
    pub open spec fn value(&self) -> nat {
        limbs_value(self.limbs())
    }

    /// A counter never stands above the limit.
    pub proof fn lemma_within_limit(&self)
        ensures
            self.value() <= symbol_limit(),
    {
        lemma_value_bound(self.limbs@);
    }

    /// A counter that has handed out nothing: every limb is zero.
    pub fn new() -> (counter: Self)
        ensures
            counter.limbs() == Seq::new(16, |i: int| 0u128),
            counter.value() == 0,
    {
        let limbs: [u128; 16] = [0; 16];
        proof {
            assert(limbs == vstd::array::spec_array_fill_for_copy_type::<u128, 16>(0));
            lemma_zero_limbs(limbs@);
            assert(limbs@ =~= Seq::new(16, |i: int| 0u128));
        }
        CounterStruct { limbs }
    }

    /// A counter that stands at the value of `limbs`, least significant first.
    pub fn from_limbs(limbs: [u128; 16]) -> (counter: Self)
        ensures
            counter.limbs() == limbs@,
    {
        CounterStruct { limbs }
    }

    /// Whether the counter stands at the limit, where it can hand out nothing more.
    pub fn is_exhausted(&self) -> (r: bool)
        ensures
            r == (self.value() == symbol_limit()),
    {
        proof {
            lemma_value_bound(self.limbs@);
        }
        let mut pos: usize = 0;
        while pos < 16
            invariant
                pos <= 16,
                forall|j: int| 0 <= j < pos ==> self.limbs@[j] == u128::MAX,
                self.value() == symbol_limit() <==> forall|i: int|
                    0 <= i < 16 ==> self.limbs@[i] == u128::MAX,
            decreases 16 - pos,
        {
            if self.limbs[pos] != u128::MAX {
                assert(self.limbs@[pos as int] != u128::MAX);
                return false;
            }
            pos += 1;
        }
        true
    }

    /// Hands out the current value and steps the counter by one, carrying from
    /// limb to limb.
    pub fn get_and_add_one(&mut self) -> (out: [u128; 16])
        requires
            old(self).value() < symbol_limit(),
        ensures
            out@ == old(self).limbs(),
            final(self).value() == old(self).value() + 1,
    {
        proof {
            lemma_value_bound(self.limbs@);
        }
        let out = self.limbs;
        let mut pos: usize = 0;
        while self.limbs[pos] == u128::MAX
            invariant
                pos < 16,
                exists|j: int| 0 <= j < 16 && old(self).limbs@[j] != u128::MAX,
                forall|j: int| 0 <= j < pos ==> old(self).limbs@[j] == u128::MAX,
                forall|j: int| pos <= j < 16 ==> self.limbs@[j] == old(self).limbs@[j],
                limbs_value(self.limbs@) + limb_weight(pos as nat) == limbs_value(
                    old(self).limbs@,
                ) + 1,
            decreases 16 - pos,
        {
            proof {
                let w = limb_weight(pos as nat);
                lemma_update_limb(self.limbs@, pos as int, 0);
                assert(limb_weight((pos + 1) as nat) == limb_base() * w);
                assert(limb_base() * w == u128::MAX * w + w) by (nonlinear_arith)
                    requires
                        limb_base() == u128::MAX + 1,
                ;
                assert(0 * w == 0);
            }
            self.limbs[pos] = 0;
            pos += 1;
        }
        proof {
            let limb = self.limbs@[pos as int];
            let w = limb_weight(pos as nat);
            lemma_update_limb(self.limbs@, pos as int, (limb + 1) as u128);
            assert((limb + 1) * w == limb * w + w) by (nonlinear_arith);
        }
        self.limbs[pos] = self.limbs[pos] + 1;
        out
    }
}

impl Default for CounterStruct {
    /// A counter that has handed out nothing.
    fn default() -> (counter: Self)
        ensures
            counter.limbs() == Seq::new(16, |i: int| 0u128),
            counter.value() == 0,
    {
        CounterStruct::new()
    }
}

/// An identifier: the value that a counter stood at when it was handed out.
#[derive(Debug, Hash)]
pub struct Symbol {
    limbs: [u128; 16],
}

impl Symbol {
    /// The limbs, least significant first.
    pub closed spec fn limbs(&self) -> Seq<u128> {
        self.limbs@
    }

    /// The counter value that this identifier stands for.
    pub open spec fn value(&self) -> nat {
        limbs_value(self.limbs())
    }

    /// Identifiers are equal exactly when they stand for the same value: a
    /// counter value names one identifier, and identifiers taken from one
    /// counter at different times differ.
    pub proof fn law_value_names_symbol(&self, other: &Symbol)
        ensures
            (self.value() == other.value()) == (*self == *other),
    {
        if self.value() == other.value() {
            lemma_value_names_limbs(self.limbs@, other.limbs@);
            assert(self.limbs =~= other.limbs);
        }
    }

    /// Takes the next identifier from `counter`.
    pub fn new(counter: &mut CounterStruct) -> (symbol: Self)
        requires
            old(counter).value() < symbol_limit(),
        ensures
            symbol.limbs() == old(counter).limbs(),
            symbol.value() == old(counter).value(),
            final(counter).value() == old(counter).value() + 1,
    {
        Symbol { limbs: counter.get_and_add_one() }
    }
}

impl PartialEq for Symbol {
    /// Compares limb by limb.
    fn eq(&self, other: &Symbol) -> (r: bool) {
        let mut pos: usize = 0;
        while pos < 16
            invariant
                pos <= 16,
                forall|j: int| 0 <= j < pos ==> self.limbs@[j] == other.limbs@[j],
            decreases 16 - pos,
        {
            if self.limbs[pos] != other.limbs[pos] {
                return false;
            }
            pos += 1;
        }
        assert(self.limbs =~= other.limbs);
        true
    }
}

impl Eq for Symbol {}

impl Clone for Symbol {
    /// The same identifier again.
    fn clone(&self) -> (copy: Self)
        ensures
            copy == *self,
    {
        Symbol { limbs: self.limbs }
    }
}

impl vstd::std_specs::cmp::PartialEqSpecImpl for Symbol {
    /// `==` on identifiers is held to `eq_spec`.
    open spec fn obeys_eq_spec() -> bool {
        true
    }

    /// `==` on identifiers means that they are the same identifier.
    open spec fn eq_spec(&self, other: &Symbol) -> bool {
        *self == *other
    }
}

} // verus!
