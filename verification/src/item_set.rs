//! LR(1) items and sets of them.
//!
//! A set is laid out for a given list of rules: it has one flag for each
//! rule, each dot position in that rule and each lookahead. Two sets over the
//! same rules are the same set exactly when their flags agree.

use crate::grammar::{rules_of, Production, Rule};
use crate::token::TokenType;
use vstd::prelude::*;

verus! {

/// An LR(1) item: a production with a dot position and a lookahead token
#[derive(Debug, Clone, Copy, PartialEq, Eq, Hash, Structural)]
pub struct LrItem {
    pub production_id: usize,
    pub dot_position: usize,
    pub lookahead: TokenType,
}

/// The item names a rule and a dot position within or at the end of it.
pub open spec fn item_valid(rules: Seq<Rule>, item: LrItem) -> bool {
    &&& item.production_id < rules.len()
    &&& item.dot_position <= rules[item.production_id as int].rhs.len()
}

/// The lengths of the right-hand sides.
pub open spec fn rule_lengths(rules: Seq<Rule>) -> Seq<nat> {
    Seq::new(rules.len(), |p: int| rules[p].rhs.len())
}

/// How many flags are unset.
pub open spec fn count_false(flags: Seq<bool>) -> nat
    decreases flags.len(),
{
    if flags.len() == 0 {
        0
    } else {
        count_false(flags.drop_last()) + if flags.last() {
            0nat
        } else {
            1nat
        }
    }
}

/// Setting an unset flag lowers the count of unset flags by one.
pub proof fn lemma_count_false_set(flags: Seq<bool>, i: int)
    requires
        0 <= i < flags.len(),
        !flags[i],
    ensures
        count_false(flags.update(i, true)) + 1 == count_false(flags),
    decreases flags.len(),
{
    let updated = flags.update(i, true);
    if i == flags.len() - 1 {
        assert(updated.drop_last() =~= flags.drop_last());
    } else {
        lemma_count_false_set(flags.drop_last(), i);
        assert(updated.drop_last() =~= flags.drop_last().update(i, true));
    }
}

/// A set of LR(1) items over the rules it was made for.
#[derive(Debug, Clone, PartialEq, Eq)]
pub struct ItemSet {
    /// The length of each rule's right-hand side.
    lengths: Vec<usize>,
    /// Where the flags of each rule begin; one more entry for the end.
    offsets: Vec<usize>,
    /// One flag for each rule, dot position and lookahead.
    flags: Vec<bool>,
}

impl View for ItemSet {
    type V = Set<LrItem>;

    closed spec fn view(&self) -> Set<LrItem> {
        Set::new(|item: LrItem| self.admits(item) && self.flags@[self.slot(item)])
    }
}

impl ItemSet {
    /// The layout is consistent.
    pub closed spec fn wf(&self) -> bool {
        &&& self.offsets.len() == self.lengths.len() + 1
        &&& self.offsets[0] == 0
        &&& forall|p: int|
            0 <= p < self.lengths.len() ==>
                #[trigger] self.offsets[p + 1] == self.offsets[p] + 8 * (
            self.lengths[p] + 1)
        &&& self.flags.len() == self.offsets[self.lengths.len() as int]
    }

    /// The lengths of the rules that the set was made for.
    pub closed spec fn layout(&self) -> Seq<nat> {
        Seq::new(self.lengths.len() as nat, |p: int| self.lengths[p] as nat)
    }

    /// The set was made for these rules.
    pub open spec fn fits(&self, rules: Seq<Rule>) -> bool {
        self.wf() && self.layout() == rule_lengths(rules)
    }

    /// The item names a rule and a dot position of the layout.
    pub open spec fn admits(&self, item: LrItem) -> bool {
        &&& item.production_id < self.layout().len()
        &&& item.dot_position <= self.layout()[item.production_id as int]
    }

    /// The position of the item's flag.
    closed spec fn slot(&self, item: LrItem) -> int {
        self.offsets[item.production_id as int] + 8 * item.dot_position + item.lookahead.ordinal()
    }

    /// The flags, which determine the set among those of one layout.
    pub closed spec fn code(&self) -> Seq<bool> {
        self.flags@
    }

    /// How many items of the layout are not in the set.
    pub open spec fn vacancies(&self) -> nat {
        count_false(self.code())
    }

    /// A set made for rules admits the valid items of the rules, and holds no others.
    pub proof fn lemma_fits(&self, rules: Seq<Rule>)
        requires
            self.fits(rules),
        ensures
            forall|item: LrItem| self.admits(item) <==> item_valid(rules, item),
            forall|item: LrItem| self@.contains(item) ==> item_valid(rules, item),
    {
        assert forall|item: LrItem| self.admits(item) <==> item_valid(rules, item) by {
            assert(self.layout().len() == rules.len());
            if item.production_id < rules.len() {
                assert(self.layout()[item.production_id as int] == rule_lengths(
                    rules,
                )[item.production_id as int]);
            }
        }
    }

    proof fn lemma_offsets_monotone(&self, p: int, q: int)
        requires
            self.wf(),
            0 <= p <= q <= self.lengths.len(),
        ensures
            self.offsets[p] <= self.offsets[q],
        decreases q - p,
    {
        if p < q {
            self.lemma_offsets_monotone(p, q - 1);
            assert(self.offsets[(q - 1) + 1]
                == self.offsets[q - 1] + 8 * (self.lengths[q - 1] + 1));
        }
    }

    proof fn lemma_slot_range(&self, item: LrItem)
        requires
            self.wf(),
            self.admits(item),
        ensures
            self.offsets[item.production_id as int] <= self.slot(item) < self.offsets[
                item.production_id + 1],
            0 <= self.slot(item) < self.flags.len(),
    {
        let p = item.production_id as int;
        assert(self.layout()[p] == self.lengths[p]);
        assert(self.offsets[p + 1] == self.offsets[p] + 8 * (self.lengths[p] + 1));
        self.lemma_offsets_monotone(p + 1, self.lengths.len() as int);
    }

    proof fn lemma_slot_injective(&self, a: LrItem, b: LrItem)
        requires
            self.wf(),
            self.admits(a),
            self.admits(b),
            self.slot(a) == self.slot(b),
        ensures
            a == b,
    {
        self.lemma_slot_range(a);
        self.lemma_slot_range(b);
        let p = a.production_id as int;
        let q = b.production_id as int;
        if p < q {
            self.lemma_offsets_monotone(p + 1, q);
        }
        if q < p {
            self.lemma_offsets_monotone(q + 1, p);
        }
        assert(p == q);
        assert(a.lookahead.ordinal() == b.lookahead.ordinal());
        assert(TokenType::at_ordinal(a.lookahead.ordinal()) == a.lookahead);
        assert(TokenType::at_ordinal(b.lookahead.ordinal()) == b.lookahead);
    }

    /// Every flag below the begin of rule `n` belongs to an item.
    proof fn lemma_slot_covered(&self, k: int, n: int) -> (item: LrItem)
        requires
            self.wf(),
            0 <= n <= self.lengths.len(),
            0 <= k < self.offsets[n],
        ensures
            self.admits(item),
            self.slot(item) == k,
        decreases n,
    {
        assert(self.offsets[(n - 1) + 1] == self.offsets[n - 1] + 8 * (self.lengths[n - 1] + 1));
        if k < self.offsets[n - 1] {
            self.lemma_slot_covered(k, n - 1)
        } else {
            let r = k - self.offsets[n - 1];
            let d = r / 8;
            let l = r % 8;
            let item = LrItem {
                production_id: (n - 1) as usize,
                dot_position: d as usize,
                lookahead: TokenType::at_ordinal(l),
            };
            assert(self.layout()[n - 1] == self.lengths[n - 1]);
            assert(TokenType::at_ordinal(l).ordinal() == l);
            item
        }
    }

    /// Among the sets of one layout, equal flags mean equal sets.
    pub proof fn lemma_code_decides(&self, other: &ItemSet)
        requires
            self.wf(),
            other.wf(),
            self.layout() == other.layout(),
        ensures
            (self.code() == other.code()) <==> (self@ == other@),
            self.code().len() == other.code().len(),
    {
        self.lemma_same_layout(other);
        if self.code() == other.code() {
            assert(self@ =~= other@);
        }
        if self@ == other@ {
            assert forall|k: int| 0 <= k < self.flags.len() implies
                self.flags@[k] == other.flags@[k] by {
                let item = self.lemma_slot_covered(k, self.lengths.len() as int);
                assert(self@.contains(item) == other@.contains(item));
            }
            assert(self.flags@ =~= other.flags@);
        }
    }

    proof fn lemma_same_layout(&self, other: &ItemSet)
        requires
            self.wf(),
            other.wf(),
            self.layout() == other.layout(),
        ensures
            self.lengths@ == other.lengths@,
            self.offsets@ == other.offsets@,
            self.flags.len() == other.flags.len(),
    {
        assert(self.lengths.len() == self.layout().len());
        assert(other.lengths.len() == other.layout().len());
        assert forall|p: int| 0 <= p < self.lengths.len() implies
            self.lengths@[p] == other.lengths@[p] by {
            assert(self.layout()[p] == self.lengths[p]);
            assert(other.layout()[p] == other.lengths[p]);
        }
        assert(self.lengths@ =~= other.lengths@);
        self.lemma_same_offsets(other, self.lengths.len() as int);
        assert(self.offsets@ =~= other.offsets@);
    }

    proof fn lemma_same_offsets(&self, other: &ItemSet, n: int)
        requires
            self.wf(),
            other.wf(),
            self.lengths@ == other.lengths@,
            0 <= n <= self.lengths.len(),
        ensures
            forall|p: int| 0 <= p <= n ==> self.offsets@[p] == other.offsets@[p],
        decreases n,
    {
        if n > 0 {
            self.lemma_same_offsets(other, n - 1);
            assert(self.offsets[(n - 1) + 1]
                == self.offsets[n - 1] + 8 * (self.lengths[n - 1] + 1));
            assert(other.offsets[(n - 1) + 1]
                == other.offsets[n - 1] + 8 * (other.lengths[n - 1] + 1));
        }
    }

    /// The number of flags of a layout.
    pub open spec fn code_len(layout: Seq<nat>) -> nat
        decreases layout.len(),
    {
        if layout.len() == 0 {
            0
        } else {
            ItemSet::code_len(layout.drop_last()) + 8 * (layout.last() + 1)
        }
    }

    proof fn lemma_offsets_sum(&self, n: int)
        requires
            self.wf(),
            0 <= n <= self.lengths.len(),
        ensures
            self.offsets[n] == ItemSet::code_len(self.layout().take(n)),
        decreases n,
    {
        if n > 0 {
            self.lemma_offsets_sum(n - 1);
            assert(self.offsets[(n - 1) + 1]
                == self.offsets[n - 1] + 8 * (self.lengths[n - 1] + 1));
            assert(self.layout().take(n).drop_last() =~= self.layout().take(n - 1));
            assert(self.layout().take(n).last() == self.lengths[n - 1]);
        }
    }

    /// The number of flags is given by the layout.
    pub proof fn lemma_code_len(&self)
        requires
            self.wf(),
        ensures
            self.code().len() == ItemSet::code_len(self.layout()),
    {
        self.lemma_offsets_sum(self.lengths.len() as int);
        assert(self.layout().take(self.lengths.len() as int) =~= self.layout());
    }

    /// The empty set over the rules of the productions.
    pub fn new(productions: &Vec<Production>) -> (set: ItemSet)
        ensures
            set.fits(rules_of(productions@)),
            set@ == Set::<LrItem>::empty(),
    {
        let mut lengths: Vec<usize> = Vec::new();
        let mut offsets: Vec<usize> = Vec::new();
        let mut flags: Vec<bool> = Vec::new();
        offsets.push(0);
        let mut p: usize = 0;
        while p < productions.len()
            invariant
                p <= productions.len(),
                lengths.len() == p,
                offsets.len() == p + 1,
                offsets[0] == 0,
                forall|q: int| 0 <= q < p ==>
                    #[trigger] offsets[q + 1] == offsets[q] + 8 * (lengths[q] + 1),
                forall|q: int| 0 <= q < p ==> #[trigger] lengths[q] == productions[q].rhs.len(),
                flags.len() == offsets[p as int],
                forall|k: int| 0 <= k < flags.len() ==> !(#[trigger] flags[k]),
            decreases productions.len() - p,
        {
            let n = productions[p].rhs.len();
            let ghost base = flags.len();
            let mut d: usize = 0;
            while d < n
                invariant
                    d <= n,
                    flags.len() == base + 8 * d,
                    forall|k: int| 0 <= k < flags.len() ==> !(#[trigger] flags[k]),
                decreases n - d,
            {
                ItemSet::push_eight(&mut flags);
                d += 1;
            }
            ItemSet::push_eight(&mut flags);
            lengths.push(n);
            offsets.push(flags.len());
            p += 1;
        }
        let set = ItemSet { lengths, offsets, flags };
        proof {
            assert(set.layout() =~= rule_lengths(rules_of(productions@)));
            assert forall|item: LrItem| !set@.contains(item) by {
                if set.admits(item) {
                    set.lemma_slot_range(item);
                }
            }
            assert(set@ =~= Set::<LrItem>::empty());
        }
        set
    }

    fn push_eight(flags: &mut Vec<bool>)
        requires
            forall|k: int| 0 <= k < old(flags).len() ==> !(#[trigger] old(flags)[k]),
        ensures
            final(flags).len() == old(flags).len() + 8,
            forall|k: int| 0 <= k < final(flags).len() ==> !(#[trigger] final(flags)[k]),
    {
        let mut j: usize = 0;
        while j < 8
            invariant
                j <= 8,
                flags.len() == old(flags).len() + j,
                forall|k: int| 0 <= k < flags.len() ==> !(#[trigger] flags[k]),
            decreases 8 - j,
        {
            flags.push(false);
            j += 1;
        }
    }

    /// Whether the item names a rule and a dot position of the layout.
    pub fn accepts(&self, item: &LrItem) -> (ok: bool)
        requires
            self.wf(),
        ensures
            ok == self.admits(*item),
    {
        if item.production_id < self.lengths.len() {
            assert(self.layout()[item.production_id as int]
                == self.lengths[item.production_id as int]);
            item.dot_position <= self.lengths[item.production_id]
        } else {
            false
        }
    }

    fn slot_of(&self, item: &LrItem) -> (k: usize)
        requires
            self.wf(),
            self.admits(*item),
        ensures
            k == self.slot(*item),
            k < self.flags.len(),
    {
        proof {
            self.lemma_slot_range(*item);
            let p = item.production_id as int;
            assert(self.layout()[p] == self.lengths[p]);
            assert(self.offsets[p + 1] == self.offsets[p] + 8 * (self.lengths[p] + 1));
        }
        self.offsets[item.production_id] + 8 * item.dot_position + item.lookahead.index()
    }

    /// Adds an item; tells whether it was new.
    pub fn insert(&mut self, item: LrItem) -> (added: bool)
        requires
            old(self).wf(),
            old(self).admits(item),
        ensures
            final(self).wf(),
            final(self).layout() == old(self).layout(),
            final(self)@ == old(self)@.insert(item),
            added == !old(self)@.contains(item),
            added ==> final(self).vacancies() + 1 == old(self).vacancies(),
            !added ==> *final(self) == *old(self),
    {
        let k = self.slot_of(&item);
        let was = self.flags[k];
        if was {
            assert(self@.contains(item));
            assert(self@ =~= old(self)@.insert(item));
            return false;
        }
        self.flags.set(k, true);
        proof {
            lemma_count_false_set(old(self).flags@, k as int);
            assert(self.layout() =~= old(self).layout());
            assert forall|other: LrItem| self@.contains(other) == old(self)@.insert(item).contains(
                other,
            ) by {
                if old(self).admits(other) && other != item {
                    old(self).lemma_slot_range(other);
                    if old(self).slot(other) == old(self).slot(item) {
                        old(self).lemma_slot_injective(other, item);
                    }
                }
            }
            assert(self@ =~= old(self)@.insert(item));
        }
        true
    }

    /// Whether the item is in the set.
    pub fn contains(&self, item: &LrItem) -> (found: bool)
        requires
            self.wf(),
        ensures
            found == self@.contains(*item),
    {
        if self.accepts(item) {
            let k = self.slot_of(item);
            self.flags[k]
        } else {
            false
        }
    }

    /// Whether both sets hold the same items.
    pub fn same(&self, other: &ItemSet) -> (equal: bool)
        requires
            self.wf(),
            other.wf(),
            self.layout() == other.layout(),
        ensures
            equal == (self@ == other@),
    {
        proof {
            self.lemma_code_decides(other);
        }
        let mut k: usize = 0;
        while k < self.flags.len()
            invariant
                k <= self.flags.len(),
                self.flags.len() == other.flags.len(),
                (self.code() == other.code()) <==> (self@ == other@),
                forall|j: int| 0 <= j < k ==> #[trigger] self.flags@[j] == other.flags@[j],
            decreases self.flags.len() - k,
        {
            if self.flags[k] != other.flags[k] {
                assert(self.code()[k as int] != other.code()[k as int]);
                return false;
            }
            k += 1;
        }
        assert(self.flags@ =~= other.flags@);
        true
    }

    /// The items among the first `n` flags.
    closed spec fn upto(&self, n: int) -> Set<LrItem> {
        Set::new(
            |item: LrItem| self.admits(item) && self.slot(item) < n && self.flags@[self.slot(item)],
        )
    }

    proof fn lemma_upto(&self, n: int)
        requires
            self.wf(),
            0 <= n <= self.flags.len(),
        ensures
            self.upto(n).finite(),
            self.upto(n).len() + count_false(self.flags@.take(n)) == n,
        decreases n,
    {
        if n == 0 {
            assert forall|item: LrItem| !self.upto(0).contains(item) by {
                if self.admits(item) {
                    self.lemma_slot_range(item);
                }
            }
            assert(self.upto(0) =~= Set::<LrItem>::empty());
            assert(self.flags@.take(0) =~= Seq::<bool>::empty());
        } else {
            self.lemma_upto(n - 1);
            let last = self.lemma_slot_covered(n - 1, self.lengths.len() as int);
            let next = self.flags@.take(n);
            assert(next.drop_last() =~= self.flags@.take(n - 1));
            assert(next.last() == self.flags@[n - 1]);
            if self.flags@[n - 1] {
                assert forall|item: LrItem|
                    self.upto(n).contains(item) == self.upto(n - 1).insert(last).contains(item) by {
                    if self.admits(item) && self.slot(item) == n - 1 {
                        self.lemma_slot_injective(item, last);
                    }
                }
                assert(self.upto(n) =~= self.upto(n - 1).insert(last));
            } else {
                assert(self.upto(n) =~= self.upto(n - 1));
            }
        }
    }

    /// The set is finite, and it has as many items as flags are set.
    pub proof fn lemma_len(&self)
        requires
            self.wf(),
        ensures
            self@.finite(),
            self@.len() + self.vacancies() == self.code().len(),
    {
        let n = self.flags.len() as int;
        self.lemma_upto(n);
        assert forall|item: LrItem| self@.contains(item) == self.upto(n).contains(item) by {
            if self.admits(item) {
                self.lemma_slot_range(item);
            }
        }
        assert(self@ =~= self.upto(n));
        assert(self.flags@.take(n) =~= self.flags@);
    }

    /// How many items the set holds.
    pub fn len(&self) -> (n: usize)
        requires
            self.wf(),
        ensures
            self@.finite(),
            n == self@.len(),
    {
        let mut n: usize = 0;
        let mut k: usize = 0;
        proof {
            self.lemma_len();
            assert(self.flags@.take(0) =~= Seq::<bool>::empty());
        }
        while k < self.flags.len()
            invariant
                k <= self.flags.len(),
                n + count_false(self.flags@.take(k as int)) == k,
            decreases self.flags.len() - k,
        {
            proof {
                let next = self.flags@.take(k + 1);
                assert(next.drop_last() =~= self.flags@.take(k as int));
                assert(next.last() == self.flags@[k as int]);
            }
            if self.flags[k] {
                n += 1;
            }
            k += 1;
        }
        proof {
            self.lemma_len();
            assert(self.flags@.take(k as int) =~= self.flags@);
        }
        n
    }

    /// Whether the set holds no item.
    pub fn is_empty(&self) -> (empty: bool)
        requires
            self.wf(),
        ensures
            empty == (self@ == Set::<LrItem>::empty()),
    {
        let n = self.len();
        proof {
            if n == 0 {
                self@.lemma_len0_is_empty();
            }
        }
        n == 0
    }

    /// A set with the same layout and items.
    pub fn duplicate(&self) -> (copy: ItemSet)
        ensures
            copy@ == self@,
            copy.wf() == self.wf(),
            copy.layout() == self.layout(),
            copy.code() == self.code(),
    {
        let mut lengths: Vec<usize> = Vec::new();
        let mut offsets: Vec<usize> = Vec::new();
        let mut flags: Vec<bool> = Vec::new();
        let mut i: usize = 0;
        while i < self.lengths.len()
            invariant
                i <= self.lengths.len(),
                lengths@ == self.lengths@.take(i as int),
            decreases self.lengths.len() - i,
        {
            lengths.push(self.lengths[i]);
            assert(lengths@ =~= self.lengths@.take(i + 1));
            i += 1;
        }
        let mut i: usize = 0;
        while i < self.offsets.len()
            invariant
                i <= self.offsets.len(),
                offsets@ == self.offsets@.take(i as int),
            decreases self.offsets.len() - i,
        {
            offsets.push(self.offsets[i]);
            assert(offsets@ =~= self.offsets@.take(i + 1));
            i += 1;
        }
        let mut i: usize = 0;
        while i < self.flags.len()
            invariant
                i <= self.flags.len(),
                flags@ == self.flags@.take(i as int),
            decreases self.flags.len() - i,
        {
            flags.push(self.flags[i]);
            assert(flags@ =~= self.flags@.take(i + 1));
            i += 1;
        }
        assert(lengths@ =~= self.lengths@);
        assert(offsets@ =~= self.offsets@);
        assert(flags@ =~= self.flags@);
        let copy = ItemSet { lengths, offsets, flags };
        assert(copy.layout() =~= self.layout());
        assert(copy@ =~= self@);
        copy
    }
}

/// All sequences of `n` flags.
pub open spec fn all_codes(n: nat) -> Set<Seq<bool>>
    decreases n,
{
    if n == 0 {
        set![Seq::<bool>::empty()]
    } else {
        all_codes((n - 1) as nat).map(|s: Seq<bool>| s.push(false)).union(
            all_codes((n - 1) as nat).map(|s: Seq<bool>| s.push(true)),
        )
    }
}

/// There are finitely many sequences of `n` flags, and `all_codes` holds
/// each of them.
pub proof fn lemma_all_codes(n: nat)
    ensures
        all_codes(n).finite(),
        forall|s: Seq<bool>| s.len() == n ==> #[trigger] all_codes(n).contains(s),
    decreases n,
{
    if n == 0 {
        assert forall|s: Seq<bool>| s.len() == 0 implies all_codes(0).contains(s) by {
            assert(s =~= Seq::<bool>::empty());
        }
    } else {
        let shorter = all_codes((n - 1) as nat);
        lemma_all_codes((n - 1) as nat);
        let with_false = |s: Seq<bool>| s.push(false);
        let with_true = |s: Seq<bool>| s.push(true);
        shorter.lemma_map_finite(with_false);
        shorter.lemma_map_finite(with_true);
        vstd::set_lib::lemma_set_union_finite_iff(shorter.map(with_false), shorter.map(with_true));
        assert forall|s: Seq<bool>| s.len() == n implies all_codes(n).contains(s) by {
            let front = s.drop_last();
            assert(front.len() == n - 1);
            assert(all_codes((n - 1) as nat).contains(front));
            if s.last() {
                assert(s =~= with_true(front));
                assert(shorter.map(with_true).contains(s));
            } else {
                assert(s =~= with_false(front));
                assert(shorter.map(with_false).contains(s));
            }
        }
    }
}

} // verus!
