use vstd::prelude::*;

verus! {

/// One keyed balance: a token identifier or a holder address, and its amount.
pub struct Entry {
    pub key: Vec<u8>,
    pub amount: u128,
}

/// A store of non-negative balances keyed by byte strings.
/// A key that holds no entry has balance zero.
pub struct Ledger {
    pub entries: Vec<Entry>,
}

/// Sum of the amounts of a sequence of entries.
pub open spec fn sum_entries(s: Seq<Entry>) -> nat
    decreases s.len(),
{
    if s.len() == 0 {
        0
    } else {
        sum_entries(s.drop_last()) + s.last().amount as nat
    }
}

pub proof fn lemma_sum_push(s: Seq<Entry>, e: Entry)
    ensures
        sum_entries(s.push(e)) == sum_entries(s) + e.amount as nat,
{
    assert(s.push(e).drop_last() =~= s);
}

pub proof fn lemma_sum_update(s: Seq<Entry>, i: int, e: Entry)
    requires
        0 <= i < s.len(),
    ensures
        sum_entries(s.update(i, e)) + s[i].amount as nat == sum_entries(s) + e.amount as nat,
    decreases s.len(),
{
    if i == s.len() - 1 {
        assert(s.update(i, e).drop_last() =~= s.drop_last());
    } else {
        assert(s.update(i, e).drop_last() =~= s.drop_last().update(i, e));
        lemma_sum_update(s.drop_last(), i, e);
    }
}

pub proof fn lemma_amount_le_sum(s: Seq<Entry>, i: int)
    requires
        0 <= i < s.len(),
    ensures
        s[i].amount as nat <= sum_entries(s),
    decreases s.len(),
{
    if i < s.len() - 1 {
        lemma_amount_le_sum(s.drop_last(), i);
    }
}

pub fn bytes_eq(a: &Vec<u8>, b: &Vec<u8>) -> (r: bool)
    ensures
        r == (a@ == b@),
{
    if a.len() != b.len() {
        return false;
    }
    let mut i: usize = 0;
    while i < a.len()
        invariant
            a@.len() == b@.len(),
            i <= a@.len(),
            forall|j: int| 0 <= j < i ==> a@[j] == b@[j],
        decreases a@.len() - i,
    {
        if a[i] != b[i] {
            return false;
        }
        i = i + 1;
    }
    assert(a@ =~= b@);
    true
}

impl Ledger {
    /// Keys are unique.
    pub open spec fn wf(&self) -> bool {
        forall|i: int, j: int|
            0 <= i < self.entries@.len() && 0 <= j < self.entries@.len() && i != j
                ==> self.entries@[i].key@ != self.entries@[j].key@
    }

    pub open spec fn has(&self, k: Seq<u8>) -> bool {
        exists|i: int| 0 <= i < self.entries@.len() && self.entries@[i].key@ == k
    }

    /// The balance held under `k`.
    pub open spec fn amount_of(&self, k: Seq<u8>) -> nat {
        if self.has(k) {
            self.entries@[choose|i: int|
                0 <= i < self.entries@.len() && self.entries@[i].key@ == k].amount as nat
        } else {
            0
        }
    }

    /// Sum of all balances.
    pub open spec fn total(&self) -> nat {
        sum_entries(self.entries@)
    }

    pub proof fn lemma_amount_at(&self, i: int)
        requires
            self.wf(),
            0 <= i < self.entries@.len(),
        ensures
            self.amount_of(self.entries@[i].key@) == self.entries@[i].amount,
    {
        let k = self.entries@[i].key@;
        assert(self.has(k));
        let j = choose|j: int| 0 <= j < self.entries@.len() && self.entries@[j].key@ == k;
        assert(i == j);
    }

    pub proof fn lemma_amount_le_total(&self, k: Seq<u8>)
        requires
            self.wf(),
        ensures
            self.amount_of(k) <= self.total(),
    {
        if self.has(k) {
            let j = choose|j: int| 0 <= j < self.entries@.len() && self.entries@[j].key@ == k;
            lemma_amount_le_sum(self.entries@, j);
        }
    }

    pub fn new() -> (r: Ledger)
        ensures
            r.wf(),
            r.total() == 0,
            forall|k: Seq<u8>| r.amount_of(k) == 0,
    {
        Ledger { entries: Vec::new() }
    }

    fn find(&self, k: &Vec<u8>) -> (r: Option<usize>)
        ensures
            match r {
                Some(i) => i < self.entries@.len() && self.entries@[i as int].key@ == k@,
                None => !self.has(k@),
            },
    {
        let mut i: usize = 0;
        while i < self.entries.len()
            invariant
                i <= self.entries@.len(),
                forall|j: int| 0 <= j < i ==> self.entries@[j].key@ != k@,
            decreases self.entries@.len() - i,
        {
            if bytes_eq(&self.entries[i].key, k) {
                return Some(i);
            }
            i = i + 1;
        }
        None
    }

    /// The balance held under `k`.
    pub fn get(&self, k: &Vec<u8>) -> (r: u128)
        requires
            self.wf(),
        ensures
            r as nat == self.amount_of(k@),
    {
        match self.find(k) {
            Some(i) => {
                proof {
                    self.lemma_amount_at(i as int);
                }
                self.entries[i].amount
            },
            None => 0,
        }
    }

    /// Replaces the balance held under `k` by `v`.
    pub fn set(&mut self, k: &Vec<u8>, v: u128)
        requires
            old(self).wf(),
        ensures
            final(self).wf(),
            final(self).amount_of(k@) == v as nat,
            forall|k2: Seq<u8>| k2 != k@ ==> final(self).amount_of(k2) == old(self).amount_of(k2),
            final(self).total() + old(self).amount_of(k@) == old(self).total() + v as nat,
    {
        let ghost s0 = self.entries@;
        match self.find(k) {
            Some(i) => {
                proof {
                    self.lemma_amount_at(i as int);
                }
                let e = Entry { key: k.clone(), amount: v };
                self.entries.set(i, e);
                proof {
                    lemma_sum_update(s0, i as int, self.entries@[i as int]);
                    assert(self.entries@ =~= s0.update(i as int, self.entries@[i as int]));
                    self.lemma_amount_at(i as int);
                    assert forall|k2: Seq<u8>| k2 != k@ implies self.amount_of(k2)
                        == old(self).amount_of(k2) by {
                        if old(self).has(k2) {
                            let j = choose|j: int|
                                0 <= j < s0.len() && s0[j].key@ == k2;
                            old(self).lemma_amount_at(j);
                            self.lemma_amount_at(j);
                        }
                        if self.has(k2) {
                            let j = choose|j: int|
                                0 <= j < self.entries@.len() && self.entries@[j].key@ == k2;
                            assert(old(self).entries@[j].key@ == k2);
                        }
                    }
                }
            },
            None => {
                let e = Entry { key: k.clone(), amount: v };
                self.entries.push(e);
                proof {
                    lemma_sum_push(s0, self.entries@.last());
                    assert(self.entries@ =~= s0.push(self.entries@.last()));
                    let n = s0.len() as int;
                    self.lemma_amount_at(n);
                    assert forall|k2: Seq<u8>| k2 != k@ implies self.amount_of(k2)
                        == old(self).amount_of(k2) by {
                        if old(self).has(k2) {
                            let j = choose|j: int|
                                0 <= j < s0.len() && s0[j].key@ == k2;
                            old(self).lemma_amount_at(j);
                            self.lemma_amount_at(j);
                        }
                        if self.has(k2) {
                            let j = choose|j: int|
                                0 <= j < self.entries@.len() && self.entries@[j].key@ == k2;
                            assert(j != n);
                            assert(old(self).entries@[j].key@ == k2);
                        }
                    }
                }
            },
        }
    }
}

} // verus!
