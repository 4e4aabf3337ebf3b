//! The repack pass: a single ascending sweep that collapses every run of
//! consecutive elements into one merged element, folded left to right.

use crate::iter::collect_vals;
use crate::rb::all_keys_gt;
use crate::rb::ascending;
use crate::rb::lemma_ins_seq_append;
use crate::rb::seq_has_key;
use crate::tree::RBTreeSet;
use crate::Consecutive;
use vstd::prelude::*;

verus! {

/// One step state of the sweep: `lastv` is the last original element of
/// the current run, `accm` the fold of the run so far, `s` what is left to
/// visit. Yields the packed remainder of the sequence.
pub open spec fn repack_go<T: Consecutive>(lastv: T, accm: T, s: Seq<T>) -> Seq<T>
    decreases s.len(),
{
    if s.len() == 0 {
        seq![accm]
    } else if lastv.consec(&s[0]) {
        repack_go(s[0], accm.merge_spec(&s[0]), s.drop_first())
    } else {
        seq![accm] + repack_go(s[0], s[0], s.drop_first())
    }
}

/// The result of one greedy left-to-right repack sweep over `s`.
pub open spec fn repacked<T: Consecutive>(s: Seq<T>) -> Seq<T> {
    if s.len() == 0 {
        s
    } else {
        repack_go(s[0], s[0], s.drop_first())
    }
}

/// Every adjacent pair of the sequence is consecutive.
pub open spec fn all_consecutive<T: Consecutive>(s: Seq<T>) -> bool {
    forall|i: int, j: int| 0 <= i && j == i + 1 && j < s.len() ==> #[trigger] s[i].consec(&s[j])
}

/// No adjacent pair of the sequence is consecutive.
pub open spec fn none_consecutive<T: Consecutive>(s: Seq<T>) -> bool {
    forall|i: int, j: int|
        0 <= i && j == i + 1 && j < s.len() ==> !(#[trigger] s[i].consec(&s[j]))
}

/// The left fold of `acc` with every element of `s` through the merge.
pub open spec fn fold_run<T: Consecutive>(acc: T, s: Seq<T>) -> T
    decreases s.len(),
{
    if s.len() == 0 {
        acc
    } else {
        fold_run(acc.merge_spec(&s[0]), s.drop_first())
    }
}

/// A sweep over an ascending remainder yields an ascending sequence whose
/// first key is the accumulator's.
proof fn lemma_repack_go_sorted<T: Consecutive>(lastv: T, accm: T, s: Seq<T>)
    requires
        ascending(s),
        accm.key() <= lastv.key(),
        all_keys_gt(s, lastv.key()),
    ensures
        ascending(repack_go(lastv, accm, s)),
        repack_go(lastv, accm, s).len() >= 1,
        repack_go(lastv, accm, s)[0].key() == accm.key(),
    decreases s.len(),
{
    if s.len() == 0 {
    } else {
        let s1 = s.drop_first();
        assert forall|i: int, j: int| 0 <= i < j < s1.len() implies s1[i].key() < s1[j].key() by {
            assert(s1[i] == s[i + 1] && s1[j] == s[j + 1]);
        }
        assert forall|i: int| 0 <= i < s1.len() implies #[trigger] s1[i].key() > s[0].key() by {
            assert(s1[i] == s[i + 1]);
        }
        if lastv.consec(&s[0]) {
            accm.lemma_merge_key(&s[0]);
            lemma_repack_go_sorted(s[0], accm.merge_spec(&s[0]), s1);
        } else {
            lemma_repack_go_sorted(s[0], s[0], s1);
            let r1 = repack_go(s[0], s[0], s1);
            let r = seq![accm] + r1;
            assert(r[0] == accm);
            assert forall|i: int, j: int| 0 <= i < j < r.len() implies r[i].key() < r[j].key() by {
                if i > 0 {
                    assert(r[i] == r1[i - 1] && r[j] == r1[j - 1]);
                } else {
                    assert(r[j] == r1[j - 1]);
                    assert(r1[0].key() <= r1[j - 1].key());
                }
            }
        }
    }
}

/// One sweep over a strictly ascending sequence yields a strictly
/// ascending sequence.
pub proof fn lemma_repacked_sorted<T: Consecutive>(s: Seq<T>)
    requires
        ascending(s),
    ensures
        ascending(repacked(s)),
    decreases s.len(),
{
    if s.len() > 0 {
        let s1 = s.drop_first();
        assert forall|i: int, j: int| 0 <= i < j < s1.len() implies s1[i].key() < s1[j].key() by {
            assert(s1[i] == s[i + 1] && s1[j] == s[j + 1]);
        }
        assert forall|i: int| 0 <= i < s1.len() implies #[trigger] s1[i].key() > s[0].key() by {
            assert(s1[i] == s[i + 1]);
        }
        lemma_repack_go_sorted(s[0], s[0], s1);
    }
}

/// Law: over a run that stays consecutive throughout, the sweep folds
/// everything into the accumulator.
proof fn lemma_repack_go_run<T: Consecutive>(lastv: T, accm: T, s: Seq<T>)
    requires
        s.len() > 0 ==> lastv.consec(&s[0]),
        all_consecutive(s),
    ensures
        repack_go(lastv, accm, s) == seq![fold_run(accm, s)],
    decreases s.len(),
{
    if s.len() == 0 {
    } else {
        let s1 = s.drop_first();
        assert forall|i: int, j: int| 0 <= i && j == i + 1 && j < s1.len() implies #[trigger] s1[i].consec(&s1[j]) by {
            assert(s1[i] == s[i + 1] && s1[j] == s[j + 1]);
            assert(s[i + 1].consec(&s[j + 1]));
        }
        if s1.len() > 0 {
            assert(s[0].consec(&s[1]));
            assert(s1[0] == s[1]);
        }
        lemma_repack_go_run(s[0], accm.merge_spec(&s[0]), s1);
    }
}

/// Law: repack applied to a non-empty run of strictly consecutive
/// elements reduces it to the single element folding the whole run, left
/// to right.
pub proof fn lemma_repack_merges_run<T: Consecutive>(s: Seq<T>)
    requires
        s.len() > 0,
        all_consecutive(s),
    ensures
        repacked(s) == seq![fold_run(s[0], s.drop_first())],
{
    let s1 = s.drop_first();
    assert forall|i: int, j: int| 0 <= i && j == i + 1 && j < s1.len() implies #[trigger] s1[i].consec(&s1[j]) by {
        assert(s1[i] == s[i + 1] && s1[j] == s[j + 1]);
        assert(s[i + 1].consec(&s[j + 1]));
    }
    if s1.len() > 0 {
        assert(s[0].consec(&s[1]));
        assert(s1[0] == s[1]);
    }
    lemma_repack_go_run(s[0], s[0], s1);
}

/// Over a remainder with no consecutive step anywhere, the sweep copies
/// the accumulator and then the remainder unchanged.
proof fn lemma_repack_go_no_op<T: Consecutive>(lastv: T, accm: T, s: Seq<T>)
    requires
        s.len() > 0 ==> !lastv.consec(&s[0]),
        none_consecutive(s),
    ensures
        repack_go(lastv, accm, s) == seq![accm] + s,
    decreases s.len(),
{
    if s.len() == 0 {
        assert(seq![accm] =~= seq![accm] + s);
    } else {
        let s1 = s.drop_first();
        assert forall|i: int, j: int| 0 <= i && j == i + 1 && j < s1.len() implies !(#[trigger] s1[i].consec(&s1[j])) by {
            assert(s1[i] == s[i + 1] && s1[j] == s[j + 1]);
            if s[i + 1].consec(&s[j + 1]) {
                assert(false);
            }
        }
        if s1.len() > 0 {
            assert(!s[0].consec(&s[1]));
            assert(s1[0] == s[1]);
        }
        lemma_repack_go_no_op(s[0], s[0], s1);
        assert(seq![accm] + (seq![s[0]] + s1) =~= seq![accm] + s);
    }
}

/// Law: repack is a no-op on a sequence with no consecutive adjacent
/// pair.
pub proof fn lemma_repack_no_op<T: Consecutive>(s: Seq<T>)
    requires
        none_consecutive(s),
    ensures
        repacked(s) == s,
{
    if s.len() > 0 {
        let s1 = s.drop_first();
        assert forall|i: int, j: int| 0 <= i && j == i + 1 && j < s1.len() implies !(#[trigger] s1[i].consec(&s1[j])) by {
            assert(s1[i] == s[i + 1] && s1[j] == s[j + 1]);
            if s[i + 1].consec(&s[j + 1]) {
                assert(false);
            }
        }
        if s1.len() > 0 {
            assert(!s[0].consec(&s[1]));
            assert(s1[0] == s[1]);
        }
        lemma_repack_go_no_op(s[0], s[0], s1);
        assert(seq![s[0]] + s1 =~= s);
    }
}

impl<T: Consecutive> RBTreeSet<T> {
    /// Optimises the set by merging consecutive elements while keeping the
    /// ordering: one ascending sweep folds every run of consecutive
    /// elements, left to right, into a single element standing where the
    /// run began.
    pub fn repack(&mut self)
        requires
            old(self).wf(),
        ensures
            final (self).wf(),
            final (self)@ == repacked(old(self)@),
    {
        proof {
            old(self).lemma_ascending();
            lemma_repacked_sorted(old(self)@);
        }
        if self.is_empty() {
            return ;
        }
        let mut vals: Vec<T> = Vec::new();
        collect_vals(self.borrow_root(), &mut vals);
        proof {
            assert(vals@ =~= old(self)@);
        }
        let ghost whole = vals@;
        let mut out: Vec<T> = Vec::new();
        let mut accm = vals[0];
        let mut last = vals[0];
        let mut i: usize = 1;
        proof {
            assert(whole.skip(1) =~= whole.drop_first());
        }
        while i < vals.len()
            invariant
                1 <= i <= whole.len(),
                vals@ == whole,
                last == whole[i as int - 1],
                repacked(whole) == out@ + repack_go(last, accm, whole.skip(i as int)),
            decreases whole.len() - i,
        {
            let v = vals[i];
            proof {
                assert(whole.skip(i as int)[0] == whole[i as int]);
                assert(whole.skip(i as int).drop_first() =~= whole.skip(i as int + 1));
            }
            if last.consecutive(&v) {
                accm = accm.merged(&v);
                last = v;
            } else {
                out.push(accm);
                proof {
                    assert(out@ + repack_go(v, v, whole.skip(i as int + 1)) =~= repacked(whole));
                }
                accm = v;
                last = v;
            }
            i = i + 1;
        }
        out.push(accm);
        proof {
            assert(whole.skip(i as int) =~= Seq::<T>::empty());
            assert(out@ =~= repacked(whole));
        }
        self.clear();
        let ghost packed = out@;
        let mut j: usize = 0;
        while j < out.len()
            invariant
                j <= packed.len(),
                out@ == packed,
                ascending(packed),
                packed == repacked(whole),
                self.wf(),
                self@ == packed.take(j as int),
            decreases packed.len() - j,
        {
            let v = out[j];
            proof {
                assert forall|t: int| 0 <= t < self@.len() implies #[trigger] self@[t].key()
                    < v.key() by {
                    assert(self@[t] == packed[t]);
                }
                if seq_has_key(self@, v.key()) {
                    let w = choose|w: int| 0 <= w < self@.len() && self@[w].key() == v.key();
                    assert(false);
                }
                lemma_ins_seq_append(self@, v);
            }
            let _n = self.insert(v);
            proof {
                assert(self@ =~= packed.take(j as int + 1));
            }
            j = j + 1;
        }
        proof {
            assert(packed.take(packed.len() as int) =~= packed);
        }
    }
}

} // verus!
