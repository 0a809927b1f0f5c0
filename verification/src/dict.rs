//! The candidate table: the usable dictionary words that can possibly take
//! part in an anagram of the target, each annotated with its letter multiset
//! and letter count, sorted by letter count descending so that the search
//! tries longer words first.

use crate::letters::{
    dominates, freq_spec, is_letter, lemma_freq_push, lemma_total_diff_at_one,
    lemma_total_of_zeros, total_of, Letters,
};
use crate::words::is_word;
use vstd::prelude::*;

verus! {

/// A dictionary word kept for the search, with its letter multiset and its
/// total letter count.
pub struct Candidate {
    pub word: String,
    pub letters: Letters,
    pub len: usize,
}

impl Candidate {
    pub open spec fn wf(&self) -> bool {
        &&& is_word(self.word@)
        &&& self.letters.wf()
        &&& self.letters@ == freq_spec(self.word@)
        &&& self.len as int == self.word@.len()
        &&& self.len >= 1
    }
}

/// Every candidate of the table is well formed, fits inside the target
/// (letter multiset dominated by the target's, length at most the target's),
/// and the table is sorted by letter count descending.
pub open spec fn table_wf(table: Seq<Candidate>, target: Seq<int>, target_len: int) -> bool {
    &&& forall|k: int| 0 <= k < table.len() ==> (#[trigger] table[k]).wf()
    &&& forall|k: int| 0 <= k < table.len() ==> dominates(target, (#[trigger] table[k]).letters@)
    &&& forall|k: int| 0 <= k < table.len() ==> (#[trigger] table[k]).len as int <= target_len
    &&& forall|k1: int, k2: int|
        0 <= k1 < k2 < table.len() ==> (#[trigger] table[k1]).len >= (#[trigger] table[k2]).len
}

/// The words of a dictionary that fit inside the target, in dictionary order.
pub open spec fn fit_filter(ws: Seq<Seq<char>>, target: Seq<int>, target_len: int) -> Seq<
    Seq<char>,
>
    decreases ws.len(),
{
    if ws.len() == 0 {
        Seq::empty()
    } else {
        fit_filter(ws.drop_last(), target, target_len) + if ws.last().len() <= target_len
            && dominates(target, freq_spec(ws.last())) {
            seq![ws.last()]
        } else {
            Seq::<Seq<char>>::empty()
        }
    }
}

/// Every word kept by the fit filter is a word of the dictionary it was
/// filtered from.
pub proof fn lemma_fit_filter_sub(ws: Seq<Seq<char>>, target: Seq<int>, target_len: int)
    ensures
        forall|x: Seq<char>|
            #[trigger] fit_filter(ws, target, target_len).contains(x) ==> ws.contains(x),
    decreases ws.len(),
{
    if ws.len() > 0 {
        lemma_fit_filter_sub(ws.drop_last(), target, target_len);
        let f = fit_filter(ws, target, target_len);
        let fp = fit_filter(ws.drop_last(), target, target_len);
        assert forall|x: Seq<char>| #[trigger] f.contains(x) implies ws.contains(x) by {
            let i = choose|i: int| 0 <= i < f.len() && f[i] == x;
            if i < fp.len() {
                assert(f[i] == fp[i]);
                assert(fp.contains(x));
                assert(ws.drop_last().contains(x));
                let j = choose|j: int| 0 <= j < ws.drop_last().len() && ws.drop_last()[j] == x;
                assert(ws.drop_last()[j] == ws[j]);
                assert(ws.contains(x));
            } else {
                assert(f[i] == ws.last());
                assert(ws[ws.len() - 1] == ws.last());
                assert(ws.contains(x));
            }
        }
    }
}

/// Every dictionary word that fits inside the target is kept by the fit
/// filter.
pub proof fn lemma_fit_filter_complete(ws: Seq<Seq<char>>, target: Seq<int>, target_len: int, i: int)
    requires
        0 <= i < ws.len(),
        ws[i].len() <= target_len,
        dominates(target, freq_spec(ws[i])),
    ensures
        fit_filter(ws, target, target_len).contains(ws[i]),
    decreases ws.len(),
{
    let f = fit_filter(ws, target, target_len);
    let fp = fit_filter(ws.drop_last(), target, target_len);
    if i == ws.len() - 1 {
        assert(ws.last() == ws[i]);
        assert(f == fp + seq![ws[i]]);
        assert(f[fp.len() as int] == ws[i]);
        assert(f.contains(ws[i]));
    } else {
        assert(ws.drop_last()[i] == ws[i]);
        lemma_fit_filter_complete(ws.drop_last(), target, target_len, i);
        let k = choose|k: int| 0 <= k < fp.len() && fp[k] == ws[i];
        assert(f[k] == fp[k]);
        assert(f.contains(ws[i]));
    }
}

/// For a text made of letters only, the sum of its letter counts is its
/// length.
pub proof fn lemma_word_freq_total(s: Seq<char>)
    requires
        forall|i: int| 0 <= i < s.len() ==> is_letter(s[i]),
    ensures
        total_of(freq_spec(s)) == s.len(),
    decreases s.len(),
{
    if s.len() == 0 {
        lemma_total_of_zeros(freq_spec(s));
    } else {
        let p = s.drop_last();
        lemma_word_freq_total(p);
        assert(p.push(s.last()) =~= s);
        lemma_freq_push(p, s.last());
        let k = crate::letters::letter_index(s.last());
        lemma_total_diff_at_one(freq_spec(p), freq_spec(p).update(k, freq_spec(p)[k] + 1), k);
        assert(freq_spec(s) =~= freq_spec(p).update(k, freq_spec(p)[k] + 1));
    }
}

/// Inserting an element anywhere in a sequence inserts it once into the
/// sequence's multiset.
pub proof fn lemma_to_multiset_insert<A>(s: Seq<A>, i: int, a: A)
    requires
        0 <= i <= s.len(),
    ensures
        s.insert(i, a).to_multiset() == s.to_multiset().insert(a),
{
    broadcast use vstd::seq_lib::group_to_multiset_ensures;
    broadcast use vstd::multiset::group_multiset_axioms;

    let t = s.insert(i, a);
    s.insert_ensures(i, a);
    t.remove_ensures(i);
    assert(t.remove(i) =~= s);
    assert(t[i] == a);
    assert(t.to_multiset().contains(a)) by {
        assert(t.contains(a));
    }
    assert(s.to_multiset() == t.to_multiset().remove(a));
    assert(t.to_multiset() =~= s.to_multiset().insert(a));
}

/// Build the candidate table for a target: keep every dictionary word whose
/// letters fit inside the target, annotate it, and sort by letter count
/// descending. The kept words are exactly the fitting words of the
/// dictionary, as a multiset.
pub fn build_candidates(dictionary: &Vec<String>, target: &Letters, target_len: usize) -> (r: Vec<
    Candidate,
>)
    requires
        forall|k: int| 0 <= k < dictionary@.len() ==> is_word(#[trigger] dictionary@[k]@),
        target.wf(),
        target@.len() == 26,
        target_len as int == total_of(target@),
    ensures
        table_wf(r@, target@, target_len as int),
        r@.map_values(|c: Candidate| c.word@).to_multiset() == fit_filter(
            dictionary.deep_view(),
            target@,
            target_len as int,
        ).to_multiset(),
{
    broadcast use vstd::seq_lib::group_to_multiset_ensures;

    let ghost ws = dictionary.deep_view();
    let mut out: Vec<Candidate> = Vec::new();
    let mut i: usize = 0;
    proof {
        assert(ws.take(0) =~= Seq::<Seq<char>>::empty());
        assert(out@.map_values(|c: Candidate| c.word@) =~= fit_filter(
            ws.take(0),
            target@,
            target_len as int,
        ));
        assert(forall|k: int| 0 <= k < ws.len() ==> ws[k] == #[trigger] dictionary@[k]@);
    }
    while i < dictionary.len()
        invariant
            i <= dictionary@.len(),
            ws == dictionary.deep_view(),
            ws.len() == dictionary@.len(),
            forall|k: int| 0 <= k < ws.len() ==> ws[k] == #[trigger] dictionary@[k]@,
            forall|k: int| 0 <= k < dictionary@.len() ==> is_word(#[trigger] dictionary@[k]@),
            target.wf(),
            target@.len() == 26,
            target_len as int == total_of(target@),
            table_wf(out@, target@, target_len as int),
            out@.map_values(|c: Candidate| c.word@).to_multiset() == fit_filter(
                ws.take(i as int),
                target@,
                target_len as int,
            ).to_multiset(),
        decreases dictionary@.len() - i,
    {
        proof {
            assert(ws.take(i + 1).drop_last() =~= ws.take(i as int));
            assert(ws.take(i + 1).last() == ws[i as int]);
        }
        let w = &dictionary[i];
        let letters = Letters::from_text(w.as_str());
        let len = letters.total();
        proof {
            lemma_word_freq_total(w@);
        }
        if len <= target_len && target.can_cover(&letters) {
            let cand = Candidate { word: w.clone(), letters, len };
            let ghost before = out@;
            // find the first position whose entry is strictly shorter
            let mut j: usize = 0;
            while j < out.len() && out[j].len >= cand.len
                invariant
                    j <= out@.len(),
                    out@ == before,
                    forall|k: int| 0 <= k < j ==> (#[trigger] before[k]).len >= cand.len,
                decreases out@.len() - j,
            {
                j += 1;
            }
            proof {
                if (j as int) < before.len() {
                    assert(before[j as int].len < cand.len);
                }
            }
            out.insert(j, cand);
            proof {
                assert(cand.word@ == ws[i as int]);
                before.insert_ensures(j as int, cand);
                let bw = before.map_values(|c: Candidate| c.word@);
                let fp = fit_filter(ws.take(i as int), target@, target_len as int);
                assert(out@.map_values(|c: Candidate| c.word@) =~= bw.insert(
                    j as int,
                    cand.word@,
                ));
                lemma_to_multiset_insert(bw, j as int, cand.word@);
                assert(fit_filter(ws.take(i + 1), target@, target_len as int) =~= fp.push(
                    ws[i as int],
                ));
                vstd::seq_lib::to_multiset_build(fp, ws[i as int]);
                assert(fp.push(ws[i as int]).to_multiset() =~= fp.to_multiset().insert(
                    ws[i as int],
                ));
                // sortedness after insertion
                assert(forall|k: int|
                    0 <= k < out@.len() ==> (#[trigger] out@[k]).len == (if k < j as int {
                        before[k].len
                    } else if k == j as int {
                        cand.len
                    } else {
                        before[k - 1].len
                    }));
            }
        } else {
            proof {
                assert(fit_filter(ws.take(i + 1), target@, target_len as int) =~= fit_filter(
                    ws.take(i as int),
                    target@,
                    target_len as int,
                ));
            }
        }
        i += 1;
    }
    proof {
        assert(ws.take(dictionary@.len() as int) =~= ws);
    }
    out
}

} // verus!
