//! The combination search: recursive backtracking over the candidate table.
//! Every solution it records uses letters that, together, are exactly the
//! letters that were available, with a correct quality score; the candidate
//! index never decreases along a branch, so each combination of words is
//! found as a combination, not once per permutation.

use crate::dict::{lemma_word_freq_total, Candidate};
use crate::letters::{
    dominates, freq_spec, lemma_total_zero_all_zero, total_of, Letters,
};
use crate::score::{calculate_quality_score, score_spec, sum_lens};
use crate::signature::{create_signature, sig_of, would_be_redundant};
use crate::words::is_word;
use vstd::prelude::*;

verus! {

/// The all-zero frequency vector.
pub open spec fn zero_freq() -> Seq<int> {
    Seq::new(26, |j: int| 0)
}

/// Pointwise sum of two frequency vectors.
pub open spec fn freq_add(a: Seq<int>, b: Seq<int>) -> Seq<int> {
    Seq::new(26, |j: int| a[j] + b[j])
}

/// The combined letter frequency of a sequence of words.
pub open spec fn freq_sum(ws: Seq<Seq<char>>) -> Seq<int>
    decreases ws.len(),
{
    if ws.len() == 0 {
        zero_freq()
    } else {
        freq_add(freq_sum(ws.drop_last()), freq_spec(ws.last()))
    }
}

pub open spec fn words_wf(ws: Seq<Seq<char>>) -> bool {
    forall|k: int| 0 <= k < ws.len() ==> is_word(#[trigger] ws[k])
}

/// Every word of `ws` is the word of some candidate of the table.
pub open spec fn words_from(ws: Seq<Seq<char>>, table: Seq<Candidate>) -> bool {
    forall|k: int|
        0 <= k < ws.len() ==> exists|m: int|
            0 <= m < table.len() && (#[trigger] ws[k]) == (#[trigger] table[m]).word@
}

/// A recorded solution: a word sequence and its quality score.
pub struct Solution {
    pub score: i128,
    pub words: Vec<String>,
}

/// What the search guarantees of every solution it records: valid table
/// words, a correct score, and a combined letter frequency equal to `goal`.
pub open spec fn entry_ok(e: Solution, goal: Seq<int>, table: Seq<Candidate>) -> bool {
    &&& words_wf(e.words.deep_view())
    &&& words_from(e.words.deep_view(), table)
    &&& e.score as int == score_spec(e.words.deep_view())
    &&& freq_sum(e.words.deep_view()) == goal
}

pub open spec fn non_decreasing(idxs: Seq<int>) -> bool {
    forall|a: int, b: int| 0 <= a < b < idxs.len() ==> idxs[a] <= idxs[b]
}

/// `ws` was read off the table left to right: word `x` is the text of the
/// candidate at `idxs[x]`, and the indices never decrease and never fall
/// below `start` — so an unordered combination is only ever produced in this
/// one canonical order, never as another permutation of itself.
pub open spec fn picked_from(
    ws: Seq<Seq<char>>,
    table: Seq<Candidate>,
    start: int,
    idxs: Seq<int>,
) -> bool {
    &&& idxs.len() == ws.len()
    &&& non_decreasing(idxs)
    &&& forall|x: int|
        0 <= x < idxs.len() ==> start <= #[trigger] idxs[x] < table.len() && ws[x] == table[
            idxs[x]
        ].word@
}

/// A recorded solution extends the partial words the call started from, by
/// words chosen at non-decreasing table indices from `start` on.
pub open spec fn entry_extends(
    e: Solution,
    cur: Seq<Seq<char>>,
    table: Seq<Candidate>,
    start: int,
) -> bool {
    &&& e.words.deep_view().len() >= cur.len()
    &&& e.words.deep_view().take(cur.len() as int) == cur
    &&& exists|idxs: Seq<int>|
        #[trigger] picked_from(e.words.deep_view().skip(cur.len() as int), table, start, idxs)
}

/// Some recorded signature has exactly this text.
pub open spec fn seen_has(seen: Seq<String>, s: Seq<char>) -> bool {
    exists|k: int| 0 <= k < seen.len() && (#[trigger] seen[k])@ == s
}

/// The recorded signatures are exactly the non-empty signatures of the
/// recorded solutions: every signature in `seen` is the non-empty signature
/// of some solution, and every solution's non-empty signature is in `seen`.
pub open spec fn seen_matches(seen: Seq<String>, results: Seq<Solution>) -> bool {
    &&& forall|k: int|
        0 <= k < seen.len() ==> (#[trigger] seen[k])@.len() > 0 && exists|x: int|
            0 <= x < results.len() && seen[k]@ == sig_of((#[trigger] results[x]).words.deep_view())
    &&& forall|x: int|
        0 <= x < results.len() && sig_of((#[trigger] results[x]).words.deep_view()).len() > 0
            ==> seen_has(seen, sig_of(results[x].words.deep_view()))
}

/// No two recorded solutions share a non-empty signature: per set of
/// substantial words, at most one completed solution is kept.
pub open spec fn sigs_distinct(results: Seq<Solution>) -> bool {
    forall|x1: int, x2: int|
        0 <= x1 < x2 < results.len() && sig_of(
            (#[trigger] results[x1]).words.deep_view(),
        ).len() > 0 ==> sig_of(results[x1].words.deep_view()) != sig_of(
            (#[trigger] results[x2]).words.deep_view(),
        )
}

/// The no-permutation guarantee behind `picked_from`: when no two table
/// entries share their text, two picked word sequences with the same word
/// multiset are the same sequence — an unordered combination of table words
/// has exactly one canonical enumeration order, so it can never be recorded
/// both as itself and as a permutation of itself.
pub proof fn lemma_pick_canonical(
    ws1: Seq<Seq<char>>,
    ws2: Seq<Seq<char>>,
    table: Seq<Candidate>,
    s1: int,
    s2: int,
    idxs1: Seq<int>,
    idxs2: Seq<int>,
)
    requires
        forall|j1: int, j2: int|
            0 <= j1 < j2 < table.len() ==> (#[trigger] table[j1]).word@ != (
            #[trigger] table[j2]).word@,
        0 <= s1,
        0 <= s2,
        picked_from(ws1, table, s1, idxs1),
        picked_from(ws2, table, s2, idxs2),
        ws1.to_multiset() == ws2.to_multiset(),
    ensures
        ws1 == ws2,
    decreases ws1.len(),
{
    ws1.to_multiset_ensures();
    ws2.to_multiset_ensures();
    if ws1.len() == 0 {
        assert(ws1 =~= ws2);
    } else {
        let a = idxs1[0];
        let b = idxs2[0];
        assert(ws1.contains(ws1[0]));
        assert(ws2.to_multiset().count(ws1[0]) > 0);
        assert(ws2.contains(ws1[0]));
        let x = choose|x: int| 0 <= x < ws2.len() && ws2[x] == ws1[0];
        assert(s2 <= idxs2[x] < table.len() && ws2[x] == table[idxs2[x]].word@);
        assert(s1 <= idxs1[0] < table.len() && ws1[0] == table[idxs1[0]].word@);
        assert(table[idxs2[x]].word@ == table[a].word@);
        assert(idxs2[x] == a) by {
            if idxs2[x] < a {
                assert(table[idxs2[x]].word@ != table[a].word@);
            }
            if idxs2[x] > a {
                assert(table[a].word@ != table[idxs2[x]].word@);
            }
        }
        assert(b <= a);
        assert(ws2.contains(ws2[0]));
        assert(ws1.to_multiset().count(ws2[0]) > 0);
        assert(ws1.contains(ws2[0]));
        let y = choose|y: int| 0 <= y < ws1.len() && ws1[y] == ws2[0];
        assert(s1 <= idxs1[y] < table.len() && ws1[y] == table[idxs1[y]].word@);
        assert(s2 <= idxs2[0] < table.len() && ws2[0] == table[idxs2[0]].word@);
        assert(table[idxs1[y]].word@ == table[b].word@);
        assert(idxs1[y] == b) by {
            if idxs1[y] < b {
                assert(table[idxs1[y]].word@ != table[b].word@);
            }
            if idxs1[y] > b {
                assert(table[b].word@ != table[idxs1[y]].word@);
            }
        }
        assert(a <= b);
        assert(ws1[0] == ws2[0]);
        let t1 = ws1.drop_first();
        let t2 = ws2.drop_first();
        assert(ws1.remove(0) =~= t1);
        assert(ws2.remove(0) =~= t2);
        assert(t1.to_multiset() == ws1.to_multiset().remove(ws1[0]));
        assert(t2.to_multiset() == ws2.to_multiset().remove(ws2[0]));
        assert(t1.to_multiset() == t2.to_multiset());
        assert(picked_from(t1, table, s1, idxs1.drop_first())) by {
            assert(forall|z: int| 0 <= z < t1.len() ==> #[trigger] t1[z] == ws1[z + 1]);
            assert(forall|z: int|
                0 <= z < idxs1.drop_first().len() ==> #[trigger] idxs1.drop_first()[z] == idxs1[
                    z + 1
                ]);
        }
        assert(picked_from(t2, table, s2, idxs2.drop_first())) by {
            assert(forall|z: int| 0 <= z < t2.len() ==> #[trigger] t2[z] == ws2[z + 1]);
            assert(forall|z: int|
                0 <= z < idxs2.drop_first().len() ==> #[trigger] idxs2.drop_first()[z] == idxs2[
                    z + 1
                ]);
        }
        lemma_pick_canonical(t1, t2, table, s1, s2, idxs1.drop_first(), idxs2.drop_first());
        assert forall|z: int| 0 <= z < ws1.len() implies ws1[z] == ws2[z] by {
            if z > 0 {
                assert(t1[z - 1] == ws1[z]);
                assert(t2[z - 1] == ws2[z]);
                assert(t1 == t2);
            }
        }
        assert(ws1 =~= ws2);
    }
}

/// A word sequence that extends `cur0.push(w)` by a pick starting at `i`
/// extends `cur0` by a pick starting at any `start` at or before `i`, with
/// `i` itself as the first index.
proof fn lemma_extend_pick(
    ws: Seq<Seq<char>>,
    cur0: Seq<Seq<char>>,
    w: Seq<char>,
    table: Seq<Candidate>,
    start: int,
    i: int,
)
    requires
        0 <= start <= i < table.len(),
        table[i].word@ == w,
        ws.len() >= cur0.len() + 1,
        ws.take(cur0.len() as int + 1) == cur0.push(w),
        exists|idxs: Seq<int>| #[trigger] picked_from(ws.skip(cur0.len() as int + 1), table, i, idxs),
    ensures
        ws.take(cur0.len() as int) == cur0,
        exists|idxs: Seq<int>| #[trigger] picked_from(ws.skip(cur0.len() as int), table, start, idxs),
{
    let n = cur0.len() as int;
    assert(forall|x: int| 0 <= x < n + 1 ==> ws[x] == cur0.push(w)[x]) by {
        assert(forall|x: int| 0 <= x < n + 1 ==> ws.take(n + 1)[x] == ws[x]);
    }
    assert(ws.take(n) =~= cur0);
    let idxs_c = choose|idxs: Seq<int>| #[trigger] picked_from(ws.skip(n + 1), table, i, idxs);
    let idxs = seq![i] + idxs_c;
    let tail = ws.skip(n);
    assert(tail.len() == idxs.len());
    assert(tail[0] == ws[n]);
    assert(ws[n] == w);
    assert(picked_from(tail, table, start, idxs)) by {
        assert forall|a: int, b: int| 0 <= a < b < idxs.len() implies idxs[a] <= idxs[b] by {
            if a == 0 {
                assert(idxs[b] == idxs_c[b - 1]);
                assert(i <= idxs_c[b - 1]);
            } else {
                assert(idxs[a] == idxs_c[a - 1]);
                assert(idxs[b] == idxs_c[b - 1]);
            }
        }
        assert forall|x: int| 0 <= x < idxs.len() implies start <= #[trigger] idxs[x] < table.len()
            && tail[x] == table[idxs[x]].word@ by {
            if x == 0 {
                assert(idxs[0] == i);
            } else {
                assert(idxs[x] == idxs_c[x - 1]);
                assert(tail[x] == ws[n + x]);
                assert(ws.skip(n + 1)[x - 1] == ws[n + x]);
            }
        }
    }
}

pub fn clone_string_vec(v: &Vec<String>) -> (r: Vec<String>)
    ensures
        r@ == v@,
{
    let mut r: Vec<String> = Vec::new();
    let mut i: usize = 0;
    while i < v.len()
        invariant
            i <= v@.len(),
            r@.len() == i as int,
            forall|k: int| 0 <= k < i ==> r@[k] == v@[k],
        decreases v@.len() - i,
    {
        r.push(v[i].clone());
        i += 1;
    }
    proof {
        assert(r@ =~= v@);
    }
    r
}

/// Recursively enumerate combinations of candidate words (at non-decreasing
/// table index) whose letters exactly exhaust the available letters. Every
/// recorded solution's combined letter frequency equals the current partial
/// words' frequency plus the available letters; recording stops at
/// `max_results`. Earlier results and earlier signatures are never touched.
pub fn find_anagrams_recursive(
    dict_words: &Vec<Candidate>,
    available: &Letters,
    current: &mut Vec<String>,
    results: &mut Vec<Solution>,
    seen_signatures: &mut Vec<String>,
    start_idx: usize,
    remaining_letters: usize,
    max_results: usize,
)
    requires
        forall|k: int| 0 <= k < dict_words@.len() ==> (#[trigger] dict_words@[k]).wf(),
        forall|k1: int, k2: int|
            0 <= k1 < k2 < dict_words@.len() ==> (#[trigger] dict_words@[k1]).len
                >= (#[trigger] dict_words@[k2]).len,
        available.wf(),
        remaining_letters as int == total_of(available@),
        words_wf(old(current).deep_view()),
        words_from(old(current).deep_view(), dict_words@),
        sum_lens(old(current).deep_view()) + remaining_letters as int <= usize::MAX as int,
        start_idx as int <= dict_words@.len(),
    ensures
        final(current)@ == old(current)@,
        old(results)@.len() <= final(results)@.len(),
        old(results)@.len() < max_results ==> final(results)@.len() <= max_results as int,
        (old(results)@.len() >= max_results && remaining_letters > 0) ==> (final(results)@ == old(
            results,
        )@ && final(seen_signatures)@ == old(seen_signatures)@),
        forall|k: int| 0 <= k < old(results)@.len() ==> final(results)@[k] == old(results)@[k],
        forall|k: int|
            old(results)@.len() <= k < final(results)@.len() ==> entry_ok(
                #[trigger] final(results)@[k],
                freq_add(freq_sum(old(current).deep_view()), available@),
                dict_words@,
            ),
        forall|k: int|
            old(results)@.len() <= k < final(results)@.len() ==> entry_extends(
                #[trigger] final(results)@[k],
                old(current).deep_view(),
                dict_words@,
                start_idx as int,
            ),
        old(seen_signatures)@.len() <= final(seen_signatures)@.len(),
        forall|k: int|
            0 <= k < old(seen_signatures)@.len() ==> final(seen_signatures)@[k] == old(
                seen_signatures,
            )@[k],
        remaining_letters == 0 ==> final(results)@.len() == old(results)@.len() + 1
            && final(results)@[old(results)@.len() as int].words@ == old(current)@,
        remaining_letters == 0 && sig_of(old(current).deep_view()).len() == 0
            ==> final(seen_signatures)@ == old(seen_signatures)@,
        remaining_letters == 0 && sig_of(old(current).deep_view()).len() > 0
            ==> final(seen_signatures)@.len() == old(seen_signatures)@.len() + 1
            && final(seen_signatures)@.last()@ == sig_of(old(current).deep_view()),
        final(results)@.len() == old(results)@.len() ==> final(seen_signatures)@ == old(
            seen_signatures,
        )@,
        (seen_matches(old(seen_signatures)@, old(results)@) && sigs_distinct(old(results)@) && (
        remaining_letters == 0 ==> !seen_has(
            old(seen_signatures)@,
            sig_of(old(current).deep_view()),
        ))) ==> (seen_matches(final(seen_signatures)@, final(results)@) && sigs_distinct(
            final(results)@,
        )),
        (old(results)@.len() < max_results && old(seen_signatures)@.len() == 0 && (exists|m: int|
            start_idx <= m < dict_words@.len() && (#[trigger] dict_words@[m]).len
                == remaining_letters && dominates(available@, dict_words@[m].letters@)))
            ==> final(results)@.len() > old(results)@.len(),
        (forall|j1: int, j2: int|
            0 <= j1 < j2 < dict_words@.len() ==> (#[trigger] dict_words@[j1]).word@ != (
            #[trigger] dict_words@[j2]).word@) ==> forall|k1: int, k2: int|
            old(results)@.len() <= k1 < k2 < final(results)@.len() ==> (#[trigger] final(results)@[
                k1
            ]).words.deep_view() != (#[trigger] final(results)@[k2]).words.deep_view(),
        (old(current).deep_view().len() == 0 && old(seen_signatures)@.len() == 0
            && old(results)@.len() == 0 && final(results)@.len() < max_results) ==> forall|m: int|
            start_idx <= m < dict_words@.len() && (#[trigger] dict_words@[m]).len
                == remaining_letters && dominates(available@, dict_words@[m].letters@)
                ==> exists|k: int|
                #![trigger final(results)@[k]]
                0 <= k < final(results)@.len() && final(results)@[k].words.deep_view() == seq![
                    dict_words@[m].word@,
                ],
    decreases remaining_letters,
{
    let ghost cur0 = old(current).deep_view();
    let ghost goal = freq_add(freq_sum(cur0), available@);
    proof {
        assert(available@.len() == 26);
        assert(forall|k: int| 0 <= k < current@.len() ==> current.deep_view()[k]
            == #[trigger] current@[k]@);
    }
    if remaining_letters == 0 {
        proof {
            assert(forall|j: int| 0 <= j < 26 ==> available@[j] >= 0);
            lemma_total_zero_all_zero(available@);
            assert(goal =~= freq_sum(cur0));
            assert(forall|k: int| 0 <= k < current@.len() ==> is_word(#[trigger] current@[k]@));
            assert forall|m: int|
                start_idx <= m < dict_words@.len() implies (#[trigger] dict_words@[m]).len
                != remaining_letters by {
                assert(dict_words@[m].wf());
            }
        }
        let score = calculate_quality_score(current);
        let words = clone_string_vec(current);
        results.push(Solution { score, words });
        let sig = create_signature(current);
        let ghost s = sig_of(cur0);
        let ghost x_new = old(results)@.len() as int;
        proof {
            assert(current.deep_view() == cur0);
            assert(sig@ == s);
            assert(results@[x_new].words.deep_view() == cur0);
            assert(entry_ok(results@[x_new], goal, dict_words@));
            assert(results@[x_new].words.deep_view().take(cur0.len() as int) =~= cur0);
            assert(results@[x_new].words.deep_view().skip(cur0.len() as int) =~= Seq::<
                Seq<char>,
            >::empty());
            assert(picked_from(
                results@[x_new].words.deep_view().skip(cur0.len() as int),
                dict_words@,
                start_idx as int,
                Seq::<int>::empty(),
            ));
            assert(entry_extends(results@[x_new], cur0, dict_words@, start_idx as int));
        }
        if !sig.as_str().is_empty() {
            seen_signatures.push(sig);
        }
        proof {
            // the recorded signatures still match the recorded solutions, and
            // no non-empty signature repeats
            if seen_matches(old(seen_signatures)@, old(results)@) && sigs_distinct(old(results)@)
                && !seen_has(old(seen_signatures)@, s) {
                let rs = results@;
                let sn = seen_signatures@;
                assert forall|x1: int, x2: int|
                    0 <= x1 < x2 < rs.len() && sig_of(
                        (#[trigger] rs[x1]).words.deep_view(),
                    ).len() > 0 implies sig_of(rs[x1].words.deep_view()) != sig_of(
                    (#[trigger] rs[x2]).words.deep_view(),
                ) by {
                    if x2 == x_new {
                        assert(rs[x1] == old(results)@[x1]);
                        assert(seen_has(
                            old(seen_signatures)@,
                            sig_of(old(results)@[x1].words.deep_view()),
                        ));
                        assert(sig_of(rs[x2].words.deep_view()) == s);
                    } else {
                        assert(rs[x1] == old(results)@[x1]);
                        assert(rs[x2] == old(results)@[x2]);
                    }
                }
                assert(sigs_distinct(rs));
                assert forall|k: int|
                    0 <= k < sn.len() implies (#[trigger] sn[k])@.len() > 0 && exists|x: int|
                        0 <= x < rs.len() && sn[k]@ == sig_of(
                            (#[trigger] rs[x]).words.deep_view(),
                        ) by {
                    if k < old(seen_signatures)@.len() {
                        assert(sn[k] == old(seen_signatures)@[k]);
                        let x = choose|x: int|
                            0 <= x < old(results)@.len() && old(seen_signatures)@[k]@ == sig_of(
                                (#[trigger] old(results)@[x]).words.deep_view(),
                            );
                        assert(rs[x] == old(results)@[x]);
                        assert(0 <= x < rs.len() && sn[k]@ == sig_of(rs[x].words.deep_view()));
                    } else {
                        assert(sn[k]@ == s);
                        assert(s.len() > 0);
                        assert(sig_of(rs[x_new].words.deep_view()) == s);
                    }
                }
                assert forall|x: int|
                    0 <= x < rs.len() && sig_of((#[trigger] rs[x]).words.deep_view()).len() > 0
                    implies seen_has(sn, sig_of(rs[x].words.deep_view())) by {
                    if x < old(results)@.len() {
                        assert(rs[x] == old(results)@[x]);
                        assert(seen_has(
                            old(seen_signatures)@,
                            sig_of(old(results)@[x].words.deep_view()),
                        ));
                        let k = choose|k: int|
                            0 <= k < old(seen_signatures)@.len() && (#[trigger] old(
                                seen_signatures,
                            )@[k])@ == sig_of(old(results)@[x].words.deep_view());
                        assert(sn[k] == old(seen_signatures)@[k]);
                        assert(seen_has(sn, sig_of(rs[x].words.deep_view())));
                    } else {
                        assert(sig_of(rs[x].words.deep_view()) == s);
                        assert(sn[sn.len() - 1]@ == s);
                        assert(seen_has(sn, s));
                    }
                }
                assert(seen_matches(sn, rs));
            }
        }
        return;
    }
    if results.len() >= max_results {
        return;
    }
    // Depth-dependent minimum word length: later words should use a larger
    // share of what remains.
    let depth = current.len();
    let min_word_len: usize = if depth == 0 {
        1
    } else {
        let rl = remaining_letters as u128;
        let factor: u128 = if depth == 1 {
            4
        } else if depth == 2 {
            5
        } else {
            6
        };
        let lower: u128 = if depth == 1 {
            2
        } else {
            3
        };
        let mut m = rl * factor / 10;
        if m < lower {
            m = lower;
        }
        if m > rl {
            m = rl;
        }
        m as usize
    };
    proof {
        assert(min_word_len <= remaining_letters);
    }
    let mut i = start_idx;
    while i < dict_words.len()
        invariant
            i as int <= dict_words@.len(),
            start_idx <= i,
            min_word_len <= remaining_letters,
            forall|k: int| 0 <= k < dict_words@.len() ==> (#[trigger] dict_words@[k]).wf(),
            forall|k1: int, k2: int|
                0 <= k1 < k2 < dict_words@.len() ==> (#[trigger] dict_words@[k1]).len
                    >= (#[trigger] dict_words@[k2]).len,
            available.wf(),
            remaining_letters as int == total_of(available@),
            remaining_letters >= 1,
            current@ == old(current)@,
            cur0 == old(current).deep_view(),
            words_wf(cur0),
            words_from(cur0, dict_words@),
            goal == freq_add(freq_sum(cur0), available@),
            sum_lens(cur0) + remaining_letters as int <= usize::MAX as int,
            old(results)@.len() <= results@.len() < max_results as int,
            forall|k: int| 0 <= k < old(results)@.len() ==> results@[k] == old(results)@[k],
            forall|k: int|
                old(results)@.len() <= k < results@.len() ==> entry_ok(
                    #[trigger] results@[k],
                    goal,
                    dict_words@,
                ),
            forall|k: int|
                old(results)@.len() <= k < results@.len() ==> entry_extends(
                    #[trigger] results@[k],
                    cur0,
                    dict_words@,
                    start_idx as int,
                ),
            (seen_matches(old(seen_signatures)@, old(results)@) && sigs_distinct(old(results)@))
                ==> (seen_matches(seen_signatures@, results@) && sigs_distinct(results@)),
            old(seen_signatures)@.len() <= seen_signatures@.len(),
            forall|k: int|
                0 <= k < old(seen_signatures)@.len() ==> seen_signatures@[k] == old(
                    seen_signatures,
                )@[k],
            results@.len() == old(results)@.len() ==> seen_signatures@ == old(seen_signatures)@,
            (old(seen_signatures)@.len() == 0 && results@.len() == old(results)@.len())
                ==> forall|m: int|
                start_idx <= m < i ==> !((#[trigger] dict_words@[m]).len == remaining_letters
                    && dominates(available@, dict_words@[m].letters@)),
            (forall|j1: int, j2: int|
                0 <= j1 < j2 < dict_words@.len() ==> (#[trigger] dict_words@[j1]).word@ != (
                #[trigger] dict_words@[j2]).word@) ==> forall|k1: int, k2: int|
                old(results)@.len() <= k1 < k2 < results@.len() ==> (#[trigger] results@[
                    k1
                ]).words.deep_view() != (#[trigger] results@[k2]).words.deep_view(),
            (forall|j1: int, j2: int|
                0 <= j1 < j2 < dict_words@.len() ==> (#[trigger] dict_words@[j1]).word@ != (
                #[trigger] dict_words@[j2]).word@) ==> forall|k: int|
                old(results)@.len() <= k < results@.len() ==> (#[trigger] results@[
                    k
                ]).words.deep_view().len() > cur0.len() && (exists|j: int|
                    #![trigger dict_words@[j]]
                    start_idx <= j < i && results@[k].words.deep_view()[cur0.len() as int]
                        == dict_words@[j].word@),
            (cur0.len() == 0 && old(seen_signatures)@.len() == 0 && old(results)@.len() == 0)
                ==> forall|m: int|
                start_idx <= m < i && (#[trigger] dict_words@[m]).len == remaining_letters
                    && dominates(available@, dict_words@[m].letters@) ==> exists|k: int|
                    #![trigger results@[k]]
                    0 <= k < results@.len() && results@[k].words.deep_view() == seq![
                        dict_words@[m].word@,
                    ],
            (cur0.len() == 0 && old(seen_signatures)@.len() == 0 && old(results)@.len() == 0 && (
            forall|m: int|
                start_idx <= m < i ==> (#[trigger] dict_words@[m]).len >= remaining_letters))
                ==> forall|k: int|
                0 <= k < results@.len() ==> exists|j: int|
                    #![trigger dict_words@[j]]
                    start_idx <= j < i && (#[trigger] results@[k]).words.deep_view() == seq![
                        dict_words@[j].word@,
                    ],
        decreases dict_words@.len() - i,
    {
        let cand = &dict_words[i];
        let wlen = cand.len;
        if wlen > remaining_letters {
            i += 1;
            continue;
        }
        if wlen < min_word_len {
            // Once plenty of results exist and plenty of letters remain,
            // everything from here on is even shorter (the table is sorted
            // by length descending), so stop exploring this branch.
            if results.len() > max_results / 10 && remaining_letters > 5 {
                proof {
                    assert forall|m: int|
                        i as int <= m < dict_words@.len() implies (
                    #[trigger] dict_words@[m]).len < remaining_letters by {
                        if m > i as int {
                            assert(dict_words@[m].len <= dict_words@[i as int].len);
                        }
                        assert(dict_words@[m].len < min_word_len);
                    }
                    if old(seen_signatures)@.len() == 0 && results@.len() == old(
                        results,
                    )@.len() {
                        assert forall|m: int|
                            start_idx <= m < dict_words@.len() implies !((
                            #[trigger] dict_words@[m]).len == remaining_letters && dominates(
                            available@,
                            dict_words@[m].letters@,
                        )) by {
                            if m >= i as int {
                                assert(dict_words@[m].len < remaining_letters);
                            }
                        }
                    }
                }
                return;
            }
        }
        if !available.can_cover(&cand.letters) {
            i += 1;
            continue;
        }
        if would_be_redundant(current, &cand.word, seen_signatures) {
            proof {
                // with no signature recorded yet, nothing can be redundant
                if old(seen_signatures)@.len() == 0 && results@.len() == old(results)@.len() {
                    assert(seen_signatures@ == old(seen_signatures)@);
                    assert(seen_signatures.deep_view().len() == 0);
                    assert(false);
                }
                // at the top level, a redundant full-length candidate means an
                // identical single-word solution was already recorded
                if cur0.len() == 0 && old(seen_signatures)@.len() == 0 && old(results)@.len() == 0
                    && dict_words@[i as int].len == remaining_letters {
                    let w = cand.word@;
                    assert(cur0.push(w) =~= seq![w]);
                    crate::signature::lemma_sig_of_singleton(w);
                    assert(current.deep_view() == cur0);
                    assert(crate::signature::redundant_spec(
                        cur0,
                        w,
                        seen_signatures.deep_view(),
                    ));
                    let s = sig_of(cur0.push(w));
                    assert(s.len() > 0);
                    assert(s == sig_of(seq![w]));
                    assert(w.len() >= 4);
                    assert(s == w);
                    assert(seen_signatures.deep_view().contains(s));
                    let k0 = choose|k: int|
                        0 <= k < seen_signatures.deep_view().len() && seen_signatures.deep_view()[k]
                            == s;
                    assert(forall|k: int|
                        0 <= k < seen_signatures@.len() ==> seen_signatures.deep_view()[k] == (
                        #[trigger] seen_signatures@[k])@);
                    assert(seen_signatures@[k0]@ == s);
                    assert(seen_matches(old(seen_signatures)@, old(results)@));
                    assert(sigs_distinct(old(results)@));
                    assert(seen_matches(seen_signatures@, results@));
                    let x = choose|x: int|
                        0 <= x < results@.len() && seen_signatures@[k0]@ == sig_of(
                            (#[trigger] results@[x]).words.deep_view(),
                        );
                    assert forall|m: int|
                        start_idx <= m < i implies (#[trigger] dict_words@[m]).len
                        >= remaining_letters by {
                        assert(dict_words@[m].len >= dict_words@[i as int].len);
                    }
                    let j = choose|j: int|
                        #![trigger dict_words@[j]]
                        start_idx <= j < i && results@[x].words.deep_view() == seq![
                            dict_words@[j].word@,
                        ];
                    let w2 = dict_words@[j].word@;
                    crate::signature::lemma_sig_of_singleton(w2);
                    assert(results@[x].words.deep_view() == seq![w2]);
                    assert(sig_of(results@[x].words.deep_view()) == sig_of(seq![w2]));
                    assert(w2.len() >= 4) by {
                        if w2.len() < 4 {
                            assert(sig_of(seq![w2]).len() == 0);
                        }
                    }
                    assert(w2 == w);
                    assert(results@[x].words.deep_view() == seq![dict_words@[i as int].word@]);
                }
            }
            i += 1;
            continue;
        }
        let ghost results_before = results@;
        let ghost seen_before = seen_signatures@;
        proof {
            // the branch about to be explored is not redundant against the
            // signatures recorded so far
            assert(current.deep_view() == cur0);
            assert(!crate::signature::redundant_spec(
                cur0,
                cand.word@,
                seen_signatures.deep_view(),
            ));
            assert(forall|k: int|
                0 <= k < seen_before.len() ==> seen_signatures.deep_view()[k]
                    == (#[trigger] seen_before[k])@);
            assert(seen_signatures.deep_view().len() == seen_before.len());
        }
        let ghost seen_deep_before = seen_signatures.deep_view();
        let new_available = available.subtract(&cand.letters);
        let new_remaining = remaining_letters - wlen;
        proof {
            lemma_word_freq_total(cand.word@);
            assert(total_of(cand.letters@) == cand.len as int);
            assert(new_remaining as int == total_of(new_available@));
        }
        current.push(cand.word.clone());
        let ghost cur_vec = current@;
        proof {
            assert(current.deep_view() =~= cur0.push(cand.word@));
            assert(forall|k: int| 0 <= k < current@.len() ==> current.deep_view()[k]
                == #[trigger] current@[k]@);
            let curp = cur0.push(cand.word@);
            assert(dict_words@[i as int].wf());
            assert(*cand == dict_words@[i as int]);
            assert(is_word(cand.word@));
            assert forall|k: int| 0 <= k < curp.len() implies is_word(#[trigger] curp[k]) by {
                if k < cur0.len() {
                    assert(curp[k] == cur0[k]);
                    assert(is_word(cur0[k]));
                } else {
                    assert(curp[k] == cand.word@);
                }
            }
            assert(words_wf(curp));
            assert forall|k: int| 0 <= k < curp.len() implies exists|m: int|
                0 <= m < dict_words@.len() && (#[trigger] curp[k]) == (#[trigger] dict_words@[
                    m
                ]).word@ by {
                if k < cur0.len() {
                    assert(curp[k] == cur0[k]);
                    assert(exists|m: int|
                        0 <= m < dict_words@.len() && cur0[k] == (#[trigger] dict_words@[m]).word@);
                } else {
                    assert(curp[k] == cand.word@);
                    assert(dict_words@[i as int].word@ == cand.word@);
                }
            }
            assert(words_from(curp, dict_words@));
            assert(sum_lens(curp) == sum_lens(cur0) + cand.word@.len()) by {
                assert(curp.drop_last() =~= cur0);
            }
        }
        find_anagrams_recursive(
            dict_words,
            &new_available,
            current,
            results,
            seen_signatures,
            i,
            new_remaining,
            max_results,
        );
        proof {
            let curp = cur0.push(cand.word@);
            assert(freq_add(freq_sum(curp), new_available@) =~= goal) by {
                assert(curp.drop_last() =~= cur0);
                assert(freq_sum(curp) == freq_add(freq_sum(cur0), freq_spec(cand.word@)));
            }
            // solutions the child recorded extend the shorter prefix too,
            // with the current index leading the pick
            assert forall|k: int|
                results_before.len() <= k < results@.len() implies entry_extends(
                #[trigger] results@[k],
                cur0,
                dict_words@,
                start_idx as int,
            ) by {
                assert(entry_extends(results@[k], curp, dict_words@, i as int));
                lemma_extend_pick(
                    results@[k].words.deep_view(),
                    cur0,
                    cand.word@,
                    dict_words@,
                    start_idx as int,
                    i as int,
                );
            }
            // the signature bookkeeping carries through the child call
            if seen_matches(old(seen_signatures)@, old(results)@) && sigs_distinct(
                old(results)@,
            ) {
                assert(seen_matches(seen_before, results_before));
                assert(sigs_distinct(results_before));
                if new_remaining == 0 {
                    assert(!seen_has(seen_before, sig_of(curp))) by {
                        if seen_has(seen_before, sig_of(curp)) {
                            let k = choose|k: int|
                                0 <= k < seen_before.len() && (#[trigger] seen_before[k])@
                                    == sig_of(curp);
                            assert(seen_before[k]@.len() > 0);
                            assert(seen_deep_before[k] == sig_of(curp));
                            assert(seen_deep_before.contains(sig_of(curp)));
                        }
                    }
                }
                assert(seen_matches(seen_signatures@, results@) && sigs_distinct(results@));
            }
            // with pairwise distinct table texts, solutions from this
            // iteration start, past the prefix, with this iteration's word,
            // while earlier iterations' solutions start with earlier words
            if forall|j1: int, j2: int|
                0 <= j1 < j2 < dict_words@.len() ==> (#[trigger] dict_words@[j1]).word@ != (
                #[trigger] dict_words@[j2]).word@ {
                assert forall|k: int|
                    results_before.len() <= k < results@.len() implies (#[trigger] results@[
                    k
                ]).words.deep_view().len() > cur0.len() && results@[k].words.deep_view()[cur0.len()
                    as int] == cand.word@ by {
                    assert(entry_extends(results@[k], curp, dict_words@, i as int));
                    let e = results@[k].words.deep_view();
                    assert(e.take(curp.len() as int) == curp);
                    assert(e.take(curp.len() as int)[cur0.len() as int] == e[cur0.len() as int]);
                    assert(curp[cur0.len() as int] == cand.word@);
                }
                assert forall|k1: int, k2: int|
                    old(results)@.len() <= k1 < k2 < results@.len() implies (#[trigger] results@[
                    k1
                ]).words.deep_view() != (#[trigger] results@[k2]).words.deep_view() by {
                    if k1 < results_before.len() && k2 >= results_before.len() {
                        assert(results@[k1] == results_before[k1]);
                        let j = choose|j: int|
                            #![trigger dict_words@[j]]
                            start_idx <= j < i && results_before[k1].words.deep_view()[cur0.len()
                                as int] == dict_words@[j].word@;
                        assert(dict_words@[j].word@ != dict_words@[i as int].word@);
                        assert(results@[k2].words.deep_view()[cur0.len() as int] == cand.word@);
                    }
                }
                assert forall|k: int|
                    old(results)@.len() <= k < results@.len() implies (#[trigger] results@[
                    k
                ]).words.deep_view().len() > cur0.len() && (exists|j: int|
                    #![trigger dict_words@[j]]
                    start_idx <= j < i + 1 && results@[k].words.deep_view()[cur0.len() as int]
                        == dict_words@[j].word@) by {
                    if k < results_before.len() {
                        assert(results@[k] == results_before[k]);
                        let j = choose|j: int|
                            #![trigger dict_words@[j]]
                            start_idx <= j < i && results_before[k].words.deep_view()[cur0.len()
                                as int] == dict_words@[j].word@;
                    } else {
                        assert(results@[k].words.deep_view()[cur0.len() as int] == dict_words@[
                            i as int
                        ].word@);
                    }
                }
            }
            // at the top level, a full-length candidate completes right away,
            // recording exactly the single-word solution for its index
            if cur0.len() == 0 && old(seen_signatures)@.len() == 0 && old(results)@.len() == 0 {
                let rb = results_before.len() as int;
                if wlen == remaining_letters {
                    assert(new_remaining == 0);
                    assert(results@[rb].words@ == cur_vec);
                    assert(results@[rb].words.deep_view() =~= seq![cand.word@]) by {
                        assert(results@[rb].words.deep_view().len() == 1);
                        assert(results@[rb].words.deep_view()[0] == cur_vec[0]@);
                        assert(current.deep_view()[0] == cur_vec[0]@);
                        assert(current.deep_view()[0] == cand.word@);
                    }
                    assert(results@[rb].words.deep_view() == seq![dict_words@[i as int].word@]);
                }
                assert forall|m: int|
                    start_idx <= m < i + 1 && (#[trigger] dict_words@[m]).len == remaining_letters
                        && dominates(available@, dict_words@[m].letters@) implies exists|k: int|
                    #![trigger results@[k]]
                    0 <= k < results@.len() && results@[k].words.deep_view() == seq![
                        dict_words@[m].word@,
                    ] by {
                    if m == i as int {
                        assert(results@[rb].words.deep_view() == seq![dict_words@[m].word@]);
                    } else {
                        let k1 = choose|k: int|
                            #![trigger results_before[k]]
                            0 <= k < results_before.len() && results_before[k].words.deep_view()
                                == seq![dict_words@[m].word@];
                        assert(results@[k1] == results_before[k1]);
                    }
                }
                if forall|m: int|
                    start_idx <= m < i + 1 ==> (#[trigger] dict_words@[m]).len
                        >= remaining_letters {
                    assert(wlen >= remaining_letters);
                    assert(wlen == remaining_letters);
                    assert(results@.len() == rb + 1);
                    assert forall|k: int|
                        0 <= k < results@.len() implies exists|j: int|
                        #![trigger dict_words@[j]]
                        start_idx <= j < i + 1 && (#[trigger] results@[k]).words.deep_view()
                            == seq![dict_words@[j].word@] by {
                        if k == rb {
                            assert(results@[k].words.deep_view() == seq![
                                dict_words@[i as int].word@,
                            ]);
                        } else {
                            assert(results@[k] == results_before[k]);
                            let j1 = choose|j: int|
                                #![trigger dict_words@[j]]
                                start_idx <= j < i && results_before[k].words.deep_view() == seq![
                                    dict_words@[j].word@,
                                ];
                            assert(start_idx <= j1 < i + 1);
                        }
                    }
                }
            }
        }
        current.pop();
        proof {
            assert(current@ =~= old(current)@);
        }
        if results.len() >= max_results {
            return;
        }
        i += 1;
    }
}

} // verus!
