//! The solver entry point: validate the phrase, preprocess the word source,
//! run the combination search, then rank, deduplicate and truncate the
//! solutions for presentation.

use crate::dict::{build_candidates, lemma_fit_filter_sub, lemma_to_multiset_insert, Candidate};
use crate::letters::{freq_spec, is_letter, letter_index_exec, total_of, Letters};
use crate::score::score_spec;
use crate::search::{entry_ok, find_anagrams_recursive, freq_add, freq_sum, words_wf, Solution};
use crate::signature::contains_string;
use crate::words::{build_dictionary, is_word, letter_seq, usable_words};
use vstd::multiset::Multiset;
use vstd::prelude::*;
use vstd::string::StrSliceExecFns;
use vstd::string::StringExecFns;

verus! {

/// Why a solve call failed: a phrase without any ASCII letter, or a word
/// source without a single usable entry.
#[derive(Debug, PartialEq, Eq, Structural)]
pub enum SolveError {
    EmptyInput,
    DictionaryEmpty,
}

/// The ordered result phrases, best first. The ghost fields record, for each
/// phrase, the word sequence it was joined from, and how many solutions the
/// search recorded before ranking and deduplication.
pub struct AnagramResults {
    pub results: Vec<String>,
    pub solutions: Ghost<Seq<Seq<Seq<char>>>>,
    pub explored: Ghost<int>,
}

pub open spec fn contains_letter(s: Seq<char>) -> bool {
    exists|i: int| 0 <= i < s.len() && is_letter(s[i])
}

/// A word-source line that is usable and is, on its own, an exact anagram of
/// a target with letter frequency `tf`.
pub open spec fn exact_line(l: Seq<char>, tf: Seq<int>) -> bool {
    crate::words::word_of_line(l) is Some && freq_spec(crate::words::trim_spec(l)) == tf
}

/// Words joined by single spaces.
pub open spec fn join_spec(ws: Seq<Seq<char>>) -> Seq<char>
    decreases ws.len(),
{
    if ws.len() == 0 {
        Seq::empty()
    } else if ws.len() == 1 {
        ws.first()
    } else {
        join_spec(ws.drop_last()) + seq![' '] + ws.last()
    }
}

/// Every word of `ws` is, by its alphabet indices, a usable word of the word
/// source.
pub open spec fn sol_words_usable(ws: Seq<Seq<char>>, usable: Seq<Seq<int>>) -> bool {
    forall|k: int| 0 <= k < ws.len() ==> usable.contains(letter_seq(#[trigger] ws[k]))
}

/// What `solve_anagrams` guarantees of a successful result, against the
/// target's letter frequency `tf` and the usable words of the word source:
/// each phrase is the space-join of a solution made of usable words; each
/// phrase's letters are exactly the target's letters; no phrase text repeats;
/// quality scores never increase along the output; and at most 10000 phrases
/// are returned.
pub open spec fn output_ok(
    res: Seq<String>,
    sols: Seq<Seq<Seq<char>>>,
    tf: Seq<int>,
    usable: Seq<Seq<int>>,
) -> bool {
    &&& res.len() == sols.len()
    &&& res.len() <= 10000
    &&& forall|k: int| 0 <= k < res.len() ==> (#[trigger] res[k])@ == join_spec(sols[k])
    &&& forall|k: int| 0 <= k < res.len() ==> freq_spec((#[trigger] res[k])@) == tf
    &&& forall|k: int| 0 <= k < sols.len() ==> freq_sum(#[trigger] sols[k]) == tf
    &&& forall|k: int| 0 <= k < sols.len() ==> words_wf(#[trigger] sols[k])
    &&& forall|k: int| 0 <= k < sols.len() ==> sol_words_usable(#[trigger] sols[k], usable)
    &&& forall|k1: int, k2: int|
        0 <= k1 < k2 < sols.len() ==> score_spec(#[trigger] sols[k2]) <= score_spec(
            #[trigger] sols[k1],
        )
    &&& forall|k1: int, k2: int|
        0 <= k1 < k2 < res.len() ==> (#[trigger] res[k1])@ != (#[trigger] res[k2])@
}

/// Whether the text holds any ASCII letter.
pub fn has_letter(s: &str) -> (r: bool)
    ensures
        r == contains_letter(s@),
{
    let n = s.unicode_len();
    let mut i: usize = 0;
    while i < n
        invariant
            i <= n,
            n == s@.len(),
            forall|k: int| 0 <= k < i ==> !is_letter(s@[k]),
        decreases n - i,
    {
        let c = s.get_char(i);
        if letter_index_exec(c) < 26 {
            proof {
                assert(is_letter(s@[i as int]));
            }
            return true;
        }
        i += 1;
    }
    false
}

pub proof fn lemma_count_concat(a: Seq<char>, b: Seq<char>, j: int)
    ensures
        crate::letters::count_letter(a + b, j) == crate::letters::count_letter(a, j)
            + crate::letters::count_letter(b, j),
    decreases b.len(),
{
    if b.len() == 0 {
        assert(a + b =~= a);
    } else {
        lemma_count_concat(a, b.drop_last(), j);
        assert((a + b).drop_last() =~= a + b.drop_last());
        assert((a + b).last() == b.last());
    }
}

/// The letters of a space-joined phrase are the combined letters of its
/// words: the space contributes nothing.
pub proof fn lemma_freq_join(ws: Seq<Seq<char>>)
    ensures
        freq_spec(join_spec(ws)) == freq_sum(ws),
    decreases ws.len(),
{
    if ws.len() == 0 {
        let e = Seq::<char>::empty();
        assert(join_spec(ws) == e);
        assert forall|j: int| 0 <= j < 26 implies freq_spec(e)[j] == freq_sum(ws)[j] by {
            assert(crate::letters::count_letter(e, j) == 0);
        }
        assert(freq_spec(join_spec(ws)) =~= freq_sum(ws));
    } else if ws.len() == 1 {
        assert(ws.drop_last().len() == 0);
        assert(freq_sum(ws.drop_last()) == crate::search::zero_freq());
        assert forall|j: int| 0 <= j < 26 implies freq_spec(join_spec(ws))[j] == freq_sum(ws)[j]
            by {
            assert(join_spec(ws) == ws.first());
            assert(ws.last() == ws.first());
        }
        assert(freq_spec(join_spec(ws)) =~= freq_sum(ws));
    } else {
        lemma_freq_join(ws.drop_last());
        let p = join_spec(ws.drop_last());
        let sp = seq![' '];
        assert forall|j: int| 0 <= j < 26 implies crate::letters::count_letter(
            join_spec(ws),
            j,
        ) == crate::letters::count_letter(p, j) + crate::letters::count_letter(
            ws.last(),
            j,
        ) by {
            lemma_count_concat(p + sp, ws.last(), j);
            lemma_count_concat(p, sp, j);
            assert(crate::letters::count_letter(sp, j) == 0) by {
                assert(sp.drop_last() =~= Seq::<char>::empty());
                assert(crate::letters::count_letter(Seq::<char>::empty(), j) == 0);
                assert(sp.last() == ' ');
                assert(crate::letters::letter_index(' ') == -1);
            }
            assert(join_spec(ws) == (p + sp) + ws.last());
        }
        assert(freq_spec(join_spec(ws)) =~= freq_sum(ws));
    }
}

/// Insert a solution into a score-sorted sequence, after every entry whose
/// score is at least its own — so entries of equal score keep their original
/// order.
pub open spec fn sols_insert(sorted: Seq<Solution>, e: Solution) -> Seq<Solution>
    decreases sorted.len(),
{
    if sorted.len() == 0 {
        seq![e]
    } else if sorted.first().score >= e.score {
        seq![sorted.first()] + sols_insert(sorted.drop_first(), e)
    } else {
        seq![e] + sorted
    }
}

/// Sort solutions by score descending by stable insertion, in input order.
pub open spec fn sols_sort_spec(s: Seq<Solution>) -> Seq<Solution>
    decreases s.len(),
{
    if s.len() == 0 {
        Seq::empty()
    } else {
        sols_insert(sols_sort_spec(s.drop_last()), s.last())
    }
}

proof fn lemma_sols_insert_at(s: Seq<Solution>, e: Solution, j: int)
    requires
        0 <= j <= s.len(),
        forall|k: int| 0 <= k < j ==> (#[trigger] s[k]).score >= e.score,
        j < s.len() ==> s[j].score < e.score,
    ensures
        sols_insert(s, e) == s.insert(j, e),
    decreases s.len(),
{
    if s.len() == 0 {
        assert(sols_insert(s, e) =~= s.insert(0, e));
    } else if j == 0 {
        assert(sols_insert(s, e) =~= s.insert(0, e));
    } else {
        lemma_sols_insert_at(s.drop_first(), e, j - 1);
        assert(sols_insert(s, e) =~= s.insert(j, e));
    }
}

/// A phrase that is itself a single word can only be the join of that one
/// word: joining two or more words puts a space where a word has none.
proof fn lemma_join_single(ws: Seq<Seq<char>>, w: Seq<char>)
    requires
        words_wf(ws),
        is_word(w),
        join_spec(ws) == w,
    ensures
        ws == seq![w],
{
    if ws.len() == 0 {
        assert(w.len() == 0);
    } else if ws.len() == 1 {
        assert(ws =~= seq![w]);
    } else {
        let p = join_spec(ws.drop_last());
        let at = p.len() as int;
        assert(w[at] == ' ');
        assert(crate::letters::is_lower_letter(w[at]));
    }
}

proof fn lemma_multiset_move<A>(a: Multiset<A>, b: Multiset<A>, e: A)
    requires
        b.count(e) >= 1,
    ensures
        a.insert(e).add(b.remove(e)) == a.add(b),
{
    broadcast use vstd::multiset::group_multiset_axioms;

    assert(a.insert(e).add(b.remove(e)) =~= a.add(b));
}

/// Sort recorded solutions by quality score, highest first. The result is a
/// permutation of the input, and what the search guaranteed of each entry
/// still holds of each.
pub fn sort_solutions(
    input: Vec<Solution>,
    Ghost(goal): Ghost<Seq<int>>,
    Ghost(table): Ghost<Seq<Candidate>>,
) -> (r: Vec<Solution>)
    requires
        forall|k: int| 0 <= k < input@.len() ==> entry_ok(#[trigger] input@[k], goal, table),
    ensures
        r@ == sols_sort_spec(input@),
        r@.len() == input@.len(),
        r@.to_multiset() == input@.to_multiset(),
        forall|k: int| 0 <= k < r@.len() ==> entry_ok(#[trigger] r@[k], goal, table),
        forall|k1: int, k2: int| 0 <= k1 < k2 < r@.len() ==> r@[k1].score >= r@[k2].score,
{
    let ghost orig = input@;
    let mut rest = input;
    let mut out: Vec<Solution> = Vec::new();
    proof {
        broadcast use vstd::multiset::group_multiset_axioms;

        out@.to_multiset_ensures();
        assert(out@.to_multiset().add(rest@.to_multiset()) =~= orig.to_multiset());
        assert(orig.take(0) =~= Seq::<Solution>::empty());
        assert(out@ =~= sols_sort_spec(orig.take(0)));
        assert(rest@ =~= orig.skip(0));
    }
    while rest.len() > 0
        invariant
            out@.len() + rest@.len() == orig.len(),
            out@.to_multiset().add(rest@.to_multiset()) == orig.to_multiset(),
            out@ == sols_sort_spec(orig.take(out@.len() as int)),
            rest@ == orig.skip(out@.len() as int),
            forall|k: int| 0 <= k < rest@.len() ==> entry_ok(#[trigger] rest@[k], goal, table),
            forall|k: int| 0 <= k < out@.len() ==> entry_ok(#[trigger] out@[k], goal, table),
            forall|k1: int, k2: int| 0 <= k1 < k2 < out@.len() ==> out@[k1].score >= out@[k2].score,
        decreases rest@.len(),
    {
        let ghost rest_before = rest@;
        let ghost p = out@.len() as int;
        let e = rest.remove(0);
        proof {
            rest_before.to_multiset_ensures();
            assert(rest@.to_multiset() == rest_before.to_multiset().remove(e));
            assert(rest_before.contains(e)) by {
                assert(rest_before[0] == e);
            }
            rest_before.remove_ensures(0);
            assert(e == orig[p]);
            assert(rest@ =~= orig.skip(p + 1)) by {
                assert(rest@ =~= rest_before.drop_first());
            }
            assert(orig.take(p + 1).drop_last() =~= orig.take(p));
            assert(orig.take(p + 1).last() == orig[p]);
        }
        let ghost before = out@;
        let mut j: usize = 0;
        while j < out.len() && out[j].score >= e.score
            invariant
                j <= out@.len(),
                out@ == before,
                forall|k: int| 0 <= k < j ==> (#[trigger] before[k]).score >= e.score,
            decreases out@.len() - j,
        {
            j += 1;
        }
        proof {
            if (j as int) < before.len() {
                assert(before[j as int].score < e.score);
            }
        }
        out.insert(j, e);
        proof {
            before.insert_ensures(j as int, e);
            lemma_to_multiset_insert(before, j as int, e);
            lemma_multiset_move(before.to_multiset(), rest_before.to_multiset(), e);
            lemma_sols_insert_at(before, e, j as int);
            assert(out@ == sols_sort_spec(orig.take(p + 1)));
            assert(forall|k: int|
                0 <= k < out@.len() ==> (#[trigger] out@[k]) == (if k < j as int {
                    before[k]
                } else if k == j as int {
                    e
                } else {
                    before[k - 1]
                }));
        }
    }
    proof {
        broadcast use vstd::multiset::group_multiset_axioms;

        rest@.to_multiset_ensures();
        assert forall|x: Solution|
            out@.to_multiset().add(rest@.to_multiset()).count(x) == out@.to_multiset().count(
                x,
            ) by {
            assert(rest@.to_multiset().count(x) <= rest@.to_multiset().len());
        }
        assert(out@.to_multiset() =~= orig.to_multiset());
        assert(orig.take(out@.len() as int) =~= orig);
    }
    out
}

/// Join words with single spaces into one phrase.
pub fn join_words(words: &Vec<String>) -> (r: String)
    ensures
        r@ == join_spec(words.deep_view()),
{
    let ghost ws = words.deep_view();
    let mut r = String::new();
    let mut k: usize = 0;
    proof {
        assert(ws.take(0) =~= Seq::<Seq<char>>::empty());
        assert(r@ =~= join_spec(ws.take(0)));
        reveal_strlit(" ");
        assert(forall|i: int| 0 <= i < ws.len() ==> ws[i] == #[trigger] words@[i]@);
    }
    while k < words.len()
        invariant
            k <= words@.len(),
            ws == words.deep_view(),
            ws.len() == words@.len(),
            forall|i: int| 0 <= i < ws.len() ==> ws[i] == #[trigger] words@[i]@,
            r@ == join_spec(ws.take(k as int)),
            (" ")@ =~= seq![' '],
        decreases words@.len() - k,
    {
        proof {
            assert(ws.take(k + 1).drop_last() =~= ws.take(k as int));
            assert(ws.take(k + 1).last() == ws[k as int]);
            if k == 0 {
                assert(ws.take(1).first() == ws[0]);
            }
        }
        if k > 0 {
            r.append(" ");
        }
        r.append(words[k].as_str());
        k += 1;
    }
    proof {
        assert(ws.take(words@.len() as int) =~= ws);
    }
    r
}

/// Find every discovered way to rearrange the letters of `target` into one
/// or more words of the word source, ranked best first and deduplicated.
/// Fails with `EmptyInput` when the phrase holds no ASCII letter, and with
/// `DictionaryEmpty` when no line of the word source is usable. Recall is
/// bounded by a search cap and pruning heuristics, but when some usable word
/// is by itself an exact anagram of the target, the output is never empty.
#[verifier::rlimit(100)]
pub fn solve_anagrams(target: &str, dict_lines: &Vec<String>) -> (r: Result<
    AnagramResults,
    SolveError,
>)
    ensures
        r matches Err(SolveError::EmptyInput) <==> !contains_letter(target@),
        r matches Err(SolveError::DictionaryEmpty) <==> (contains_letter(target@)
            && usable_words(dict_lines.deep_view()).len() == 0),
        r matches Ok(out) ==> output_ok(
            out.results@,
            out.solutions@,
            freq_spec(target@),
            usable_words(dict_lines.deep_view()),
        ),
        r matches Ok(out) ==> ((exists|j: int|
            0 <= j < dict_lines@.len() && #[trigger] exact_line(
                dict_lines.deep_view()[j],
                freq_spec(target@),
            )) ==> out.results@.len() > 0),
        r matches Ok(out) ==> ((out.explored@ < 50000 && out.results@.len() < 10000)
            ==> forall|j: int|
            0 <= j < dict_lines@.len() && #[trigger] exact_line(
                dict_lines.deep_view()[j],
                freq_spec(target@),
            ) ==> exists|k: int|
                #![trigger out.solutions@[k]]
                0 <= k < out.solutions@.len() && out.solutions@[k].len() == 1 && letter_seq(
                    out.solutions@[k][0],
                ) == letter_seq(crate::words::trim_spec(dict_lines.deep_view()[j]))),
{
    if !has_letter(target) {
        return Err(SolveError::EmptyInput);
    }
    let ghost usable = usable_words(dict_lines.deep_view());
    let dictionary = build_dictionary(dict_lines);
    proof {
        assert(dictionary@.map_values(|w: String| letter_seq(w@)).len() == dictionary@.len());
    }
    if dictionary.is_empty() {
        return Err(SolveError::DictionaryEmpty);
    }
    let target_freq = Letters::from_text(target);
    let target_len = target_freq.total();
    let ghost tf = freq_spec(target@);
    let dict_words = build_candidates(&dictionary, &target_freq, target_len);
    let ghost table = dict_words@;
    // every candidate's word is, by alphabet indices, a usable source word
    proof {
        broadcast use vstd::seq_lib::group_to_multiset_ensures;

        lemma_fit_filter_sub(dictionary.deep_view(), tf, target_len as int);
        let cw = table.map_values(|c: Candidate| c.word@);
        let ff = crate::dict::fit_filter(dictionary.deep_view(), tf, target_len as int);
        assert forall|m: int| 0 <= m < table.len() implies usable.contains(
            letter_seq((#[trigger] table[m]).word@),
        ) by {
            assert(cw[m] == table[m].word@);
            assert(cw.contains(table[m].word@));
            assert(cw.to_multiset().count(table[m].word@) > 0);
            assert(ff.contains(table[m].word@));
            assert(dictionary.deep_view().contains(table[m].word@));
            let j = choose|j: int|
                0 <= j < dictionary.deep_view().len() && dictionary.deep_view()[j] == table[
                    m
                ].word@;
            assert(dictionary.deep_view()[j] == dictionary@[j]@);
            let dm = dictionary@.map_values(|w: String| letter_seq(w@));
            assert(dm[j] == letter_seq(dictionary@[j]@));
            assert(usable[j] == letter_seq(table[m].word@));
        }
    }
    // a usable line that is itself an exact anagram of the target yields a
    // candidate of full length, which the search is bound to record
    let ghost lines_deep = dict_lines.deep_view();
    proof {
        broadcast use vstd::seq_lib::group_to_multiset_ensures;

        assert forall|j: int|
            0 <= j < dict_lines@.len() && #[trigger] exact_line(lines_deep[j], tf) implies exists|
            m: int,
        |
            #![trigger table[m]]
            0 <= m < table.len() && table[m].len == target_len && crate::letters::dominates(
                target_freq@,
                table[m].letters@,
            ) && letter_seq(table[m].word@) == letter_seq(
                crate::words::trim_spec(lines_deep[j]),
            ) by {
            assert(lines_deep.len() == dict_lines@.len());
            let ls = letter_seq(crate::words::trim_spec(lines_deep[j]));
            crate::words::lemma_usable_contains(lines_deep, j);
            let dm = dictionary@.map_values(|w: String| letter_seq(w@));
            let k = choose|k: int| 0 <= k < usable.len() && usable[k] == ls;
            assert(dm[k] == letter_seq(dictionary@[k]@));
            let w = dictionary@[k]@;
            crate::words::lemma_letter_seq_freq(w, crate::words::trim_spec(lines_deep[j]));
            assert(freq_spec(w) == tf);
            assert(is_word(w));
            assert forall|x: int| 0 <= x < w.len() implies is_letter(w[x]) by {
                assert(crate::letters::is_lower_letter(w[x]));
            }
            crate::dict::lemma_word_freq_total(w);
            assert(w.len() == total_of(tf));
            assert(total_of(tf) == target_len as int);
            assert(crate::letters::dominates(tf, freq_spec(w)));
            assert(dictionary.deep_view()[k] == w);
            crate::dict::lemma_fit_filter_complete(
                dictionary.deep_view(),
                tf,
                target_len as int,
                k,
            );
            let cw = table.map_values(|c: Candidate| c.word@);
            let ff = crate::dict::fit_filter(dictionary.deep_view(), tf, target_len as int);
            assert(ff.contains(w));
            assert(ff.to_multiset().count(w) > 0);
            assert(cw.to_multiset().count(w) > 0);
            assert(cw.contains(w));
            let m = choose|m: int| 0 <= m < cw.len() && cw[m] == w;
            assert(cw[m] == table[m].word@);
            assert(table[m].wf());
            assert(table[m].letters@ == freq_spec(w));
            assert(table[m].len == target_len);
            assert(crate::letters::dominates(target_freq@, table[m].letters@));
            assert(letter_seq(table[m].word@) == ls);
        }
        if exists|j: int|
            0 <= j < dict_lines@.len() && #[trigger] exact_line(lines_deep[j], tf) {
            let j = choose|j: int|
                0 <= j < dict_lines@.len() && #[trigger] exact_line(lines_deep[j], tf);
            let m = choose|m: int|
                #![trigger table[m]]
                0 <= m < table.len() && table[m].len == target_len && crate::letters::dominates(
                    target_freq@,
                    table[m].letters@,
                ) && letter_seq(table[m].word@) == letter_seq(
                    crate::words::trim_spec(lines_deep[j]),
                );
            assert(exists|m2: int|
                0 <= m2 < dict_words@.len() && (#[trigger] dict_words@[m2]).len == target_len
                    && crate::letters::dominates(target_freq@, dict_words@[m2].letters@));
        }
    }
    let mut results: Vec<Solution> = Vec::new();
    let mut current: Vec<String> = Vec::new();
    let mut seen: Vec<String> = Vec::new();
    proof {
        assert(current.deep_view() =~= Seq::<Seq<char>>::empty());
        assert(crate::score::sum_lens(current.deep_view()) == 0);
    }
    let ghost cur0 = current.deep_view();
    find_anagrams_recursive(
        &dict_words,
        &target_freq,
        &mut current,
        &mut results,
        &mut seen,
        0,
        target_len,
        50000,
    );
    let ghost explored = results@.len() as int;
    let ghost raw = results@;
    proof {
        assert(freq_add(freq_sum(cur0), target_freq@) =~= tf);
        if exists|j: int|
            0 <= j < dict_lines@.len() && #[trigger] exact_line(lines_deep[j], tf) {
            assert(results@.len() > 0);
        }
        if explored < 50000 {
            assert forall|j: int|
                0 <= j < dict_lines@.len() && #[trigger] exact_line(lines_deep[j], tf) implies
                exists|k: int|
                #![trigger raw[k]]
                0 <= k < raw.len() && raw[k].words.deep_view().len() == 1 && letter_seq(
                    raw[k].words.deep_view()[0],
                ) == letter_seq(crate::words::trim_spec(lines_deep[j])) by {
                let m = choose|m: int|
                    #![trigger table[m]]
                    0 <= m < table.len() && table[m].len == target_len
                        && crate::letters::dominates(target_freq@, table[m].letters@)
                        && letter_seq(table[m].word@) == letter_seq(
                        crate::words::trim_spec(lines_deep[j]),
                    );
                let k = choose|k: int|
                    #![trigger results@[k]]
                    0 <= k < results@.len() && results@[k].words.deep_view() == seq![
                        table[m].word@,
                    ];
                assert(raw[k].words.deep_view().len() == 1);
                assert(raw[k].words.deep_view()[0] == table[m].word@);
            }
        }
    }
    let sorted = sort_solutions(results, Ghost(tf), Ghost(table));
    proof {
        broadcast use vstd::seq_lib::group_to_multiset_ensures;

        if explored < 50000 {
            assert forall|j: int|
                0 <= j < dict_lines@.len() && #[trigger] exact_line(lines_deep[j], tf) implies
                exists|k2: int|
                #![trigger sorted@[k2]]
                0 <= k2 < sorted@.len() && sorted@[k2].words.deep_view().len() == 1 && letter_seq(
                    sorted@[k2].words.deep_view()[0],
                ) == letter_seq(crate::words::trim_spec(lines_deep[j])) by {
                let k = choose|k: int|
                    #![trigger raw[k]]
                    0 <= k < raw.len() && raw[k].words.deep_view().len() == 1 && letter_seq(
                        raw[k].words.deep_view()[0],
                    ) == letter_seq(crate::words::trim_spec(lines_deep[j]));
                assert(raw.contains(raw[k]));
                assert(raw.to_multiset().count(raw[k]) > 0);
                assert(sorted@.to_multiset().count(raw[k]) > 0);
                assert(sorted@.contains(raw[k]));
                let k2 = choose|k2: int| 0 <= k2 < sorted@.len() && sorted@[k2] == raw[k];
                assert(sorted@[k2].words.deep_view().len() == 1);
            }
        }
    }
    // convert to phrases, deduplicate by exact text, truncate
    let mut out: Vec<String> = Vec::new();
    let ghost mut sols: Seq<Seq<Seq<char>>> = Seq::empty();
    let mut idx: usize = 0;
    while idx < sorted.len() && out.len() < 10000
        invariant
            idx <= sorted@.len(),
            tf == freq_spec(target@),
            usable == usable_words(dict_lines.deep_view()),
            forall|k: int| 0 <= k < sorted@.len() ==> entry_ok(#[trigger] sorted@[k], tf, table),
            forall|k1: int, k2: int|
                0 <= k1 < k2 < sorted@.len() ==> sorted@[k1].score >= sorted@[k2].score,
            forall|m: int|
                0 <= m < table.len() ==> usable.contains(
                    letter_seq((#[trigger] table[m]).word@),
                ),
            out@.len() == sols.len(),
            out@.len() <= 10000,
            forall|k: int| 0 <= k < out@.len() ==> (#[trigger] out@[k])@ == join_spec(sols[k]),
            forall|k: int| 0 <= k < out@.len() ==> freq_spec((#[trigger] out@[k])@) == tf,
            forall|k: int| 0 <= k < sols.len() ==> freq_sum(#[trigger] sols[k]) == tf,
            forall|k: int| 0 <= k < sols.len() ==> words_wf(#[trigger] sols[k]),
            forall|k: int| 0 <= k < sols.len() ==> sol_words_usable(#[trigger] sols[k], usable),
            forall|k: int|
                0 <= k < sols.len() ==> forall|j: int|
                    idx <= j < sorted@.len() ==> score_spec(#[trigger] sols[k]) >= sorted@[
                        j
                    ].score as int,
            forall|k1: int, k2: int|
                0 <= k1 < k2 < sols.len() ==> score_spec(#[trigger] sols[k2]) <= score_spec(
                    #[trigger] sols[k1],
                ),
            forall|k1: int, k2: int|
                0 <= k1 < k2 < out@.len() ==> (#[trigger] out@[k1])@ != (#[trigger] out@[k2])@,
            idx == 0 || out@.len() > 0,
            forall|x: int|
                0 <= x < idx ==> exists|k: int|
                    #![trigger out@[k]]
                    0 <= k < out@.len() && (out@[k])@ == join_spec(
                        (#[trigger] sorted@[x]).words.deep_view(),
                    ),
        decreases sorted@.len() - idx,
    {
        let e = &sorted[idx];
        let phrase = join_words(&e.words);
        proof {
            lemma_freq_join(e.words.deep_view());
            assert(out.deep_view().len() == out@.len());
            assert(forall|k: int|
                0 <= k < out@.len() ==> out.deep_view()[k] == (#[trigger] out@[k])@);
        }
        if !contains_string(&out, &phrase) {
            let ghost before_out = out@;
            out.push(phrase);
            proof {
                let w = sorted@[idx as int].words.deep_view();
                sols = sols.push(w);
                assert forall|x: int|
                    0 <= x < idx + 1 implies exists|k: int|
                    #![trigger out@[k]]
                    0 <= k < out@.len() && (out@[k])@ == join_spec(
                        (#[trigger] sorted@[x]).words.deep_view(),
                    ) by {
                    if x < idx {
                        let kx = choose|kx: int|
                            #![trigger before_out[kx]]
                            0 <= kx < before_out.len() && (before_out[kx])@ == join_spec(
                                sorted@[x].words.deep_view(),
                            );
                        assert(out@[kx] == before_out[kx]);
                    } else {
                        assert((out@[out@.len() - 1])@ == join_spec(
                            sorted@[x].words.deep_view(),
                        ));
                    }
                }
                assert(sol_words_usable(w, usable)) by {
                    assert forall|k: int| 0 <= k < w.len() implies usable.contains(
                        letter_seq(#[trigger] w[k]),
                    ) by {
                        let m = choose|m: int|
                            0 <= m < table.len() && w[k] == (#[trigger] table[m]).word@;
                        assert(usable.contains(letter_seq(table[m].word@)));
                    }
                }
                assert((out@[out@.len() - 1])@ == join_spec(
                    sorted@[idx as int].words.deep_view(),
                ));
            }
        } else {
            proof {
                let kd = choose|kd: int|
                    0 <= kd < out.deep_view().len() && out.deep_view()[kd] == phrase@;
                assert((out@[kd])@ == join_spec(sorted@[idx as int].words.deep_view()));
            }
        }
        idx += 1;
    }
    proof {
        // every exact single-word line survives ranking and deduplication,
        // as long as neither the search cap nor the output cap was reached
        if explored < 50000 && out@.len() < 10000 {
            assert(idx == sorted@.len());
            assert forall|j: int|
                0 <= j < dict_lines@.len() && #[trigger] exact_line(lines_deep[j], tf) implies
                exists|k: int|
                #![trigger sols[k]]
                0 <= k < sols.len() && sols[k].len() == 1 && letter_seq(sols[k][0]) == letter_seq(
                    crate::words::trim_spec(lines_deep[j]),
                ) by {
                let k2 = choose|k2: int|
                    #![trigger sorted@[k2]]
                    0 <= k2 < sorted@.len() && sorted@[k2].words.deep_view().len() == 1
                        && letter_seq(sorted@[k2].words.deep_view()[0]) == letter_seq(
                        crate::words::trim_spec(lines_deep[j]),
                    );
                let w = sorted@[k2].words.deep_view()[0];
                assert(join_spec(sorted@[k2].words.deep_view()) == w) by {
                    assert(sorted@[k2].words.deep_view().first() == w);
                }
                let k = choose|k: int|
                    #![trigger out@[k]]
                    0 <= k < out@.len() && (out@[k])@ == join_spec(
                        sorted@[k2].words.deep_view(),
                    );
                assert((out@[k])@ == w);
                assert((out@[k])@ == join_spec(sols[k]));
                assert(words_wf(sols[k]));
                assert(is_word(w)) by {
                    assert(entry_ok(sorted@[k2], tf, table));
                    assert(words_wf(sorted@[k2].words.deep_view()));
                }
                lemma_join_single(sols[k], w);
                assert(sols[k] == seq![w]);
                assert(sols[k].len() == 1 && sols[k][0] == w);
            }
        }
    }
    let res = AnagramResults { results: out, solutions: Ghost(sols), explored: Ghost(explored) };
    Ok(res)
}

} // verus!
