//! Quality scoring of a candidate word sequence: fewer words are strongly
//! preferred, a higher average word length is rewarded, and uneven word
//! lengths are lightly penalized. Higher scores are better.

use crate::words::is_word;
use vstd::arithmetic::div_mod::lemma_fundamental_div_mod;
use vstd::math::abs;
use vstd::prelude::*;
use vstd::string::StrSliceExecFns;

verus! {

/// Total number of characters over a sequence of words.
pub open spec fn sum_lens(ws: Seq<Seq<char>>) -> int
    decreases ws.len(),
{
    if ws.len() == 0 {
        0
    } else {
        sum_lens(ws.drop_last()) + ws.last().len()
    }
}

/// Sum of the absolute deviations of the word lengths from `avg`.
pub open spec fn dev_sum(ws: Seq<Seq<char>>, avg: int) -> int
    decreases ws.len(),
{
    if ws.len() == 0 {
        0
    } else {
        dev_sum(ws.drop_last(), avg) + abs(ws.last().len() - avg)
    }
}

/// The quality score of a word sequence: average word length times 100,
/// minus 1000 per word, minus 5 per unit of length deviation (deviation
/// counts only when there is more than one word). The average is the
/// integer quotient of total length by word count.
pub open spec fn score_spec(ws: Seq<Seq<char>>) -> int {
    let n = ws.len() as int;
    if n == 0 {
        0
    } else {
        let avg = sum_lens(ws) / n;
        avg * 100 - n * 1000 - if n > 1 {
            5 * dev_sum(ws, avg)
        } else {
            0
        }
    }
}

pub proof fn lemma_sum_lens_nonneg(ws: Seq<Seq<char>>)
    ensures
        sum_lens(ws) >= 0,
    decreases ws.len(),
{
    if ws.len() > 0 {
        lemma_sum_lens_nonneg(ws.drop_last());
    }
}

pub proof fn lemma_sum_lens_prefix(ws: Seq<Seq<char>>, i: int)
    requires
        0 <= i <= ws.len(),
    ensures
        sum_lens(ws.take(i)) <= sum_lens(ws),
    decreases ws.len() - i,
{
    if i < ws.len() {
        lemma_sum_lens_prefix(ws, i + 1);
        assert(ws.take(i + 1).drop_last() =~= ws.take(i));
    } else {
        assert(ws.take(i) =~= ws);
    }
}

pub proof fn lemma_dev_sum_nonneg(ws: Seq<Seq<char>>, avg: int)
    ensures
        dev_sum(ws, avg) >= 0,
    decreases ws.len(),
{
    if ws.len() > 0 {
        lemma_dev_sum_nonneg(ws.drop_last(), avg);
    }
}

/// Compute the quality score of a word sequence.
pub fn calculate_quality_score(words: &Vec<String>) -> (score: i128)
    requires
        forall|k: int| 0 <= k < words@.len() ==> is_word(#[trigger] words@[k]@),
        sum_lens(words.deep_view()) <= usize::MAX as int,
    ensures
        score == score_spec(words.deep_view()),
{
    let ghost ws = words.deep_view();
    let n = words.len();
    if n == 0 {
        return 0;
    }
    let mut total: usize = 0;
    let mut i: usize = 0;
    proof {
        assert(ws.take(0) =~= Seq::<Seq<char>>::empty());
        assert(ws.len() == words@.len());
        assert(forall|k: int| 0 <= k < ws.len() ==> ws[k] == words@[k]@);
    }
    while i < n
        invariant
            i <= n,
            n == words@.len(),
            ws == words.deep_view(),
            ws.len() == n as int,
            forall|k: int| 0 <= k < ws.len() ==> ws[k] == words@[k]@,
            sum_lens(ws) <= usize::MAX as int,
            total as int == sum_lens(ws.take(i as int)),
        decreases n - i,
    {
        let l = words[i].as_str().unicode_len();
        proof {
            assert(ws.take(i + 1).drop_last() =~= ws.take(i as int));
            assert(ws.take(i + 1).last() == ws[i as int]);
            lemma_sum_lens_prefix(ws, i + 1);
        }
        total += l;
        i += 1;
    }
    proof {
        assert(ws.take(n as int) =~= ws);
    }
    let avg = total / n;
    proof {
        lemma_fundamental_div_mod(total as int, n as int);
        assert(n as int * avg as int <= total as int);
    }
    let mut dev: u128 = 0;
    i = 0;
    proof {
        assert(ws.take(0) =~= Seq::<Seq<char>>::empty());
    }
    while i < n
        invariant
            i <= n,
            n == words@.len(),
            n >= 1,
            ws == words.deep_view(),
            ws.len() == n as int,
            forall|k: int| 0 <= k < ws.len() ==> ws[k] == words@[k]@,
            total as int == sum_lens(ws),
            avg as int == sum_lens(ws) / n as int,
            n as int * avg as int <= total as int,
            dev as int == dev_sum(ws.take(i as int), avg as int),
            dev as int <= sum_lens(ws.take(i as int)) + i as int * avg as int,
        decreases n - i,
    {
        let l = words[i].as_str().unicode_len();
        let d = if l >= avg {
            l - avg
        } else {
            avg - l
        };
        proof {
            assert(ws.take(i + 1).drop_last() =~= ws.take(i as int));
            assert(ws.take(i + 1).last() == ws[i as int]);
            lemma_sum_lens_prefix(ws, i + 1);
            assert(i as int * avg as int + avg as int == (i + 1) * avg as int) by (
            nonlinear_arith);
            assert((i + 1) * avg as int <= n as int * avg as int) by (nonlinear_arith)
                requires
                    0 <= avg as int,
                    i + 1 <= n as int,
            ;
        }
        dev += d as u128;
        i += 1;
    }
    proof {
        assert(ws.take(n as int) =~= ws);
    }
    let score: i128 = (avg as i128) * 100 - (n as i128) * 1000 - if n > 1 {
        5 * (dev as i128)
    } else {
        0
    };
    score
}

/// A one-word solution always outranks any solution of two or more words
/// with the same total letter count.
pub proof fn lemma_single_word_outranks(ws1: Seq<Seq<char>>, ws2: Seq<Seq<char>>)
    requires
        ws1.len() == 1,
        ws2.len() >= 2,
        sum_lens(ws1) == sum_lens(ws2),
    ensures
        score_spec(ws1) > score_spec(ws2),
{
    let t = sum_lens(ws1);
    lemma_sum_lens_nonneg(ws1);
    let n2 = ws2.len() as int;
    let avg2 = sum_lens(ws2) / n2;
    lemma_dev_sum_nonneg(ws2, avg2);
    assert(t / 1 == t);
    assert(avg2 <= t) by (nonlinear_arith)
        requires
            t >= 0,
            n2 >= 2,
            avg2 == t / n2,
    ;
    assert(score_spec(ws2) <= avg2 * 100 - 2000);
}

} // verus!
