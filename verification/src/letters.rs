//! Letter multisets: a fixed counter over the 26-letter ASCII alphabet, with
//! domination checks and subtraction. The mathematical model of a text is
//! `freq_spec`, the per-letter count of its ASCII alphabetic characters,
//! case-insensitively; all other characters are ignored.

use vstd::pervasive::VecAdditionalExecFns;
use vstd::prelude::*;

verus! {

/// Index of an ASCII letter in the alphabet (0 for a/A .. 25 for z/Z);
/// -1 for every other character.
pub open spec fn letter_index(c: char) -> int {
    if 'a' <= c && c <= 'z' {
        c as u32 - 'a' as u32
    } else if 'A' <= c && c <= 'Z' {
        c as u32 - 'A' as u32
    } else {
        -1
    }
}

pub open spec fn is_letter(c: char) -> bool {
    letter_index(c) >= 0
}

pub open spec fn is_lower_letter(c: char) -> bool {
    'a' <= c && c <= 'z'
}

/// How many characters of `s` are the letter with alphabet index `j`
/// (either case).
pub open spec fn count_letter(s: Seq<char>, j: int) -> nat
    decreases s.len(),
{
    if s.len() == 0 {
        0
    } else {
        count_letter(s.drop_last(), j) + if letter_index(s.last()) == j {
            1nat
        } else {
            0nat
        }
    }
}

/// The letter-frequency vector of a text: 26 per-letter counts.
pub open spec fn freq_spec(s: Seq<char>) -> Seq<int> {
    Seq::new(26, |j: int| count_letter(s, j) as int)
}

/// Sum of the entries of a frequency vector.
pub open spec fn total_of(f: Seq<int>) -> int
    decreases f.len(),
{
    if f.len() == 0 {
        0
    } else {
        total_of(f.drop_last()) + f.last()
    }
}

/// `need` can be paid out of `have`: every count of `need` is at most the
/// corresponding count of `have`.
pub open spec fn dominates(have: Seq<int>, need: Seq<int>) -> bool {
    &&& have.len() == 26
    &&& need.len() == 26
    &&& forall|j: int| 0 <= j < 26 ==> need[j] <= have[j]
}

pub proof fn lemma_count_letter_le_len(s: Seq<char>, j: int)
    ensures
        count_letter(s, j) <= s.len(),
    decreases s.len(),
{
    if s.len() > 0 {
        lemma_count_letter_le_len(s.drop_last(), j);
    }
}

/// Two equally long vectors that agree everywhere but at `k` have sums that
/// differ by the difference at `k`.
pub proof fn lemma_total_diff_at_one(f: Seq<int>, g: Seq<int>, k: int)
    requires
        f.len() == g.len(),
        0 <= k < f.len(),
        forall|j: int| 0 <= j < f.len() && j != k ==> f[j] == g[j],
    ensures
        total_of(g) == total_of(f) + (g[k] - f[k]),
    decreases f.len(),
{
    if k == f.len() - 1 {
        assert(f.drop_last() =~= g.drop_last());
    } else {
        lemma_total_diff_at_one(f.drop_last(), g.drop_last(), k);
    }
}

pub proof fn lemma_total_equal(f: Seq<int>, g: Seq<int>)
    requires
        f.len() == g.len(),
        forall|j: int| 0 <= j < f.len() ==> f[j] == g[j],
    ensures
        total_of(f) == total_of(g),
{
    assert(f =~= g);
}

/// Appending one character bumps exactly its own letter count.
pub proof fn lemma_freq_push(s: Seq<char>, c: char)
    ensures
        is_letter(c) ==> freq_spec(s.push(c)) =~= freq_spec(s).update(
            letter_index(c),
            freq_spec(s)[letter_index(c)] + 1,
        ),
        !is_letter(c) ==> freq_spec(s.push(c)) =~= freq_spec(s),
{
    assert(s.push(c).drop_last() =~= s);
    assert(s.push(c).last() == c);
    assert(forall|j: int| 0 <= j < 26 ==> count_letter(s.push(c), j) == count_letter(s, j)
        + if letter_index(c) == j { 1nat } else { 0nat });
}

/// The sum of a frequency vector built by pointwise subtraction.
pub proof fn lemma_total_pointwise_sub(a: Seq<int>, b: Seq<int>, d: Seq<int>)
    requires
        a.len() == b.len(),
        d.len() == a.len(),
        forall|j: int| 0 <= j < a.len() ==> d[j] == a[j] - b[j],
    ensures
        total_of(d) == total_of(a) - total_of(b),
    decreases a.len(),
{
    if a.len() > 0 {
        lemma_total_pointwise_sub(a.drop_last(), b.drop_last(), d.drop_last());
    }
}

/// A nonnegative vector with sum zero is zero everywhere.
pub proof fn lemma_total_zero_all_zero(f: Seq<int>)
    requires
        forall|j: int| 0 <= j < f.len() ==> f[j] >= 0,
        total_of(f) == 0,
    ensures
        forall|j: int| 0 <= j < f.len() ==> f[j] == 0,
    decreases f.len(),
{
    if f.len() > 0 {
        lemma_total_nonneg(f.drop_last());
        lemma_total_zero_all_zero(f.drop_last());
        assert(forall|j: int| 0 <= j < f.len() - 1 ==> f[j] == f.drop_last()[j]);
    }
}

pub proof fn lemma_total_of_zeros(f: Seq<int>)
    requires
        forall|j: int| 0 <= j < f.len() ==> f[j] == 0,
    ensures
        total_of(f) == 0,
    decreases f.len(),
{
    if f.len() > 0 {
        lemma_total_of_zeros(f.drop_last());
    }
}

pub proof fn lemma_total_nonneg(f: Seq<int>)
    requires
        forall|j: int| 0 <= j < f.len() ==> f[j] >= 0,
    ensures
        total_of(f) >= 0,
    decreases f.len(),
{
    if f.len() > 0 {
        lemma_total_nonneg(f.drop_last());
    }
}

/// A letter multiset: 26 non-negative counts, one per alphabet letter, with
/// the cached sum of all counts. Subtraction is gated by a domination check,
/// so a count never goes negative.
pub struct Letters {
    pub counts: Vec<usize>,
    pub total: usize,
}

impl View for Letters {
    type V = Seq<int>;

    open spec fn view(&self) -> Seq<int> {
        self.counts@.map_values(|c: usize| c as int)
    }
}

impl Letters {
    pub open spec fn wf(&self) -> bool {
        &&& self.counts@.len() == 26
        &&& self.total as int == total_of(self@)
    }

    /// Count the ASCII alphabetic characters of a text, case-insensitively;
    /// every other character is ignored.
    pub fn from_text(s: &str) -> (r: Letters)
        ensures
            r.wf(),
            r@ == freq_spec(s@),
    {
        let n = s.unicode_len();
        let mut counts: Vec<usize> = Vec::new();
        let mut k: usize = 0;
        while k < 26
            invariant
                k <= 26,
                counts@.len() == k as int,
                forall|j: int| 0 <= j < k as int ==> counts@[j] == 0,
            decreases 26 - k,
        {
            counts.push(0);
            k += 1;
        }
        let mut total: usize = 0;
        let mut i: usize = 0;
        proof {
            assert(s@.take(0) =~= Seq::<char>::empty());
            assert(freq_spec(s@.take(0)) =~= counts@.map_values(|c: usize| c as int));
            lemma_total_of_zeros(freq_spec(s@.take(0)));
        }
        while i < n
            invariant
                i <= n,
                n == s@.len(),
                counts@.len() == 26,
                total <= i,
                counts@.map_values(|c: usize| c as int) =~= freq_spec(s@.take(i as int)),
                total as int == total_of(freq_spec(s@.take(i as int))),
            decreases n - i,
        {
            let c = s.get_char(i);
            let idx = letter_index_exec(c);
            proof {
                assert(s@.take(i + 1) =~= s@.take(i as int).push(s@[i as int]));
                lemma_freq_push(s@.take(i as int), c);
                lemma_count_letter_le_len(s@.take(i as int), idx as int);
            }
            if idx < 26 {
                let old_count = counts[idx];
                counts.set(idx, old_count + 1);
                total += 1;
                proof {
                    lemma_total_diff_at_one(
                        freq_spec(s@.take(i as int)),
                        freq_spec(s@.take(i + 1)),
                        idx as int,
                    );
                }
            } else {
                proof {
                    lemma_total_equal(freq_spec(s@.take(i as int)), freq_spec(s@.take(i + 1)));
                }
            }
            i += 1;
        }
        proof {
            assert(s@.take(n as int) =~= s@);
        }
        Letters { counts, total }
    }

    /// True iff `need` is dominated by `self`: every letter of `need` is
    /// available in `self`.
    pub fn can_cover(&self, need: &Letters) -> (r: bool)
        requires
            self.wf(),
            need.wf(),
        ensures
            r == dominates(self@, need@),
    {
        let mut j: usize = 0;
        while j < 26
            invariant
                j <= 26,
                self.counts@.len() == 26,
                need.counts@.len() == 26,
                forall|k: int| 0 <= k < j as int ==> need@[k] <= self@[k],
            decreases 26 - j,
        {
            if need.counts[j] > self.counts[j] {
                proof {
                    assert(need@[j as int] == need.counts@[j as int] as int);
                    assert(self@[j as int] == self.counts@[j as int] as int);
                    assert(!(need@[j as int] <= self@[j as int]));
                }
                return false;
            }
            proof {
                assert(need@[j as int] == need.counts@[j as int] as int);
                assert(self@[j as int] == self.counts@[j as int] as int);
            }
            j += 1;
        }
        true
    }

    /// Pointwise subtraction; the caller must have checked domination first.
    pub fn subtract(&self, need: &Letters) -> (r: Letters)
        requires
            self.wf(),
            need.wf(),
            dominates(self@, need@),
        ensures
            r.wf(),
            r@.len() == 26,
            forall|j: int| 0 <= j < 26 ==> r@[j] == self@[j] - need@[j],
            r.total as int == self.total as int - need.total as int,
    {
        let mut counts: Vec<usize> = Vec::new();
        let mut j: usize = 0;
        while j < 26
            invariant
                j <= 26,
                self.wf(),
                need.wf(),
                dominates(self@, need@),
                counts@.len() == j as int,
                forall|k: int| 0 <= k < j as int ==> counts@[k] as int == self@[k] - need@[k],
            decreases 26 - j,
        {
            proof {
                assert(need@[j as int] == need.counts@[j as int] as int);
                assert(self@[j as int] == self.counts@[j as int] as int);
            }
            counts.push(self.counts[j] - need.counts[j]);
            j += 1;
        }
        let ghost d = counts@.map_values(|c: usize| c as int);
        proof {
            lemma_total_pointwise_sub(self@, need@, d);
            lemma_total_nonneg(d);
        }
        let total = self.total - need.total;
        Letters { counts, total }
    }

    /// The number of letters counted: the sum of all 26 counts.
    pub fn total(&self) -> (r: usize)
        ensures
            r == self.total,
            self.wf() ==> r as int == total_of(self@),
    {
        self.total
    }
}

/// Alphabet index of a character: 0 to 25 for an ASCII letter of either case,
/// 26 for everything else.
pub fn letter_index_exec(c: char) -> (i: usize)
    ensures
        i <= 26,
        i < 26 ==> letter_index(c) == i as int,
        i == 26 ==> letter_index(c) == -1,
{
    if 'a' <= c && c <= 'z' {
        (c as u32 - 'a' as u32) as usize
    } else if 'A' <= c && c <= 'Z' {
        (c as u32 - 'A' as u32) as usize
    } else {
        26
    }
}

} // verus!
