//! Redundancy detection. The canonical signature of a word sequence is the
//! lexicographically sorted, pipe-joined list of its "substantial" words
//! (those of at least four letters). Two branches of the search that share a
//! signature would reprove the same combination of substantial words, so the
//! later one is skipped. An empty signature means no substantial word is
//! involved, and never counts as redundant.

use crate::words::is_word;
use vstd::prelude::*;
use vstd::string::StrSliceExecFns;
use vstd::string::StringExecFns;

verus! {

/// Lexicographic order on character sequences, by code point.
pub open spec fn lex_le(a: Seq<char>, b: Seq<char>) -> bool
    decreases a.len(),
{
    if a.len() == 0 {
        true
    } else if b.len() == 0 {
        false
    } else if (a.first() as u32) < (b.first() as u32) {
        true
    } else if (a.first() as u32) > (b.first() as u32) {
        false
    } else {
        lex_le(a.drop_first(), b.drop_first())
    }
}

/// The substantial words of a sequence: those of length at least 4, in order.
pub open spec fn substantial(ws: Seq<Seq<char>>) -> Seq<Seq<char>>
    decreases ws.len(),
{
    if ws.len() == 0 {
        Seq::empty()
    } else {
        substantial(ws.drop_last()) + if ws.last().len() >= 4 {
            seq![ws.last()]
        } else {
            Seq::<Seq<char>>::empty()
        }
    }
}

/// Insert a word into a lexicographically sorted sequence, before the first
/// entry it precedes or equals.
pub open spec fn sig_insert(sorted: Seq<Seq<char>>, w: Seq<char>) -> Seq<Seq<char>>
    decreases sorted.len(),
{
    if sorted.len() == 0 {
        seq![w]
    } else if lex_le(w, sorted.first()) {
        seq![w] + sorted
    } else {
        seq![sorted.first()] + sig_insert(sorted.drop_first(), w)
    }
}

/// Sort a word sequence lexicographically by repeated insertion.
pub open spec fn sig_sort(ws: Seq<Seq<char>>) -> Seq<Seq<char>>
    decreases ws.len(),
{
    if ws.len() == 0 {
        Seq::empty()
    } else {
        sig_insert(sig_sort(ws.drop_last()), ws.last())
    }
}

/// Join words with a pipe character.
pub open spec fn sig_join(ws: Seq<Seq<char>>) -> Seq<char>
    decreases ws.len(),
{
    if ws.len() == 0 {
        Seq::empty()
    } else if ws.len() == 1 {
        ws.first()
    } else {
        sig_join(ws.drop_last()) + seq!['|'] + ws.last()
    }
}

/// The canonical signature of a word sequence.
pub open spec fn sig_of(ws: Seq<Seq<char>>) -> Seq<char> {
    sig_join(sig_sort(substantial(ws)))
}

/// Whether extending `ws` with `w` lands on a signature that was already
/// recorded. An empty signature never counts.
pub open spec fn redundant_spec(ws: Seq<Seq<char>>, w: Seq<char>, seen: Seq<Seq<char>>) -> bool {
    let sig = sig_of(ws.push(w));
    sig.len() > 0 && seen.contains(sig)
}

/// The signature of a single word is the word itself when it is substantial,
/// and empty otherwise.
pub proof fn lemma_sig_of_singleton(w: Seq<char>)
    ensures
        w.len() >= 4 ==> sig_of(seq![w]) == w,
        w.len() < 4 ==> sig_of(seq![w]) == Seq::<char>::empty(),
{
    let ws = seq![w];
    assert(ws.drop_last() =~= Seq::<Seq<char>>::empty());
    assert(ws.last() == w);
    assert(substantial(Seq::<Seq<char>>::empty()) =~= Seq::<Seq<char>>::empty());
    assert(sig_sort(Seq::<Seq<char>>::empty()) =~= Seq::<Seq<char>>::empty());
    if w.len() >= 4 {
        assert(substantial(ws) =~= seq![w]);
        assert(seq![w].drop_last() =~= Seq::<Seq<char>>::empty());
        assert(seq![w].last() == w);
        assert(sig_sort(seq![w]) =~= sig_insert(Seq::<Seq<char>>::empty(), w));
        assert(sig_insert(Seq::<Seq<char>>::empty(), w) =~= seq![w]);
        assert(sig_join(seq![w]) == w);
    } else {
        assert(substantial(ws) =~= Seq::<Seq<char>>::empty());
        assert(sig_join(Seq::<Seq<char>>::empty()) =~= Seq::<char>::empty());
    }
}

/// Inserting into a sorted sequence at the first position whose entry the new
/// word precedes or equals is what `sig_insert` does.
proof fn lemma_sig_insert_at(s: Seq<Seq<char>>, w: Seq<char>, j: int)
    requires
        0 <= j <= s.len(),
        forall|k: int| 0 <= k < j ==> !lex_le(w, #[trigger] s[k]),
        j < s.len() ==> lex_le(w, s[j]),
    ensures
        sig_insert(s, w) == s.insert(j, w),
    decreases s.len(),
{
    if s.len() == 0 {
        assert(sig_insert(s, w) =~= s.insert(0, w));
    } else if j == 0 {
        assert(sig_insert(s, w) =~= s.insert(0, w));
    } else {
        lemma_sig_insert_at(s.drop_first(), w, j - 1);
        assert(sig_insert(s, w) =~= s.insert(j, w));
    }
}

/// Compare two strings lexicographically by character code point. On words
/// of ASCII letters this is the usual string order.
pub fn str_le(a: &String, b: &String) -> (r: bool)
    ensures
        r == lex_le(a@, b@),
{
    let na = a.as_str().unicode_len();
    let nb = b.as_str().unicode_len();
    let mut i: usize = 0;
    proof {
        assert(a@.skip(0) =~= a@);
        assert(b@.skip(0) =~= b@);
    }
    while i < na && i < nb
        invariant
            i <= na,
            i <= nb,
            na == a@.len(),
            nb == b@.len(),
            lex_le(a@, b@) == lex_le(a@.skip(i as int), b@.skip(i as int)),
        decreases na - i,
    {
        let ca = a.as_str().get_char(i);
        let cb = b.as_str().get_char(i);
        proof {
            assert(a@.skip(i as int).first() == a@[i as int]);
            assert(b@.skip(i as int).first() == b@[i as int]);
            assert(a@.skip(i as int).drop_first() =~= a@.skip(i as int + 1));
            assert(b@.skip(i as int).drop_first() =~= b@.skip(i as int + 1));
        }
        if (ca as u32) < (cb as u32) {
            return true;
        }
        if (ca as u32) > (cb as u32) {
            return false;
        }
        i += 1;
    }
    proof {
        if i >= na {
            assert(a@.skip(i as int) =~= Seq::<char>::empty());
        } else {
            assert(b@.skip(i as int) =~= Seq::<char>::empty());
            assert(a@.skip(i as int).len() > 0);
        }
    }
    na <= nb
}

/// Whether some entry of `v` has the same text as `s`.
pub fn contains_string(v: &Vec<String>, s: &String) -> (r: bool)
    ensures
        r == v.deep_view().contains(s@),
{
    let mut i: usize = 0;
    while i < v.len()
        invariant
            i <= v@.len(),
            forall|k: int| 0 <= k < i ==> v.deep_view()[k] != s@,
            v.deep_view().len() == v@.len(),
            forall|k: int| 0 <= k < v@.len() ==> v.deep_view()[k] == #[trigger] v@[k]@,
        decreases v@.len() - i,
    {
        if v[i].eq(s) {
            proof {
                assert(v.deep_view()[i as int] == s@);
            }
            return true;
        }
        i += 1;
    }
    false
}

/// The canonical signature of a word sequence: its substantial words
/// (length at least 4), sorted lexicographically and joined with pipes.
pub fn create_signature(words: &Vec<String>) -> (sig: String)
    ensures
        sig@ == sig_of(words.deep_view()),
{
    let ghost ws = words.deep_view();
    let mut sorted: Vec<String> = Vec::new();
    let mut i: usize = 0;
    proof {
        assert(ws.take(0) =~= Seq::<Seq<char>>::empty());
        assert(sorted.deep_view() =~= sig_sort(substantial(ws.take(0))));
        assert(forall|k: int| 0 <= k < ws.len() ==> ws[k] == #[trigger] words@[k]@);
    }
    while i < words.len()
        invariant
            i <= words@.len(),
            ws == words.deep_view(),
            ws.len() == words@.len(),
            forall|k: int| 0 <= k < ws.len() ==> ws[k] == #[trigger] words@[k]@,
            sorted.deep_view() == sig_sort(substantial(ws.take(i as int))),
            forall|k: int| 0 <= k < sorted@.len() ==> sorted.deep_view()[k] == #[trigger] sorted@[k]@,
        decreases words@.len() - i,
    {
        proof {
            assert(ws.take(i + 1).drop_last() =~= ws.take(i as int));
            assert(ws.take(i + 1).last() == ws[i as int]);
        }
        let w = &words[i];
        if w.as_str().unicode_len() >= 4 {
            let ghost before = sorted.deep_view();
            let mut j: usize = 0;
            while j < sorted.len() && !str_le(w, &sorted[j])
                invariant
                    j <= sorted@.len(),
                    before == sorted.deep_view(),
                    forall|k: int|
                        0 <= k < sorted@.len() ==> sorted.deep_view()[k] == #[trigger] sorted@[k]@,
                    forall|k: int| 0 <= k < j ==> !lex_le(w@, #[trigger] before[k]),
                decreases sorted@.len() - j,
            {
                j += 1;
            }
            proof {
                lemma_sig_insert_at(before, w@, j as int);
            }
            sorted.insert(j, w.clone());
            proof {
                assert(sorted.deep_view() =~= before.insert(j as int, w@));
                assert(substantial(ws.take(i + 1)) =~= substantial(ws.take(i as int)).push(
                    ws[i as int],
                ));
                assert(sig_sort(substantial(ws.take(i as int)).push(ws[i as int]))
                    == sig_insert(sig_sort(substantial(ws.take(i as int))), ws[i as int])) by {
                    assert(substantial(ws.take(i as int)).push(ws[i as int]).drop_last()
                        =~= substantial(ws.take(i as int)));
                }
            }
        } else {
            proof {
                assert(substantial(ws.take(i + 1)) =~= substantial(ws.take(i as int)));
            }
        }
        i += 1;
    }
    proof {
        assert(ws.take(words@.len() as int) =~= ws);
    }
    let mut sig = String::new();
    let mut k: usize = 0;
    let ghost sorted_ws = sorted.deep_view();
    proof {
        assert(sorted_ws.take(0) =~= Seq::<Seq<char>>::empty());
        assert(sig@ =~= sig_join(sorted_ws.take(0)));
        reveal_strlit("|");
    }
    while k < sorted.len()
        invariant
            k <= sorted@.len(),
            sorted_ws == sorted.deep_view(),
            sorted_ws.len() == sorted@.len(),
            forall|j: int| 0 <= j < sorted@.len() ==> sorted_ws[j] == #[trigger] sorted@[j]@,
            sig@ == sig_join(sorted_ws.take(k as int)),
            ("|")@ =~= seq!['|'],
        decreases sorted@.len() - k,
    {
        proof {
            assert(sorted_ws.take(k + 1).drop_last() =~= sorted_ws.take(k as int));
            assert(sorted_ws.take(k + 1).last() == sorted_ws[k as int]);
            if k == 0 {
                assert(sorted_ws.take(1).first() == sorted_ws[0]);
            }
        }
        if k > 0 {
            sig.append("|");
        }
        sig.append(sorted[k].as_str());
        k += 1;
    }
    proof {
        assert(sorted_ws.take(sorted@.len() as int) =~= sorted_ws);
    }
    sig
}

/// Whether appending `new_word` to the current words would recreate a
/// combination of substantial words whose signature was already seen.
pub fn would_be_redundant(current: &Vec<String>, new_word: &String, seen_signatures: &Vec<String>)
    -> (r: bool)
    ensures
        r == redundant_spec(current.deep_view(), new_word@, seen_signatures.deep_view()),
{
    let mut test_words: Vec<String> = Vec::new();
    let mut i: usize = 0;
    while i < current.len()
        invariant
            i <= current@.len(),
            test_words@.len() == i as int,
            forall|k: int| 0 <= k < i ==> test_words.deep_view()[k] == current.deep_view()[k],
            forall|k: int| 0 <= k < test_words@.len() ==> test_words.deep_view()[k]
                == #[trigger] test_words@[k]@,
        decreases current@.len() - i,
    {
        test_words.push(current[i].clone());
        i += 1;
    }
    test_words.push(new_word.clone());
    proof {
        assert(test_words.deep_view() =~= current.deep_view().push(new_word@));
    }
    let sig = create_signature(&test_words);
    if sig.as_str().is_empty() {
        return false;
    }
    contains_string(seen_signatures, &sig)
}

} // verus!
