//! Raw word-source lines and their canonical form. A usable line is one that,
//! after trimming ASCII whitespace, is nonempty and entirely ASCII alphabetic;
//! its canonical form is its sequence of alphabet indices, which is what the
//! lowercased word preserves.

use crate::letters::{is_letter, is_lower_letter, letter_index, letter_index_exec};
use vstd::prelude::*;
use vstd::string::StrSliceExecFns;
use vstd::string::StringExecFns;

verus! {

pub open spec fn is_ascii_space(c: char) -> bool {
    c == ' ' || c == '\t' || c == '\n' || c == '\r' || c == '\u{c}'
}

pub open spec fn trim_front(s: Seq<char>) -> Seq<char>
    decreases s.len(),
{
    if s.len() > 0 && is_ascii_space(s.first()) {
        trim_front(s.drop_first())
    } else {
        s
    }
}

pub open spec fn trim_back(s: Seq<char>) -> Seq<char>
    decreases s.len(),
{
    if s.len() > 0 && is_ascii_space(s.last()) {
        trim_back(s.drop_last())
    } else {
        s
    }
}

/// A line with ASCII whitespace removed from both ends.
pub open spec fn trim_spec(s: Seq<char>) -> Seq<char> {
    trim_back(trim_front(s))
}

pub open spec fn all_letters(s: Seq<char>) -> bool {
    forall|i: int| 0 <= i < s.len() ==> is_letter(s[i])
}

/// A word of the solver: nonempty, all lowercase ASCII letters.
pub open spec fn is_word(s: Seq<char>) -> bool {
    s.len() > 0 && forall|i: int| 0 <= i < s.len() ==> is_lower_letter(s[i])
}

/// The alphabet indices of a text, character by character.
pub open spec fn letter_seq(s: Seq<char>) -> Seq<int> {
    s.map_values(|c: char| letter_index(c))
}

/// The canonical form of a raw line: trim it, accept it only if what is left
/// is nonempty and entirely alphabetic, and read it case-insensitively as its
/// sequence of alphabet indices.
pub open spec fn word_of_line(s: Seq<char>) -> Option<Seq<int>> {
    let t = trim_spec(s);
    if t.len() > 0 && all_letters(t) {
        Some(letter_seq(t))
    } else {
        None
    }
}

/// The canonical words of the usable lines of a word source, in line order.
pub open spec fn usable_words(lines: Seq<Seq<char>>) -> Seq<Seq<int>>
    decreases lines.len(),
{
    if lines.len() == 0 {
        Seq::empty()
    } else {
        usable_words(lines.drop_last()) + match word_of_line(lines.last()) {
            Some(w) => seq![w],
            None => Seq::empty(),
        }
    }
}

proof fn lemma_count_letter_eq(a: Seq<char>, b: Seq<char>, j: int)
    requires
        letter_seq(a) == letter_seq(b),
    ensures
        crate::letters::count_letter(a, j) == crate::letters::count_letter(b, j),
    decreases a.len(),
{
    assert(letter_seq(a).len() == a.len());
    assert(letter_seq(b).len() == b.len());
    if a.len() > 0 {
        assert(letter_seq(a.drop_last()) =~= letter_seq(a).drop_last());
        assert(letter_seq(b.drop_last()) =~= letter_seq(b).drop_last());
        lemma_count_letter_eq(a.drop_last(), b.drop_last(), j);
        assert(letter_index(a.last()) == letter_seq(a)[a.len() - 1]);
        assert(letter_index(b.last()) == letter_seq(b)[b.len() - 1]);
    }
}

/// Texts with the same alphabet indices, character for character, have the
/// same letter frequencies.
pub proof fn lemma_letter_seq_freq(a: Seq<char>, b: Seq<char>)
    requires
        letter_seq(a) == letter_seq(b),
    ensures
        crate::letters::freq_spec(a) == crate::letters::freq_spec(b),
{
    assert forall|j: int|
        0 <= j < 26 implies crate::letters::freq_spec(a)[j] == crate::letters::freq_spec(b)[j] by {
        lemma_count_letter_eq(a, b, j);
    }
    assert(crate::letters::freq_spec(a) =~= crate::letters::freq_spec(b));
}

/// A usable line's canonical word is among the usable words of the source.
pub proof fn lemma_usable_contains(lines: Seq<Seq<char>>, j: int)
    requires
        0 <= j < lines.len(),
        word_of_line(lines[j]) is Some,
    ensures
        usable_words(lines).contains(letter_seq(trim_spec(lines[j]))),
    decreases lines.len(),
{
    let w = letter_seq(trim_spec(lines[j]));
    assert(word_of_line(lines[j]) == Some(w));
    let u = usable_words(lines);
    let up = usable_words(lines.drop_last());
    if j == lines.len() - 1 {
        assert(lines.last() == lines[j]);
        assert(u == up + seq![w]);
        assert(u[up.len() as int] == w);
        assert(u.contains(w));
    } else {
        assert(lines.drop_last()[j] == lines[j]);
        lemma_usable_contains(lines.drop_last(), j);
        let i = choose|i: int| 0 <= i < up.len() && up[i] == w;
        assert(u[i] == up[i]);
        assert(u.contains(w));
    }
}

fn is_space_exec(c: char) -> (r: bool)
    ensures
        r == is_ascii_space(c),
{
    c == ' ' || c == '\t' || c == '\n' || c == '\r' || c == '\u{c}'
}

/// The one-character string holding the lowercase letter with alphabet
/// index `j`.
fn letter_str(j: usize) -> (r: &'static str)
    requires
        j < 26,
    ensures
        r@.len() == 1,
        is_lower_letter(r@[0]),
        letter_index(r@[0]) == j as int,
{
    let r: &'static str = match j {
        0 => "a",
        1 => "b",
        2 => "c",
        3 => "d",
        4 => "e",
        5 => "f",
        6 => "g",
        7 => "h",
        8 => "i",
        9 => "j",
        10 => "k",
        11 => "l",
        12 => "m",
        13 => "n",
        14 => "o",
        15 => "p",
        16 => "q",
        17 => "r",
        18 => "s",
        19 => "t",
        20 => "u",
        21 => "v",
        22 => "w",
        23 => "x",
        24 => "y",
        _ => "z",
    };
    proof {
        reveal_strlit("a");
        reveal_strlit("b");
        reveal_strlit("c");
        reveal_strlit("d");
        reveal_strlit("e");
        reveal_strlit("f");
        reveal_strlit("g");
        reveal_strlit("h");
        reveal_strlit("i");
        reveal_strlit("j");
        reveal_strlit("k");
        reveal_strlit("l");
        reveal_strlit("m");
        reveal_strlit("n");
        reveal_strlit("o");
        reveal_strlit("p");
        reveal_strlit("q");
        reveal_strlit("r");
        reveal_strlit("s");
        reveal_strlit("t");
        reveal_strlit("u");
        reveal_strlit("v");
        reveal_strlit("w");
        reveal_strlit("x");
        reveal_strlit("y");
        reveal_strlit("z");
    }
    r
}

/// Normalize a raw dictionary line: trim ASCII whitespace, lowercase, and
/// accept only nonempty all-alphabetic entries.
pub fn normalize_line(line: &str) -> (r: Option<String>)
    ensures
        match r {
            Some(w) => {
                &&& is_word(w@)
                &&& word_of_line(line@) == Some(letter_seq(w@))
            },
            None => word_of_line(line@) is None,
        },
{
    let n = line.unicode_len();
    let mut start: usize = 0;
    proof {
        assert(line@.skip(0) =~= line@);
    }
    while start < n && is_space_exec(line.get_char(start))
        invariant
            start <= n,
            n == line@.len(),
            trim_front(line@) == trim_front(line@.skip(start as int)),
        decreases n - start,
    {
        proof {
            assert(line@.skip(start as int).first() == line@[start as int]);
            assert(line@.skip(start as int).drop_first() =~= line@.skip(start as int + 1));
        }
        start += 1;
    }
    proof {
        if start < n {
            assert(trim_front(line@.skip(start as int)) == line@.skip(start as int));
        } else {
            assert(line@.skip(start as int) =~= Seq::<char>::empty());
        }
        assert(line@.skip(start as int) =~= line@.subrange(start as int, n as int));
    }
    let mut end: usize = n;
    while end > start && is_space_exec(line.get_char(end - 1))
        invariant
            start <= end <= n,
            n == line@.len(),
            trim_spec(line@) == trim_back(line@.subrange(start as int, end as int)),
        decreases end,
    {
        proof {
            let sub = line@.subrange(start as int, end as int);
            assert(sub.last() == line@[end - 1]);
            assert(sub.drop_last() =~= line@.subrange(start as int, end - 1));
        }
        end -= 1;
    }
    proof {
        let sub = line@.subrange(start as int, end as int);
        if end > start {
            assert(trim_back(sub) == sub);
        } else {
            assert(sub =~= Seq::<char>::empty());
            assert(trim_back(sub) == sub);
        }
    }
    if end == start {
        return None;
    }
    let ghost t = trim_spec(line@);
    let mut w = String::new();
    let mut i = start;
    while i < end
        invariant
            start <= i <= end <= n,
            end > start,
            n == line@.len(),
            t == line@.subrange(start as int, end as int),
            t == trim_spec(line@),
            w@.len() == i - start,
            forall|k: int|
                0 <= k < w@.len() ==> is_lower_letter(#[trigger] w@[k]) && letter_index(w@[k])
                    == letter_index(line@[start + k]),
        decreases end - i,
    {
        let c = line.get_char(i);
        let idx = letter_index_exec(c);
        if idx == 26 {
            proof {
                assert(t[i - start as int] == line@[i as int]);
                assert(!is_letter(t[i - start as int]));
            }
            return None;
        }
        let piece = letter_str(idx);
        w.append(piece);
        i += 1;
    }
    proof {
        assert(forall|k: int| 0 <= k < t.len() ==> t[k] == line@[start + k]);
        assert forall|k: int| 0 <= k < t.len() implies is_letter(#[trigger] t[k]) by {
            assert(is_lower_letter(w@[k]));
            assert(letter_index(w@[k]) == letter_index(line@[start + k]));
        }
        assert(letter_seq(w@) =~= letter_seq(t));
    }
    Some(w)
}

/// Normalize every line of the raw word source, keeping the usable entries in
/// line order.
pub fn build_dictionary(lines: &Vec<String>) -> (r: Vec<String>)
    ensures
        forall|k: int| 0 <= k < r@.len() ==> is_word(#[trigger] r@[k]@),
        r@.map_values(|w: String| letter_seq(w@)) == usable_words(lines.deep_view()),
{
    let ghost all = lines.deep_view();
    let mut out: Vec<String> = Vec::new();
    let mut i: usize = 0;
    proof {
        assert(all.take(0) =~= Seq::<Seq<char>>::empty());
        assert(out@.map_values(|w: String| letter_seq(w@)) =~= usable_words(all.take(0)));
    }
    while i < lines.len()
        invariant
            i <= lines.len(),
            all == lines.deep_view(),
            all.len() == lines@.len(),
            forall|k: int| 0 <= k < all.len() ==> all[k] == lines@[k]@,
            forall|k: int| 0 <= k < out@.len() ==> is_word(#[trigger] out@[k]@),
            out@.map_values(|w: String| letter_seq(w@)) == usable_words(all.take(i as int)),
        decreases lines.len() - i,
    {
        proof {
            assert(all.take(i + 1).drop_last() =~= all.take(i as int));
            assert(all.take(i + 1).last() == all[i as int]);
        }
        match normalize_line(lines[i].as_str()) {
            Some(w) => {
                let ghost prev = out@;
                out.push(w);
                proof {
                    assert(out@.map_values(|x: String| letter_seq(x@)) =~= prev.map_values(
                        |x: String| letter_seq(x@),
                    ).push(letter_seq(w@)));
                    assert(usable_words(all.take(i + 1)) =~= usable_words(all.take(i as int)).push(
                        letter_seq(w@),
                    ));
                }
            },
            None => {
                proof {
                    assert(usable_words(all.take(i + 1)) =~= usable_words(all.take(i as int)));
                }
            },
        }
        i += 1;
    }
    proof {
        assert(all.take(lines@.len() as int) =~= all);
    }
    out
}

} // verus!
