//! Distance functions over sentences: sequences of space-separated
//! words.

use crate::dist::{lev_spec, levenshtein_dist};
use crate::symbol::SymEq;
use vstd::prelude::*;
use vstd::string::{StrSliceExecFns, StringExecFns};

verus! {

/// The percent scale of the word-level set distance.
pub const MAX_PERCENT_DIST: usize = 100;

/// The space-separated fields of a sentence, empty fields kept: `done`
/// holds the finished fields and `cur` the one being read.
pub open spec fn fields_acc(s: Seq<char>, done: Seq<Seq<char>>, cur: Seq<char>) -> Seq<Seq<char>>
    decreases s.len(),
{
    if s.len() == 0 {
        done.push(cur)
    } else if s.first() == ' ' {
        fields_acc(s.drop_first(), done.push(cur), Seq::empty())
    } else {
        fields_acc(s.drop_first(), done, cur.push(s.first()))
    }
}

/// The space-separated fields of a sentence, empty fields kept.
pub open spec fn fields_spec(s: Seq<char>) -> Seq<Seq<char>> {
    fields_acc(s, Seq::empty(), Seq::empty())
}

/// The space-separated words of a sentence, empty fields dropped.
pub open spec fn words_acc(s: Seq<char>, done: Seq<Seq<char>>, cur: Seq<char>) -> Seq<Seq<char>>
    decreases s.len(),
{
    if s.len() == 0 {
        if cur.len() > 0 {
            done.push(cur)
        } else {
            done
        }
    } else if s.first() == ' ' {
        words_acc(
            s.drop_first(),
            if cur.len() > 0 {
                done.push(cur)
            } else {
                done
            },
            Seq::empty(),
        )
    } else {
        words_acc(s.drop_first(), done, cur.push(s.first()))
    }
}

/// The space-separated words of a sentence, empty fields dropped.
pub open spec fn words_spec(s: Seq<char>) -> Seq<Seq<char>> {
    words_acc(s, Seq::empty(), Seq::empty())
}

/// A sentence has no more words than characters.
proof fn lemma_words_acc_len(s: Seq<char>, done: Seq<Seq<char>>, cur: Seq<char>)
    ensures
        words_acc(s, done, cur).len() <= done.len() + s.len() + (if cur.len() > 0 {
            1int
        } else {
            0int
        }),
    decreases s.len(),
{
    if s.len() == 0 {
    } else if s.first() == ' ' {
        lemma_words_acc_len(
            s.drop_first(),
            if cur.len() > 0 {
                done.push(cur)
            } else {
                done
            },
            Seq::empty(),
        );
    } else {
        lemma_words_acc_len(s.drop_first(), done, cur.push(s.first()));
    }
}

/// Every word of a sentence is at most as long as the whole sentence.
proof fn lemma_words_acc_word_len(s: Seq<char>, done: Seq<Seq<char>>, cur: Seq<char>, k: int, b: int)
    requires
        0 <= k < words_acc(s, done, cur).len(),
        forall|p: int| 0 <= p < done.len() ==> (#[trigger] done[p]).len() <= b,
        cur.len() + s.len() <= b,
    ensures
        words_acc(s, done, cur)[k].len() <= b,
    decreases s.len(),
{
    if s.len() == 0 {
    } else if s.first() == ' ' {
        lemma_words_acc_word_len(
            s.drop_first(),
            if cur.len() > 0 {
                done.push(cur)
            } else {
                done
            },
            Seq::empty(),
            k,
            b,
        );
    } else {
        lemma_words_acc_word_len(s.drop_first(), done, cur.push(s.first()), k, b);
    }
}

/// The views of a vector of strings.
pub open spec fn views_of(s: Seq<String>) -> Seq<Seq<char>> {
    s.map_values(|w: String| w@)
}

/// Split a sentence into its space-separated words, dropping empty
/// fields.
pub fn words(sentence: String) -> (r: Vec<String>)
    ensures
        views_of(r@) == words_spec(sentence@),
{
    let s = sentence.as_str();
    let n = s.unicode_len();
    let mut ret: Vec<String> = Vec::new();
    let mut start: usize = 0;
    let mut i: usize = 0;
    proof {
        assert(views_of(ret@) =~= Seq::<Seq<char>>::empty());
        assert(s@.skip(0) =~= s@);
        assert(s@.subrange(0, 0) =~= Seq::<char>::empty());
    }
    while i < n
        invariant
            start <= i <= n,
            n == s@.len(),
            s@ == sentence@,
            words_acc(s@.skip(i as int), views_of(ret@), s@.subrange(start as int, i as int))
                == words_spec(s@),
        decreases n - i,
    {
        proof {
            assert(s@.skip(i as int).first() == s@[i as int]);
            assert(s@.skip(i as int).drop_first() =~= s@.skip(i + 1));
        }
        let ghost cur = s@.subrange(start as int, i as int);
        let ghost done0 = views_of(ret@);
        if s.get_char(i) == ' ' {
            if i > start {
                let w = s.substring_char(start, i);
                let owned = String::from_str(w);
                proof {
                    assert(owned@ == cur);
                    assert(cur.len() > 0);
                }
                ret.push(owned);
                proof {
                    assert(views_of(ret@) =~= done0.push(cur));
                }
            } else {
                proof {
                    assert(cur =~= Seq::<char>::empty());
                    assert(cur.len() == 0);
                }
            }
            start = i + 1;
            proof {
                assert(s@.subrange(i + 1, i + 1) =~= Seq::<char>::empty());
            }
        } else {
            proof {
                assert(cur.push(s@[i as int]) =~= s@.subrange(start as int, i + 1));
            }
        }
        i = i + 1;
    }
    let ghost cur = s@.subrange(start as int, n as int);
    let ghost done0 = views_of(ret@);
    proof {
        assert(s@.skip(n as int) =~= Seq::<char>::empty());
        assert(words_acc(s@.skip(n as int), done0, cur) == words_spec(s@));
    }
    if n > start {
        let w = s.substring_char(start, n);
        let owned = String::from_str(w);
        proof {
            assert(owned@ == cur);
            assert(cur.len() > 0);
        }
        ret.push(owned);
        proof {
            assert(views_of(ret@) =~= done0.push(cur));
        }
    } else {
        proof {
            assert(cur.len() == 0);
        }
    }
    ret
}

/// Split a sentence into its space-separated fields, empty fields kept.
fn split_fields(sentence: String) -> (r: Vec<String>)
    ensures
        views_of(r@) == fields_spec(sentence@),
{
    let s = sentence.as_str();
    let n = s.unicode_len();
    let mut ret: Vec<String> = Vec::new();
    let mut start: usize = 0;
    let mut i: usize = 0;
    proof {
        assert(views_of(ret@) =~= Seq::<Seq<char>>::empty());
        assert(s@.skip(0) =~= s@);
        assert(s@.subrange(0, 0) =~= Seq::<char>::empty());
    }
    while i < n
        invariant
            start <= i <= n,
            n == s@.len(),
            s@ == sentence@,
            fields_acc(s@.skip(i as int), views_of(ret@), s@.subrange(start as int, i as int))
                == fields_spec(s@),
        decreases n - i,
    {
        proof {
            assert(s@.skip(i as int).first() == s@[i as int]);
            assert(s@.skip(i as int).drop_first() =~= s@.skip(i + 1));
        }
        let ghost cur = s@.subrange(start as int, i as int);
        let ghost done0 = views_of(ret@);
        if s.get_char(i) == ' ' {
            let w = s.substring_char(start, i);
            let owned = String::from_str(w);
            proof {
                assert(owned@ == cur);
            }
            ret.push(owned);
            proof {
                assert(views_of(ret@) =~= done0.push(cur));
            }
            start = i + 1;
            proof {
                assert(s@.subrange(i + 1, i + 1) =~= Seq::<char>::empty());
            }
        } else {
            proof {
                assert(cur.push(s@[i as int]) =~= s@.subrange(start as int, i + 1));
            }
        }
        i = i + 1;
    }
    let ghost cur = s@.subrange(start as int, n as int);
    let ghost done0 = views_of(ret@);
    proof {
        assert(s@.skip(n as int) =~= Seq::<char>::empty());
    }
    let w = s.substring_char(start, n);
    let owned = String::from_str(w);
    proof {
        assert(owned@ == cur);
    }
    ret.push(owned);
    proof {
        assert(views_of(ret@) =~= done0.push(cur));
    }
    ret
}

/// The adjacent pairs of fields, joined by a single space: with window
/// width `size`, one pair for each window over the fields.
pub open spec fn ngram_pairs(fields: Seq<Seq<char>>, size: int) -> Seq<Seq<char>> {
    Seq::new(
        if fields.len() >= size {
            (fields.len() - size + 1) as nat
        } else {
            0
        },
        |k: int| fields[k] + seq![' '] + fields[k + 1],
    )
}

/// The adjacent word pairs of a sentence: each window of `size` fields
/// contributes its first two, joined by a space.
pub fn word_ngrams(sentence: String, size: usize) -> (r: Vec<String>)
    requires
        2 <= size,
    ensures
        views_of(r@) == ngram_pairs(fields_spec(sentence@), size as int),
{
    let split = split_fields(sentence);
    let mut out: Vec<String> = Vec::new();
    let ghost pairs = ngram_pairs(fields_spec(sentence@), size as int);
    if split.len() >= size {
        let count = split.len() - size + 1;
        let mut k: usize = 0;
        proof {
            assert(views_of(out@) =~= pairs.take(0));
        }
        while k < count
            invariant
                k <= count,
                2 <= size,
                count == split@.len() - size + 1,
                split@.len() >= size,
                views_of(split@) == fields_spec(sentence@),
                pairs == ngram_pairs(fields_spec(sentence@), size as int),
                views_of(out@) == pairs.take(k as int),
            decreases count - k,
        {
            let ghost done0 = views_of(out@);
            let mut w = split[k].clone();
            w.append(" ");
            w.append(split[k + 1].as_str());
            proof {
                reveal_strlit(" ");
                assert(w@ == split@[k as int]@ + " "@ + split@[k + 1]@);
                assert(" "@ =~= seq![' ']);
                assert(w@ == pairs[k as int]);
            }
            out.push(w);
            proof {
                assert(views_of(out@) =~= done0.push(w@));
                assert(views_of(out@) =~= pairs.take(k + 1));
            }
            k = k + 1;
        }
        proof {
            assert(pairs.take(count as int) =~= pairs);
        }
    } else {
        proof {
            assert(views_of(out@) =~= pairs);
        }
    }
    out
}

/// Collapse runs of equal neighbours, keeping the first of each run.
pub open spec fn cdedup(s: Seq<Seq<char>>) -> Seq<Seq<char>>
    decreases s.len(),
{
    if s.len() == 0 {
        Seq::empty()
    } else {
        let d = cdedup(s.drop_last());
        if s.len() >= 2 && s[s.len() - 2] == s[s.len() - 1] {
            d
        } else {
            d.push(s.last())
        }
    }
}

/// Collapse runs of equal neighbouring words, keeping the first of each
/// run.
fn dedup_consecutive(v: &Vec<String>) -> (r: Vec<String>)
    ensures
        views_of(r@) == cdedup(views_of(v@)),
{
    let mut r: Vec<String> = Vec::new();
    let mut i: usize = 0;
    proof {
        assert(views_of(r@) =~= cdedup(views_of(v@).take(0)));
    }
    while i < v.len()
        invariant
            i <= v@.len(),
            views_of(r@) == cdedup(views_of(v@).take(i as int)),
        decreases v@.len() - i,
    {
        let ghost vs = views_of(v@);
        let ghost done0 = views_of(r@);
        proof {
            assert(vs.take(i + 1).drop_last() =~= vs.take(i as int));
            assert(vs.take(i + 1).last() == vs[i as int]);
            if i >= 1 {
                assert(vs.take(i + 1)[i - 1] == vs[i - 1]);
            }
        }
        if i == 0 || !(v[i] == v[i - 1]) {
            r.push(v[i].clone());
            proof {
                assert(views_of(r@) =~= done0.push(vs[i as int]));
            }
        }
        i = i + 1;
    }
    proof {
        assert(views_of(v@).take(v@.len() as int) =~= views_of(v@));
    }
    r
}

/// How many items of `s` occur anywhere in `t`.
pub open spec fn count_member(s: Seq<Seq<char>>, t: Seq<Seq<char>>) -> nat
    decreases s.len(),
{
    if s.len() == 0 {
        0
    } else {
        count_member(s.drop_last(), t) + (if t.contains(s.last()) {
            1nat
        } else {
            0nat
        })
    }
}

proof fn lemma_count_member_le(s: Seq<Seq<char>>, t: Seq<Seq<char>>)
    ensures
        count_member(s, t) <= s.len(),
    decreases s.len(),
{
    if s.len() > 0 {
        lemma_count_member_le(s.drop_last(), t);
    }
}

/// Whether a word occurs in the list.
fn contains_word(v: &Vec<String>, x: &String) -> (b: bool)
    ensures
        b == views_of(v@).contains(x@),
{
    let mut i: usize = 0;
    while i < v.len()
        invariant
            i <= v@.len(),
            forall|k: int| 0 <= k < i ==> views_of(v@)[k] != x@,
        decreases v@.len() - i,
    {
        if v[i] == *x {
            proof {
                assert(views_of(v@)[i as int] == x@);
            }
            return true;
        }
        i = i + 1;
    }
    false
}

/// Jaccard distance over the distinct adjacent word pairs of two
/// sentences, as a percentage.  Both sides without pairs are identical;
/// one side without pairs is as far as possible.  A ratio beyond the
/// scale is floored at distance zero rather than wrapping.
pub open spec fn word_bigram_spec(a: Seq<char>, b: Seq<char>) -> nat {
    let v1 = cdedup(ngram_pairs(fields_spec(a), 2));
    let v2 = cdedup(ngram_pairs(fields_spec(b), 2));
    if v1.len() == 0 && v2.len() == 0 {
        0
    } else if v1.len() == 0 || v2.len() == 0 {
        100
    } else {
        let inter = count_member(v2, v1);
        let ratio = (100 * inter as int) / (v1.len() + v2.len() - inter as int);
        if ratio >= 100 {
            0
        } else {
            (100 - ratio) as nat
        }
    }
}

/// Jaccard distance over adjacent word pairs, as a percentage.
pub fn word_bigram_j_dist(first: String, second: String) -> (r: usize)
    ensures
        r == word_bigram_spec(first@, second@),
{
    let vec1 = word_ngrams(first, 2);
    let vec1 = dedup_consecutive(&vec1);
    let vec2 = word_ngrams(second, 2);
    let vec2 = dedup_consecutive(&vec2);

    let len1 = vec1.len();
    let len2 = vec2.len();

    if len1 == 0 && len2 == 0 {
        return 0;
    }
    if len1 == 0 || len2 == 0 {
        return MAX_PERCENT_DIST;
    }

    let mut inter: usize = 0;
    let mut j: usize = 0;
    proof {
        assert(views_of(vec2@).take(0) =~= Seq::<Seq<char>>::empty());
    }
    while j < len2
        invariant
            j <= len2,
            len2 == vec2@.len(),
            inter <= j,
            inter == count_member(views_of(vec2@).take(j as int), views_of(vec1@)),
        decreases len2 - j,
    {
        proof {
            assert(views_of(vec2@).take(j + 1).drop_last() =~= views_of(vec2@).take(j as int));
            assert(views_of(vec2@).take(j + 1).last() == views_of(vec2@)[j as int]);
        }
        if contains_word(&vec1, &vec2[j]) {
            inter = inter + 1;
        }
        j = j + 1;
    }
    proof {
        assert(views_of(vec2@).take(len2 as int) =~= views_of(vec2@));
        lemma_count_member_le(views_of(vec2@), views_of(vec1@));
    }

    let denom: u128 = len1 as u128 + (len2 - inter) as u128;
    proof {
        assert(denom >= 1);
        vstd::arithmetic::div_mod::lemma_div_pos_is_pos(100 * inter as int, denom as int);
    }
    let ratio: u128 = (100u128 * inter as u128) / denom;
    if ratio >= 100 {
        0
    } else {
        (100u128 - ratio) as usize
    }
}

/// Edit distance over sequences of words.
pub open spec fn lev_words(a: Seq<Seq<char>>, b: Seq<Seq<char>>) -> nat
    decreases a.len() + b.len(),
{
    if a.len() == 0 {
        b.len()
    } else if b.len() == 0 {
        a.len()
    } else {
        let s: nat = if a.last() == b.last() {
            0
        } else {
            1
        };
        crate::dist::min3(
            lev_words(a.drop_last(), b) + 1,
            lev_words(a, b.drop_last()) + 1,
            lev_words(a.drop_last(), b.drop_last()) + s,
        )
    }
}

/// Word-level edit distance is symmetric.
pub proof fn lemma_lev_words_symmetric(a: Seq<Seq<char>>, b: Seq<Seq<char>>)
    ensures
        lev_words(a, b) == lev_words(b, a),
    decreases a.len() + b.len(),
{
    if a.len() == 0 || b.len() == 0 {
    } else {
        lemma_lev_words_symmetric(a.drop_last(), b);
        lemma_lev_words_symmetric(a, b.drop_last());
        lemma_lev_words_symmetric(a.drop_last(), b.drop_last());
    }
}

/// Word-level edit distance is bounded by the total length of both
/// inputs.
proof fn lemma_lev_words_le_sum(a: Seq<Seq<char>>, b: Seq<Seq<char>>)
    ensures
        lev_words(a, b) <= a.len() + b.len(),
    decreases a.len() + b.len(),
{
    if a.len() == 0 || b.len() == 0 {
    } else {
        lemma_lev_words_le_sum(a.drop_last(), b);
        lemma_lev_words_le_sum(a, b.drop_last());
        lemma_lev_words_le_sum(a.drop_last(), b.drop_last());
    }
}

/// Word-level edit distance is at least the length gap of its inputs.
proof fn lemma_lev_words_ge_diff(a: Seq<Seq<char>>, b: Seq<Seq<char>>)
    ensures
        lev_words(a, b) + a.len() >= b.len(),
        lev_words(a, b) + b.len() >= a.len(),
    decreases a.len() + b.len(),
{
    if a.len() == 0 || b.len() == 0 {
    } else {
        lemma_lev_words_ge_diff(a.drop_last(), b);
        lemma_lev_words_ge_diff(a, b.drop_last());
        lemma_lev_words_ge_diff(a.drop_last(), b.drop_last());
    }
}

/// Shortening the second input by one word changes the word-level edit
/// distance by at most one.
proof fn lemma_lev_words_drop_second(a: Seq<Seq<char>>, b: Seq<Seq<char>>)
    requires
        b.len() > 0,
    ensures
        lev_words(a, b.drop_last()) <= lev_words(a, b) + 1,
    decreases a.len() + b.len(),
{
    if a.len() == 0 {
    } else if b.len() == 1 {
        lemma_lev_words_ge_diff(a, b);
        assert(b.drop_last().len() == 0);
    } else {
        lemma_lev_words_drop_second(a.drop_last(), b);
        if lev_words(a, b) == lev_words(a.drop_last(), b) + 1 {
            assert(lev_words(a, b.drop_last()) <= lev_words(a.drop_last(), b.drop_last()) + 1);
        }
    }
}

/// The triangle inequality of the word-level edit distance.
pub proof fn lemma_lev_words_triangle(a: Seq<Seq<char>>, b: Seq<Seq<char>>, c: Seq<Seq<char>>)
    ensures
        lev_words(a, c) <= lev_words(a, b) + lev_words(b, c),
    decreases a.len() + b.len() + c.len(),
{
    if b.len() == 0 {
        lemma_lev_words_le_sum(a, c);
    } else if a.len() == 0 {
        lemma_lev_words_ge_diff(b, c);
    } else if c.len() == 0 {
        lemma_lev_words_ge_diff(a, b);
    } else {
        let ab = lev_words(a, b);
        let bc = lev_words(b, c);
        if ab == lev_words(a.drop_last(), b) + 1 {
            lemma_lev_words_triangle(a.drop_last(), b, c);
            assert(lev_words(a, c) <= lev_words(a.drop_last(), c) + 1);
        } else if ab == lev_words(a, b.drop_last()) + 1 {
            lemma_lev_words_triangle(a, b.drop_last(), c);
            lemma_lev_words_symmetric(b.drop_last(), c);
            lemma_lev_words_symmetric(b, c);
            lemma_lev_words_drop_second(c, b);
            assert(lev_words(b.drop_last(), c) <= lev_words(b, c) + 1);
        } else {
            let s_ab: nat = if a.last() == b.last() {
                0
            } else {
                1
            };
            assert(ab == lev_words(a.drop_last(), b.drop_last()) + s_ab);
            if bc == lev_words(b, c.drop_last()) + 1 {
                lemma_lev_words_triangle(a, b, c.drop_last());
                assert(lev_words(a, c) <= lev_words(a, c.drop_last()) + 1);
            } else if bc == lev_words(b.drop_last(), c) + 1 {
                lemma_lev_words_triangle(a.drop_last(), b.drop_last(), c);
                assert(lev_words(a, c) <= lev_words(a.drop_last(), c) + 1);
            } else {
                let s_bc: nat = if b.last() == c.last() {
                    0
                } else {
                    1
                };
                assert(bc == lev_words(b.drop_last(), c.drop_last()) + s_bc);
                lemma_lev_words_triangle(a.drop_last(), b.drop_last(), c.drop_last());
                let s_ac: nat = if a.last() == c.last() {
                    0
                } else {
                    1
                };
                assert(s_ac <= s_ab + s_bc);
                assert(lev_words(a, c) <= lev_words(a.drop_last(), c.drop_last()) + s_ac);
            }
        }
    }
}

/// The generic edit distance over `String` symbols is the word-level
/// edit distance over their character sequences.
proof fn lemma_lev_words(a: Seq<String>, b: Seq<String>)
    ensures
        lev_spec::<String>(a, b) == lev_words(views_of(a), views_of(b)),
    decreases a.len() + b.len(),
{
    if a.len() == 0 || b.len() == 0 {
    } else {
        lemma_lev_words(a.drop_last(), b);
        lemma_lev_words(a, b.drop_last());
        lemma_lev_words(a.drop_last(), b.drop_last());
        assert(views_of(a.drop_last()) =~= views_of(a).drop_last());
        assert(views_of(b.drop_last()) =~= views_of(b).drop_last());
        assert(views_of(a).last() == a.last()@);
        assert(views_of(b).last() == b.last()@);
    }
}

/// Edit distance where the unit of comparison is a whole word.
pub fn word_l_dist(first: String, second: String) -> (r: usize)
    requires
        first@.len() < usize::MAX,
        second@.len() < usize::MAX,
    ensures
        r == lev_words(words_spec(first@), words_spec(second@)),
{
    let vec1 = words(first);
    let vec2 = words(second);
    proof {
        lemma_words_acc_len(first@, Seq::empty(), Seq::empty());
        lemma_words_acc_len(second@, Seq::empty(), Seq::empty());
        assert(vec1@.len() == views_of(vec1@).len());
        assert(vec2@.len() == views_of(vec2@).len());
        lemma_lev_words(vec1@, vec2@);
    }
    levenshtein_dist(vec1, vec2)
}

/// Two words match fuzzily when their character edit distance is at
/// most one.
pub open spec fn fuzzy_eq(a: Seq<char>, b: Seq<char>) -> bool {
    lev_spec::<char>(a, b) <= 1
}

/// A word compared fuzzily: equal to another word within character edit
/// distance one.  The length bound is a machine limit of the comparison.
pub struct FuzzyWord {
    word: String,
}

impl FuzzyWord {
    #[verifier::type_invariant]
    spec fn len_fits(self) -> bool {
        self.word@.len() < usize::MAX
    }

    /// The characters of the word.
    pub closed spec fn chars(self) -> Seq<char> {
        self.word@
    }

    /// Wrap a word for fuzzy comparison.
    pub fn new(word: String) -> (r: Self)
        requires
            word@.len() < usize::MAX,
        ensures
            r.chars() == word@,
    {
        FuzzyWord { word }
    }
}

impl SymEq for FuzzyWord {
    open spec fn eqv(a: FuzzyWord, b: FuzzyWord) -> bool {
        fuzzy_eq(a.chars(), b.chars())
    }

    fn sym_eq(&self, other: &FuzzyWord) -> (b: bool) {
        proof {
            use_type_invariant(self);
            use_type_invariant(other);
        }
        let fc = crate::dist::convert_str(self.word.as_str());
        let sc = crate::dist::convert_str(other.word.as_str());
        levenshtein_dist(fc, sc) <= 1
    }
}

/// Edit distance over words where two words count as equal within
/// character edit distance one.
pub open spec fn lev_fuzzy_words(a: Seq<Seq<char>>, b: Seq<Seq<char>>) -> nat
    decreases a.len() + b.len(),
{
    if a.len() == 0 {
        b.len()
    } else if b.len() == 0 {
        a.len()
    } else {
        let s: nat = if fuzzy_eq(a.last(), b.last()) {
            0
        } else {
            1
        };
        crate::dist::min3(
            lev_fuzzy_words(a.drop_last(), b) + 1,
            lev_fuzzy_words(a, b.drop_last()) + 1,
            lev_fuzzy_words(a.drop_last(), b.drop_last()) + s,
        )
    }
}

/// The characters of a run of fuzzily-compared words.
pub open spec fn fuzzy_views_of(s: Seq<FuzzyWord>) -> Seq<Seq<char>> {
    s.map_values(|w: FuzzyWord| w.chars())
}

/// The generic edit distance over fuzzy words is the fuzzy word-level
/// edit distance over their character sequences.
proof fn lemma_lev_fuzzy_words(a: Seq<FuzzyWord>, b: Seq<FuzzyWord>)
    ensures
        lev_spec::<FuzzyWord>(a, b) == lev_fuzzy_words(fuzzy_views_of(a), fuzzy_views_of(b)),
    decreases a.len() + b.len(),
{
    if a.len() == 0 || b.len() == 0 {
    } else {
        lemma_lev_fuzzy_words(a.drop_last(), b);
        lemma_lev_fuzzy_words(a, b.drop_last());
        lemma_lev_fuzzy_words(a.drop_last(), b.drop_last());
        assert(fuzzy_views_of(a.drop_last()) =~= fuzzy_views_of(a).drop_last());
        assert(fuzzy_views_of(b.drop_last()) =~= fuzzy_views_of(b).drop_last());
        assert(fuzzy_views_of(a).last() == a.last().chars());
        assert(fuzzy_views_of(b).last() == b.last().chars());
    }
}

/// Edit distance over words, tolerant of typos: words within character
/// edit distance one count as equal.
pub fn word_fuzzy_l_dist(first: String, second: String) -> (r: usize)
    requires
        first@.len() < usize::MAX,
        second@.len() < usize::MAX,
    ensures
        r == lev_fuzzy_words(words_spec(first@), words_spec(second@)),
{
    let ghost f_view = first@;
    let ghost s_view = second@;
    let vec1 = words(first);
    let vec2 = words(second);
    let fw1 = wrap_fuzzy(vec1, Ghost(f_view));
    let fw2 = wrap_fuzzy(vec2, Ghost(s_view));
    proof {
        lemma_words_acc_len(f_view, Seq::empty(), Seq::empty());
        lemma_words_acc_len(s_view, Seq::empty(), Seq::empty());
        lemma_lev_fuzzy_words(fw1@, fw2@);
    }
    levenshtein_dist(fw1, fw2)
}

/// Wrap the words of a sentence for fuzzy comparison.
fn wrap_fuzzy(v: Vec<String>, bound: Ghost<Seq<char>>) -> (r: Vec<FuzzyWord>)
    requires
        views_of(v@) == words_spec(bound@),
        bound@.len() < usize::MAX,
    ensures
        fuzzy_views_of(r@) == views_of(v@),
{
    let ghost vs = views_of(v@);
    let mut r: Vec<FuzzyWord> = Vec::new();
    let mut i: usize = 0;
    proof {
        assert(fuzzy_views_of(r@) =~= vs.take(0));
    }
    while i < v.len()
        invariant
            i <= v@.len(),
            vs == views_of(v@),
            views_of(v@) == words_spec(bound@),
            bound@.len() < usize::MAX,
            fuzzy_views_of(r@) == vs.take(i as int),
        decreases v@.len() - i,
    {
        let ghost done0 = fuzzy_views_of(r@);
        proof {
            lemma_words_acc_word_len(
                bound@,
                Seq::empty(),
                Seq::empty(),
                i as int,
                bound@.len() as int,
            );
            assert(v@[i as int]@ == vs[i as int]);
        }
        let w = v[i].clone();
        let fw = FuzzyWord::new(w);
        r.push(fw);
        proof {
            assert(fuzzy_views_of(r@) =~= done0.push(vs[i as int]));
            assert(fuzzy_views_of(r@) =~= vs.take(i + 1));
        }
        i = i + 1;
    }
    proof {
        assert(vs.take(v@.len() as int) =~= vs);
    }
    r
}

} // verus!
