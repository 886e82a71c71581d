//! Splitting of strings on a separator character, at the level of the
//! `Seq<char>` view and as executable functions over `&str`.

use vstd::prelude::*;
use vstd::string::StrSliceExecFns;

verus! {

/// Index of the first occurrence of `sep` in `s`, or `s.len()` if `sep` does
/// not occur.
pub open spec fn idx_of(s: Seq<char>, sep: char) -> int
    decreases s.len(),
{
    if s.len() == 0 {
        0
    } else if s[0] == sep {
        0
    } else {
        1 + idx_of(s.drop_first(), sep)
    }
}

pub proof fn lemma_idx_of_unique(s: Seq<char>, sep: char, i: int)
    requires
        0 <= i <= s.len(),
        forall|k: int| 0 <= k < i ==> s[k] != sep,
        i < s.len() ==> s[i] == sep,
    ensures
        idx_of(s, sep) == i,
    decreases s.len(),
{
    if s.len() == 0 {
    } else if s[0] == sep {
        assert(i == 0);
    } else {
        assert(i > 0);
        assert forall|k: int| 0 <= k < i - 1 implies s.drop_first()[k] != sep by {
            assert(s.drop_first()[k] == s[k + 1]);
        }
        assert(i - 1 < s.drop_first().len() ==> s.drop_first()[i - 1] == sep);
        lemma_idx_of_unique(s.drop_first(), sep, i - 1);
    }
}

/// The pieces of `s` delimited by `sep`, with empty pieces dropped: the
/// tokenization rule shared by route templates and request paths.
/// `cur` accumulates the piece in progress.
pub open spec fn split_acc(s: Seq<char>, sep: char, cur: Seq<char>) -> Seq<Seq<char>>
    decreases s.len(),
{
    if s.len() == 0 {
        if cur.len() == 0 {
            Seq::empty()
        } else {
            seq![cur]
        }
    } else if s[0] == sep {
        (if cur.len() == 0 {
            Seq::<Seq<char>>::empty()
        } else {
            seq![cur]
        }) + split_acc(s.drop_first(), sep, Seq::empty())
    } else {
        split_acc(s.drop_first(), sep, cur.push(s[0]))
    }
}

/// Splits `s` on `sep` and drops the empty pieces.
pub open spec fn spec_split_drop(s: Seq<char>, sep: char) -> Seq<Seq<char>> {
    split_acc(s, sep, Seq::empty())
}

/// Character-for-character equality of two string slices.
pub fn str_eq(a: &str, b: &str) -> (r: bool)
    ensures
        r == (a@ == b@),
{
    let na = a.unicode_len();
    let nb = b.unicode_len();
    if na != nb {
        return false;
    }
    let mut i: usize = 0;
    while i < na
        invariant
            i <= na,
            na == a@.len(),
            na == b@.len(),
            forall|k: int| 0 <= k < i ==> a@[k] == b@[k],
        decreases na - i,
    {
        if a.get_char(i) != b.get_char(i) {
            return false;
        }
        i = i + 1;
    }
    proof {
        assert(a@ =~= b@);
    }
    true
}

/// First index at or after `from` where `sep` occurs in `s`, or the length of
/// `s` if there is none.
pub fn find_char_from(s: &str, sep: char, from: usize) -> (r: usize)
    requires
        from <= s@.len(),
    ensures
        from <= r <= s@.len(),
        r < s@.len() ==> s@[r as int] == sep,
        forall|k: int| from <= k < r ==> s@[k] != sep,
{
    let n = s.unicode_len();
    let mut i: usize = from;
    while i < n
        invariant
            from <= i <= n,
            n == s@.len(),
            forall|k: int| from <= k < i ==> s@[k] != sep,
        decreases n - i,
    {
        if s.get_char(i) == sep {
            return i;
        }
        i = i + 1;
    }
    i
}

/// Splits `s` on `sep`, dropping empty pieces, as `spec_split_drop` says.
pub fn split_drop(s: &str, sep: char) -> (toks: Vec<String>)
    ensures
        toks.deep_view() == spec_split_drop(s@, sep),
{
    let n = s.unicode_len();
    let mut toks: Vec<String> = Vec::new();
    let mut i: usize = 0;
    let mut t0: usize = 0;
    proof {
        assert(s@.subrange(0, n as int) =~= s@);
        assert(s@.subrange(0, 0) =~= Seq::<char>::empty());
        assert(toks.deep_view() + split_acc(s@, sep, Seq::empty()) =~= split_acc(
            s@,
            sep,
            Seq::empty(),
        ));
    }
    while i < n
        invariant
            t0 <= i <= n,
            n == s@.len(),
            forall|k: int| t0 <= k < i ==> s@[k] != sep,
            spec_split_drop(s@, sep) == toks.deep_view() + split_acc(
                s@.subrange(i as int, n as int),
                sep,
                s@.subrange(t0 as int, i as int),
            ),
        decreases n - i,
    {
        let ghost rest = s@.subrange(i as int, n as int);
        let ghost cur = s@.subrange(t0 as int, i as int);
        if s.get_char(i) == sep {
            proof {
                assert(rest.len() > 0 && rest[0] == sep);
                assert(rest.drop_first() =~= s@.subrange(i + 1, n as int));
                assert(s@.subrange(i + 1, i + 1) =~= Seq::<char>::empty());
                assert(split_acc(rest, sep, cur) == (if cur.len() == 0 {
                    Seq::<Seq<char>>::empty()
                } else {
                    seq![cur]
                }) + split_acc(s@.subrange(i + 1, n as int), sep, Seq::empty()));
            }
            if t0 < i {
                let tok = s.substring_char(t0, i).to_owned();
                let ghost old_toks = toks.deep_view();
                toks.push(tok);
                proof {
                    assert(cur.len() > 0);
                    assert(toks.deep_view() =~= old_toks + seq![cur]);
                    assert(old_toks + (seq![cur] + split_acc(
                        s@.subrange(i + 1, n as int),
                        sep,
                        Seq::empty(),
                    )) =~= (old_toks + seq![cur]) + split_acc(
                        s@.subrange(i + 1, n as int),
                        sep,
                        Seq::empty(),
                    ));
                }
            } else {
                proof {
                    assert(cur.len() == 0);
                    assert(Seq::<Seq<char>>::empty() + split_acc(
                        s@.subrange(i + 1, n as int),
                        sep,
                        Seq::empty(),
                    ) =~= split_acc(s@.subrange(i + 1, n as int), sep, Seq::empty()));
                }
            }
            t0 = i + 1;
        } else {
            proof {
                assert(rest[0] == s@[i as int]);
                assert(rest.drop_first() =~= s@.subrange(i + 1, n as int));
                assert(cur.push(s@[i as int]) =~= s@.subrange(t0 as int, i + 1));
            }
        }
        i = i + 1;
    }
    let ghost cur = s@.subrange(t0 as int, n as int);
    proof {
        assert(s@.subrange(n as int, n as int) =~= Seq::<char>::empty());
    }
    if t0 < n {
        let tok = s.substring_char(t0, n).to_owned();
        let ghost old_toks = toks.deep_view();
        toks.push(tok);
        proof {
            assert(cur.len() > 0);
            assert(toks.deep_view() =~= old_toks + seq![cur]);
        }
    } else {
        proof {
            assert(cur.len() == 0);
            assert(toks.deep_view() + Seq::<Seq<char>>::empty() =~= toks.deep_view());
        }
    }
    toks
}

} // verus!
