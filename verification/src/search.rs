//! Case-insensitive substring search and lexicographic ordering of names,
//! used to filter and sort entry listings.

use vstd::prelude::*;
use vstd::string::StrSliceExecFns;
use vstd::utf8::char_u32_cast;

verus! {

/// What `str::to_lowercase` returns for a string: a function of the
/// characters alone.
pub uninterp spec fn lower_of(s: Seq<char>) -> Seq<char>;

/// Relies on str::to_lowercase: the result depends on the characters alone,
/// and an empty string stays empty.
#[verifier::external_body]
pub fn to_lowercase_str(s: &str) -> (r: String)
    ensures
        r@ == lower_of(s@),
        s@.len() == 0 ==> r@.len() == 0,
{
    s.to_lowercase()
}

/// The needle occurs in the haystack starting at position `i`.
pub open spec fn matches_at(h: Seq<char>, n: Seq<char>, i: int) -> bool {
    0 <= i && i + n.len() <= h.len() && h.subrange(i, i + n.len()) == n
}

/// The needle occurs somewhere in the haystack.  An empty needle occurs in
/// every haystack.
pub open spec fn contains_sub(h: Seq<char>, n: Seq<char>) -> bool {
    exists|i: int| matches_at(h, n, i)
}

/// Substring search over characters.
pub fn str_contains(h: &str, n: &str) -> (r: bool)
    ensures
        r == contains_sub(h@, n@),
{
    let hl = h.unicode_len();
    let nl = n.unicode_len();
    if nl > hl {
        proof {
            assert forall|i: int| !matches_at(h@, n@, i) by {}
        }
        return false;
    }
    let last = hl - nl;
    let mut start: usize = 0;
    loop
        invariant
            nl <= hl,
            hl == h@.len(),
            nl == n@.len(),
            last == hl - nl,
            start <= last,
            forall|s0: int| 0 <= s0 < start ==> !matches_at(h@, n@, s0),
        decreases last - start,
    {
        let mut j: usize = 0;
        let mut mismatch = false;
        while j < nl
            invariant
                nl <= hl,
                hl == h@.len(),
                nl == n@.len(),
                start <= hl - nl,
                hl - nl == last,
                j <= nl,
                !mismatch ==> forall|m: int| 0 <= m < j ==> h@[start + m] == n@[m],
                mismatch ==> !matches_at(h@, n@, start as int),
            decreases nl - j,
        {
            let hc = h.get_char(start + j);
            let nc = n.get_char(j);
            if hc as u32 != nc as u32 {
                proof {
                    if matches_at(h@, n@, start as int) {
                        assert(h@.subrange(start as int, start + nl)[j as int] == n@[j as int]);
                    }
                }
                mismatch = true;
                j = nl;
            } else {
                proof {
                    char_u32_cast(hc, hc as u32);
                    char_u32_cast(nc, nc as u32);
                }
                j = j + 1;
            }
        }
        if !mismatch {
            proof {
                assert(h@.subrange(start as int, start + nl) =~= n@);
                assert(contains_sub(h@, n@)) by {
                    assert(matches_at(h@, n@, start as int));
                }
            }
            return true;
        }
        if start == last {
            proof {
                assert forall|i: int| !matches_at(h@, n@, i) by {
                    if 0 <= i && i + n@.len() <= h@.len() {
                        assert(i <= last);
                        if i < start {
                        } else {
                            assert(i == start);
                        }
                    }
                }
            }
            return false;
        }
        start = start + 1;
    }
}

/// Strict lexicographic order on character sequences, by scalar value.
pub open spec fn lex_lt(a: Seq<char>, b: Seq<char>) -> bool
    decreases a.len(),
{
    if b.len() == 0 {
        false
    } else if a.len() == 0 {
        true
    } else if (a[0] as u32) < (b[0] as u32) {
        true
    } else if (a[0] as u32) > (b[0] as u32) {
        false
    } else {
        lex_lt(a.drop_first(), b.drop_first())
    }
}

/// The order is total: two sequences are equal or one precedes the other.
pub proof fn lemma_lex_total(a: Seq<char>, b: Seq<char>)
    ensures
        a == b || lex_lt(a, b) || lex_lt(b, a),
    decreases a.len(),
{
    if a.len() == 0 && b.len() == 0 {
        assert(a =~= b);
    } else if a.len() == 0 || b.len() == 0 {
    } else if (a[0] as u32) == (b[0] as u32) {
        char_u32_cast(a[0], a[0] as u32);
        char_u32_cast(b[0], b[0] as u32);
        assert(a[0] == b[0]);
        lemma_lex_total(a.drop_first(), b.drop_first());
        if a.drop_first() == b.drop_first() {
            assert(a.drop_first().len() == b.drop_first().len());
            assert(a.len() == b.len());
            assert forall|i: int| 0 <= i < a.len() implies a[i] == b[i] by {
                if i > 0 {
                    assert(a.drop_first()[i - 1] == a[i]);
                    assert(a.drop_first()[i - 1] == b.drop_first()[i - 1]);
                    assert(b.drop_first()[i - 1] == b[i]);
                }
            }
            assert(a =~= b);
        }
    }
}

/// The order is transitive.
pub proof fn lemma_lex_trans(a: Seq<char>, b: Seq<char>, c: Seq<char>)
    requires
        lex_lt(a, b),
        lex_lt(b, c),
    ensures
        lex_lt(a, c),
    decreases a.len(),
{
    if a.len() == 0 {
    } else {
        if (a[0] as u32) == (b[0] as u32) && (b[0] as u32) == (c[0] as u32) {
            lemma_lex_trans(a.drop_first(), b.drop_first(), c.drop_first());
        }
    }
}

/// Comparison of two strings in the lexicographic order.
pub fn lex_lt_str(a: &str, b: &str) -> (r: bool)
    ensures
        r == lex_lt(a@, b@),
{
    let la = a.unicode_len();
    let lb = b.unicode_len();
    proof {
        assert(a@.skip(0) =~= a@);
        assert(b@.skip(0) =~= b@);
    }
    let mut i: usize = 0;
    loop
        invariant
            la == a@.len(),
            lb == b@.len(),
            i <= la,
            i <= lb,
            lex_lt(a@, b@) == lex_lt(a@.skip(i as int), b@.skip(i as int)),
        decreases lb - i,
    {
        if i == lb {
            return false;
        }
        if i == la {
            return true;
        }
        let ca = a.get_char(i);
        let cb = b.get_char(i);
        if (ca as u32) < (cb as u32) {
            return true;
        }
        if (ca as u32) > (cb as u32) {
            return false;
        }
        proof {
            char_u32_cast(ca, ca as u32);
            char_u32_cast(cb, cb as u32);
            assert(a@.skip(i as int).drop_first() =~= a@.skip(i + 1));
            assert(b@.skip(i as int).drop_first() =~= b@.skip(i + 1));
        }
        i = i + 1;
    }
}

/// The names in the listing are strictly ascending.
pub open spec fn strictly_sorted(v: Seq<(String, bool)>) -> bool {
    forall|i: int, j: int| 0 <= i < j < v.len()
        ==> lex_lt((#[trigger] v[i]).0@, (#[trigger] v[j]).0@)
}

/// The listing holds a pair of this name and lock state.
pub open spec fn has_pair(v: Seq<(String, bool)>, k: Seq<char>, l: bool) -> bool {
    exists|i: int| 0 <= i < v.len() && (#[trigger] v[i]).0@ == k && v[i].1 == l
}

/// The first position whose name is not below the given one.
fn lower_bound(v: &Vec<(String, bool)>, name: &str) -> (p: usize)
    ensures
        p <= v@.len(),
        forall|j: int| 0 <= j < p ==> lex_lt((#[trigger] v@[j]).0@, name@),
        p < v@.len() ==> !lex_lt(v@[p as int].0@, name@),
{
    let n = v.len();
    let mut p: usize = 0;
    while p < n
        invariant
            n == v@.len(),
            p <= n,
            forall|j: int| 0 <= j < p ==> lex_lt((#[trigger] v@[j]).0@, name@),
        decreases n - p,
    {
        if !lex_lt_str(&v[p].0, name) {
            return p;
        }
        p = p + 1;
    }
    p
}

/// Insert a pair of a fresh name into a strictly sorted listing, keeping it
/// sorted.
pub fn insert_sorted(v: &mut Vec<(String, bool)>, name: String, locked: bool)
    requires
        strictly_sorted(old(v)@),
        forall|i: int| 0 <= i < old(v)@.len() ==> (#[trigger] old(v)@[i]).0@ != name@,
    ensures
        strictly_sorted(final(v)@),
        final(v)@.len() == old(v)@.len() + 1,
        forall|k: Seq<char>, l: bool| #[trigger] has_pair(final(v)@, k, l)
            == (has_pair(old(v)@, k, l) || (k == name@ && l == locked)),
{
    let ghost old_seq = v@;
    let p = lower_bound(v, &name);
    proof {
        if p < old_seq.len() {
            lemma_lex_total(old_seq[p as int].0@, name@);
        }
    }
    let ghost pair_v = (name@, locked);
    v.insert(p, (name, locked));
    proof {
        let s = v@;
        let pi = p as int;
        assert forall|i: int, j: int| 0 <= i < j < s.len() implies
            lex_lt((#[trigger] s[i]).0@, (#[trigger] s[j]).0@) by {
            if i < pi && j < pi {
                assert(s[i] == old_seq[i] && s[j] == old_seq[j]);
            } else if i < pi && j == pi {
                assert(s[i] == old_seq[i]);
            } else if i < pi && j > pi {
                assert(s[i] == old_seq[i] && s[j] == old_seq[j - 1]);
                if j - 1 == pi - 1 {
                } else {
                }
                if i < j - 1 {
                    assert(lex_lt(old_seq[i].0@, old_seq[j - 1].0@));
                } else {
                    assert(i == j - 1);
                    assert(lex_lt(old_seq[i].0@, pair_v.0));
                    lemma_lex_trans(old_seq[i].0@, pair_v.0, old_seq[j - 1].0@);
                }
            } else if i == pi && j > pi {
                assert(s[j] == old_seq[j - 1]);
                if j - 1 == pi {
                    assert(lex_lt(pair_v.0, old_seq[pi].0@));
                } else {
                    assert(lex_lt(pair_v.0, old_seq[pi].0@));
                    assert(lex_lt(old_seq[pi].0@, old_seq[j - 1].0@));
                    lemma_lex_trans(pair_v.0, old_seq[pi].0@, old_seq[j - 1].0@);
                }
            } else {
                assert(i > pi && j > pi);
                assert(s[i] == old_seq[i - 1] && s[j] == old_seq[j - 1]);
            }
        }
        assert forall|k: Seq<char>, l: bool| #[trigger] has_pair(s, k, l)
            == (has_pair(old_seq, k, l) || (k == name@ && l == locked)) by {
            if has_pair(s, k, l) {
                let i = choose|i: int| 0 <= i < s.len() && (#[trigger] s[i]).0@ == k && s[i].1 == l;
                if i == pi {
                } else if i < pi {
                    assert(has_pair(old_seq, k, l)) by {
                        assert(0 <= i < old_seq.len() && old_seq[i].0@ == k && old_seq[i].1 == l);
                    }
                } else {
                    assert(has_pair(old_seq, k, l)) by {
                        assert(0 <= i - 1 < old_seq.len() && old_seq[i - 1].0@ == k
                            && old_seq[i - 1].1 == l);
                    }
                }
            }
            if has_pair(old_seq, k, l) {
                let i = choose|i: int|
                    0 <= i < old_seq.len() && (#[trigger] old_seq[i]).0@ == k && old_seq[i].1 == l;
                assert(has_pair(s, k, l)) by {
                    if i < pi {
                        assert(0 <= i < s.len() && s[i].0@ == k && s[i].1 == l);
                    } else {
                        assert(0 <= i + 1 < s.len() && s[i + 1].0@ == k && s[i + 1].1 == l);
                    }
                }
            }
            if k == name@ && l == locked {
                assert(has_pair(s, k, l)) by {
                    assert(0 <= pi < s.len() && s[pi].0@ == k && s[pi].1 == l);
                }
            }
        }
    }
}

} // verus!
