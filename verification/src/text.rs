//! String utilities: equality, lexicographic order, prefixes and suffixes,
//! splitting, decimal rendering, joining and sorting.
//!
//! Project names, paths and task names are plain strings throughout the
//! library, so these helpers carry exact contracts over `Seq<char>` views.

use vstd::prelude::*;
use vstd::string::StrSliceExecFns;
use vstd::string::StringExecFns;

verus! {

/// Relies on std's `String::push`: appends one character to the string.
#[verifier::external_body]
pub fn string_push(s: &mut String, c: char)
    ensures
        final(s)@ == old(s)@ + seq![c],
{
    s.push(c);
}

/// Character-wise equality of two string slices.
pub fn str_eq(a: &str, b: &str) -> (r: bool)
    ensures
        r == (a@ == b@),
{
    let la = a.unicode_len();
    let lb = b.unicode_len();
    if la != lb {
        return false;
    }
    let mut i: usize = 0;
    while i < la
        invariant
            la == a@.len(),
            la == b@.len(),
            i <= la,
            forall|j: int| 0 <= j < i ==> a@[j] == b@[j],
        decreases la - i,
    {
        if a.get_char(i) != b.get_char(i) {
            return false;
        }
        i = i + 1;
    }
    proof {
        assert(a@ =~= b@);
    }
    true
}

/// Lexicographic "less than or equal" over character sequences,
/// ordering characters by their scalar values.
pub open spec fn lex_le(a: Seq<char>, b: Seq<char>) -> bool
    decreases a.len(),
{
    if a.len() == 0 {
        true
    } else if b.len() == 0 {
        false
    } else if a[0] == b[0] {
        lex_le(a.drop_first(), b.drop_first())
    } else {
        (a[0] as u32) < (b[0] as u32)
    }
}

/// Dropping an equal prefix does not change the lexicographic comparison.
pub proof fn lemma_lex_le_skip(a: Seq<char>, b: Seq<char>, i: int)
    requires
        0 <= i <= a.len(),
        i <= b.len(),
        forall|j: int| 0 <= j < i ==> a[j] == b[j],
    ensures
        lex_le(a, b) == lex_le(a.skip(i), b.skip(i)),
    decreases i,
{
    if i == 0 {
        assert(a.skip(0) =~= a);
        assert(b.skip(0) =~= b);
    } else {
        assert(a[0] == b[0]);
        lemma_lex_le_skip(a.drop_first(), b.drop_first(), i - 1);
        assert(a.drop_first().skip(i - 1) =~= a.skip(i));
        assert(b.drop_first().skip(i - 1) =~= b.skip(i));
    }
}

/// The order is reflexive.
pub proof fn lemma_lex_le_refl(a: Seq<char>)
    ensures
        lex_le(a, a),
    decreases a.len(),
{
    if a.len() > 0 {
        lemma_lex_le_refl(a.drop_first());
    }
}

/// The order is total.
pub proof fn lemma_lex_le_total(a: Seq<char>, b: Seq<char>)
    ensures
        lex_le(a, b) || lex_le(b, a),
    decreases a.len(),
{
    if a.len() > 0 && b.len() > 0 {
        if a[0] == b[0] {
            lemma_lex_le_total(a.drop_first(), b.drop_first());
        } else {
            assert((a[0] as u32) != (b[0] as u32)) by {
                vstd::utf8::char_u32_cast(a[0], a[0] as u32);
                vstd::utf8::char_u32_cast(b[0], b[0] as u32);
            }
        }
    }
}

/// The order is transitive.
pub proof fn lemma_lex_le_trans(a: Seq<char>, b: Seq<char>, c: Seq<char>)
    requires
        lex_le(a, b),
        lex_le(b, c),
    ensures
        lex_le(a, c),
    decreases a.len(),
{
    if a.len() > 0 && b.len() > 0 && c.len() > 0 && a[0] == b[0] && b[0] == c[0] {
        lemma_lex_le_trans(a.drop_first(), b.drop_first(), c.drop_first());
    }
}

/// The order is antisymmetric.
pub proof fn lemma_lex_le_antisym(a: Seq<char>, b: Seq<char>)
    requires
        lex_le(a, b),
        lex_le(b, a),
    ensures
        a == b,
    decreases a.len(),
{
    if a.len() == 0 {
        assert(b.len() == 0);
        assert(a =~= b);
    } else {
        assert(b.len() > 0);
        assert(a[0] == b[0]);
        lemma_lex_le_antisym(a.drop_first(), b.drop_first());
        assert(a =~= seq![a[0]] + a.drop_first());
        assert(b =~= seq![b[0]] + b.drop_first());
    }
}

/// Lexicographic comparison of two string slices.
pub fn str_le(a: &str, b: &str) -> (r: bool)
    ensures
        r == lex_le(a@, b@),
{
    let la = a.unicode_len();
    let lb = b.unicode_len();
    let mut i: usize = 0;
    while i < la && i < lb
        invariant
            la == a@.len(),
            lb == b@.len(),
            i <= la,
            i <= lb,
            forall|j: int| 0 <= j < i ==> a@[j] == b@[j],
        decreases la - i,
    {
        let ca = a.get_char(i);
        let cb = b.get_char(i);
        if ca != cb {
            proof {
                lemma_lex_le_skip(a@, b@, i as int);
            }
            return (ca as u32) < (cb as u32);
        }
        i = i + 1;
    }
    proof {
        lemma_lex_le_skip(a@, b@, i as int);
    }
    la <= lb
}

/// True when `p` is a prefix of `s`.
pub fn str_has_prefix(s: &str, p: &str) -> (r: bool)
    ensures
        r == p@.is_prefix_of(s@),
{
    let ls = s.unicode_len();
    let lp = p.unicode_len();
    if lp > ls {
        return false;
    }
    let mut i: usize = 0;
    while i < lp
        invariant
            ls == s@.len(),
            lp == p@.len(),
            lp <= ls,
            i <= lp,
            forall|j: int| 0 <= j < i ==> s@[j] == p@[j],
        decreases lp - i,
    {
        if s.get_char(i) != p.get_char(i) {
            return false;
        }
        i = i + 1;
    }
    proof {
        assert(p@ =~= s@.subrange(0, p@.len() as int));
    }
    true
}

/// True when `p` is a suffix of `s`.
pub fn str_has_suffix(s: &str, p: &str) -> (r: bool)
    ensures
        r == p@.is_suffix_of(s@),
{
    let ls = s.unicode_len();
    let lp = p.unicode_len();
    if lp > ls {
        return false;
    }
    let off = ls - lp;
    let mut i: usize = 0;
    while i < lp
        invariant
            ls == s@.len(),
            lp == p@.len(),
            off == ls - lp,
            i <= lp,
            forall|j: int| 0 <= j < i ==> s@[off + j] == p@[j],
        decreases lp - i,
    {
        if s.get_char(off + i) != p.get_char(i) {
            return false;
        }
        i = i + 1;
    }
    proof {
        assert(p@ =~= s@.subrange(s@.len() - p@.len(), s@.len() as int));
    }
    true
}

/// Index of the first occurrence of `c` in `s`, if any.
pub fn str_find_char(s: &str, c: char) -> (r: Option<usize>)
    ensures
        match r {
            Some(i) => i < s@.len() && s@[i as int] == c && forall|j: int|
                0 <= j < i ==> s@[j] != c,
            None => forall|j: int| 0 <= j < s@.len() ==> s@[j] != c,
        },
{
    let l = s.unicode_len();
    let mut i: usize = 0;
    while i < l
        invariant
            l == s@.len(),
            i <= l,
            forall|j: int| 0 <= j < i ==> s@[j] != c,
        decreases l - i,
    {
        if s.get_char(i) == c {
            return Some(i);
        }
        i = i + 1;
    }
    None
}

/// Index of the last occurrence of `c` in `s`, if any.
pub fn str_rfind_char(s: &str, c: char) -> (r: Option<usize>)
    ensures
        match r {
            Some(i) => i < s@.len() && s@[i as int] == c && forall|j: int|
                i < j < s@.len() ==> s@[j] != c,
            None => forall|j: int| 0 <= j < s@.len() ==> s@[j] != c,
        },
{
    let l = s.unicode_len();
    let mut i: usize = l;
    while i > 0
        invariant
            l == s@.len(),
            i <= l,
            forall|j: int| i <= j < l ==> s@[j] != c,
        decreases i,
    {
        i = i - 1;
        if s.get_char(i) == c {
            return Some(i);
        }
    }
    None
}

/// Copy the character range `[from, to)` of `s` into a fresh string.
pub fn substring(s: &str, from: usize, to: usize) -> (r: String)
    requires
        from <= to <= s@.len(),
    ensures
        r@ == s@.subrange(from as int, to as int),
{
    s.substring_char(from, to).to_owned()
}

/// The decimal digit character for `d`.
pub open spec fn digit_char(d: nat) -> char {
    if d == 0 {
        '0'
    } else if d == 1 {
        '1'
    } else if d == 2 {
        '2'
    } else if d == 3 {
        '3'
    } else if d == 4 {
        '4'
    } else if d == 5 {
        '5'
    } else if d == 6 {
        '6'
    } else if d == 7 {
        '7'
    } else if d == 8 {
        '8'
    } else {
        '9'
    }
}

/// The decimal rendering of a natural number, most significant digit first.
pub open spec fn dec_rep(n: nat) -> Seq<char>
    decreases n,
{
    if n < 10 {
        seq![digit_char(n)]
    } else {
        dec_rep(n / 10) + seq![digit_char(n % 10)]
    }
}

/// Render a `usize` in decimal.
pub fn usize_to_string(n: usize) -> (r: String)
    ensures
        r@ == dec_rep(n as nat),
    decreases n,
{
    if n < 10 {
        let mut s = String::new();
        string_push(&mut s, digit_of(n));
        proof {
            assert(s@ =~= dec_rep(n as nat));
        }
        s
    } else {
        let mut s = usize_to_string(n / 10);
        string_push(&mut s, digit_of(n % 10));
        proof {
            assert(s@ =~= dec_rep(n as nat));
        }
        s
    }
}

/// The digit character for `n`, which must be below ten.
fn digit_of(n: usize) -> (r: char)
    requires
        n < 10,
    ensures
        r == digit_char(n as nat),
{
    if n == 0 {
        '0'
    } else if n == 1 {
        '1'
    } else if n == 2 {
        '2'
    } else if n == 3 {
        '3'
    } else if n == 4 {
        '4'
    } else if n == 5 {
        '5'
    } else if n == 6 {
        '6'
    } else if n == 7 {
        '7'
    } else if n == 8 {
        '8'
    } else {
        '9'
    }
}

/// The views of a sequence of strings.
pub open spec fn views(v: Seq<String>) -> Seq<Seq<char>> {
    v.map_values(|s: String| s@)
}

/// Concatenation of `parts` with `sep` between consecutive elements.
pub open spec fn joined(parts: Seq<Seq<char>>, sep: Seq<char>) -> Seq<char>
    decreases parts.len(),
{
    if parts.len() == 0 {
        Seq::empty()
    } else if parts.len() == 1 {
        parts[0]
    } else {
        parts[0] + sep + joined(parts.drop_first(), sep)
    }
}

/// The rest of a join: empty for no parts, else the separator and the join.
pub open spec fn joined_tail(parts: Seq<Seq<char>>, sep: Seq<char>) -> Seq<char> {
    if parts.len() == 0 {
        Seq::empty()
    } else {
        sep + joined(parts, sep)
    }
}

/// Peeling one element off a join.
proof fn lemma_joined_unfold(parts: Seq<Seq<char>>, sep: Seq<char>)
    requires
        parts.len() > 0,
    ensures
        joined(parts, sep) =~= parts[0] + joined_tail(parts.drop_first(), sep),
{
}

/// Join a list of strings with a separator.
pub fn join_strings(parts: &Vec<String>, sep: &str) -> (r: String)
    ensures
        r@ == joined(views(parts@), sep@),
{
    let mut r = String::new();
    let mut i: usize = 0;
    while i < parts.len()
        invariant
            i <= parts@.len(),
            i == 0 ==> r@ == Seq::<char>::empty(),
            i > 0 ==> joined(views(parts@), sep@) =~= r@ + joined_tail(
                views(parts@).skip(i as int),
                sep@,
            ),
        decreases parts@.len() - i,
    {
        let ghost vs = views(parts@);
        proof {
            assert(vs.skip(i as int).len() > 0);
            assert(vs.skip(i as int)[0] == parts@[i as int]@);
            assert(vs.skip(i as int).drop_first() =~= vs.skip(i + 1));
            lemma_joined_unfold(vs.skip(i as int), sep@);
            if i == 0 {
                assert(vs.skip(0) =~= vs);
            }
        }
        if i > 0 {
            r.append(sep);
        }
        r.append(parts[i].as_str());
        proof {
            assert(joined(vs, sep@) =~= r@ + joined_tail(vs.skip(i + 1), sep@));
        }
        i = i + 1;
    }
    proof {
        if parts@.len() == 0 {
            assert(r@ =~= joined(views(parts@), sep@));
        } else {
            assert(views(parts@).skip(parts@.len() as int) =~= Seq::<Seq<char>>::empty());
            assert(r@ =~= joined(views(parts@), sep@));
        }
    }
    r
}

/// Copy a vector of strings.
pub fn clone_strings(v: &Vec<String>) -> (r: Vec<String>)
    ensures
        r@ == v@,
{
    let mut r: Vec<String> = Vec::new();
    let mut i: usize = 0;
    while i < v.len()
        invariant
            i <= v@.len(),
            r@.len() == i,
            forall|j: int| 0 <= j < i ==> r@[j] == v@[j],
        decreases v@.len() - i,
    {
        r.push(v[i].clone());
        i = i + 1;
    }
    proof {
        assert(r@ =~= v@);
    }
    r
}

/// All views in `s` are pairwise ordered.
pub open spec fn sorted_views(s: Seq<String>) -> bool {
    forall|i: int, j: int| 0 <= i < j < s.len() ==> lex_le(s[i]@, s[j]@)
}

/// All views in `s` are pairwise distinct.
pub open spec fn distinct_views(s: Seq<String>) -> bool {
    forall|i: int, j: int| 0 <= i < j < s.len() ==> s[i]@ != s[j]@
}

/// Insert `s` into the sorted duplicate-free vector `out`, unless an equal
/// string is already there.
pub fn insert_sorted_unique(out: &mut Vec<String>, s: String)
    requires
        sorted_views(old(out)@),
        distinct_views(old(out)@),
    ensures
        sorted_views(final(out)@),
        distinct_views(final(out)@),
        forall|x: Seq<char>|
            #[trigger] views(final(out)@).contains(x) <==> (views(old(out)@).contains(x) || x
                == s@),
{
    let mut j: usize = 0;
    while j < out.len() && str_le(out[j].as_str(), s.as_str()) && !str_eq(
        out[j].as_str(),
        s.as_str(),
    )
        invariant
            j <= out@.len(),
            out@ == old(out)@,
            forall|k: int| 0 <= k < j ==> lex_le(out@[k]@, s@) && out@[k]@ != s@,
        decreases out@.len() - j,
    {
        j = j + 1;
    }
    if j < out.len() && str_eq(out[j].as_str(), s.as_str()) {
        proof {
            assert(views(out@)[j as int] == s@);
            assert(views(out@).contains(s@));
        }
        return ;
    }
    proof {
        if j < out@.len() {
            lemma_lex_le_total(out@[j as int]@, s@);
            assert(lex_le(s@, out@[j as int]@));
        }
    }
    let ghost pre = out@;
    out.insert(j, s);
    proof {
        assert forall|a: int, b: int| 0 <= a < b < out@.len() implies lex_le(out@[a]@, out@[b]@)
            && out@[a]@ != out@[b]@ by {
            let sj = j as int;
            if a < sj && b == sj {
                assert(out@[a]@ == pre[a]@);
            } else if a == sj && b > sj {
                assert(out@[b]@ == pre[b - 1]@);
                if b - 1 > sj {
                    assert(lex_le(pre[sj]@, pre[b - 1]@));
                    lemma_lex_le_trans(out@[a]@, pre[sj]@, pre[b - 1]@);
                    if out@[a]@ == out@[b]@ {
                        lemma_lex_le_antisym(out@[a]@, pre[sj]@);
                    }
                }
            } else if a < sj && b > sj {
                assert(out@[a]@ == pre[a]@);
                assert(out@[b]@ == pre[b - 1]@);
                assert(lex_le(pre[a]@, pre[b - 1]@) && pre[a]@ != pre[b - 1]@);
            } else if a > sj {
                assert(out@[a]@ == pre[a - 1]@);
                assert(out@[b]@ == pre[b - 1]@);
            } else {
                assert(out@[a]@ == pre[a]@);
                assert(out@[b]@ == pre[b]@);
            }
        }
        assert forall|x: Seq<char>| #[trigger] views(out@).contains(x) implies (views(
            pre,
        ).contains(x) || x == s@) by {
            let a = choose|a: int| 0 <= a < views(out@).len() && views(out@)[a] == x;
            if a < j {
                assert(views(pre)[a] == x);
            } else if a > j {
                assert(views(pre)[a - 1] == x);
            }
        }
        assert forall|x: Seq<char>| views(pre).contains(x) || x == s@ implies #[trigger] views(
            out@,
        ).contains(x) by {
            if x == s@ {
                assert(views(out@)[j as int] == x);
            } else {
                let a = choose|a: int| 0 <= a < views(pre).len() && #[trigger] views(pre)[a] == x;
                if a < j {
                    assert(views(out@)[a] == x);
                } else {
                    assert(views(out@)[a + 1] == x);
                }
            }
        }
    }
}

/// Sort a vector of strings, dropping duplicate values.
pub fn sort_unique_strings(v: &Vec<String>) -> (r: Vec<String>)
    ensures
        sorted_views(r@),
        distinct_views(r@),
        forall|x: Seq<char>| #[trigger] views(r@).contains(x) <==> views(v@).contains(x),
{
    let mut out: Vec<String> = Vec::new();
    let mut i: usize = 0;
    while i < v.len()
        invariant
            i <= v@.len(),
            sorted_views(out@),
            distinct_views(out@),
            forall|x: Seq<char>|
                #[trigger] views(out@).contains(x) <==> views(v@.subrange(0, i as int)).contains(x),
        decreases v@.len() - i,
    {
        let ghost before = views(out@);
        insert_sorted_unique(&mut out, v[i].clone());
        proof {
            assert forall|x: Seq<char>| #[trigger] views(out@).contains(x) <==> views(
                v@.subrange(0, i + 1),
            ).contains(x) by {
                assert(views(v@.subrange(0, i + 1)) =~= views(v@.subrange(0, i as int)).push(
                    v@[i as int]@,
                ));
                if views(out@).contains(x) {
                    if before.contains(x) {
                        let a = choose|a: int|
                            0 <= a < views(v@.subrange(0, i as int)).len() && #[trigger] views(
                                v@.subrange(0, i as int),
                            )[a] == x;
                        assert(views(v@.subrange(0, i + 1))[a] == x);
                    } else {
                        assert(x == v@[i as int]@);
                        assert(views(v@.subrange(0, i + 1))[i as int] == x);
                    }
                }
                if views(v@.subrange(0, i + 1)).contains(x) {
                    let a = choose|a: int|
                        0 <= a < views(v@.subrange(0, i + 1)).len() && #[trigger] views(
                            v@.subrange(0, i + 1),
                        )[a] == x;
                    if a < i {
                        assert(views(v@.subrange(0, i as int))[a] == x);
                        assert(views(v@.subrange(0, i as int)).contains(x));
                    } else {
                        assert(x == v@[i as int]@);
                    }
                }
            }
        }
        i = i + 1;
    }
    proof {
        assert(v@.subrange(0, v@.len() as int) =~= v@);
    }
    out
}

} // verus!
