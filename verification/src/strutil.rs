//! Small verified helpers on strings and character sequences: equality,
//! lexicographic order, searching, splitting, and decimal conversion.

use vstd::prelude::*;
use vstd::string::*;

verus! {

/// Relies on `String::push` from std: appends the given character to the
/// end of the string.
#[verifier::external_body]
pub fn push_char(s: &mut String, c: char)
    ensures
        final(s)@ == old(s)@.push(c),
{
    s.push(c);
}

/// Equality of two string slices, decided character by character.
pub fn str_eq(a: &str, b: &str) -> (r: bool)
    ensures
        r == (a@ == b@),
{
    let alen = a.unicode_len();
    let blen = b.unicode_len();
    if alen != blen {
        assert(a@ != b@) by {
            assert(a@.len() != b@.len());
        }
        return false;
    }
    let mut i: usize = 0;
    while i < alen
        invariant
            0 <= i <= alen,
            alen == a@.len(),
            alen == b@.len(),
            forall|j: int| 0 <= j < i ==> a@[j] == b@[j],
        decreases alen - i,
    {
        if a.get_char(i) != b.get_char(i) {
            return false;
        }
        i = i + 1;
    }
    proof {
        assert(a@ =~= b@);
    }
    true
}

/// True when `a` compares at or below `b` in code-point order.
pub open spec fn lex_le(a: Seq<char>, b: Seq<char>) -> bool
    decreases a.len(),
{
    if a.len() == 0 {
        true
    } else if b.len() == 0 {
        false
    } else if (a[0] as u32) < (b[0] as u32) {
        true
    } else if (a[0] as u32) > (b[0] as u32) {
        false
    } else {
        lex_le(a.skip(1), b.skip(1))
    }
}

/// Lexicographic comparison of two string slices.
pub fn str_le(a: &str, b: &str) -> (r: bool)
    ensures
        r == lex_le(a@, b@),
{
    let alen = a.unicode_len();
    let blen = b.unicode_len();
    let mut i: usize = 0;
    proof {
        assert(a@.skip(0) =~= a@);
        assert(b@.skip(0) =~= b@);
    }
    loop
        invariant
            0 <= i <= alen,
            i <= blen,
            alen == a@.len(),
            blen == b@.len(),
            forall|j: int| 0 <= j < i ==> a@[j] == b@[j],
            lex_le(a@, b@) == lex_le(a@.skip(i as int), b@.skip(i as int)),
        decreases alen - i,
    {
        if i == alen {
            return true;
        }
        if i == blen {
            return false;
        }
        let ca = a.get_char(i);
        let cb = b.get_char(i);
        if (ca as u32) < (cb as u32) {
            return true;
        }
        if (ca as u32) > (cb as u32) {
            return false;
        }
        proof {
            lemma_lex_le_unfold(a@, b@, i as int);
        }
        i = i + 1;
    }
}

proof fn lemma_lex_le_unfold(a: Seq<char>, b: Seq<char>, i: int)
    requires
        0 <= i < a.len(),
        i < b.len(),
        a[i] == b[i],
    ensures
        lex_le(a.skip(i), b.skip(i)) == lex_le(a.skip(i + 1), b.skip(i + 1)),
{
    assert(a.skip(i).skip(1) =~= a.skip(i + 1));
    assert(b.skip(i).skip(1) =~= b.skip(i + 1));
    assert(a.skip(i)[0] == a[i]);
    assert(b.skip(i)[0] == b[i]);
}

/// The lexicographic order is total.
pub proof fn lemma_lex_le_total(a: Seq<char>, b: Seq<char>)
    ensures
        lex_le(a, b) || lex_le(b, a),
    decreases a.len(),
{
    if a.len() != 0 && b.len() != 0 && (a[0] as u32) == (b[0] as u32) {
        lemma_lex_le_total(a.skip(1), b.skip(1));
    }
}

/// The lexicographic order is antisymmetric.
pub proof fn lemma_lex_le_antisym(a: Seq<char>, b: Seq<char>)
    requires
        lex_le(a, b),
        lex_le(b, a),
    ensures
        a == b,
    decreases a.len(),
{
    if a.len() == 0 {
        assert(b.len() == 0);
        assert(a =~= b);
    } else {
        assert(b.len() != 0);
        assert((a[0] as u32) == (b[0] as u32));
        vstd::utf8::char_u32_cast(a[0], a[0] as u32);
        vstd::utf8::char_u32_cast(b[0], b[0] as u32);
        assert(a[0] == b[0]);
        lemma_lex_le_antisym(a.skip(1), b.skip(1));
        assert(a =~= seq![a[0]] + a.skip(1));
        assert(b =~= seq![b[0]] + b.skip(1));
    }
}

/// The lexicographic order is transitive.
pub proof fn lemma_lex_le_trans(a: Seq<char>, b: Seq<char>, c: Seq<char>)
    requires
        lex_le(a, b),
        lex_le(b, c),
    ensures
        lex_le(a, c),
    decreases a.len(),
{
    if a.len() != 0 && b.len() != 0 && c.len() != 0 && (a[0] as u32) == (b[0] as u32) && (
    b[0] as u32) == (c[0] as u32) {
        lemma_lex_le_trans(a.skip(1), b.skip(1), c.skip(1));
    }
}

/// `p` is a prefix of `s`.
pub open spec fn starts_with_spec(s: Seq<char>, p: Seq<char>) -> bool {
    p.len() <= s.len() && s.take(p.len() as int) == p
}

pub fn starts_with(s: &str, p: &str) -> (r: bool)
    ensures
        r == starts_with_spec(s@, p@),
{
    let slen = s.unicode_len();
    let plen = p.unicode_len();
    if plen > slen {
        return false;
    }
    let mut i: usize = 0;
    while i < plen
        invariant
            0 <= i <= plen,
            plen <= slen,
            slen == s@.len(),
            plen == p@.len(),
            forall|j: int| 0 <= j < i ==> s@[j] == p@[j],
        decreases plen - i,
    {
        if s.get_char(i) != p.get_char(i) {
            proof {
                assert(s@.take(p@.len() as int)[i as int] == s@[i as int]);
            }
            return false;
        }
        i = i + 1;
    }
    proof {
        assert(s@.take(p@.len() as int) =~= p@);
    }
    true
}

/// `sub` occurs somewhere inside `s`.
pub open spec fn contains_sub(s: Seq<char>, sub: Seq<char>) -> bool {
    exists|k: int| 0 <= k && k + sub.len() <= s.len() && #[trigger] s.subrange(k, k + sub.len())
        == sub
}

/// `sub` occurs at position `k` of `s`.
fn matches_at(s: &str, slen: usize, sub: &str, sublen: usize, k: usize) -> (r: bool)
    requires
        slen == s@.len(),
        sublen == sub@.len(),
        k + sublen <= slen,
    ensures
        r == (s@.subrange(k as int, k + sub@.len()) == sub@),
{
    let mut i: usize = 0;
    while i < sublen
        invariant
            0 <= i <= sublen,
            slen == s@.len(),
            sublen == sub@.len(),
            k + sublen <= slen,
            forall|j: int| 0 <= j < i ==> s@[k + j] == sub@[j],
        decreases sublen - i,
    {
        if s.get_char(k + i) != sub.get_char(i) {
            proof {
                assert(s@.subrange(k as int, k + sub@.len())[i as int] == s@[k + i]);
            }
            return false;
        }
        i = i + 1;
    }
    proof {
        assert(s@.subrange(k as int, k + sub@.len()) =~= sub@);
    }
    true
}

/// Substring search: does `sub` occur anywhere in `s`?
pub fn str_contains(s: &str, sub: &str) -> (r: bool)
    ensures
        r == contains_sub(s@, sub@),
{
    let slen = s.unicode_len();
    let sublen = sub.unicode_len();
    if sublen > slen {
        return false;
    }
    if sublen == 0 {
        proof {
            assert(s@.subrange(0, 0 + sub@.len() as int) =~= sub@);
        }
        return true;
    }
    let mut k: usize = 0;
    while k <= slen - sublen
        invariant
            0 <= k,
            k <= slen - sublen + 1,
            0 < sublen <= slen,
            slen == s@.len(),
            sublen == sub@.len(),
            forall|j: int| 0 <= j < k ==> #[trigger] s@.subrange(j, j + sub@.len()) != sub@,
        decreases slen - k,
    {
        if matches_at(s, slen, sub, sublen, k) {
            return true;
        }
        k = k + 1;
    }
    false
}

/// Splitting `s` at every occurrence of `c`; separators are not kept, and
/// `n` separators yield `n + 1` (possibly empty) pieces.
pub open spec fn split_char_spec(s: Seq<char>, c: char) -> Seq<Seq<char>>
    decreases s.len(),
{
    if s.len() == 0 {
        seq![Seq::<char>::empty()]
    } else if s[0] == c {
        seq![Seq::<char>::empty()] + split_char_spec(s.skip(1), c)
    } else {
        let rest = split_char_spec(s.skip(1), c);
        seq![seq![s[0]] + rest[0]] + rest.skip(1)
    }
}

pub proof fn lemma_split_char_len(s: Seq<char>, c: char)
    ensures
        split_char_spec(s, c).len() >= 1,
    decreases s.len(),
{
    if s.len() != 0 {
        lemma_split_char_len(s.skip(1), c);
    }
}

/// `parts` with `x` prepended to its first piece.
spec fn prepend_first(x: Seq<char>, parts: Seq<Seq<char>>) -> Seq<Seq<char>> {
    seq![x + parts[0]] + parts.skip(1)
}

pub fn split_char(s: &str, c: char) -> (r: Vec<String>)
    ensures
        r.deep_view() == split_char_spec(s@, c),
{
    let slen = s.unicode_len();
    let mut done: Vec<String> = Vec::new();
    let mut cur = String::new();
    let mut i: usize = 0;
    proof {
        assert(s@.skip(0) =~= s@);
        lemma_split_char_len(s@, c);
        assert(prepend_first(Seq::<char>::empty(), split_char_spec(s@, c)) =~= split_char_spec(
            s@,
            c,
        )) by {
            assert(Seq::<char>::empty() + split_char_spec(s@, c)[0] =~= split_char_spec(s@, c)[0]);
            assert(seq![split_char_spec(s@, c)[0]] + split_char_spec(s@, c).skip(1)
                =~= split_char_spec(s@, c));
        }
        assert(done.deep_view() + prepend_first(cur@, split_char_spec(s@, c)) =~= split_char_spec(
            s@,
            c,
        ));
    }
    while i < slen
        invariant
            0 <= i <= slen,
            slen == s@.len(),
            split_char_spec(s@, c) == done.deep_view() + prepend_first(
                cur@,
                split_char_spec(s@.skip(i as int), c),
            ),
        decreases slen - i,
    {
        let ch = s.get_char(i);
        proof {
            assert(s@.skip(i as int)[0] == s@[i as int]);
            assert(s@.skip(i as int).skip(1) =~= s@.skip(i + 1));
            lemma_split_char_len(s@.skip(i + 1), c);
        }
        if ch == c {
            let ghost old_done = done.deep_view();
            let ghost old_cur = cur@;
            done.push(cur);
            cur = String::new();
            proof {
                assert(done.deep_view() =~= old_done.push(old_cur));
                assert(split_char_spec(s@.skip(i as int), c) == seq![Seq::<char>::empty()]
                    + split_char_spec(s@.skip(i + 1), c));
                assert(prepend_first(old_cur, split_char_spec(s@.skip(i as int), c)) =~= seq![
                    old_cur,
                ] + prepend_first(Seq::<char>::empty(), split_char_spec(s@.skip(i + 1), c))) by {
                    assert((seq![Seq::<char>::empty()] + split_char_spec(s@.skip(i + 1), c)).skip(1)
                        =~= split_char_spec(s@.skip(i + 1), c));
                    assert(old_cur + Seq::<char>::empty() =~= old_cur);
                    assert(Seq::<char>::empty() + split_char_spec(s@.skip(i + 1), c)[0]
                        =~= split_char_spec(s@.skip(i + 1), c)[0]);
                }
                assert(done.deep_view() + prepend_first(
                    cur@,
                    split_char_spec(s@.skip(i + 1), c),
                ) =~= old_done + (seq![old_cur] + prepend_first(
                    Seq::<char>::empty(),
                    split_char_spec(s@.skip(i + 1), c),
                )));
            }
        } else {
            let ghost old_cur = cur@;
            push_char(&mut cur, ch);
            proof {
                assert(cur@ =~= old_cur + seq![s@[i as int]]);
                let rest = split_char_spec(s@.skip(i + 1), c);
                assert(split_char_spec(s@.skip(i as int), c) == seq![seq![s@[i as int]] + rest[0]]
                    + rest.skip(1));
                assert(prepend_first(old_cur, split_char_spec(s@.skip(i as int), c))
                    =~= prepend_first(cur@, rest)) by {
                    assert((seq![seq![s@[i as int]] + rest[0]] + rest.skip(1)).skip(1) =~= rest.skip(
                        1,
                    ));
                    assert(old_cur + (seq![s@[i as int]] + rest[0]) =~= cur@ + rest[0]);
                }
            }
        }
        i = i + 1;
    }
    proof {
        assert(s@.skip(slen as int) =~= Seq::<char>::empty());
        assert(split_char_spec(Seq::<char>::empty(), c) == seq![Seq::<char>::empty()]);
        assert(prepend_first(cur@, seq![Seq::<char>::empty()]) =~= seq![cur@]) by {
            assert(cur@ + Seq::<char>::empty() =~= cur@);
            assert(seq![Seq::<char>::empty()].skip(1) =~= Seq::<Seq<char>>::empty());
        }
    }
    let ghost old_done = done.deep_view();
    done.push(cur);
    proof {
        assert(done.deep_view() =~= old_done.push(cur@));
        assert(old_done + seq![cur@] =~= old_done.push(cur@));
    }
    done
}

/// The lines of `s`: pieces separated by newlines, without a final empty
/// piece when `s` ends in a newline.
pub open spec fn lines_spec(s: Seq<char>) -> Seq<Seq<char>> {
    if s.len() == 0 {
        Seq::<Seq<char>>::empty()
    } else if s.last() == '\n' {
        split_char_spec(s, '\n').drop_last()
    } else {
        split_char_spec(s, '\n')
    }
}

pub fn split_lines(s: &str) -> (r: Vec<String>)
    ensures
        r.deep_view() == lines_spec(s@),
{
    let slen = s.unicode_len();
    if slen == 0 {
        let r: Vec<String> = Vec::new();
        proof {
            assert(r.deep_view() =~= lines_spec(s@));
        }
        return r;
    }
    let mut parts = split_char(s, '\n');
    if s.get_char(slen - 1) == '\n' {
        proof {
            lemma_split_char_len(s@, '\n');
        }
        let _ = parts.pop();
        proof {
            assert(parts.deep_view() =~= split_char_spec(s@, '\n').drop_last());
        }
    }
    parts
}

/// The nonempty pieces of a token list, in order: what splitting on a
/// separator yields once runs of separators are collapsed.
pub open spec fn filter_nonempty(s: Seq<Seq<char>>) -> Seq<Seq<char>>
    decreases s.len(),
{
    if s.len() == 0 {
        Seq::empty()
    } else if s[0].len() > 0 {
        seq![s[0]] + filter_nonempty(s.skip(1))
    } else {
        filter_nonempty(s.skip(1))
    }
}

/// Keep the nonempty strings of a list, in order.
pub fn retain_nonempty(v: Vec<String>) -> (r: Vec<String>)
    ensures
        r.deep_view() == filter_nonempty(v.deep_view()),
{
    let ghost full = v.deep_view();
    let mut out: Vec<String> = Vec::new();
    let mut i: usize = 0;
    proof {
        assert(full.skip(0) =~= full);
        assert(out.deep_view() + filter_nonempty(full) =~= filter_nonempty(full));
    }
    while i < v.len()
        invariant
            0 <= i <= v@.len(),
            full == v.deep_view(),
            full.len() == v@.len(),
            out.deep_view() + filter_nonempty(full.skip(i as int)) == filter_nonempty(full),
        decreases v@.len() - i,
    {
        let ghost pre = out.deep_view();
        proof {
            assert(full.skip(i as int)[0] == full[i as int]);
            assert(full.skip(i as int).skip(1) =~= full.skip(i + 1));
            assert(full[i as int] == v@[i as int]@);
        }
        if !v[i].as_str().is_empty() {
            out.push(v[i].clone());
            proof {
                assert(out.deep_view() =~= pre.push(full[i as int]));
                assert(pre.push(full[i as int]) =~= pre + seq![full[i as int]]);
                assert(filter_nonempty(full.skip(i as int)) == seq![full[i as int]]
                    + filter_nonempty(full.skip(i + 1)));
                assert(out.deep_view() + filter_nonempty(full.skip(i + 1)) =~= pre
                    + filter_nonempty(full.skip(i as int)));
            }
        } else {
            proof {
                assert(full[i as int].len() == 0);
                assert(filter_nonempty(full.skip(i as int)) == filter_nonempty(full.skip(i + 1)));
            }
        }
        i = i + 1;
    }
    proof {
        assert(full.skip(full.len() as int) =~= Seq::<Seq<char>>::empty());
        assert(out.deep_view() + Seq::<Seq<char>>::empty() =~= out.deep_view());
    }
    out
}

/// Index of the first occurrence of `c` in `s`, or `s.len()` when absent.
pub open spec fn first_index_of(s: Seq<char>, c: char) -> int
    decreases s.len(),
{
    if s.len() == 0 {
        0
    } else if s[0] == c {
        0
    } else {
        1 + first_index_of(s.skip(1), c)
    }
}

pub proof fn lemma_first_index_of(s: Seq<char>, c: char)
    ensures
        0 <= first_index_of(s, c) <= s.len(),
        first_index_of(s, c) < s.len() ==> s[first_index_of(s, c)] == c,
        forall|j: int| 0 <= j < first_index_of(s, c) ==> s[j] != c,
    decreases s.len(),
{
    if s.len() != 0 && s[0] != c {
        lemma_first_index_of(s.skip(1), c);
        assert forall|j: int| 0 <= j < first_index_of(s, c) implies s[j] != c by {
            if j > 0 {
                assert(s.skip(1)[j - 1] == s[j]);
            }
        }
    }
}

proof fn lemma_first_index_of_is(s: Seq<char>, c: char, i: int)
    requires
        0 <= i <= s.len(),
        i == s.len() || s[i] == c,
        forall|j: int| 0 <= j < i ==> s[j] != c,
    ensures
        first_index_of(s, c) == i,
    decreases s.len(),
{
    if s.len() != 0 && s[0] != c {
        assert(i >= 1);
        lemma_first_index_of_is(s.skip(1), c, i - 1);
    }
}

/// The part of `s` before the first occurrence of `c` (all of `s` when `c`
/// does not occur).
pub fn prefix_until(s: &str, c: char) -> (r: String)
    ensures
        r@ == s@.take(first_index_of(s@, c)),
{
    let slen = s.unicode_len();
    let mut i: usize = 0;
    while i < slen
        invariant
            0 <= i <= slen,
            slen == s@.len(),
            forall|j: int| 0 <= j < i ==> s@[j] != c,
        decreases slen - i,
    {
        if s.get_char(i) == c {
            proof {
                lemma_first_index_of_is(s@, c, i as int);
            }
            return s.substring_char(0, i).to_owned();
        }
        i = i + 1;
    }
    proof {
        lemma_first_index_of_is(s@, c, slen as int);
        assert(s@.take(slen as int) =~= s@);
    }
    s.to_owned()
}

/// The character for one decimal digit.
pub open spec fn digit_char(d: int) -> char {
    if d == 0 {
        '0'
    } else if d == 1 {
        '1'
    } else if d == 2 {
        '2'
    } else if d == 3 {
        '3'
    } else if d == 4 {
        '4'
    } else if d == 5 {
        '5'
    } else if d == 6 {
        '6'
    } else if d == 7 {
        '7'
    } else if d == 8 {
        '8'
    } else {
        '9'
    }
}

/// The decimal representation of a nonnegative number, most significant
/// digit first, without leading zeroes (except for zero itself).
pub open spec fn dec_str(n: int) -> Seq<char>
    decreases n,
{
    if n < 10 {
        seq![digit_char(n)]
    } else {
        dec_str(n / 10).push(digit_char(n % 10))
    }
}

fn digit_str(d: u8) -> (r: &'static str)
    requires
        d < 10,
    ensures
        r@ =~= seq![digit_char(d as int)],
{
    proof {
        reveal_strlit("0");
        reveal_strlit("1");
        reveal_strlit("2");
        reveal_strlit("3");
        reveal_strlit("4");
        reveal_strlit("5");
        reveal_strlit("6");
        reveal_strlit("7");
        reveal_strlit("8");
        reveal_strlit("9");
    }
    match d {
        0 => "0",
        1 => "1",
        2 => "2",
        3 => "3",
        4 => "4",
        5 => "5",
        6 => "6",
        7 => "7",
        8 => "8",
        _ => "9",
    }
}

/// Decimal rendering of a number.
pub fn u64_to_string(n: u64) -> (r: String)
    ensures
        r@ == dec_str(n as int),
    decreases n,
{
    if n < 10 {
        digit_str(n as u8).to_owned()
    } else {
        let mut s = u64_to_string(n / 10);
        s.append(digit_str((n % 10) as u8));
        proof {
            assert(s@ =~= dec_str((n / 10) as int).push(digit_char(n as int % 10)));
        }
        s
    }
}

/// `c` is an ASCII decimal digit.
pub open spec fn is_digit(c: char) -> bool {
    48 <= (c as u32) <= 57
}

pub open spec fn digit_val(c: char) -> int {
    (c as u32) - 48
}

pub open spec fn all_digits(s: Seq<char>) -> bool {
    forall|i: int| 0 <= i < s.len() ==> is_digit(#[trigger] s[i])
}

/// The value of a sequence of decimal digits, most significant first.
pub open spec fn digits_val(s: Seq<char>) -> int
    decreases s.len(),
{
    if s.len() == 0 {
        0
    } else {
        digits_val(s.drop_last()) * 10 + digit_val(s.last())
    }
}

proof fn lemma_digits_val_take_step(s: Seq<char>, i: int)
    requires
        0 <= i < s.len(),
    ensures
        digits_val(s.take(i + 1)) == digits_val(s.take(i)) * 10 + digit_val(s[i]),
{
    assert(s.take(i + 1).drop_last() =~= s.take(i));
    assert(s.take(i + 1).last() == s[i]);
}

proof fn lemma_digits_val_nonneg(s: Seq<char>)
    requires
        all_digits(s),
    ensures
        digits_val(s) >= 0,
    decreases s.len(),
{
    if s.len() > 0 {
        assert(all_digits(s.drop_last())) by {
            assert(forall|i: int| 0 <= i < s.len() - 1 ==> s.drop_last()[i] == s[i]);
        }
        lemma_digits_val_nonneg(s.drop_last());
    }
}

proof fn lemma_digits_val_mono(s: Seq<char>, i: int)
    requires
        all_digits(s),
        0 <= i <= s.len(),
    ensures
        digits_val(s.take(i)) <= digits_val(s),
    decreases s.len() - i,
{
    if i < s.len() {
        lemma_digits_val_take_step(s, i);
        assert(all_digits(s.take(i))) by {
            assert(forall|j: int| 0 <= j < i ==> s.take(i)[j] == s[j]);
        }
        lemma_digits_val_nonneg(s.take(i));
        assert(digits_val(s.take(i + 1)) >= digits_val(s.take(i)));
        lemma_digits_val_mono(s, i + 1);
    } else {
        assert(s.take(i) =~= s);
    }
}

/// Parse a nonempty all-digit string as a 16-bit number; `None` exactly
/// when the string is empty, holds a non-digit, or names a value above
/// the 16-bit maximum.
pub fn parse_u16(s: &str) -> (r: Option<u16>)
    ensures
        match r {
            Some(v) => s@.len() > 0 && all_digits(s@) && v as int == digits_val(s@),
            None => s@.len() == 0 || !all_digits(s@) || digits_val(s@) > 65535,
        },
{
    let slen = s.unicode_len();
    if slen == 0 {
        return None;
    }
    let mut acc: u32 = 0;
    let mut i: usize = 0;
    proof {
        assert(s@.take(0) =~= Seq::<char>::empty());
    }
    while i < slen
        invariant
            0 <= i <= slen,
            slen == s@.len(),
            acc <= 65535,
            acc as int == digits_val(s@.take(i as int)),
            forall|j: int| 0 <= j < i ==> is_digit(#[trigger] s@[j]),
        decreases slen - i,
    {
        let c = s.get_char(i);
        let cv = c as u32;
        if cv < 48 || cv > 57 {
            return None;
        }
        proof {
            lemma_digits_val_take_step(s@, i as int);
        }
        acc = acc * 10 + (cv - 48);
        if acc > 65535 {
            proof {
                assert(all_digits(s@.take(i + 1))) by {
                    assert(forall|j: int| 0 <= j < i + 1 ==> s@.take(i + 1)[j] == s@[j]);
                }
                if all_digits(s@) {
                    lemma_digits_val_mono(s@, i + 1);
                }
            }
            return None;
        }
        i = i + 1;
    }
    proof {
        assert(s@.take(slen as int) =~= s@);
    }
    Some(acc as u16)
}

/// `c` is one of the bracket characters trimmed from a mount option list.
pub open spec fn is_paren(c: char) -> bool {
    c == '(' || c == ')'
}

/// How many leading bracket characters `s` carries.
pub open spec fn lead_trim(s: Seq<char>) -> int
    decreases s.len(),
{
    if s.len() > 0 && is_paren(s[0]) {
        1 + lead_trim(s.skip(1))
    } else {
        0
    }
}

/// How many trailing bracket characters `s` carries.
pub open spec fn tail_trim(s: Seq<char>) -> int
    decreases s.len(),
{
    if s.len() > 0 && is_paren(s.last()) {
        1 + tail_trim(s.drop_last())
    } else {
        0
    }
}

/// `s` with leading and trailing bracket characters removed.
pub open spec fn trim_parens_spec(s: Seq<char>) -> Seq<char> {
    let rest = s.skip(lead_trim(s));
    rest.take(rest.len() - tail_trim(rest))
}

proof fn lemma_lead_trim_is(s: Seq<char>, i: int)
    requires
        0 <= i <= s.len(),
        i == s.len() || !is_paren(s[i]),
        forall|j: int| 0 <= j < i ==> is_paren(#[trigger] s[j]),
    ensures
        lead_trim(s) == i,
    decreases s.len(),
{
    if s.len() > 0 && is_paren(s[0]) {
        assert(i >= 1);
        lemma_lead_trim_is(s.skip(1), i - 1);
    }
}

proof fn lemma_tail_trim_is(s: Seq<char>, i: int)
    requires
        0 <= i <= s.len(),
        i == 0 || !is_paren(s[i - 1]),
        forall|j: int| i <= j < s.len() ==> is_paren(#[trigger] s[j]),
    ensures
        tail_trim(s) == s.len() - i,
    decreases s.len(),
{
    if s.len() > 0 && is_paren(s.last()) {
        assert(i < s.len());
        lemma_tail_trim_is(s.drop_last(), i);
    }
}

fn is_paren_exec(c: char) -> (r: bool)
    ensures
        r == is_paren(c),
{
    c == '(' || c == ')'
}

/// Remove leading and trailing brackets, as when unwrapping the
/// parenthesised option list of a mount table line.
pub fn trim_parens(s: &str) -> (r: String)
    ensures
        r@ == trim_parens_spec(s@),
{
    let slen = s.unicode_len();
    let mut lo: usize = 0;
    while lo < slen && is_paren_exec(s.get_char(lo))
        invariant
            0 <= lo <= slen,
            slen == s@.len(),
            forall|j: int| 0 <= j < lo ==> is_paren(#[trigger] s@[j]),
        decreases slen - lo,
    {
        lo = lo + 1;
    }
    proof {
        lemma_lead_trim_is(s@, lo as int);
    }
    let mut hi: usize = slen;
    while hi > lo && is_paren_exec(s.get_char(hi - 1))
        invariant
            lo <= hi <= slen,
            slen == s@.len(),
            lead_trim(s@) == lo,
            forall|j: int| hi <= j < s@.len() ==> is_paren(#[trigger] s@[j]),
        decreases hi,
    {
        hi = hi - 1;
    }
    proof {
        let rest = s@.skip(lo as int);
        assert forall|j: int| (hi - lo) <= j < rest.len() implies is_paren(#[trigger] rest[j]) by {
            assert(rest[j] == s@[j + lo]);
        }
        if hi > lo {
            assert(!is_paren(rest[hi - lo - 1])) by {
                assert(rest[hi - lo - 1] == s@[hi - 1]);
            }
        }
        lemma_tail_trim_is(rest, hi - lo);
        assert(rest.take(rest.len() - tail_trim(rest)) =~= s@.subrange(lo as int, hi as int));
    }
    s.substring_char(lo, hi).to_owned()
}

} // verus!
