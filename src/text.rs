use vstd::prelude::*;
use vstd::utf8::*;

verus! {

broadcast use {encode_utf8_valid_utf8, encode_utf8_decode_utf8};

/// Number of bytes of the UTF-8 encoding of `t`.
pub open spec fn utf8_len(t: Seq<char>) -> nat {
    encode_utf8(t).len()
}

/// The encoding of a concatenation is the concatenation of the encodings.
pub proof fn lemma_encode_concat(a: Seq<char>, b: Seq<char>)
    ensures
        encode_utf8(a + b) == encode_utf8(a) + encode_utf8(b),
    decreases a.len(),
{
    if a.len() == 0 {
        assert(a + b =~= b);
        assert(encode_utf8(a) + encode_utf8(b) =~= encode_utf8(b));
    } else {
        assert((a + b).drop_first() =~= a.drop_first() + b);
        lemma_encode_concat(a.drop_first(), b);
        assert(encode_utf8(a + b) =~= encode_utf8(a) + encode_utf8(b));
    }
}

/// The empty text encodes to no bytes.
pub proof fn lemma_utf8_empty()
    ensures
        encode_utf8(Seq::<char>::empty()) == Seq::<u8>::empty(),
        utf8_len(Seq::<char>::empty()) == 0,
{
    assert(encode_utf8(Seq::<char>::empty()) =~= Seq::<u8>::empty());
}

/// Byte length is additive.
pub proof fn lemma_utf8_len_concat(a: Seq<char>, b: Seq<char>)
    ensures
        utf8_len(a + b) == utf8_len(a) + utf8_len(b),
{
    lemma_encode_concat(a, b);
}

/// Every character takes between one and four bytes.
pub proof fn lemma_utf8_len_bounds(t: Seq<char>)
    ensures
        t.len() <= utf8_len(t) <= 4 * t.len(),
    decreases t.len(),
{
    if t.len() > 0 {
        lemma_utf8_len_bounds(t.drop_first());
    }
}

/// Byte width of one character, as `char::len_utf8` gives it.
pub fn char_width(c: char) -> (w: usize)
    ensures
        w == utf8_len(seq![c]),
        1 <= w <= 4,
{
    proof {
        reveal_with_fuel(encode_utf8, 2);
        assert(seq![c].drop_first() =~= Seq::<char>::empty());
    }
    let v = c as u32;
    if v < 0x80 {
        1
    } else if v < 0x800 {
        2
    } else if v < 0x10000 {
        3
    } else {
        4
    }
}

} // verus!

verus! {

/// `t` written `n` times in a row.
pub open spec fn repeat_text(t: Seq<char>, n: nat) -> Seq<char>
    decreases n,
{
    if n == 0 {
        Seq::empty()
    } else {
        repeat_text(t, (n - 1) as nat) + t
    }
}

/// `t` without its last character; the empty text stays empty.
pub open spec fn popped_text(t: Seq<char>) -> Seq<char> {
    if t.len() == 0 {
        t
    } else {
        t.drop_last()
    }
}

/// `t` with `s` inserted before its `i`-th character.
pub open spec fn splice_text(t: Seq<char>, i: int, s: Seq<char>) -> Seq<char> {
    t.subrange(0, i) + s + t.subrange(i, t.len() as int)
}

/// `f` behaves as a function on characters: it accepts every character and
/// gives one answer for each.
pub open spec fn is_char_predicate<F: Fn(char) -> bool>(f: F) -> bool {
    &&& forall|c: char| #[trigger] f.requires((c,))
    &&& forall|c: char, a: bool, b: bool|
        #[trigger] f.ensures((c,), a) && #[trigger] f.ensures((c,), b) ==> a == b
}

/// `f` was called on `c`, and answered.
pub open spec fn answered<F: Fn(char) -> bool>(f: F, c: char) -> bool {
    f.ensures((c,), true) || f.ensures((c,), false)
}

/// `f` was called on every character of `t`.
pub open spec fn all_answered<F: Fn(char) -> bool>(f: F, t: Seq<char>) -> bool {
    forall|i: int| 0 <= i < t.len() ==> #[trigger] answered(f, t[i])
}

pub proof fn lemma_all_answered_concat<F: Fn(char) -> bool>(f: F, a: Seq<char>, b: Seq<char>)
    requires
        all_answered(f, a),
        all_answered(f, b),
    ensures
        all_answered(f, a + b),
{
    assert forall|i: int| 0 <= i < (a + b).len() implies #[trigger] answered(f, (a + b)[i]) by {
        if i < a.len() {
            assert((a + b)[i] == a[i]);
            assert(answered(f, a[i]));
        } else {
            assert((a + b)[i] == b[i - a.len()]);
            assert(answered(f, b[i - a.len()]));
        }
    }
}

pub proof fn lemma_all_answered_push<F: Fn(char) -> bool>(f: F, t: Seq<char>, c: char)
    requires
        all_answered(f, t),
        answered(f, c),
    ensures
        all_answered(f, t.push(c)),
{
    assert forall|i: int| 0 <= i < t.push(c).len() implies #[trigger] answered(f, t.push(c)[i]) by {
        if i < t.len() {
            assert(t.push(c)[i] == t[i]);
            assert(answered(f, t[i]));
        }
    }
}

/// The characters of `t` on which `f` answers `true`, in order.
pub open spec fn retained<F: Fn(char) -> bool>(t: Seq<char>, f: F) -> Seq<char> {
    t.filter(|c: char| f.ensures((c,), true))
}

pub proof fn lemma_repeat_len(t: Seq<char>, n: nat)
    ensures
        repeat_text(t, n).len() == n * t.len(),
        utf8_len(repeat_text(t, n)) == n * utf8_len(t),
        utf8_len(repeat_text(t, n)) == utf8_len(t) * n,
    decreases n,
{
    assert(n * utf8_len(t) == utf8_len(t) * n) by (nonlinear_arith);
    if n > 0 {
        lemma_repeat_len(t, (n - 1) as nat);
        lemma_utf8_len_concat(repeat_text(t, (n - 1) as nat), t);
        assert(n * t.len() == (n - 1) * t.len() + t.len()) by (nonlinear_arith);
        assert(n * utf8_len(t) == (n - 1) * utf8_len(t) + utf8_len(t)) by (nonlinear_arith);
    } else {
        assert(0 * t.len() == 0) by (nonlinear_arith);
        assert(0 * utf8_len(t) == 0) by (nonlinear_arith);
    }
}

/// Repeating never shrinks the byte length of a non-empty repetition count.
pub proof fn lemma_repeat_monotone(t: Seq<char>, k: nat, n: nat)
    requires
        k <= n,
    ensures
        utf8_len(repeat_text(t, k)) <= utf8_len(repeat_text(t, n)),
{
    lemma_repeat_len(t, k);
    lemma_repeat_len(t, n);
    assert(k * utf8_len(t) <= n * utf8_len(t)) by (nonlinear_arith)
        requires k <= n;
}

pub proof fn lemma_filter_utf8_len(t: Seq<char>, p: spec_fn(char) -> bool)
    ensures
        utf8_len(t.filter(p)) <= utf8_len(t),
    decreases t.len(),
{
    reveal(Seq::filter);
    if t.len() > 0 {
        let init = t.drop_last();
        lemma_filter_utf8_len(init, p);
        assert(t =~= init + seq![t.last()]);
        lemma_utf8_len_concat(init, seq![t.last()]);
        if p(t.last()) {
            assert(t.filter(p) =~= init.filter(p) + seq![t.last()]);
            lemma_utf8_len_concat(init.filter(p), seq![t.last()]);
        }
    }
}

/// Splitting a text anywhere splits its byte length.
pub proof fn lemma_utf8_len_split(t: Seq<char>, i: int)
    requires
        0 <= i <= t.len(),
    ensures
        utf8_len(t) == utf8_len(t.subrange(0, i)) + utf8_len(t.subrange(i, t.len() as int)),
{
    assert(t =~= t.subrange(0, i) + t.subrange(i, t.len() as int));
    lemma_utf8_len_concat(t.subrange(0, i), t.subrange(i, t.len() as int));
}

/// Byte length of a splice is that of the plain concatenation.
pub proof fn lemma_splice_utf8_len(t: Seq<char>, i: int, s: Seq<char>)
    requires
        0 <= i <= t.len(),
    ensures
        utf8_len(splice_text(t, i, s)) == utf8_len(t + s),
{
    let a = t.subrange(0, i);
    let b = t.subrange(i, t.len() as int);
    lemma_utf8_len_split(t, i);
    lemma_utf8_len_concat(a + s, b);
    lemma_utf8_len_concat(a, s);
    lemma_utf8_len_concat(t, s);
}

/// Inserting a character costs as many bytes as appending it.
pub proof fn lemma_insert_utf8_len(t: Seq<char>, i: int, c: char)
    requires
        0 <= i <= t.len(),
    ensures
        t.insert(i, c) == splice_text(t, i, seq![c]),
        utf8_len(t.insert(i, c)) == utf8_len(t.push(c)),
{
    assert(t.insert(i, c) =~= splice_text(t, i, seq![c]));
    assert(t.push(c) =~= t + seq![c]);
    lemma_splice_utf8_len(t, i, seq![c]);
}

/// Removing characters never adds bytes.
pub proof fn lemma_shrink_utf8_len(t: Seq<char>, i: int)
    requires
        0 <= i < t.len(),
    ensures
        utf8_len(t.remove(i)) <= utf8_len(t),
        utf8_len(popped_text(t)) <= utf8_len(t),
{
    let a = t.subrange(0, i);
    let b = t.subrange(i + 1, t.len() as int);
    assert(t =~= a + (seq![t[i]] + b));
    assert(t.remove(i) =~= a + b);
    lemma_utf8_len_concat(a, seq![t[i]] + b);
    lemma_utf8_len_concat(seq![t[i]], b);
    lemma_utf8_len_concat(a, b);
    lemma_utf8_len_split(t, t.len() - 1);
    assert(t.drop_last() =~= t.subrange(0, t.len() - 1));
}

/// The characters of `s` in order.
pub fn chars_of(s: &str) -> (r: Vec<char>)
    ensures
        r@ == s@,
{
    let mut r: Vec<char> = Vec::new();
    for c in iter: s.chars()
        invariant
            r@ == iter.seq().subrange(0, iter.index() as int),
    {
        r.push(c);
        assert(r@ =~= iter.seq().subrange(0, iter.index() + 1));
    }
    assert(r@ =~= s@);
    r
}

/// Relies on collecting characters into a `String`: the string made of `v` in order.
#[verifier::external_body]
pub(crate) fn string_of(v: &[char]) -> (r: String)
    ensures
        r@ == v@,
{
    v.iter().collect()
}

/// Byte length of the UTF-8 encoding of `v`.
pub fn utf8_len_of(v: &[char]) -> (n: usize)
    requires
        utf8_len(v@) <= usize::MAX,
    ensures
        n == utf8_len(v@),
{
    let mut n: usize = 0;
    let mut i: usize = 0;
    while i < v.len()
        invariant
            i <= v@.len(),
            utf8_len(v@) <= usize::MAX,
            n == utf8_len(v@.subrange(0, i as int)),
        decreases v@.len() - i,
    {
        let w = char_width(v[i]);
        proof {
            assert(v@.subrange(0, i + 1) =~= v@.subrange(0, i as int) + seq![v@[i as int]]);
            lemma_utf8_len_concat(v@.subrange(0, i as int), seq![v@[i as int]]);
            assert(v@ =~= v@.subrange(0, i + 1) + v@.subrange(i + 1, v@.len() as int));
            lemma_utf8_len_concat(v@.subrange(0, i + 1), v@.subrange(i + 1, v@.len() as int));
        }
        n = n + w;
        i = i + 1;
    }
    assert(v@.subrange(0, i as int) =~= v@);
    n
}

/// Appends the characters of `s` to `v`.
pub fn append_chars(v: &mut Vec<char>, s: &[char])
    ensures
        final(v)@ == old(v)@ + s@,
{
    let mut i: usize = 0;
    while i < s.len()
        invariant
            i <= s@.len(),
            v@ == old(v)@ + s@.subrange(0, i as int),
        decreases s@.len() - i,
    {
        v.push(s[i]);
        assert(old(v)@ + s@.subrange(0, i + 1) =~= (old(v)@ + s@.subrange(0, i as int)).push(s@[i as int]));
        i = i + 1;
    }
    assert(s@.subrange(0, i as int) =~= s@);
}

/// `v` written `times` times in a row.
pub fn repeat_chars(v: &[char], times: usize) -> (r: Vec<char>)
    requires
        utf8_len(v@) * times <= usize::MAX,
    ensures
        r@ == repeat_text(v@, times as nat),
{
    let mut r: Vec<char> = Vec::new();
    let mut k: usize = 0;
    while k < times
        invariant
            k <= times,
            r@ == repeat_text(v@, k as nat),
        decreases times - k,
    {
        append_chars(&mut r, v);
        k = k + 1;
    }
    r
}

/// The characters of `v` on which `filter` answers `true`, in order.
pub fn retain_chars<F: Fn(char) -> bool>(v: &[char], filter: &F) -> (r: Vec<char>)
    requires
        is_char_predicate(*filter),
    ensures
        r@ == retained(v@, *filter),
        all_answered(*filter, v@),
{
    let mut r: Vec<char> = Vec::new();
    let mut i: usize = 0;
    while i < v.len()
        invariant
            i <= v@.len(),
            is_char_predicate(*filter),
            r@ == retained(v@.subrange(0, i as int), *filter),
            all_answered(*filter, v@.subrange(0, i as int)),
        decreases v@.len() - i,
    {
        let c = v[i];
        let keep = filter(c);
        proof {
            lemma_all_answered_push(*filter, v@.subrange(0, i as int), c);
            assert(v@.subrange(0, i as int).push(c) =~= v@.subrange(0, i + 1));
            reveal(Seq::filter);
            assert(v@.subrange(0, i + 1).drop_last() =~= v@.subrange(0, i as int));
            if !keep {
                assert(!filter.ensures((c,), true));
            }
        }
        if keep {
            r.push(c);
        }
        i = i + 1;
    }
    assert(v@.subrange(0, i as int) =~= v@);
    r
}

/// `v` with `s` inserted before its `index`-th character.
pub fn splice_chars(v: &[char], index: usize, s: &[char]) -> (r: Vec<char>)
    requires
        index <= v@.len(),
    ensures
        r@ == splice_text(v@, index as int, s@),
{
    let mut r: Vec<char> = Vec::new();
    append_chars(&mut r, vstd::slice::slice_subrange(v, 0, index));
    append_chars(&mut r, s);
    append_chars(&mut r, vstd::slice::slice_subrange(v, index, v.len()));
    assert(r@ =~= splice_text(v@, index as int, s@));
    r
}

/// Pushing a character and then popping gives the character back and restores the text.
pub proof fn lemma_push_then_pop(t: Seq<char>, c: char)
    ensures
        t.push(c).len() > 0,
        t.push(c).last() == c,
        popped_text(t.push(c)) == t,
{
    assert(t.push(c).drop_last() =~= t);
}

/// Repeating a non-empty text `n >= 1` times gives `n` times its length, in characters and
/// in bytes, and character `i` of the result is character `i mod len(t)` of `t`.
pub proof fn lemma_repeat_is_concatenation(t: Seq<char>, n: nat)
    requires
        n >= 1,
        t.len() > 0,
    ensures
        repeat_text(t, n).len() == n * t.len(),
        utf8_len(repeat_text(t, n)) == n * utf8_len(t),
        forall|i: int| 0 <= i < n * t.len() ==> #[trigger] repeat_text(t, n)[i] == t[i % (t.len() as int)],
    decreases n,
{
    lemma_repeat_len(t, n);
    let len = t.len() as int;
    let prev = repeat_text(t, (n - 1) as nat);
    lemma_repeat_len(t, (n - 1) as nat);
    if n > 1 {
        lemma_repeat_is_concatenation(t, (n - 1) as nat);
    }
    assert forall|i: int| 0 <= i < n * t.len() implies #[trigger] repeat_text(t, n)[i] == t[i % len] by {
        if i < prev.len() {
            assert(repeat_text(t, n)[i] == prev[i]);
        } else {
            let j = i - prev.len();
            assert(prev.len() == (n - 1) * t.len());
            assert(n * t.len() == (n - 1) * t.len() + t.len()) by (nonlinear_arith);
            assert(0 <= j < len);
            assert(repeat_text(t, n)[i] == t[j]);
            assert(i == len * ((n - 1) as int) + j) by (nonlinear_arith)
                requires
                    j == i - prev.len(),
                    prev.len() == (n - 1) * t.len(),
                    len == t.len(),
            ;
            vstd::arithmetic::div_mod::lemma_mod_multiples_vanish((n - 1) as int, j, len);
            vstd::arithmetic::div_mod::lemma_small_mod(j as nat, len as nat);
        }
    }
}

/// A filter that was called on every character of `t` and only ever answers `true`
/// keeps `t` unchanged.
pub proof fn lemma_retain_all<F: Fn(char) -> bool>(t: Seq<char>, f: F)
    requires
        all_answered(f, t),
        forall|c: char, r: bool| #[trigger] f.ensures((c,), r) ==> r,
    ensures
        retained(t, f) == t,
    decreases t.len(),
{
    reveal(Seq::filter);
    if t.len() > 0 {
        let init = t.drop_last();
        assert forall|i: int| 0 <= i < init.len() implies #[trigger] answered(f, init[i]) by {
            assert(answered(f, t[i]));
        }
        lemma_retain_all(init, f);
        assert(answered(f, t[t.len() - 1]));
        assert(f.ensures((t.last(),), true));
        assert(init.push(t.last()) =~= t);
    }
}

/// A filter that was called on every character of `t` and only ever answers `false`
/// yields the empty text.
pub proof fn lemma_retain_none<F: Fn(char) -> bool>(t: Seq<char>, f: F)
    requires
        all_answered(f, t),
        forall|c: char, r: bool| #[trigger] f.ensures((c,), r) ==> !r,
    ensures
        retained(t, f) == Seq::<char>::empty(),
    decreases t.len(),
{
    reveal(Seq::filter);
    if t.len() > 0 {
        let init = t.drop_last();
        assert forall|i: int| 0 <= i < init.len() implies #[trigger] answered(f, init[i]) by {
            assert(answered(f, t[i]));
        }
        lemma_retain_none(init, f);
        assert(!f.ensures((t.last(),), true));
    }
}

/// Inserting the empty string anywhere leaves the text unchanged.
pub proof fn lemma_insert_empty(t: Seq<char>, i: int)
    requires
        0 <= i <= t.len(),
    ensures
        splice_text(t, i, Seq::empty()) == t,
{
    assert(splice_text(t, i, Seq::empty()) =~= t);
}

} // verus!
