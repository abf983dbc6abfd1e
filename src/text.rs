//! Character-level text helpers: padding, ellipsis truncation, trimming and ordering.
use vstd::prelude::*;

verus! {

/// `n` space characters.
pub open spec fn spaces(n: nat) -> Seq<char> {
    Seq::new(n, |i: int| ' ')
}

/// `t` right-padded with spaces to `w` characters; unchanged when already that long.
pub open spec fn pad_to(t: Seq<char>, w: nat) -> Seq<char> {
    if t.len() >= w {
        t
    } else {
        t + spaces((w - t.len()) as nat)
    }
}

/// The ellipsis marker followed by one space.
pub open spec fn ellipsis_tail() -> Seq<char> {
    seq!['\u{2026}', ' ']
}

/// `t` fitted into exactly `w` characters: padded when short, cut and marked with an
/// ellipsis when long. Widths below two leave no room for the marker, and the text is
/// then only cut.
pub open spec fn fit(t: Seq<char>, w: nat) -> Seq<char> {
    if t.len() > w {
        if w >= 2 {
            t.take(w - 2) + ellipsis_tail()
        } else {
            t.take(w as int)
        }
    } else {
        pad_to(t, w)
    }
}

/// Unicode white space, as `char::is_whitespace` reports it.
pub open spec fn is_blank(c: char) -> bool {
    let u = c as u32;
    (9 <= u && u <= 13) || u == 32 || u == 0x85 || u == 0xa0 || u == 0x1680 || (0x2000 <= u
        && u <= 0x200a) || u == 0x2028 || u == 0x2029 || u == 0x202f || u == 0x205f || u
        == 0x3000
}

/// `s` without its trailing white space.
pub open spec fn trimmed(s: Seq<char>) -> Seq<char>
    decreases s.len(),
{
    if s.len() > 0 && is_blank(s.last()) {
        trimmed(s.drop_last())
    } else {
        s
    }
}

/// Strict lexicographic order by code point, a proper prefix first.
pub open spec fn lex_lt(a: Seq<char>, b: Seq<char>) -> bool
    decreases a.len(),
{
    if a.len() == 0 {
        b.len() > 0
    } else if b.len() == 0 {
        false
    } else if a[0] != b[0] {
        (a[0] as int) < (b[0] as int)
    } else {
        lex_lt(a.drop_first(), b.drop_first())
    }
}

/// Number of occurrences of `c` in `s`.
pub open spec fn count_char(s: Seq<char>, c: char) -> nat
    decreases s.len(),
{
    if s.len() == 0 {
        0
    } else {
        count_char(s.drop_last(), c) + if s.last() == c {
            1nat
        } else {
            0nat
        }
    }
}

/// The shortest prefix of `s` that holds `k` line breaks; all of `s` when it holds fewer.
pub open spec fn clip_lines(s: Seq<char>, k: nat) -> Seq<char>
    decreases s.len(),
{
    if k == 0 || s.len() == 0 {
        Seq::empty()
    } else if s[0] == '\n' {
        seq!['\n'] + clip_lines(s.drop_first(), (k - 1) as nat)
    } else {
        seq![s[0]] + clip_lines(s.drop_first(), k)
    }
}

pub proof fn lemma_count_prepend(c: char, s: Seq<char>, x: char)
    ensures
        count_char(seq![c] + s, x) == (if c == x {
            1nat
        } else {
            0nat
        }) + count_char(s, x),
    decreases s.len(),
{
    if s.len() > 0 {
        assert((seq![c] + s).drop_last() =~= seq![c] + s.drop_last());
        assert((seq![c] + s).last() == s.last());
        lemma_count_prepend(c, s.drop_last(), x);
    } else {
        assert((seq![c] + s).drop_last() =~= Seq::<char>::empty());
        assert((seq![c] + s).last() == c);
        assert(count_char(Seq::<char>::empty(), x) == 0);
    }
}

/// A clipped text holds at most `k` line breaks.
pub proof fn lemma_clip_count(s: Seq<char>, k: nat)
    ensures
        count_char(clip_lines(s, k), '\n') <= k,
    decreases s.len(),
{
    if k > 0 && s.len() > 0 {
        let k2: nat = if s[0] == '\n' {
            (k - 1) as nat
        } else {
            k
        };
        lemma_clip_count(s.drop_first(), k2);
        lemma_count_prepend(s[0], clip_lines(s.drop_first(), k2), '\n');
    }
}

proof fn lemma_clip_below(a: Seq<char>, b: Seq<char>, k: nat)
    requires
        count_char(a, '\n') < k,
    ensures
        clip_lines(a + b, k) == a + clip_lines(b, (k - count_char(a, '\n')) as nat),
    decreases a.len(),
{
    if a.len() > 0 {
        let t = a.drop_first();
        lemma_count_prepend(a[0], t, '\n');
        assert(a =~= seq![a[0]] + t);
        assert((a + b).drop_first() =~= t + b);
        assert((a + b)[0] == a[0]);
        let k2: nat = if a[0] == '\n' {
            (k - 1) as nat
        } else {
            k
        };
        lemma_clip_below(t, b, k2);
        let m = (k - count_char(a, '\n')) as nat;
        assert(a + clip_lines(b, m) =~= seq![a[0]] + (t + clip_lines(b, m)));
    } else {
        assert(a + b =~= b);
        assert(a + clip_lines(b, k) =~= clip_lines(b, k));
    }
}

/// Clipping past a piece that ends in a line break keeps the whole piece.
pub proof fn lemma_clip_whole_piece(a: Seq<char>, b: Seq<char>, k: nat)
    requires
        a.len() > 0,
        a.last() == '\n',
        count_char(a, '\n') <= k,
    ensures
        clip_lines(a + b, k) == a + clip_lines(b, (k - count_char(a, '\n')) as nat),
{
    let a1 = a.drop_last();
    let nb = seq!['\n'] + b;
    lemma_clip_below(a1, nb, k);
    let m = (k - count_char(a1, '\n')) as nat;
    assert(nb[0] == '\n');
    assert(nb.drop_first() =~= b);
    assert(a + b =~= a1 + nb);
    assert(a =~= a1 + seq!['\n']);
    assert(a1 + (seq!['\n'] + clip_lines(b, (m - 1) as nat)) =~= a + clip_lines(b, (m - 1) as nat));
}

/// Once a piece holds `k` line breaks, what follows it is clipped away.
pub proof fn lemma_clip_prefix_enough(a: Seq<char>, b: Seq<char>, k: nat)
    requires
        count_char(a, '\n') >= k,
    ensures
        clip_lines(a + b, k) == clip_lines(a, k),
    decreases a.len(),
{
    if k > 0 {
        if a.len() == 0 {
            assert(count_char(a, '\n') == 0);
        }
        let t = a.drop_first();
        lemma_count_prepend(a[0], t, '\n');
        assert(a =~= seq![a[0]] + t);
        assert((a + b).drop_first() =~= t + b);
        assert((a + b)[0] == a[0]);
        let k2: nat = if a[0] == '\n' {
            (k - 1) as nat
        } else {
            k
        };
        lemma_clip_prefix_enough(t, b, k2);
    }
}

/// The shortest prefix of `s` holding `k` line breaks, or all of `s`.
pub fn clip_text(s: &str, k: usize) -> (r: String)
    ensures
        r@ == clip_lines(s@, k as nat),
{
    let n = s.unicode_len();
    let mut i: usize = 0;
    let mut rem = k;
    assert(s@.skip(0) =~= s@);
    assert(s@.take(0) + clip_lines(s@, k as nat) =~= clip_lines(s@, k as nat));
    while i < n && rem > 0
        invariant
            i <= n,
            n == s@.len(),
            clip_lines(s@, k as nat) == s@.take(i as int) + clip_lines(s@.skip(i as int), rem as nat),
        decreases n - i,
    {
        let c = s.get_char(i);
        proof {
            let t = s@.skip(i as int);
            assert(t[0] == c);
            assert(t.drop_first() =~= s@.skip(i + 1));
            assert(s@.take(i + 1) =~= s@.take(i as int) + seq![c]);
        }
        if c == '\n' {
            rem = rem - 1;
        }
        i = i + 1;
    }
    proof {
        assert(s@.take(i as int) + Seq::<char>::empty() =~= s@.take(i as int));
        assert(s@.take(i as int) =~= s@.subrange(0, i as int));
    }
    String::from_str(s.substring_char(0, i))
}

pub proof fn lemma_lex_transitive(a: Seq<char>, b: Seq<char>, c: Seq<char>)
    requires
        lex_lt(a, b),
        lex_lt(b, c),
    ensures
        lex_lt(a, c),
    decreases a.len(),
{
    if a.len() > 0 && b.len() > 0 && c.len() > 0 && a[0] == b[0] && b[0] == c[0] {
        lemma_lex_transitive(a.drop_first(), b.drop_first(), c.drop_first());
    }
}

pub proof fn lemma_lex_irreflexive(a: Seq<char>)
    ensures
        !lex_lt(a, a),
    decreases a.len(),
{
    if a.len() > 0 {
        lemma_lex_irreflexive(a.drop_first());
    }
}

pub proof fn lemma_lex_total(a: Seq<char>, b: Seq<char>)
    requires
        a != b,
    ensures
        lex_lt(a, b) || lex_lt(b, a),
    decreases a.len(),
{
    if a.len() > 0 && b.len() > 0 && a[0] == b[0] {
        if a.drop_first() == b.drop_first() {
            assert(a =~= seq![a[0]] + a.drop_first());
            assert(b =~= seq![b[0]] + b.drop_first());
        }
        lemma_lex_total(a.drop_first(), b.drop_first());
    } else if a.len() == 0 && b.len() == 0 {
        assert(a =~= b);
    } else if a.len() > 0 && b.len() > 0 {
        let (x, y) = (a[0], b[0]);
        assert(x as int != y as int);
    }
}

pub fn is_blank_char(c: char) -> (r: bool)
    ensures
        r == is_blank(c),
{
    let u = c as u32;
    (9 <= u && u <= 13) || u == 32 || u == 0x85 || u == 0xa0 || u == 0x1680 || (0x2000 <= u
        && u <= 0x200a) || u == 0x2028 || u == 0x2029 || u == 0x202f || u == 0x205f || u
        == 0x3000
}

/// Appends `n` spaces to `s`.
pub fn push_spaces(s: &mut String, n: usize)
    ensures
        final(s)@ == old(s)@ + spaces(n as nat),
{
    let mut i: usize = 0;
    while i < n
        invariant
            i <= n,
            s@ == old(s)@ + spaces(i as nat),
        decreases n - i,
    {
        s.append(" ");
        proof {
            reveal_strlit(" ");
            assert(old(s)@ + spaces((i + 1) as nat) =~= old(s)@ + spaces(i as nat) + " "@);
        }
        i = i + 1;
    }
}

/// Appends `t` to `s`, padded with spaces to at least `w` characters.
pub fn push_padded(s: &mut String, t: &str, w: usize)
    ensures
        final(s)@ == old(s)@ + pad_to(t@, w as nat),
{
    let n = t.unicode_len();
    s.append(t);
    if n < w {
        push_spaces(s, w - n);
        assert(final(s)@ =~= old(s)@ + pad_to(t@, w as nat));
    } else {
        assert(final(s)@ =~= old(s)@ + pad_to(t@, w as nat));
    }
}

/// Fits `inp` into exactly `limit` characters, counted as Unicode scalar values: text
/// that is too long keeps its first `limit - 2` characters followed by `"… "`, shorter
/// text is padded with spaces.
pub fn format_with_ellipsis(inp: &str, limit: usize) -> (r: String)
    ensures
        r@ == fit(inp@, limit as nat),
        r@.len() == limit,
{
    let n = inp.unicode_len();
    if n > limit {
        if limit >= 2 {
            let mut r = String::from_str(inp.substring_char(0, limit - 2));
            r.append("\u{2026} ");
            proof {
                reveal_strlit("\u{2026} ");
                assert("\u{2026} "@ =~= ellipsis_tail());
            }
            r
        } else {
            String::from_str(inp.substring_char(0, limit))
        }
    } else {
        let mut r = String::from_str(inp);
        push_spaces(&mut r, limit - n);
        r
    }
}

/// `s` without its trailing white space.
pub fn trim_end(s: &str) -> (r: String)
    ensures
        r@ == trimmed(s@),
{
    let mut k = s.unicode_len();
    assert(s@.take(k as int) =~= s@);
    loop
        invariant
            k <= s@.len(),
            trimmed(s@) == trimmed(s@.take(k as int)),
        ensures
            k <= s@.len(),
            trimmed(s@) == s@.take(k as int),
        decreases k,
    {
        if k == 0 {
            assert(trimmed(s@.take(0)) == s@.take(0));
            break;
        }
        let c = s.get_char(k - 1);
        if !is_blank_char(c) {
            assert(s@.take(k as int).last() == c);
            assert(trimmed(s@.take(k as int)) == s@.take(k as int));
            break;
        }
        proof {
            assert(s@.take(k as int).drop_last() =~= s@.take(k - 1));
        }
        k = k - 1;
    }
    proof {
        assert(s@.take(k as int) =~= s@.subrange(0, k as int));
    }
    String::from_str(s.substring_char(0, k))
}

/// Whether `a` comes strictly before `b` in lexicographic order.
pub fn str_less(a: &str, b: &str) -> (r: bool)
    ensures
        r == lex_lt(a@, b@),
{
    let la = a.unicode_len();
    let lb = b.unicode_len();
    let mut i: usize = 0;
    assert(a@.skip(0) =~= a@);
    assert(b@.skip(0) =~= b@);
    while i < la && i < lb
        invariant
            i <= la,
            i <= lb,
            la == a@.len(),
            lb == b@.len(),
            lex_lt(a@, b@) == lex_lt(a@.skip(i as int), b@.skip(i as int)),
        decreases la - i,
    {
        let ca = a.get_char(i);
        let cb = b.get_char(i);
        if ca != cb {
            assert(a@.skip(i as int)[0] == ca && b@.skip(i as int)[0] == cb);
            return (ca as u32) < (cb as u32);
        }
        proof {
            assert(a@.skip(i as int).drop_first() =~= a@.skip(i + 1));
            assert(b@.skip(i as int).drop_first() =~= b@.skip(i + 1));
        }
        i = i + 1;
    }
    i == la && i < lb
}

/// Number of occurrences of `c` in `s`.
pub fn count_occurrences(s: &str, c: char) -> (r: usize)
    ensures
        r == count_char(s@, c),
{
    let n = s.unicode_len();
    let mut i: usize = 0;
    let mut k: usize = 0;
    while i < n
        invariant
            i <= n,
            n == s@.len(),
            k == count_char(s@.take(i as int), c),
            k <= i,
        decreases n - i,
    {
        proof {
            assert(s@.take(i + 1).drop_last() =~= s@.take(i as int));
        }
        if s.get_char(i) == c {
            k = k + 1;
        }
        i = i + 1;
    }
    proof {
        assert(s@.take(n as int) =~= s@);
    }
    k
}

} // verus!
