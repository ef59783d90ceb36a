//! Character-level scanning primitives shared by the template parser:
//! character classes, literal search, class runs, substring extraction,
//! and the interleaving concatenation used to assemble output text.
use vstd::prelude::*;

verus! {

/// Characters the grammar counts as whitespace in the gap between a
/// question marker and its answer marker: the ASCII whitespace
/// characters and the other characters with the White_Space property.
pub open spec fn is_space_char(c: char) -> bool {
    c == ' ' || c == '\t' || c == '\n' || c == '\r' || c == '\x0b' || c == '\x0c' || c == '\u{85}'
        || c == '\u{a0}' || c == '\u{1680}' || ('\u{2000}' <= c && c <= '\u{200a}') || c
        == '\u{2028}' || c == '\u{2029}' || c == '\u{202f}' || c == '\u{205f}' || c == '\u{3000}'
}

/// ASCII letters, which may start an identifier.
pub open spec fn is_alpha_char(c: char) -> bool {
    ('a' <= c && c <= 'z') || ('A' <= c && c <= 'Z')
}

/// ASCII decimal digits.
pub open spec fn is_digit_char(c: char) -> bool {
    '0' <= c && c <= '9'
}

/// Characters that may continue an identifier: letters, digits, underscore.
pub open spec fn is_word_char(c: char) -> bool {
    is_alpha_char(c) || is_digit_char(c) || c == '_'
}

pub fn is_space(c: char) -> (r: bool)
    ensures
        r == is_space_char(c),
{
    c == ' ' || c == '\t' || c == '\n' || c == '\r' || c == '\x0b' || c == '\x0c' || c == '\u{85}'
        || c == '\u{a0}' || c == '\u{1680}' || ('\u{2000}' <= c && c <= '\u{200a}') || c
        == '\u{2028}' || c == '\u{2029}' || c == '\u{202f}' || c == '\u{205f}' || c == '\u{3000}'
}

pub fn is_alpha(c: char) -> (r: bool)
    ensures
        r == is_alpha_char(c),
{
    ('a' <= c && c <= 'z') || ('A' <= c && c <= 'Z')
}

pub fn is_digit(c: char) -> (r: bool)
    ensures
        r == is_digit_char(c),
{
    '0' <= c && c <= '9'
}

pub fn is_word(c: char) -> (r: bool)
    ensures
        r == is_word_char(c),
{
    is_alpha(c) || is_digit(c) || c == '_'
}

/// The pattern `pat` occurs in `s` starting at position `i`.
pub open spec fn matches_at(s: Seq<char>, pat: Seq<char>, i: int) -> bool {
    0 <= i && i + pat.len() <= s.len() && (forall|k: int|
        0 <= k < pat.len() ==> s[i + k] == pat[k])
}

/// Position of the first occurrence of `pat` in `s` at or after `from`.
pub open spec fn find_at(s: Seq<char>, pat: Seq<char>, from: int) -> Option<int>
    decreases s.len() - from,
    when 0 <= from
{
    if from + pat.len() > s.len() {
        None
    } else if matches_at(s, pat, from) {
        Some(from)
    } else {
        find_at(s, pat, from + 1)
    }
}

pub proof fn lemma_find_at(s: Seq<char>, pat: Seq<char>, from: int)
    requires
        0 <= from,
    ensures
        match find_at(s, pat, from) {
            Some(i) => from <= i && i + pat.len() <= s.len() && matches_at(s, pat, i) && (forall|
                m: int,
            | from <= m < i ==> !matches_at(s, pat, m)),
            None => forall|m: int| from <= m ==> !matches_at(s, pat, m),
        },
    decreases s.len() - from,
{
    if from + pat.len() > s.len() {
        assert(forall|m: int| from <= m ==> !matches_at(s, pat, m));
    } else if matches_at(s, pat, from) {
    } else {
        lemma_find_at(s, pat, from + 1);
    }
}

/// End of the run of characters satisfying `pred` that starts at `from`.
pub open spec fn run_end(s: Seq<char>, from: int, pred: spec_fn(char) -> bool) -> int
    decreases s.len() - from,
    when 0 <= from <= s.len()
{
    if from >= s.len() {
        from
    } else if !pred(s[from]) {
        from
    } else {
        run_end(s, from + 1, pred)
    }
}

pub proof fn lemma_run_end(s: Seq<char>, from: int, pred: spec_fn(char) -> bool)
    requires
        0 <= from <= s.len(),
    ensures
        from <= run_end(s, from, pred) <= s.len(),
        forall|m: int| from <= m < run_end(s, from, pred) ==> pred(s[m]),
        run_end(s, from, pred) < s.len() ==> !pred(s[run_end(s, from, pred)]),
    decreases s.len() - from,
{
    if from >= s.len() {
    } else if !pred(s[from]) {
    } else {
        lemma_run_end(s, from + 1, pred);
    }
}

/// Whether `s` checks the pattern occurrence at `i`; executable twin of
/// `matches_at` for positions known to be in range.
pub fn matches_prefix_at(text: &str, pat: &str, i: usize, n: usize, m: usize) -> (r: bool)
    requires
        n == text@.len(),
        m == pat@.len(),
        i + m <= n,
    ensures
        r == matches_at(text@, pat@, i as int),
{
    let mut k: usize = 0;
    while k < m
        invariant
            0 <= k <= m,
            n == text@.len(),
            m == pat@.len(),
            i + m <= n,
            forall|t: int| 0 <= t < k ==> text@[i + t] == pat@[t],
        decreases m - k,
    {
        if text.get_char(i + k) != pat.get_char(k) {
            return false;
        }
        k = k + 1;
    }
    true
}

/// First occurrence of `pat` in `text` at or after `from`, as `find_at`.
pub fn find_from(text: &str, pat: &str, from: usize) -> (r: Option<usize>)
    ensures
        match r {
            Some(i) => find_at(text@, pat@, from as int) == Some(i as int),
            None => find_at(text@, pat@, from as int) is None,
        },
{
    let n = text.unicode_len();
    let m = pat.unicode_len();
    let mut i = from;
    loop
        invariant
            from <= i,
            n == text@.len(),
            m == pat@.len(),
            find_at(text@, pat@, from as int) == find_at(text@, pat@, i as int),
        decreases n + 1 - i,
    {
        if i > n || n - i < m {
            return None;
        }
        if matches_prefix_at(text, pat, i, n, m) {
            return Some(i);
        }
        i = i + 1;
    }
}

/// Copy of the characters of `text` in positions `[i, j)`.
pub fn sub_string(text: &str, i: usize, j: usize) -> (r: String)
    requires
        i <= j <= text@.len(),
    ensures
        r@ == text@.subrange(i as int, j as int),
{
    String::from_str(text.substring_char(i, j))
}

/// Concatenation of a sequence of texts, in order.
pub open spec fn concat_all(ss: Seq<Seq<char>>) -> Seq<char>
    decreases ss.len(),
{
    if ss.len() == 0 {
        Seq::empty()
    } else {
        ss[0] + concat_all(ss.drop_first())
    }
}

/// Alternating concatenation: the head of `a`, then of `b`, then of the
/// tail of `a`, and so on; when one side runs out the other's rest follows.
pub open spec fn interleave_texts(a: Seq<Seq<char>>, b: Seq<Seq<char>>) -> Seq<char>
    decreases a.len() + b.len(),
{
    if a.len() == 0 {
        concat_all(b)
    } else {
        a[0] + interleave_texts(b, a.drop_first())
    }
}

/// The views of a sequence of owned strings.
pub open spec fn strs(v: Seq<String>) -> Seq<Seq<char>> {
    v.map_values(|s: String| s@)
}

/// Appends each character of `piece` to `out`.
pub fn append_str(out: &mut String, piece: &str)
    ensures
        final(out)@ == old(out)@ + piece@,
{
    out.append(piece);
}

/// An interleaving where one side is spent is the concatenation of the rest.
pub proof fn lemma_interleave_empty(a: Seq<Seq<char>>)
    ensures
        interleave_texts(a, Seq::empty()) == concat_all(a),
        interleave_texts(Seq::empty(), a) == concat_all(a),
{
    if a.len() > 0 {
        assert(interleave_texts(Seq::<Seq<char>>::empty(), a.drop_first()) == concat_all(
            a.drop_first(),
        ));
    }
}

/// Joins `a` and `b` alternately, starting with `a`, as `interleave_texts`.
pub fn interleave_join(a: &Vec<String>, b: &Vec<String>) -> (r: String)
    ensures
        r@ == interleave_texts(strs(a@), strs(b@)),
{
    let ghost total: Seq<char> = interleave_texts(strs(a@), strs(b@));
    let mut out = String::new();
    let mut i: usize = 0;
    proof {
        assert(strs(a@).skip(0) =~= strs(a@));
        assert(strs(b@).skip(0) =~= strs(b@));
        assert(out@ + total =~= total);
    }
    while i < a.len() && i < b.len()
        invariant
            i <= a@.len(),
            i <= b@.len(),
            out@ + interleave_texts(strs(a@).skip(i as int), strs(b@).skip(i as int)) == total,
        decreases a@.len() - i,
    {
        let ghost old_out = out@;
        append_str(&mut out, a[i].as_str());
        append_str(&mut out, b[i].as_str());
        proof {
            let sa = strs(a@).skip(i as int);
            let sb = strs(b@).skip(i as int);
            assert(sa[0] == a@[i as int]@);
            assert(sb[0] == b@[i as int]@);
            assert(sa.drop_first() =~= strs(a@).skip(i + 1));
            assert(sb.drop_first() =~= strs(b@).skip(i + 1));
            assert(interleave_texts(sa, sb) == sa[0] + interleave_texts(sb, sa.drop_first()));
            assert(interleave_texts(sb, sa.drop_first()) == sb[0] + interleave_texts(
                sa.drop_first(),
                sb.drop_first(),
            ));
            assert(out@ == old_out + sa[0] + sb[0]);
            assert(old_out + sa[0] + sb[0] + interleave_texts(
                strs(a@).skip(i + 1),
                strs(b@).skip(i + 1),
            ) =~= old_out + (sa[0] + (sb[0] + interleave_texts(
                sa.drop_first(),
                sb.drop_first(),
            ))));
        }
        i = i + 1;
    }
    proof {
        if i >= a@.len() {
            assert(strs(a@).skip(i as int) =~= Seq::<Seq<char>>::empty());
            lemma_interleave_empty(strs(b@).skip(i as int));
        } else {
            assert(strs(b@).skip(i as int) =~= Seq::<Seq<char>>::empty());
            lemma_interleave_empty(strs(a@).skip(i as int));
        }
    }
    let (rest, mut k): (&Vec<String>, usize) = if i < a.len() {
        (a, i)
    } else {
        (b, i)
    };
    proof {
        assert(out@ + concat_all(strs(rest@).skip(k as int)) == total);
    }
    while k < rest.len()
        invariant
            k <= rest@.len(),
            out@ + concat_all(strs(rest@).skip(k as int)) == total,
        decreases rest@.len() - k,
    {
        append_str(&mut out, rest[k].as_str());
        proof {
            let sr = strs(rest@).skip(k as int);
            assert(sr[0] == rest@[k as int]@);
            assert(sr.drop_first() =~= strs(rest@).skip(k + 1));
        }
        k = k + 1;
    }
    proof {
        assert(strs(rest@).skip(k as int) =~= Seq::<Seq<char>>::empty());
        assert(out@ + concat_all(Seq::<Seq<char>>::empty()) =~= out@);
    }
    out
}

} // verus!
