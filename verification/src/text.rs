//! Character-level text utilities: Unicode display widths, whitespace,
//! line splitting, word splitting, and joining.

use vstd::prelude::*;

verus! {

/// What `unicode_width::UnicodeWidthChar::width` returns for one character:
/// `None` for a control character, otherwise the number of terminal cells.
/// The table is a function of the character alone.
pub uninterp spec fn char_width_table(c: char) -> Option<usize>;

/// Display width of one character in terminal cells: a space is one cell,
/// control characters count as zero, and any other character has its table
/// value, which the width tables bound by three cells.
pub open spec fn char_cells(c: char) -> nat {
    if c == ' ' {
        1
    } else {
        match char_width_table(c) {
            Option::Some(w) => if w <= 3 {
                w as nat
            } else {
                3
            },
            Option::None => 0,
        }
    }
}

/// Relies on `unicode_width::UnicodeWidthChar::width`: the cell width of a
/// character per Unicode Standard Annex #11, `None` for control characters,
/// `Some(1)` for printable ASCII, and never more than 3 cells.
#[verifier::external_body]
fn char_width_raw(c: char) -> (r: Option<usize>)
    ensures
        r == char_width_table(c),
        r matches Some(w) ==> w <= 3,
        ' ' <= c <= '~' ==> r == Some(1usize),
{
    unicode_width::UnicodeWidthChar::width(c)
}

/// Width of one character, with control characters contributing zero cells.
pub fn char_width(c: char) -> (w: usize)
    ensures
        w == char_cells(c),
        w <= 3,
{
    match char_width_raw(c) {
        Some(w) => w,
        None => 0,
    }
}

/// Display width of a character sequence: the sum of its characters' widths.
pub open spec fn text_cells(s: Seq<char>) -> nat
    decreases s.len(),
{
    if s.len() == 0 {
        0
    } else {
        char_cells(s[0]) + text_cells(s.drop_first())
    }
}

pub proof fn lemma_text_cells_bound(s: Seq<char>)
    ensures
        text_cells(s) <= 3 * s.len(),
    decreases s.len(),
{
    if s.len() > 0 {
        lemma_text_cells_bound(s.drop_first());
    }
}

pub proof fn lemma_text_cells_push(s: Seq<char>, c: char)
    ensures
        text_cells(s.push(c)) == text_cells(s) + char_cells(c),
    decreases s.len(),
{
    assert(s.push(c).len() == s.len() + 1);
    if s.len() == 0 {
        assert(s.push(c).drop_first() =~= Seq::<char>::empty());
        assert(s.push(c)[0] == c);
        assert(text_cells(s.push(c)) == char_cells(c) + text_cells(Seq::<char>::empty()));
    } else {
        assert(s.push(c).drop_first() =~= s.drop_first().push(c));
        lemma_text_cells_push(s.drop_first(), c);
        assert(s.push(c)[0] == s[0]);
        assert(text_cells(s.push(c)) == char_cells(s[0]) + text_cells(s.drop_first().push(c)));
    }
}

pub proof fn lemma_text_cells_add(a: Seq<char>, b: Seq<char>)
    ensures
        text_cells(a + b) == text_cells(a) + text_cells(b),
    decreases b.len(),
{
    if b.len() == 0 {
        assert(a + b =~= a);
    } else {
        lemma_text_cells_add(a, b.drop_last());
        lemma_text_cells_push(a + b.drop_last(), b.last());
        assert((a + b.drop_last()).push(b.last()) =~= a + b);
        lemma_text_cells_push(b.drop_last(), b.last());
        assert(b.drop_last().push(b.last()) =~= b);
    }
}

/// Display width of a character vector, in cells.
pub fn width_of(t: &Vec<char>) -> (w: u128)
    ensures
        w == text_cells(t@),
        w <= 3 * t@.len(),
{
    let mut w: u128 = 0;
    let mut i: usize = 0;
    while i < t.len()
        invariant
            i <= t.len(),
            w == text_cells(t@.take(i as int)),
            w <= 3 * i,
        decreases t.len() - i,
    {
        proof {
            lemma_text_cells_push(t@.take(i as int), t@[i as int]);
            assert(t@.take(i as int).push(t@[i as int]) =~= t@.take(i + 1));
        }
        w = w + char_width(t[i]) as u128;
        i = i + 1;
    }
    proof {
        assert(t@.take(t@.len() as int) =~= t@);
    }
    w
}

/// The Unicode `White_Space` characters, the ones `str::split_whitespace`
/// and `str::trim` split and trim on.
pub open spec fn is_ws(c: char) -> bool {
    ||| c == ' '
    ||| c == '\t'
    ||| c == '\n'
    ||| c == '\u{0b}'
    ||| c == '\u{0c}'
    ||| c == '\r'
    ||| c == '\u{85}'
    ||| c == '\u{a0}'
    ||| c == '\u{1680}'
    ||| ('\u{2000}' <= c && c <= '\u{200a}')
    ||| c == '\u{2028}'
    ||| c == '\u{2029}'
    ||| c == '\u{202f}'
    ||| c == '\u{205f}'
    ||| c == '\u{3000}'
}

/// The ASCII whitespace characters, as `char::is_ascii_whitespace` has them.
pub open spec fn is_ascii_ws(c: char) -> bool {
    c == ' ' || c == '\t' || c == '\n' || c == '\u{0c}' || c == '\r'
}

pub fn is_ws_char(c: char) -> (b: bool)
    ensures
        b == is_ws(c),
{
    c == ' ' || c == '\t' || c == '\n' || c == '\u{0b}' || c == '\u{0c}' || c == '\r'
        || c == '\u{85}' || c == '\u{a0}' || c == '\u{1680}'
        || ('\u{2000}' <= c && c <= '\u{200a}')
        || c == '\u{2028}' || c == '\u{2029}' || c == '\u{202f}' || c == '\u{205f}'
        || c == '\u{3000}'
}

pub fn is_ascii_ws_char(c: char) -> (b: bool)
    ensures
        b == is_ascii_ws(c),
{
    c == ' ' || c == '\t' || c == '\n' || c == '\u{0c}' || c == '\r'
}

/// A line is blank when every character is whitespace, so that trimming
/// leaves nothing.
pub open spec fn line_blank(l: Seq<char>) -> bool {
    forall|i: int| 0 <= i < l.len() ==> is_ws(l[i])
}

pub fn is_blank_line(l: &Vec<char>) -> (b: bool)
    ensures
        b == line_blank(l@),
{
    let mut i: usize = 0;
    while i < l.len()
        invariant
            i <= l.len(),
            forall|k: int| 0 <= k < i ==> is_ws(l@[k]),
        decreases l.len() - i,
    {
        if !is_ws_char(l[i]) {
            return false;
        }
        i = i + 1;
    }
    true
}

/// Total number of characters over a sequence of pieces.
pub open spec fn sum_lens(ws: Seq<Seq<char>>) -> nat
    decreases ws.len(),
{
    if ws.len() == 0 {
        0
    } else {
        ws[0].len() + sum_lens(ws.drop_first())
    }
}

pub proof fn lemma_sum_lens_push(ws: Seq<Seq<char>>, w: Seq<char>)
    ensures
        sum_lens(ws.push(w)) == sum_lens(ws) + w.len(),
    decreases ws.len(),
{
    assert(ws.push(w).len() == ws.len() + 1);
    if ws.len() == 0 {
        assert(ws.push(w).drop_first() =~= Seq::<Seq<char>>::empty());
        assert(ws.push(w)[0] == w);
        assert(sum_lens(ws.push(w)) == w.len() + sum_lens(Seq::<Seq<char>>::empty()));
    } else {
        assert(ws.push(w).drop_first() =~= ws.drop_first().push(w));
        lemma_sum_lens_push(ws.drop_first(), w);
        assert(ws.push(w)[0] == ws[0]);
        assert(sum_lens(ws.push(w)) == ws[0].len() + sum_lens(ws.drop_first().push(w)));
    }
}

pub proof fn lemma_sum_lens_add(a: Seq<Seq<char>>, b: Seq<Seq<char>>)
    ensures
        sum_lens(a + b) == sum_lens(a) + sum_lens(b),
    decreases b.len(),
{
    if b.len() == 0 {
        assert(a + b =~= a);
    } else {
        lemma_sum_lens_add(a, b.drop_last());
        lemma_sum_lens_push(a + b.drop_last(), b.last());
        assert((a + b.drop_last()).push(b.last()) =~= a + b);
        lemma_sum_lens_push(b.drop_last(), b.last());
        assert(b.drop_last().push(b.last()) =~= b);
    }
}

/// The characters of a string slice, one `char` per element.
pub fn chars_of(s: &str) -> (v: Vec<char>)
    ensures
        v@ == s@,
{
    broadcast use vstd::string::axiom_spec_iter;

    let mut v: Vec<char> = Vec::new();
    for c in it: s.chars()
        invariant
            it.seq() == s@,
            v@ == it.seq().take(it.index()),
    {
        proof {
            assert(it.seq().take(it.index() + 1) =~= it.seq().take(it.index()).push(
                it.seq()[it.index()],
            ));
        }
        v.push(c);
    }
    proof {
        assert(s@.take(s@.len() as int) =~= s@);
    }
    v
}

/// A vector of `n` spaces.
pub open spec fn sp_seq(n: nat) -> Seq<char> {
    Seq::new(n, |i: int| ' ')
}

pub fn spaces(n: usize) -> (v: Vec<char>)
    ensures
        v@ == sp_seq(n as nat),
{
    let mut v: Vec<char> = Vec::new();
    let mut i: usize = 0;
    while i < n
        invariant
            i <= n,
            v@ =~= sp_seq(i as nat),
        decreases n - i,
    {
        v.push(' ');
        i = i + 1;
    }
    proof {
        assert(v@ =~= sp_seq(n as nat));
    }
    v
}

/// Copy of the characters `l[a..b]`.
pub fn subvec(l: &Vec<char>, a: usize, b: usize) -> (v: Vec<char>)
    requires
        a <= b <= l@.len(),
    ensures
        v@ == l@.subrange(a as int, b as int),
{
    let mut v: Vec<char> = Vec::new();
    let mut i: usize = a;
    while i < b
        invariant
            a <= i <= b <= l@.len(),
            v@ =~= l@.subrange(a as int, i as int),
        decreases b - i,
    {
        proof {
            assert(l@.subrange(a as int, i + 1) =~= l@.subrange(a as int, i as int).push(
                l@[i as int],
            ));
        }
        v.push(l[i]);
        i = i + 1;
    }
    v
}

/// Append all characters of `src` to `dst`.
pub fn push_all(dst: &mut Vec<char>, src: &Vec<char>)
    ensures
        final(dst)@ == old(dst)@ + src@,
{
    let mut i: usize = 0;
    while i < src.len()
        invariant
            i <= src@.len(),
            dst@ =~= old(dst)@ + src@.take(i as int),
        decreases src@.len() - i,
    {
        proof {
            assert((old(dst)@ + src@.take(i as int)).push(src@[i as int]) =~= old(dst)@
                + src@.take(i + 1));
        }
        dst.push(src[i]);
        i = i + 1;
    }
    proof {
        assert(old(dst)@ + src@.take(src@.len() as int) =~= old(dst)@ + src@);
    }
}

/// Whether two character vectors hold the same characters.
pub fn eq_chars(a: &Vec<char>, b: &Vec<char>) -> (r: bool)
    ensures
        r == (a@ == b@),
{
    if a.len() != b.len() {
        proof {
            assert(a@ != b@);
        }
        return false;
    }
    let mut i: usize = 0;
    while i < a.len()
        invariant
            a@.len() == b@.len(),
            i <= a@.len(),
            forall|k: int| 0 <= k < i ==> a@[k] == b@[k],
        decreases a@.len() - i,
    {
        if a[i] != b[i] {
            return false;
        }
        i = i + 1;
    }
    proof {
        assert(a@ =~= b@);
    }
    true
}

/// Whether `l` starts with `p`.
pub fn starts_with(l: &Vec<char>, p: &Vec<char>) -> (r: bool)
    ensures
        r == (l@.len() >= p@.len() && l@.take(p@.len() as int) == p@),
{
    if l.len() < p.len() {
        return false;
    }
    let mut i: usize = 0;
    while i < p.len()
        invariant
            p@.len() <= l@.len(),
            i <= p@.len(),
            forall|k: int| 0 <= k < i ==> l@[k] == p@[k],
        decreases p@.len() - i,
    {
        if l[i] != p[i] {
            proof {
                assert(l@.take(p@.len() as int)[i as int] != p@[i as int]);
            }
            return false;
        }
        i = i + 1;
    }
    proof {
        assert(l@.take(p@.len() as int) =~= p@);
    }
    true
}

/// Number of leading whitespace characters.
pub open spec fn leading_ws(l: Seq<char>) -> nat
    decreases l.len(),
{
    if l.len() > 0 && is_ws(l[0]) {
        1 + leading_ws(l.drop_first())
    } else {
        0
    }
}

/// The views of a character vector agree: its deep view is its view.
pub broadcast proof fn lemma_vec_char_deep_view(v: Vec<char>)
    ensures
        #[trigger] v.deep_view() == v@,
{
    assert(v.deep_view() =~= v@);
}

/// A vector of lines has as many deep elements as elements.
pub broadcast proof fn lemma_lines_deep_len(v: Vec<Vec<char>>)
    ensures
        #[trigger] v.deep_view().len() == v@.len(),
{
}

/// An element of the deep view of a vector of lines is the view of that
/// element.
pub broadcast proof fn lemma_lines_deep_index(v: Vec<Vec<char>>, i: int)
    requires
        0 <= i < v@.len(),
    ensures
        #[trigger] v.deep_view()[i] == v@[i]@,
{
    assert(v@[i].deep_view() =~= v@[i]@);
}

pub proof fn lemma_leading_ws(l: Seq<char>)
    ensures
        leading_ws(l) <= l.len(),
        forall|i: int| 0 <= i < leading_ws(l) ==> is_ws(l[i]),
        leading_ws(l) < l.len() ==> !is_ws(l[leading_ws(l) as int]),
    decreases l.len(),
{
    if l.len() > 0 && is_ws(l[0]) {
        lemma_leading_ws(l.drop_first());
        assert forall|i: int| 0 <= i < leading_ws(l) implies is_ws(l[i]) by {
            if i > 0 {
                assert(l.drop_first()[i - 1] == l[i]);
            }
        }
        if leading_ws(l) < l.len() {
            assert(l.drop_first()[leading_ws(l) - 1] == l[leading_ws(l) as int]);
        }
    }
}

/// Number of leading non-whitespace characters.
pub open spec fn word_len(l: Seq<char>) -> nat
    decreases l.len(),
{
    if l.len() > 0 && !is_ws(l[0]) {
        1 + word_len(l.drop_first())
    } else {
        0
    }
}

pub proof fn lemma_word_len(l: Seq<char>)
    ensures
        word_len(l) <= l.len(),
        forall|i: int| 0 <= i < word_len(l) ==> !is_ws(l[i]),
        word_len(l) < l.len() ==> is_ws(l[word_len(l) as int]),
    decreases l.len(),
{
    if l.len() > 0 && !is_ws(l[0]) {
        lemma_word_len(l.drop_first());
        assert forall|i: int| 0 <= i < word_len(l) implies !is_ws(l[i]) by {
            if i > 0 {
                assert(l.drop_first()[i - 1] == l[i]);
            }
        }
        if word_len(l) < l.len() {
            assert(l.drop_first()[word_len(l) - 1] == l[word_len(l) as int]);
        }
    }
}

/// `word_len` is determined by its characterization: `k` leading
/// non-whitespace characters bounded by a whitespace character or the end.
pub proof fn lemma_word_len_is(l: Seq<char>, k: int)
    requires
        0 <= k <= l.len(),
        forall|i: int| 0 <= i < k ==> !is_ws(l[i]),
        k < l.len() ==> is_ws(l[k]),
    ensures
        word_len(l) == k,
    decreases l.len(),
{
    if l.len() > 0 && !is_ws(l[0]) {
        assert(forall|i: int| 0 <= i < k - 1 ==> l.drop_first()[i] == l[i + 1]);
        lemma_word_len_is(l.drop_first(), k - 1);
    }
}

pub proof fn lemma_leading_ws_is(l: Seq<char>, k: int)
    requires
        0 <= k <= l.len(),
        forall|i: int| 0 <= i < k ==> is_ws(l[i]),
        k < l.len() ==> !is_ws(l[k]),
    ensures
        leading_ws(l) == k,
    decreases l.len(),
{
    if l.len() > 0 && is_ws(l[0]) {
        assert(forall|i: int| 0 <= i < k - 1 ==> l.drop_first()[i] == l[i + 1]);
        lemma_leading_ws_is(l.drop_first(), k - 1);
    }
}

pub fn leading_ws_count(l: &Vec<char>) -> (k: usize)
    ensures
        k == leading_ws(l@),
{
    let mut i: usize = 0;
    while i < l.len()
        invariant
            i <= l@.len(),
            forall|k: int| 0 <= k < i ==> is_ws(l@[k]),
        decreases l@.len() - i,
    {
        if !is_ws_char(l[i]) {
            proof {
                lemma_leading_ws_is(l@, i as int);
            }
            return i;
        }
        i = i + 1;
    }
    proof {
        lemma_leading_ws_is(l@, l@.len() as int);
    }
    l.len()
}

/// The whitespace-separated words of a line, in order.
pub open spec fn split_ws(l: Seq<char>) -> Seq<Seq<char>>
    decreases l.len(),
    via split_ws_decreases
{
    if l.len() == 0 {
        Seq::empty()
    } else if is_ws(l[0]) {
        split_ws(l.drop_first())
    } else {
        seq![l.take(word_len(l) as int)] + split_ws(l.skip(word_len(l) as int))
    }
}

#[via_fn]
proof fn split_ws_decreases(l: Seq<char>) {
    if l.len() > 0 && !is_ws(l[0]) {
        lemma_word_len(l);
    }
}

pub fn split_ws_vec(l: &Vec<char>) -> (ws: Vec<Vec<char>>)
    ensures
        ws.deep_view() == split_ws(l@),
{
    broadcast use lemma_vec_char_deep_view;

    let mut ws: Vec<Vec<char>> = Vec::new();
    let mut i: usize = 0;
    proof {
        assert(ws.deep_view() =~~= Seq::<Seq<char>>::empty());
        assert(l@.skip(0) =~= l@);
    }
    while i < l.len()
        invariant
            i <= l@.len(),
            split_ws(l@) == ws.deep_view() + split_ws(l@.skip(i as int)),
        decreases l@.len() - i,
    {
        if is_ws_char(l[i]) {
            proof {
                assert(l@.skip(i as int).drop_first() =~= l@.skip(i + 1));
            }
            i = i + 1;
        } else {
            let mut j: usize = i + 1;
            while j < l.len()
                invariant_except_break
                    i < j <= l@.len(),
                    forall|k: int| i <= k < j ==> !is_ws(l@[k]),
                ensures
                    i < j <= l@.len(),
                    forall|k: int| i <= k < j ==> !is_ws(l@[k]),
                    j < l@.len() ==> is_ws(l@[j as int]),
                decreases l@.len() - j,
            {
                if is_ws_char(l[j]) {
                    break;
                }
                j = j + 1;
            }
            let w = subvec(l, i, j);
            proof {
                let rest = l@.skip(i as int);
                assert(forall|k: int| 0 <= k < j - i ==> rest[k] == l@[i + k] && !is_ws(rest[k]));
                if j < l@.len() {
                    assert(rest[j - i] == l@[j as int]);
                }
                lemma_word_len_is(rest, j - i);
                assert(rest.take(j - i) =~= l@.subrange(i as int, j as int));
                assert(rest.skip(j - i) =~= l@.skip(j as int));
                assert(split_ws(rest) == seq![w@] + split_ws(l@.skip(j as int)));
                assert((ws.deep_view() + seq![w@]) + split_ws(l@.skip(j as int)) =~= ws.deep_view()
                    + (seq![w@] + split_ws(l@.skip(j as int))));
            }
            let ghost old_ws = ws.deep_view();
            ws.push(w);
            proof {
                assert(ws.deep_view() =~~= old_ws.push(w@));
                assert(old_ws.push(w@) =~= old_ws + seq![w@]);
            }
            i = j;
        }
    }
    proof {
        assert(l@.skip(l@.len() as int) =~= Seq::<char>::empty());
        assert(ws.deep_view() + Seq::<Seq<char>>::empty() =~= ws.deep_view());
    }
    ws
}

/// Position of the first `'\n'`, or the length when there is none.
pub open spec fn find_nl(s: Seq<char>) -> nat
    decreases s.len(),
{
    if s.len() == 0 {
        0
    } else if s[0] == '\n' {
        0
    } else {
        1 + find_nl(s.drop_first())
    }
}

pub proof fn lemma_find_nl(s: Seq<char>)
    ensures
        find_nl(s) <= s.len(),
        forall|i: int| 0 <= i < find_nl(s) ==> s[i] != '\n',
        find_nl(s) < s.len() ==> s[find_nl(s) as int] == '\n',
    decreases s.len(),
{
    if s.len() > 0 && s[0] != '\n' {
        lemma_find_nl(s.drop_first());
        assert forall|i: int| 0 <= i < find_nl(s) implies s[i] != '\n' by {
            if i > 0 {
                assert(s.drop_first()[i - 1] == s[i]);
            }
        }
        if find_nl(s) < s.len() {
            assert(s.drop_first()[find_nl(s) - 1] == s[find_nl(s) as int]);
        }
    }
}

pub proof fn lemma_find_nl_is(s: Seq<char>, k: int)
    requires
        0 <= k <= s.len(),
        forall|i: int| 0 <= i < k ==> s[i] != '\n',
        k < s.len() ==> s[k] == '\n',
    ensures
        find_nl(s) == k,
    decreases s.len(),
{
    if s.len() > 0 && s[0] != '\n' {
        assert(forall|i: int| 0 <= i < k - 1 ==> s.drop_first()[i] == s[i + 1]);
        lemma_find_nl_is(s.drop_first(), k - 1);
    }
}

/// The lines of a text, as `str::lines` yields them: split at `'\n'`,
/// with a `'\r'` immediately before the `'\n'` removed, and no final
/// empty line for a trailing newline.
pub open spec fn lines_of(s: Seq<char>) -> Seq<Seq<char>>
    decreases s.len(),
    via lines_of_decreases
{
    if s.len() == 0 {
        Seq::empty()
    } else {
        let k = find_nl(s) as int;
        if k == s.len() {
            seq![s]
        } else {
            let line = if k > 0 && s[k - 1] == '\r' {
                s.take(k - 1)
            } else {
                s.take(k)
            };
            seq![line] + lines_of(s.skip(k + 1))
        }
    }
}

#[via_fn]
proof fn lines_of_decreases(s: Seq<char>) {
    if s.len() > 0 {
        lemma_find_nl(s);
    }
}

/// Every line is at most as long as the text, and the total length of the
/// lines is at most the length of the text.
pub proof fn lemma_lines_of_lens(s: Seq<char>)
    ensures
        sum_lens(lines_of(s)) <= s.len(),
        forall|i: int| 0 <= i < lines_of(s).len() ==> #[trigger] lines_of(s)[i].len() <= s.len(),
    decreases s.len(),
{
    lemma_find_nl(s);
    if s.len() > 0 {
        let k = find_nl(s) as int;
        if k == s.len() {
            assert(seq![s].drop_first() =~= Seq::<Seq<char>>::empty());
            assert(sum_lens(seq![s]) == s.len() + sum_lens(Seq::<Seq<char>>::empty()));
        } else {
            lemma_lines_of_lens(s.skip(k + 1));
            let line = if k > 0 && s[k - 1] == '\r' {
                s.take(k - 1)
            } else {
                s.take(k)
            };
            let rest = lines_of(s.skip(k + 1));
            assert(lines_of(s) == seq![line] + rest);
            assert((seq![line] + rest).drop_first() =~= rest);
            assert(sum_lens(seq![line] + rest) == line.len() + sum_lens(rest));
            assert forall|i: int|
                0 <= i < lines_of(s).len() implies #[trigger] lines_of(s)[i].len()
                <= s.len() by {
                if i > 0 {
                    assert(lines_of(s)[i] == rest[i - 1]);
                }
            }
        }
    }
}

pub fn split_lines(s: &Vec<char>) -> (ls: Vec<Vec<char>>)
    ensures
        ls.deep_view() == lines_of(s@),
        sum_lens(ls.deep_view()) <= s@.len(),
        forall|i: int|
            0 <= i < ls.deep_view().len() ==> #[trigger] ls.deep_view()[i].len() <= s@.len(),
{
    broadcast use lemma_vec_char_deep_view;

    let mut ls: Vec<Vec<char>> = Vec::new();
    let mut i: usize = 0;
    proof {
        assert(ls.deep_view() =~~= Seq::<Seq<char>>::empty());
        assert(s@.skip(0) =~= s@);
    }
    while i < s.len()
        invariant
            i <= s@.len(),
            lines_of(s@) == ls.deep_view() + lines_of(s@.skip(i as int)),
        decreases s@.len() - i,
    {
        let mut j: usize = i;
        while j < s.len()
            invariant_except_break
                i <= j <= s@.len(),
                forall|k: int| i <= k < j ==> s@[k] != '\n',
            ensures
                i <= j <= s@.len(),
                forall|k: int| i <= k < j ==> s@[k] != '\n',
                j < s@.len() ==> s@[j as int] == '\n',
            decreases s@.len() - j,
        {
            if s[j] == '\n' {
                break;
            }
            j = j + 1;
        }
        let ghost rest = s@.skip(i as int);
        proof {
            assert(forall|k: int| 0 <= k < j - i ==> rest[k] == s@[i + k] && rest[k] != '\n');
            if j < s@.len() {
                assert(rest[j - i] == s@[j as int]);
            }
            lemma_find_nl_is(rest, j - i);
        }
        if j >= s.len() {
            let line = subvec(s, i, j);
            proof {
                assert(rest.take(j - i) =~= s@.subrange(i as int, j as int));
                assert(rest =~= s@.subrange(i as int, j as int));
                assert(lines_of(rest) == seq![line@]);
            }
            let ghost old_ls = ls.deep_view();
            ls.push(line);
            i = j;
            proof {
                assert(ls.deep_view() =~~= old_ls.push(line@));
                assert(old_ls.push(line@) =~= old_ls + seq![line@]);
                assert(s@.skip(i as int) =~= Seq::<char>::empty());
                assert(lines_of(s@.skip(i as int)) == Seq::<Seq<char>>::empty());
                assert((old_ls + seq![line@]) + Seq::<Seq<char>>::empty() =~= old_ls
                    + seq![line@]);
            }
        } else {
            let e = if j > i && s[j - 1] == '\r' {
                j - 1
            } else {
                j
            };
            let line = subvec(s, i, e);
            proof {
                if j > i && s@[j - 1] == '\r' {
                    assert(rest.take(j - i - 1) =~= s@.subrange(i as int, j - 1));
                    assert(rest[j - i - 1] == s@[j - 1]);
                } else {
                    assert(rest.take(j - i) =~= s@.subrange(i as int, j as int));
                    if j > i {
                        assert(rest[j - i - 1] == s@[j - 1]);
                    }
                }
                assert(rest.skip(j - i + 1) =~= s@.skip(j + 1));
                assert(lines_of(rest) == seq![line@] + lines_of(s@.skip(j + 1)));
                assert((ls.deep_view() + seq![line@]) + lines_of(s@.skip(j + 1))
                    =~= ls.deep_view() + (seq![line@] + lines_of(s@.skip(j + 1))));
            }
            let ghost old_ls = ls.deep_view();
            ls.push(line);
            proof {
                assert(ls.deep_view() =~~= old_ls.push(line@));
                assert(old_ls.push(line@) =~= old_ls + seq![line@]);
            }
            i = j + 1;
        }
    }
    proof {
        if i == s@.len() {
            assert(s@.skip(s@.len() as int) =~= Seq::<char>::empty());
        }
        assert(ls.deep_view() + Seq::<Seq<char>>::empty() =~= ls.deep_view());
        lemma_lines_of_lens(s@);
    }
    ls
}

/// The line with its trailing whitespace removed.
pub open spec fn trim_end_s(l: Seq<char>) -> Seq<char>
    decreases l.len(),
{
    if l.len() > 0 && is_ws(l.last()) {
        trim_end_s(l.drop_last())
    } else {
        l
    }
}

pub proof fn lemma_trim_end_is(l: Seq<char>, e: int)
    requires
        0 <= e <= l.len(),
        forall|k: int| e <= k < l.len() ==> is_ws(l[k]),
        e > 0 ==> !is_ws(l[e - 1]),
    ensures
        trim_end_s(l) == l.take(e),
    decreases l.len(),
{
    if l.len() > 0 && is_ws(l.last()) {
        assert(e < l.len());
        assert(forall|k: int| e <= k < l.len() - 1 ==> l.drop_last()[k] == l[k]);
        lemma_trim_end_is(l.drop_last(), e);
        assert(l.drop_last().take(e) =~= l.take(e));
    } else {
        if l.len() > 0 {
            assert(e == l.len());
        }
        assert(l.take(e) =~= l);
    }
}

pub fn trim_end_vec(l: &Vec<char>) -> (r: Vec<char>)
    ensures
        r@ == trim_end_s(l@),
{
    let mut e: usize = l.len();
    while e > 0
        invariant_except_break
            e <= l@.len(),
            forall|k: int| e <= k < l@.len() ==> is_ws(l@[k]),
        ensures
            e <= l@.len(),
            forall|k: int| e <= k < l@.len() ==> is_ws(l@[k]),
            e > 0 ==> !is_ws(l@[e - 1]),
        decreases e,
    {
        if !is_ws_char(l[e - 1]) {
            break;
        }
        e = e - 1;
    }
    let r = subvec(l, 0, e);
    proof {
        lemma_trim_end_is(l@, e as int);
        assert(l@.subrange(0, e as int) =~= l@.take(e as int));
    }
    r
}

/// Pieces joined with a single separator character between them.
pub open spec fn join_with(ws: Seq<Seq<char>>, sep: char) -> Seq<char>
    decreases ws.len(),
{
    if ws.len() == 0 {
        Seq::empty()
    } else if ws.len() == 1 {
        ws[0]
    } else {
        ws[0] + seq![sep] + join_with(ws.drop_first(), sep)
    }
}

/// Words joined by single spaces.
pub open spec fn join_words(ws: Seq<Seq<char>>) -> Seq<char> {
    join_with(ws, ' ')
}

/// Lines joined by single newlines.
pub open spec fn join_lines(ls: Seq<Seq<char>>) -> Seq<char> {
    join_with(ls, '\n')
}

pub proof fn lemma_join_with_push(ws: Seq<Seq<char>>, w: Seq<char>, sep: char)
    ensures
        ws.len() == 0 ==> join_with(ws.push(w), sep) == w,
        ws.len() > 0 ==> join_with(ws.push(w), sep) == join_with(ws, sep) + seq![sep] + w,
    decreases ws.len(),
{
    if ws.len() == 0 {
        assert(ws.push(w)[0] == w);
    } else if ws.len() == 1 {
        assert(ws.push(w)[0] == ws[0]);
        assert(ws.push(w).drop_first() =~= seq![w]);
        assert(join_with(seq![w], sep) == w);
    } else {
        assert(ws.push(w)[0] == ws[0]);
        assert(ws.push(w).drop_first() =~= ws.drop_first().push(w));
        lemma_join_with_push(ws.drop_first(), w, sep);
        assert((ws[0] + seq![sep] + (join_with(ws.drop_first(), sep) + seq![sep] + w)) =~= (ws[0]
            + seq![sep] + join_with(ws.drop_first(), sep)) + seq![sep] + w);
    }
}

pub assume_specification [ String::push ](s: &mut String, c: char)
    ensures
        final(s)@ == old(s)@.push(c),
;

/// The characters as one string.
pub fn string_of_chars(v: &Vec<char>) -> (s: String)
    ensures
        s@ == v@,
{
    let mut s = String::new();
    let mut i: usize = 0;
    proof {
        assert(s@ =~= v@.take(0));
    }
    while i < v.len()
        invariant
            i <= v@.len(),
            s@ == v@.take(i as int),
        decreases v@.len() - i,
    {
        s.push(v[i]);
        i = i + 1;
        proof {
            assert(v@.take(i - 1).push(v@[i - 1]) =~= v@.take(i as int));
        }
    }
    proof {
        assert(v@.take(v@.len() as int) =~= v@);
    }
    s
}

/// The lines joined by single newlines, as one string.
pub fn join_lines_string(lines: &Vec<Vec<char>>) -> (s: String)
    ensures
        s@ == join_lines(lines.deep_view()),
{
    broadcast use lemma_vec_char_deep_view, lemma_lines_deep_len, lemma_lines_deep_index;

    let ghost ld = lines.deep_view();
    let mut s = String::new();
    let mut i: usize = 0;
    proof {
        assert(join_lines(ld.take(0)) =~= Seq::<char>::empty());
    }
    while i < lines.len()
        invariant
            i <= lines@.len(),
            ld == lines.deep_view(),
            ld.len() == lines@.len(),
            forall|k: int| 0 <= k < ld.len() ==> #[trigger] ld[k] == lines@[k]@,
            s@ == join_lines(ld.take(i as int)),
        decreases lines@.len() - i,
    {
        proof {
            lemma_join_with_push(ld.take(i as int), ld[i as int], '\n');
            assert(ld.take(i as int).push(ld[i as int]) =~= ld.take(i + 1));
        }
        if i > 0 {
            s.push('\n');
            proof {
                assert(join_lines(ld.take(i as int)) + seq!['\n'] == join_lines(
                    ld.take(i as int),
                ).push('\n'));
                assert(join_lines(ld.take(i as int)) + seq!['\n'] =~= join_lines(
                    ld.take(i as int),
                ).push('\n'));
            }
        }
        let line = &lines[i];
        let mut k: usize = 0;
        let ghost base = s@;
        while k < line.len()
            invariant
                k <= line@.len(),
                s@ == base + line@.take(k as int),
            decreases line@.len() - k,
        {
            s.push(line[k]);
            k = k + 1;
            proof {
                assert(base + line@.take(k - 1) + seq![line@[k - 1]] =~= base + line@.take(
                    k as int,
                ));
                assert((base + line@.take(k - 1)).push(line@[k - 1]) =~= base + line@.take(k - 1)
                    + seq![line@[k - 1]]);
            }
        }
        proof {
            assert(base + line@.take(line@.len() as int) =~= base + line@);
            if i > 0 {
                assert(join_lines(ld.take(i as int)) + seq!['\n'] + ld[i as int] == join_lines(
                    ld.take(i + 1),
                ));
            } else {
                assert(ld.take(1)[0] == ld[0]);
                assert(Seq::<char>::empty() + ld[0] =~= ld[0]);
            }
        }
        i = i + 1;
    }
    proof {
        assert(ld.take(ld.len() as int) =~= ld);
    }
    s
}

} // verus!
