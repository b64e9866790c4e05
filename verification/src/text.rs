//! Character-level text helpers shared by the wire formats and the naming
//! rules: ASCII classes, case folding, Unicode whitespace trimming and
//! splitting/joining on a separator, each with its mathematical model.

use vstd::prelude::*;
use vstd::std_specs::iter::IteratorSpec;

verus! {

// ---------------------------------------------------------------------
// Character classes
// ---------------------------------------------------------------------

pub open spec fn is_ascii_digit(c: char) -> bool {
    48 <= (c as u32) <= 57
}

pub open spec fn is_ascii_upper(c: char) -> bool {
    65 <= (c as u32) <= 90
}

pub open spec fn is_ascii_lower(c: char) -> bool {
    97 <= (c as u32) <= 122
}

pub open spec fn is_ascii_alphanumeric(c: char) -> bool {
    is_ascii_digit(c) || is_ascii_upper(c) || is_ascii_lower(c)
}

pub open spec fn is_ascii_hexdigit(c: char) -> bool {
    is_ascii_digit(c) || (65 <= (c as u32) <= 70) || (97 <= (c as u32) <= 102)
}

/// `char::to_ascii_lowercase`: maps `A`-`Z` to `a`-`z`, everything else
/// to itself.
pub open spec fn ascii_lower(c: char) -> char {
    if is_ascii_upper(c) {
        ((c as u32) + 32) as char
    } else {
        c
    }
}

/// `char::to_ascii_uppercase`.
pub open spec fn ascii_upper(c: char) -> char {
    if is_ascii_lower(c) {
        ((c as u32) - 32) as char
    } else {
        c
    }
}

pub open spec fn lower_seq(s: Seq<char>) -> Seq<char> {
    Seq::new(s.len(), |i: int| ascii_lower(s[i]))
}

pub open spec fn upper_seq(s: Seq<char>) -> Seq<char> {
    Seq::new(s.len(), |i: int| ascii_upper(s[i]))
}

/// `str::eq_ignore_ascii_case`.
pub open spec fn eq_ignore_case(a: Seq<char>, b: Seq<char>) -> bool {
    lower_seq(a) == lower_seq(b)
}

/// `char::is_whitespace`: the Unicode `White_Space` property.
pub open spec fn is_unicode_whitespace(c: char) -> bool {
    let u = c as u32;
    (9 <= u <= 13) || u == 32 || u == 0x85 || u == 0xA0 || u == 0x1680 || (0x2000 <= u <= 0x200A)
        || u == 0x2028 || u == 0x2029 || u == 0x202F || u == 0x205F || u == 0x3000
}

/// `str::trim_start`: drops leading whitespace.
pub open spec fn trim_start(s: Seq<char>) -> Seq<char>
    decreases s.len(),
{
    if s.len() > 0 && is_unicode_whitespace(s[0]) {
        trim_start(s.drop_first())
    } else {
        s
    }
}

/// `str::trim_end`: drops trailing whitespace.
pub open spec fn trim_end(s: Seq<char>) -> Seq<char>
    decreases s.len(),
{
    if s.len() > 0 && is_unicode_whitespace(s.last()) {
        trim_end(s.drop_last())
    } else {
        s
    }
}

/// `str::trim`.
pub open spec fn trim(s: Seq<char>) -> Seq<char> {
    trim_end(trim_start(s))
}

/// `str::trim_start_matches(c)` for a single character: drops every
/// leading occurrence of `c`.
pub open spec fn trim_start_char(s: Seq<char>, c: char) -> Seq<char>
    decreases s.len(),
{
    if s.len() > 0 && s[0] == c {
        trim_start_char(s.drop_first(), c)
    } else {
        s
    }
}

pub open spec fn starts_with(s: Seq<char>, p: Seq<char>) -> bool {
    p.len() <= s.len() && s.take(p.len() as int) == p
}

pub open spec fn ends_with(s: Seq<char>, p: Seq<char>) -> bool {
    p.len() <= s.len() && s.skip(s.len() - p.len()) == p
}

/// `str::contains` for a pattern string.
pub open spec fn contains_at(s: Seq<char>, p: Seq<char>, i: int) -> bool {
    0 <= i && i + p.len() <= s.len() && s.subrange(i, i + p.len()) == p
}

pub open spec fn contains_seq(s: Seq<char>, p: Seq<char>) -> bool {
    exists|i: int| contains_at(s, p, i)
}

/// `str::split(sep)` for a single separator character: the pieces between
/// separators, always at least one (the empty text gives one empty piece).
pub open spec fn split_char(s: Seq<char>, sep: char) -> Seq<Seq<char>>
    decreases s.len(),
{
    if s.len() == 0 {
        seq![Seq::<char>::empty()]
    } else {
        let init = split_char(s.drop_last(), sep);
        if s.last() == sep {
            init.push(Seq::<char>::empty())
        } else {
            init.update(init.len() - 1, init.last().push(s.last()))
        }
    }
}

/// `[..].join(sep)`.
pub open spec fn join_with(parts: Seq<Seq<char>>, sep: Seq<char>) -> Seq<char>
    decreases parts.len(),
{
    if parts.len() == 0 {
        Seq::<char>::empty()
    } else if parts.len() == 1 {
        parts[0]
    } else {
        join_with(parts.drop_last(), sep) + sep + parts.last()
    }
}

/// A line without its `\r` ending, if it has one.
pub open spec fn strip_cr(l: Seq<char>) -> Seq<char> {
    if l.len() > 0 && l.last() == '\r' {
        l.drop_last()
    } else {
        l
    }
}

/// `str::lines`: the text split at `\n`, each line that ended in `\r\n`
/// losing its `\r`, and no empty last line for a text that ends in a line
/// break (the empty text has no lines).
pub open spec fn text_lines(s: Seq<char>) -> Seq<Seq<char>> {
    let parts = split_char(s, '\n');
    let init = Seq::new((parts.len() - 1) as nat, |i: int| strip_cr(parts[i]));
    if parts.last().len() == 0 {
        init
    } else {
        init.push(parts.last())
    }
}

/// A trimmed field, or the default when it is blank.
pub open spec fn field_or(text: Seq<char>, default: Seq<char>) -> Seq<char> {
    if trim(text).len() == 0 {
        default
    } else {
        trim(text)
    }
}

/// `str::replace(from, to)` for single characters.
pub open spec fn replace_char(s: Seq<char>, from: char, to: char) -> Seq<char> {
    Seq::new(s.len(), |i: int| if s[i] == from { to } else { s[i] })
}

/// `str::replace(from, to)` for a single character replaced by a text:
/// every occurrence of `from` becomes `to`.
pub open spec fn replace_with(s: Seq<char>, from: char, to: Seq<char>) -> Seq<char>
    decreases s.len(),
{
    if s.len() == 0 {
        Seq::<char>::empty()
    } else {
        replace_with(s.drop_last(), from, to) + (if s.last() == from { to } else { seq![s.last()] })
    }
}

pub proof fn lemma_split_char_nonempty(s: Seq<char>, sep: char)
    ensures
        split_char(s, sep).len() >= 1,
    decreases s.len(),
{
    if s.len() > 0 {
        lemma_split_char_nonempty(s.drop_last(), sep);
    }
}

/// Splits a character slice on every occurrence of `sep`
/// (`str::split` with a character pattern).
pub fn split_chars(s: &[char], sep: char) -> (res: Vec<Vec<char>>)
    ensures
        res.len() == split_char(s@, sep).len(),
        forall|i: int| 0 <= i < res.len() ==> #[trigger] res[i]@ == split_char(s@, sep)[i],
{
    let mut done: Vec<Vec<char>> = Vec::new();
    let mut cur: Vec<char> = Vec::new();
    let mut i: usize = 0;
    assert(s@.take(0) =~= Seq::<char>::empty());
    while i < s.len()
        invariant
            i <= s.len(),
            done.len() + 1 == split_char(s@.take(i as int), sep).len(),
            forall|k: int| 0 <= k < done.len() ==> #[trigger] done[k]@ == split_char(
                s@.take(i as int),
                sep,
            )[k],
            cur@ == split_char(s@.take(i as int), sep).last(),
        decreases s.len() - i,
    {
        let ghost pre = s@.take(i as int);
        let ghost next = s@.take(i + 1);
        assert(next.drop_last() == pre);
        assert(next.last() == s[i as int]);
        proof {
            lemma_split_char_nonempty(pre, sep);
        }
        let c = s[i];
        if c == sep {
            let finished = cur;
            done.push(finished);
            cur = Vec::new();
        } else {
            cur.push(c);
        }
        i = i + 1;
    }
    assert(s@.take(s.len() as int) == s@);
    proof {
        lemma_split_char_nonempty(s@, sep);
    }
    done.push(cur);
    done
}

/// `str::lines` on a character slice; see `text_lines`.
pub fn lines_of(s: &[char]) -> (res: Vec<Vec<char>>)
    ensures
        res@.len() == text_lines(s@).len(),
        forall|i: int| 0 <= i < res@.len() ==> #[trigger] res@[i]@ == text_lines(s@)[i],
{
    let parts = split_chars(s, '\n');
    proof {
        lemma_split_char_nonempty(s@, '\n');
    }
    let n = parts.len();
    let mut res: Vec<Vec<char>> = Vec::new();
    let mut i: usize = 0;
    while i + 1 < n
        invariant
            n == parts@.len(),
            n >= 1,
            i <= n - 1,
            res@.len() == i,
            parts@.len() == split_char(s@, '\n').len(),
            forall|k: int| 0 <= k < parts@.len() ==> #[trigger] parts@[k]@ == split_char(s@, '\n')[k],
            forall|k: int| 0 <= k < i ==> #[trigger] res@[k]@ == strip_cr(split_char(s@, '\n')[k]),
        decreases n - i,
    {
        let mut line: Vec<char> = Vec::new();
        let p = &parts[i];
        let mut end = p.len();
        if end > 0 && p[end - 1] == '\r' {
            end = end - 1;
        }
        let mut k: usize = 0;
        while k < end
            invariant
                end <= p@.len(),
                k <= end,
                line@ == p@.take(k as int),
            decreases end - k,
        {
            line.push(p[k]);
            proof {
                assert(line@ =~= p@.take(k + 1));
            }
            k = k + 1;
        }
        proof {
            assert(p@ == split_char(s@, '\n')[i as int]);
            assert(line@ =~= strip_cr(p@));
        }
        res.push(line);
        i = i + 1;
    }
    let last_idx = n - 1;
    if parts[last_idx].len() > 0 {
        let mut line: Vec<char> = Vec::new();
        let p = &parts[last_idx];
        let mut k: usize = 0;
        while k < p.len()
            invariant
                k <= p@.len(),
                line@ == p@.take(k as int),
            decreases p@.len() - k,
        {
            line.push(p[k]);
            proof {
                assert(line@ =~= p@.take(k + 1));
            }
            k = k + 1;
        }
        proof {
            assert(line@ =~= p@);
        }
        res.push(line);
    }
    res
}

/// `[..].join(sep)` on character vectors; see `join_with`.
pub fn join_lines(parts: &Vec<Vec<char>>, sep: &[char]) -> (res: Vec<char>)
    ensures
        res@ == join_with(Seq::new(parts@.len(), |i: int| parts@[i]@), sep@),
{
    let ghost ps = Seq::new(parts@.len(), |i: int| parts@[i]@);
    let mut out: Vec<char> = Vec::new();
    let mut i: usize = 0;
    while i < parts.len()
        invariant
            i <= parts@.len(),
            ps == Seq::new(parts@.len(), |i: int| parts@[i]@),
            out@ == join_with(ps.take(i as int), sep@),
        decreases parts@.len() - i,
    {
        let ghost before = out@;
        if i > 0 {
            let mut k: usize = 0;
            while k < sep.len()
                invariant
                    k <= sep@.len(),
                    out@ == before + sep@.take(k as int),
                decreases sep@.len() - k,
            {
                out.push(sep[k]);
                proof {
                    assert(out@ =~= before + sep@.take(k + 1));
                }
                k = k + 1;
            }
            proof {
                assert(sep@.take(k as int) =~= sep@);
            }
        }
        let ghost mid = out@;
        let p = &parts[i];
        let mut k: usize = 0;
        while k < p.len()
            invariant
                k <= p@.len(),
                out@ == mid + p@.take(k as int),
            decreases p@.len() - k,
        {
            out.push(p[k]);
            proof {
                assert(out@ =~= mid + p@.take(k + 1));
            }
            k = k + 1;
        }
        proof {
            assert(p@.take(k as int) =~= p@);
            let t = ps.take(i + 1);
            assert(t.drop_last() =~= ps.take(i as int));
            assert(t.last() == p@);
            if i == 0 {
                assert(t.len() == 1);
                assert(out@ =~= t[0]);
            } else {
                assert(out@ =~= join_with(ps.take(i as int), sep@) + sep@ + p@);
            }
        }
        i = i + 1;
    }
    proof {
        assert(ps.take(i as int) =~= ps);
    }
    out
}

/// `str::trim` on a character slice.
pub fn trim_chars(s: &[char]) -> (res: Vec<char>)
    ensures
        res@ == trim(s@),
{
    let mut start: usize = 0;
    assert(s@.skip(0) == s@);
    while start < s.len() && is_whitespace_char(s[start])
        invariant
            start <= s.len(),
            trim_start(s@) == trim_start(s@.skip(start as int)),
        decreases s.len() - start,
    {
        assert(s@.skip(start as int).drop_first() == s@.skip(start + 1));
        start = start + 1;
    }
    let mut end: usize = s.len();
    let ghost mid = s@.skip(start as int);
    assert(trim_start(s@) == mid) by {
        if start < s.len() {
            assert(mid[0] == s@[start as int]);
        }
    }
    while end > start && is_whitespace_char(s[end - 1])
        invariant
            start <= end <= s.len(),
            mid == s@.skip(start as int),
            trim_end(mid) == trim_end(s@.subrange(start as int, end as int)),
        decreases end,
    {
        let ghost cur = s@.subrange(start as int, end as int);
        assert(cur.drop_last() == s@.subrange(start as int, end - 1));
        assert(cur.last() == s@[end - 1]);
        end = end - 1;
    }
    assert(mid == s@.subrange(start as int, s.len() as int));
    let ghost fin = s@.subrange(start as int, end as int);
    assert(trim_end(fin) == fin) by {
        if fin.len() > 0 {
            assert(fin.last() == s@[end - 1]);
        }
    }
    let mut out: Vec<char> = Vec::new();
    let mut i: usize = start;
    while i < end
        invariant
            start <= i <= end,
            end <= s.len(),
            out@ == s@.subrange(start as int, i as int),
        decreases end - i,
    {
        out.push(s[i]);
        i = i + 1;
        assert(s@.subrange(start as int, i as int) == s@.subrange(start as int, i - 1).push(
            s@[i - 1],
        ));
    }
    out
}

/// A text without whitespace at either end trims to itself.
pub proof fn lemma_trim_noop(s: Seq<char>)
    requires
        s.len() > 0 ==> !is_unicode_whitespace(s[0]),
        s.len() > 0 ==> !is_unicode_whitespace(s.last()),
    ensures
        trim(s) == s,
{
}

/// What `str::trim_start` leaves does not start with whitespace.
pub proof fn lemma_trim_start_first(s: Seq<char>)
    ensures
        trim_start(s).len() > 0 ==> !is_unicode_whitespace(trim_start(s)[0]),
    decreases s.len(),
{
    if s.len() > 0 && is_unicode_whitespace(s[0]) {
        lemma_trim_start_first(s.drop_first());
    }
}

/// What `str::trim_end` leaves is a prefix that does not end with
/// whitespace.
pub proof fn lemma_trim_end_prefix(s: Seq<char>)
    ensures
        trim_end(s).len() <= s.len(),
        trim_end(s) == s.take(trim_end(s).len() as int),
        trim_end(s).len() > 0 ==> !is_unicode_whitespace(trim_end(s).last()),
    decreases s.len(),
{
    if s.len() > 0 && is_unicode_whitespace(s.last()) {
        lemma_trim_end_prefix(s.drop_last());
        assert(s.drop_last().take(trim_end(s).len() as int) =~= s.take(trim_end(s).len() as int));
    } else {
        assert(s.take(s.len() as int) =~= s);
    }
}

/// Trimming twice is trimming once.
pub proof fn lemma_trim_idempotent(s: Seq<char>)
    ensures
        trim(trim(s)) == trim(s),
{
    let a = trim_start(s);
    lemma_trim_start_first(s);
    lemma_trim_end_prefix(a);
    let t = trim(s);
    if t.len() > 0 {
        assert(t[0] == a[0]);
    }
    lemma_trim_noop(t);
}

/// Appending a separator and a separator-free piece adds exactly one piece.
pub proof fn lemma_split_push_piece(p: Seq<char>, x: Seq<char>, sep: char)
    requires
        forall|i: int| 0 <= i < x.len() ==> x[i] != sep,
    ensures
        split_char(p + seq![sep] + x, sep) == split_char(p, sep).push(x),
    decreases x.len(),
{
    if x.len() == 0 {
        let s = p + seq![sep] + x;
        assert(s.drop_last() =~= p);
        assert(s.last() == sep);
        assert(x =~= Seq::<char>::empty());
    } else {
        let s = p + seq![sep] + x;
        let x0 = x.drop_last();
        lemma_split_push_piece(p, x0, sep);
        assert(s.drop_last() =~= p + seq![sep] + x0);
        assert(s.last() == x.last());
        assert(x0.push(x.last()) =~= x);
        lemma_split_char_nonempty(p, sep);
    }
}

/// A separator-free text is a single piece.
pub proof fn lemma_split_single(x: Seq<char>, sep: char)
    requires
        forall|i: int| 0 <= i < x.len() ==> x[i] != sep,
    ensures
        split_char(x, sep) == seq![x],
    decreases x.len(),
{
    if x.len() > 0 {
        lemma_split_single(x.drop_last(), sep);
        assert(x.drop_last().push(x.last()) =~= x);
    } else {
        assert(x =~= Seq::<char>::empty());
    }
}

/// No piece of a split holds the separator.
pub proof fn lemma_split_pieces_no_sep(s: Seq<char>, sep: char)
    ensures
        forall|i: int, j: int|
            0 <= i < split_char(s, sep).len() && 0 <= j < split_char(s, sep)[i].len() ==> split_char(
                s,
                sep,
            )[i][j] != sep,
    decreases s.len(),
{
    if s.len() > 0 {
        lemma_split_pieces_no_sep(s.drop_last(), sep);
        lemma_split_char_nonempty(s.drop_last(), sep);
        let init = split_char(s.drop_last(), sep);
        let r = split_char(s, sep);
        if s.last() != sep {
            assert forall|i: int, j: int| 0 <= i < r.len() && 0 <= j < r[i].len() implies r[i][j] != sep by {
                if i == init.len() - 1 {
                    if j < init.last().len() {
                        assert(r[i][j] == init.last()[j]);
                    }
                } else {
                    assert(r[i] == init[i]);
                }
            }
        } else {
            assert forall|i: int, j: int| 0 <= i < r.len() && 0 <= j < r[i].len() implies r[i][j] != sep by {
                if i < init.len() {
                    assert(r[i] == init[i]);
                }
            }
        }
    }
}

/// A line that reads back as itself: no line break in it, and no `\r`
/// at its end.
pub open spec fn plain_line(l: Seq<char>) -> bool {
    &&& forall|j: int| 0 <= j < l.len() ==> l[j] != '\n'
    &&& !(l.len() > 0 && l.last() == '\r')
}

/// Splitting joined pieces gives the pieces back.
pub proof fn lemma_split_join(ls: Seq<Seq<char>>, sep: char)
    requires
        ls.len() >= 1,
        forall|i: int, j: int| 0 <= i < ls.len() && 0 <= j < ls[i].len() ==> ls[i][j] != sep,
    ensures
        split_char(join_with(ls, seq![sep]), sep) == ls,
    decreases ls.len(),
{
    if ls.len() == 1 {
        lemma_split_single(ls[0], sep);
        assert(seq![ls[0]] =~= ls);
    } else {
        let init = ls.drop_last();
        lemma_split_join(init, sep);
        assert forall|j: int| 0 <= j < ls.last().len() implies ls.last()[j] != sep by {
            assert(ls.last() == ls[ls.len() - 1]);
        }
        lemma_split_push_piece(join_with(init, seq![sep]), ls.last(), sep);
        assert(init.push(ls.last()) =~= ls);
    }
}

/// Lines joined by `\n` with a final `\n` read back (`str::lines`) as the
/// same lines.
pub proof fn lemma_lines_of_joined(ls: Seq<Seq<char>>)
    requires
        ls.len() >= 1,
        forall|i: int| 0 <= i < ls.len() ==> plain_line(#[trigger] ls[i]),
    ensures
        text_lines(join_with(ls, seq!['\n']) + seq!['\n']) == ls,
{
    assert forall|i: int, j: int| 0 <= i < ls.len() && 0 <= j < ls[i].len() implies ls[i][j] != '\n' by {
        assert(plain_line(ls[i]));
    }
    lemma_split_join(ls, '\n');
    let j = join_with(ls, seq!['\n']);
    lemma_split_push_piece(j, Seq::<char>::empty(), '\n');
    assert(j + seq!['\n'] + Seq::<char>::empty() =~= j + seq!['\n']);
    let parts = split_char(j + seq!['\n'], '\n');
    assert(parts == ls.push(Seq::<char>::empty()));
    let init = Seq::new((parts.len() - 1) as nat, |i: int| strip_cr(parts[i]));
    assert forall|i: int| 0 <= i < ls.len() implies init[i] == ls[i] by {
        assert(parts[i] == ls[i]);
        assert(plain_line(ls[i]));
    }
    assert(init =~= ls);
}

/// What `str::lines` gives holds no line break.
pub proof fn lemma_text_lines_no_newline(s: Seq<char>)
    ensures
        forall|i: int, j: int|
            0 <= i < text_lines(s).len() && 0 <= j < text_lines(s)[i].len() ==> text_lines(s)[i][j]
                != '\n',
{
    let parts = split_char(s, '\n');
    lemma_split_pieces_no_sep(s, '\n');
    lemma_split_char_nonempty(s, '\n');
    let ls = text_lines(s);
    assert forall|i: int, j: int| 0 <= i < ls.len() && 0 <= j < ls[i].len() implies ls[i][j] != '\n' by {
        if i < parts.len() - 1 {
            assert(ls[i] == strip_cr(parts[i]));
            assert(ls[i][j] == parts[i][j]);
        } else {
            assert(ls[i] == parts.last());
            assert(parts.last() == parts[parts.len() - 1]);
        }
    }
}

// ---------------------------------------------------------------------
// Conversions between `str`/`String` and character vectors
// ---------------------------------------------------------------------

/// `String::push`: appends one character.
#[verifier::external_body]
fn push_char(s: &mut String, c: char)
    ensures
        final(s)@ == old(s)@.push(c),
{
    s.push(c);
}

/// The characters of a string slice, in order.
pub fn chars_of(s: &str) -> (res: Vec<char>)
    ensures
        res@ == s@,
{
    let mut res: Vec<char> = Vec::new();
    let mut it = s.chars();
    loop
        invariant
            res@ + it.remaining() == s@,
        ensures
            res@ == s@,
        decreases s@.len() - res@.len(),
    {
        let ghost before = it.remaining();
        match it.next() {
            Some(c) => {
                proof {
                    assert(res@.push(c) + it.remaining() =~= res@ + before);
                }
                res.push(c);
            },
            None => {
                proof {
                    assert(before.len() == 0);
                    assert(res@ =~= s@);
                }
                break;
            },
        }
    }
    res
}

/// Builds a `String` holding exactly the given characters.
pub fn string_from_chars(v: &[char]) -> (res: String)
    ensures
        res@ == v@,
{
    let mut res = String::new();
    let mut i: usize = 0;
    while i < v.len()
        invariant
            i <= v.len(),
            res@ == v@.take(i as int),
        decreases v.len() - i,
    {
        push_char(&mut res, v[i]);
        proof {
            assert(v@.take(i as int).push(v@[i as int]) =~= v@.take(i + 1));
        }
        i = i + 1;
    }
    proof {
        assert(v@.take(v.len() as int) =~= v@);
    }
    res
}

// ---------------------------------------------------------------------
// Executable helpers
// ---------------------------------------------------------------------

/// Appends every character of `s` to `out`.
pub fn push_all(out: &mut Vec<char>, s: &[char])
    ensures
        final(out)@ == old(out)@ + s@,
{
    let ghost base = out@;
    let mut k: usize = 0;
    while k < s.len()
        invariant
            k <= s@.len(),
            out@ == base + s@.take(k as int),
        decreases s@.len() - k,
    {
        out.push(s[k]);
        proof {
            assert(out@ =~= base + s@.take(k + 1));
        }
        k = k + 1;
    }
    proof {
        assert(s@.take(k as int) =~= s@);
    }
}


pub fn is_digit_char(c: char) -> (b: bool)
    ensures
        b == is_ascii_digit(c),
{
    '0' <= c && c <= '9'
}

pub fn is_alnum_char(c: char) -> (b: bool)
    ensures
        b == is_ascii_alphanumeric(c),
{
    ('0' <= c && c <= '9') || ('A' <= c && c <= 'Z') || ('a' <= c && c <= 'z')
}

pub fn is_hex_char(c: char) -> (b: bool)
    ensures
        b == is_ascii_hexdigit(c),
{
    ('0' <= c && c <= '9') || ('A' <= c && c <= 'F') || ('a' <= c && c <= 'f')
}

pub fn is_whitespace_char(c: char) -> (b: bool)
    ensures
        b == is_unicode_whitespace(c),
{
    let u = c as u32;
    (9 <= u && u <= 13) || u == 32 || u == 0x85 || u == 0xA0 || u == 0x1680 || (0x2000 <= u && u
        <= 0x200A) || u == 0x2028 || u == 0x2029 || u == 0x202F || u == 0x205F || u == 0x3000
}

/// `eq_ignore_ascii_case` on character slices.
pub fn chars_eq_ignore_case(a: &[char], b: &[char]) -> (r: bool)
    ensures
        r == eq_ignore_case(a@, b@),
{
    if a.len() != b.len() {
        proof {
            assert(lower_seq(a@).len() != lower_seq(b@).len());
        }
        return false;
    }
    let mut i: usize = 0;
    while i < a.len()
        invariant
            i <= a.len(),
            a.len() == b.len(),
            forall|k: int| 0 <= k < i ==> ascii_lower(a@[k]) == ascii_lower(b@[k]),
        decreases a.len() - i,
    {
        if lower_char(a[i]) != lower_char(b[i]) {
            proof {
                assert(lower_seq(a@)[i as int] != lower_seq(b@)[i as int]);
            }
            return false;
        }
        i = i + 1;
    }
    assert(lower_seq(a@) =~= lower_seq(b@));
    true
}

/// Whether `needle` occurs in `hay` starting at position `i`.
pub fn chars_match_at(hay: &[char], needle: &[char], i: usize) -> (r: bool)
    ensures
        r == contains_at(hay@, needle@, i as int),
{
    if i > hay.len() || needle.len() > hay.len() - i {
        return false;
    }
    let mut k: usize = 0;
    while k < needle.len()
        invariant
            k <= needle@.len(),
            i + needle@.len() <= hay@.len(),
            hay@.len() <= usize::MAX,
            forall|j: int| 0 <= j < k ==> hay@[i + j] == needle@[j],
        decreases needle@.len() - k,
    {
        if hay[i + k] != needle[k] {
            proof {
                assert(hay@.subrange(i as int, i + needle@.len())[k as int] != needle@[k as int]);
            }
            return false;
        }
        k = k + 1;
    }
    assert(hay@.subrange(i as int, i + needle@.len()) =~= needle@);
    true
}

/// `str::contains` for a pattern text.
pub fn chars_contains(hay: &[char], needle: &[char]) -> (r: bool)
    ensures
        r == contains_seq(hay@, needle@),
{
    if needle.len() > hay.len() {
        proof {
            assert forall|i: int| !contains_at(hay@, needle@, i) by {}
        }
        return false;
    }
    let last = hay.len() - needle.len();
    let mut i: usize = 0;
    loop
        invariant
            last == hay@.len() - needle@.len(),
            i <= last,
            forall|j: int| 0 <= j < i ==> !contains_at(hay@, needle@, j),
        decreases last - i,
    {
        if chars_match_at(hay, needle, i) {
            return true;
        }
        if i == last {
            proof {
                assert forall|j: int| !contains_at(hay@, needle@, j) by {
                    if 0 <= j && j < i {
                    }
                }
            }
            return false;
        }
        i = i + 1;
    }
}

/// `str::starts_with` for a pattern text.
pub fn chars_starts_with(s: &[char], p: &[char]) -> (r: bool)
    ensures
        r == starts_with(s@, p@),
{
    let m = chars_match_at(s, p, 0);
    proof {
        if m {
            assert(s@.take(p@.len() as int) =~= s@.subrange(0, p@.len() as int));
        } else if p@.len() <= s@.len() {
            assert(s@.take(p@.len() as int) =~= s@.subrange(0, p@.len() as int));
        }
    }
    m
}

/// Trims a field, or gives the default when it is blank.
pub fn trimmed_or(text: &str, default: &str) -> (r: String)
    ensures
        r@ == field_or(text@, default@),
{
    let c = chars_of(text);
    let t = trim_chars(c.as_slice());
    if t.len() == 0 {
        default.to_string()
    } else {
        string_from_chars(t.as_slice())
    }
}

/// Appends `s` to `out` with every `from` replaced by `to`
/// (`str::replace` with a character pattern).
pub fn push_replaced(out: &mut Vec<char>, s: &[char], from: char, to: &[char])
    ensures
        final(out)@ == old(out)@ + replace_with(s@, from, to@),
{
    let ghost base = out@;
    let mut i: usize = 0;
    assert(s@.take(0) =~= Seq::<char>::empty());
    assert(base + replace_with(Seq::<char>::empty(), from, to@) =~= base);
    while i < s.len()
        invariant
            i <= s.len(),
            out@ == base + replace_with(s@.take(i as int), from, to@),
        decreases s.len() - i,
    {
        let ghost prev = s@.take(i as int);
        let ghost next = s@.take(i + 1);
        assert(next.drop_last() =~= prev);
        assert(next.last() == s@[i as int]);
        if s[i] == from {
            push_all(out, to);
        } else {
            out.push(s[i]);
        }
        assert(out@ =~= base + replace_with(next, from, to@));
        i = i + 1;
    }
    assert(s@.take(s.len() as int) =~= s@);
}

/// `str::ends_with` for a pattern text.
pub fn chars_ends_with(s: &[char], p: &[char]) -> (r: bool)
    ensures
        r == ends_with(s@, p@),
{
    if p.len() > s.len() {
        return false;
    }
    let m = chars_match_at(s, p, s.len() - p.len());
    proof {
        assert(s@.skip(s@.len() - p@.len()) =~= s@.subrange(s@.len() - p@.len(), s@.len() as int));
    }
    m
}

/// `str::trim_start_matches(c)` for one character, on a character slice.
pub fn strip_leading(s: &[char], c: char) -> (res: Vec<char>)
    ensures
        res@ == trim_start_char(s@, c),
{
    let mut start: usize = 0;
    assert(s@.skip(0) == s@);
    while start < s.len() && s[start] == c
        invariant
            start <= s.len(),
            trim_start_char(s@, c) == trim_start_char(s@.skip(start as int), c),
        decreases s.len() - start,
    {
        assert(s@.skip(start as int).drop_first() == s@.skip(start + 1));
        start = start + 1;
    }
    let mut out: Vec<char> = Vec::new();
    let mut i: usize = start;
    while i < s.len()
        invariant
            start <= i <= s.len(),
            out@ == s@.subrange(start as int, i as int),
        decreases s.len() - i,
    {
        out.push(s[i]);
        i = i + 1;
        assert(s@.subrange(start as int, i as int) == s@.subrange(start as int, i - 1).push(
            s@[i - 1],
        ));
    }
    assert(out@ == s@.skip(start as int));
    assert(trim_start_char(s@.skip(start as int), c) == s@.skip(start as int)) by {
        if start < s.len() {
            assert(s@.skip(start as int)[0] == s@[start as int]);
        }
    }
    out
}

/// Plain equality of character slices.
pub fn chars_eq(a: &[char], b: &[char]) -> (r: bool)
    ensures
        r == (a@ == b@),
{
    if a.len() != b.len() {
        return false;
    }
    let r = chars_match_at(a, b, 0);
    proof {
        assert(a@.subrange(0, b@.len() as int) =~= a@);
    }
    r
}

/// What `str::to_lowercase` returns: the full Unicode lowercase mapping of
/// a text (which, unlike ASCII lowering, can change its length).
pub uninterp spec fn unicode_lower(s: Seq<char>) -> Seq<char>;

/// `str::to_lowercase`. Its result is a function of the text alone, named
/// `unicode_lower`; nothing more is claimed of it.
#[verifier::external_body]
pub(crate) fn to_lowercase(s: &str) -> (r: String)
    ensures
        r@ == unicode_lower(s@),
{
    s.to_lowercase()
}

/// What `str::to_uppercase` returns: the full Unicode uppercase mapping
/// of a text (which can change its length).
pub uninterp spec fn unicode_upper(s: Seq<char>) -> Seq<char>;

/// `str::to_uppercase`. Its result is a function of the text alone, named
/// `unicode_upper`; nothing more is claimed of it.
#[verifier::external_body]
pub(crate) fn to_uppercase(s: &str) -> (r: String)
    ensures
        r@ == unicode_upper(s@),
{
    s.to_uppercase()
}

/// `str::eq_ignore_ascii_case`.
pub fn str_eq_ignore_case(a: &str, b: &str) -> (r: bool)
    ensures
        r == eq_ignore_case(a@, b@),
{
    let av = chars_of(a);
    let bv = chars_of(b);
    chars_eq_ignore_case(av.as_slice(), bv.as_slice())
}

pub fn lower_char(c: char) -> (r: char)
    ensures
        r == ascii_lower(c),
{
    if 'A' <= c && c <= 'Z' {
        let b: u8 = c as u8;
        assert(b as u32 == c as u32);
        let r = (b + 32) as char;
        r
    } else {
        c
    }
}

} // verus!
