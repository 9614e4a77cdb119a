//! Character-sequence utilities: conversions, searching, splitting,
//! escaping, decimal rendering and indentation.
use vstd::prelude::*;

verus! {

/// Relies on `String::from_iter` (via `Iterator::collect`): the collected
/// string holds exactly the characters of `v`, in order.
#[verifier::external_body]
pub fn chars_to_string(v: &Vec<char>) -> (r: String)
    ensures
        r@ == v@,
{
    v.iter().collect()
}

/// The characters of a string, in order.
pub fn to_char_vec(s: &str) -> (r: Vec<char>)
    ensures
        r@ == s@,
{
    let n = s.unicode_len();
    let mut r: Vec<char> = Vec::new();
    let mut i: usize = 0;
    while i < n
        invariant
            0 <= i <= n,
            n == s@.len(),
            r@ == s@.take(i as int),
        decreases n - i,
    {
        let c = s.get_char(i);
        r.push(c);
        proof {
            assert(r@ =~= s@.take(i + 1));
        }
        i += 1;
    }
    proof {
        assert(r@ =~= s@);
    }
    r
}

/// Append `text[from..to]` to `out`.
pub fn push_range(out: &mut Vec<char>, text: &Vec<char>, from: usize, to: usize)
    requires
        from <= to <= text@.len(),
    ensures
        final(out)@ == old(out)@ + text@.subrange(from as int, to as int),
{
    let mut i: usize = from;
    while i < to
        invariant
            from <= i <= to <= text@.len(),
            out@ == old(out)@ + text@.subrange(from as int, i as int),
        decreases to - i,
    {
        out.push(text[i]);
        proof {
            assert(old(out)@ + text@.subrange(from as int, i + 1) =~= (old(out)@
                + text@.subrange(from as int, i as int)).push(text@[i as int]));
        }
        i += 1;
    }
}

/// The first position of `c` in `s`, or -1 when absent.
pub open spec fn find_char(s: Seq<char>, c: char) -> int
    decreases s.len(),
{
    if s.len() == 0 {
        -1
    } else if s[0] == c {
        0
    } else {
        let r = find_char(s.drop_first(), c);
        if r == -1 {
            -1
        } else {
            r + 1
        }
    }
}

/// Where `find_char` points and what that means.
pub proof fn lemma_find_char(s: Seq<char>, c: char)
    ensures
        find_char(s, c) == -1 ==> forall|j: int| 0 <= j < s.len() ==> s[j] != c,
        find_char(s, c) != -1 ==> 0 <= find_char(s, c) < s.len() && s[find_char(s, c)] == c
            && forall|j: int| 0 <= j < find_char(s, c) ==> s[j] != c,
    decreases s.len(),
{
    if s.len() > 0 && s[0] != c {
        lemma_find_char(s.drop_first(), c);
        let t = s.drop_first();
        assert(forall|j: int| 1 <= j < s.len() ==> s[j] == t[j - 1]);
        let ft = find_char(t, c);
        if ft == -1 {
            assert forall|j: int| 0 <= j < s.len() implies s[j] != c by {
                if j >= 1 {
                    assert(t[j - 1] != c);
                }
            }
        } else {
            assert(s[ft + 1] == t[ft] && t[ft] == c);
            assert forall|j: int| 0 <= j < ft + 1 implies s[j] != c by {
                if j >= 1 {
                    assert(t[j - 1] != c);
                }
            }
        }
    }
}

/// The segments of `s` between occurrences of `c`.
pub open spec fn split_on(s: Seq<char>, c: char) -> Seq<Seq<char>>
    decreases s.len(),
    via split_on_decreases
{
    let i = find_char(s, c);
    if i == -1 {
        seq![s]
    } else {
        seq![s.subrange(0, i)] + split_on(s.subrange(i + 1, s.len() as int), c)
    }
}

#[via_fn]
proof fn split_on_decreases(s: Seq<char>, c: char) {
    lemma_find_char(s, c);
}

/// Splitting never yields an empty segment list.
pub proof fn lemma_split_on_len(s: Seq<char>, c: char)
    ensures
        split_on(s, c).len() >= 1,
    decreases s.len(),
{
    lemma_find_char(s, c);
    let i = find_char(s, c);
    if i != -1 {
        lemma_split_on_len(s.subrange(i + 1, s.len() as int), c);
    }
}

/// Split `text[from..to]` on `sep`.
#[verifier::loop_isolation(false)]
pub fn split_range(text: &Vec<char>, from: usize, to: usize, sep: char) -> (r: Vec<Vec<char>>)
    requires
        from <= to <= text@.len(),
    ensures
        r@.len() == split_on(text@.subrange(from as int, to as int), sep).len(),
        forall|i: int|
            0 <= i < r@.len() ==> r@[i]@ == split_on(text@.subrange(from as int, to as int), sep)[i],
{
    let ghost whole = text@.subrange(from as int, to as int);
    let ghost target = split_on(whole, sep);
    let mut parts: Vec<Vec<char>> = Vec::new();
    let mut seg: Vec<char> = Vec::new();
    let mut start: usize = from;
    let mut i: usize = from;
    while i < to
        invariant
            from <= start <= i <= to,
            seg@ == text@.subrange(start as int, i as int),
            forall|j: int| start <= j < i ==> text@[j] != sep,
            target == parts@.map_values(|p: Vec<char>| p@) + split_on(
                text@.subrange(start as int, to as int),
                sep,
            ),
        decreases to - i,
    {
        if text[i] == sep {
            proof {
                let rest = text@.subrange(start as int, to as int);
                lemma_find_char(rest, sep);
                assert forall|j: int| 0 <= j < i - start implies rest[j] != sep by {
                    assert(rest[j] == text@[start + j]);
                }
                assert(rest[i - start] == sep);
                if find_char(rest, sep) == -1 {
                    assert(rest[i - start] != sep);
                }
                assert(find_char(rest, sep) == i - start) by {
                    let f = find_char(rest, sep);
                    if f < i - start {
                        assert(rest[f] == sep);
                    }
                    if f > i - start {
                        assert(rest[i - start] != sep);
                    }
                }
                assert(rest.subrange(0, i - start) =~= text@.subrange(start as int, i as int));
                assert(rest.subrange(i - start + 1, rest.len() as int) =~= text@.subrange(
                    i + 1,
                    to as int,
                ));
                assert(parts@.map_values(|p: Vec<char>| p@).push(seg@) =~= (parts@.push(
                    seg,
                )).map_values(|p: Vec<char>| p@));
                assert(target == parts@.map_values(|p: Vec<char>| p@) + (seq![seg@] + split_on(
                    text@.subrange(i + 1, to as int),
                    sep,
                )));
                assert(parts@.map_values(|p: Vec<char>| p@) + (seq![seg@] + split_on(
                    text@.subrange(i + 1, to as int),
                    sep,
                )) =~= (parts@.push(seg)).map_values(|p: Vec<char>| p@) + split_on(
                    text@.subrange(i + 1, to as int),
                    sep,
                ));
            }
            parts.push(seg);
            seg = Vec::new();
            start = i + 1;
            proof {
                assert(seg@ =~= text@.subrange(start as int, start as int));
            }
        } else {
            seg.push(text[i]);
            proof {
                assert(seg@ =~= text@.subrange(start as int, i + 1));
            }
        }
        i += 1;
    }
    proof {
        let rest = text@.subrange(start as int, to as int);
        lemma_find_char(rest, sep);
        assert forall|j: int| 0 <= j < rest.len() implies rest[j] != sep by {
            assert(rest[j] == text@[start + j]);
        }
        if find_char(rest, sep) != -1 {
            assert(rest[find_char(rest, sep)] == sep);
        }
        assert(split_on(rest, sep) == seq![rest]);
        assert(seg@ == rest);
        assert(target =~= parts@.map_values(|p: Vec<char>| p@).push(seg@));
        assert(parts@.map_values(|p: Vec<char>| p@).push(seg@) =~= (parts@.push(seg)).map_values(
            |p: Vec<char>| p@,
        ));
    }
    parts.push(seg);
    proof {
        assert forall|i2: int| 0 <= i2 < parts@.len() implies parts@[i2]@ == target[i2] by {
            assert(parts@.map_values(|p: Vec<char>| p@)[i2] == parts@[i2]@);
        }
    }
    parts
}

/// Whether `s` begins with `p`.
pub open spec fn starts_with_seq(s: Seq<char>, p: Seq<char>) -> bool {
    s.len() >= p.len() && s.subrange(0, p.len() as int) == p
}

/// Whether the characters of `v` spell exactly `lit`.
pub fn chars_eq_str(v: &Vec<char>, lit: &str) -> (r: bool)
    ensures
        r == (v@ == lit@),
{
    let n = lit.unicode_len();
    if v.len() != n {
        return false;
    }
    let mut i: usize = 0;
    while i < n
        invariant
            0 <= i <= n,
            n == lit@.len(),
            v@.len() == n,
            forall|j: int| 0 <= j < i ==> v@[j] == lit@[j],
        decreases n - i,
    {
        if v[i] != lit.get_char(i) {
            return false;
        }
        i += 1;
    }
    proof {
        assert(v@ =~= lit@);
    }
    true
}

/// Whether `text[from..to]` spells exactly `lit`.
pub fn range_eq_str(text: &Vec<char>, from: usize, to: usize, lit: &str) -> (r: bool)
    requires
        from <= to <= text@.len(),
    ensures
        r == (text@.subrange(from as int, to as int) == lit@),
{
    let ghost s = text@.subrange(from as int, to as int);
    let n = lit.unicode_len();
    if to - from != n {
        proof {
            assert(s.len() != lit@.len());
        }
        return false;
    }
    let mut i: usize = 0;
    while i < n
        invariant
            0 <= i <= n,
            n == lit@.len(),
            from + n == to,
            to <= text@.len(),
            s == text@.subrange(from as int, to as int),
            forall|j: int| 0 <= j < i ==> s[j] == lit@[j],
        decreases n - i,
    {
        if text[from + i] != lit.get_char(i) {
            proof {
                assert(s[i as int] != lit@[i as int]);
            }
            return false;
        }
        i += 1;
    }
    proof {
        assert(s =~= lit@);
    }
    true
}

/// Whether `text[from..to]` begins with `lit`.
pub fn range_starts_with_str(text: &Vec<char>, from: usize, to: usize, lit: &str) -> (r: bool)
    requires
        from <= to <= text@.len(),
    ensures
        r == starts_with_seq(text@.subrange(from as int, to as int), lit@),
{
    let ghost s = text@.subrange(from as int, to as int);
    let n = lit.unicode_len();
    if to - from < n {
        return false;
    }
    let mut i: usize = 0;
    while i < n
        invariant
            0 <= i <= n,
            n == lit@.len(),
            from + n <= to <= text@.len(),
            s == text@.subrange(from as int, to as int),
            forall|j: int| 0 <= j < i ==> s[j] == lit@[j],
        decreases n - i,
    {
        if text[from + i] != lit.get_char(i) {
            proof {
                assert(s[i as int] != lit@[i as int]);
                assert(!starts_with_seq(s, lit@)) by {
                    if starts_with_seq(s, lit@) {
                        assert(s.subrange(0, n as int)[i as int] == s[i as int]);
                    }
                }
            }
            return false;
        }
        i += 1;
    }
    proof {
        assert(s.subrange(0, n as int) =~= lit@);
    }
    true
}

/// The HTML escape of one character.
pub open spec fn esc(c: char) -> Seq<char> {
    if c == '<' {
        seq!['&', 'l', 't', ';']
    } else if c == '>' {
        seq!['&', 'g', 't', ';']
    } else {
        seq![c]
    }
}

/// `s` with every `<` and `>` replaced by its HTML escape.
pub open spec fn sanitize_seq(s: Seq<char>) -> Seq<char>
    decreases s.len(),
{
    if s.len() == 0 {
        Seq::empty()
    } else {
        sanitize_seq(s.drop_last()) + esc(s.last())
    }
}

/// Escape `<` and `>` in a character sequence.
#[verifier::loop_isolation(false)]
pub fn sanitize_chars(v: &Vec<char>) -> (r: Vec<char>)
    ensures
        r@ == sanitize_seq(v@),
{
    let mut out: Vec<char> = Vec::new();
    let mut i: usize = 0;
    while i < v.len()
        invariant
            0 <= i <= v@.len(),
            out@ == sanitize_seq(v@.take(i as int)),
        decreases v@.len() - i,
    {
        let c = v[i];
        if c == '<' {
            out.push('&');
            out.push('l');
            out.push('t');
            out.push(';');
        } else if c == '>' {
            out.push('&');
            out.push('g');
            out.push('t');
            out.push(';');
        } else {
            out.push(c);
        }
        proof {
            let pre = v@.take(i as int);
            let cur = v@.take(i + 1);
            assert(cur.drop_last() =~= pre);
            assert(cur.last() == v@[i as int]);
            assert(out@ =~= sanitize_seq(pre) + esc(v@[i as int]));
        }
        i += 1;
    }
    proof {
        assert(v@.take(v@.len() as int) =~= v@);
    }
    out
}

/// The decimal digit character for `d` (0 through 9).
pub open spec fn dec_digit(d: int) -> char {
    ((48 + d) as u8) as char
}

/// The decimal numeral of `n`, most significant digit first.
pub open spec fn dec_seq(n: int) -> Seq<char>
    decreases n,
{
    if n < 10 {
        seq![dec_digit(n)]
    } else {
        dec_seq(n / 10).push(dec_digit(n % 10))
    }
}

/// The decimal numeral of a 32-bit unsigned integer.
pub fn u32_chars(n: u32) -> (r: Vec<char>)
    ensures
        r@ == dec_seq(n as int),
    decreases n,
{
    if n < 10 {
        let mut r: Vec<char> = Vec::new();
        r.push((48u8 + (n as u8)) as char);
        proof {
            assert(r@ =~= seq![dec_digit(n as int)]);
        }
        r
    } else {
        let mut r = u32_chars(n / 10);
        r.push((48u8 + ((n % 10) as u8)) as char);
        r
    }
}

/// The last position of `c` in `s`, or -1 when absent.
pub open spec fn rfind_char(s: Seq<char>, c: char) -> int
    decreases s.len(),
{
    if s.len() == 0 {
        -1
    } else if s.last() == c {
        s.len() - 1
    } else {
        rfind_char(s.drop_last(), c)
    }
}

/// Where `rfind_char` points and what that means.
pub proof fn lemma_rfind_char(s: Seq<char>, c: char)
    ensures
        rfind_char(s, c) == -1 ==> forall|j: int| 0 <= j < s.len() ==> s[j] != c,
        rfind_char(s, c) != -1 ==> 0 <= rfind_char(s, c) < s.len() && s[rfind_char(s, c)] == c
            && forall|j: int| rfind_char(s, c) < j < s.len() ==> s[j] != c,
    decreases s.len(),
{
    if s.len() > 0 && s.last() != c {
        lemma_rfind_char(s.drop_last(), c);
        let t = s.drop_last();
        assert(forall|j: int| 0 <= j < s.len() - 1 ==> s[j] == t[j]);
        assert(s[s.len() - 1] != c);
    }
}

/// The text after the final newline of `s` (all of `s` when none).
pub open spec fn last_line(s: Seq<char>) -> Seq<char> {
    s.subrange(rfind_char(s, '\n') + 1, s.len() as int)
}

/// The count of leading spaces of `s`.
pub open spec fn leading_spaces(s: Seq<char>) -> int
    decreases s.len(),
{
    if s.len() == 0 {
        0
    } else if s[0] != ' ' {
        0
    } else {
        1 + leading_spaces(s.drop_first())
    }
}

proof fn lemma_leading_spaces(s: Seq<char>, k: int)
    requires
        0 <= k <= s.len(),
        forall|j: int| 0 <= j < k ==> s[j] == ' ',
        k == s.len() || s[k] != ' ',
    ensures
        leading_spaces(s) == k,
    decreases k,
{
    if k > 0 {
        lemma_leading_spaces(s.drop_first(), k - 1);
    }
}

/// `n` spaces (none when `n` is negative).
pub open spec fn spaces(n: int) -> Seq<char> {
    Seq::new(
        if n < 0 {
            0
        } else {
            n as nat
        },
        |i: int| ' ',
    )
}

/// The lines joined by newlines, every line but the first indented by `n`
/// spaces.
pub open spec fn indent_join(parts: Seq<Seq<char>>, n: int) -> Seq<char>
    decreases parts.len(),
{
    if parts.len() == 0 {
        Seq::empty()
    } else if parts.len() == 1 {
        parts[0]
    } else {
        indent_join(parts.drop_last(), n) + seq!['\n'] + spaces(n) + parts.last()
    }
}

/// The indentation of the line still open at the end of `out`: the count of
/// leading spaces of the text after the final newline.
pub open spec fn open_indent(out: Seq<char>) -> int {
    leading_spaces(last_line(out))
}

/// Count the indentation of the line still open at the end of `out`.
#[verifier::loop_isolation(false)]
pub fn measure_open_indent(out: &Vec<char>) -> (r: usize)
    ensures
        r == open_indent(out@),
{
    // find the start of the last line
    let mut start: usize = out.len();
    loop
        invariant
            0 <= start <= out@.len(),
            forall|j: int| start <= j < out@.len() ==> out@[j] != '\n',
        decreases start,
    {
        if start == 0 {
            break ;
        }
        if out[start - 1] == '\n' {
            break ;
        }
        start -= 1;
    }
    proof {
        lemma_rfind_char(out@, '\n');
        let rf = rfind_char(out@, '\n');
        if start == 0 {
            if rf != -1 {
                assert(out@[rf] == '\n');
            }
            assert(rf == -1);
        } else {
            assert(out@[start - 1] == '\n');
            if rf == -1 {
                assert(out@[start - 1] != '\n');
            }
            assert(rf == start - 1) by {
                if rf < start - 1 {
                    assert(out@[start - 1] != '\n');
                }
                if rf > start - 1 {
                    assert(out@[rf] != '\n');
                }
            }
        }
        assert(last_line(out@) == out@.subrange(start as int, out@.len() as int));
    }
    // count its leading spaces
    let ghost ll = last_line(out@);
    let mut k: usize = start;
    while k < out.len() && out[k] == ' '
        invariant
            start <= k <= out@.len(),
            ll == out@.subrange(start as int, out@.len() as int),
            forall|j: int| start <= j < k ==> out@[j] == ' ',
        decreases out@.len() - k,
    {
        k += 1;
    }
    proof {
        assert forall|j: int| 0 <= j < k - start implies ll[j] == ' ' by {
            assert(ll[j] == out@[start + j]);
        }
        if k < out.len() {
            assert(ll[k - start] == out@[k as int]);
        }
        lemma_leading_spaces(ll, k - start as int);
    }
    k - start
}

/// `txt` with every line after its first indented by `ind` spaces, the
/// lines joined by newlines.
#[verifier::loop_isolation(false)]
pub fn join_indented(txt: &Vec<char>, ind: usize) -> (r: Vec<char>)
    ensures
        r@ == indent_join(split_on(txt@, '\n'), ind as int),
{
    let mut out: Vec<char> = Vec::new();
    let lines = split_range(txt, 0, txt.len(), '\n');
    proof {
        assert(txt@.subrange(0, txt@.len() as int) =~= txt@);
        lemma_split_on_len(txt@, '\n');
    }
    let ghost gl = split_on(txt@, '\n');
    let mut li: usize = 0;
    while li < lines.len()
        invariant
            0 <= li <= lines@.len(),
            lines@.len() == gl.len(),
            forall|i: int| 0 <= i < gl.len() ==> lines@[i]@ == gl[i],
            gl.len() >= 1,
            li == 0 ==> out@ == Seq::<char>::empty(),
            li > 0 ==> out@ == indent_join(gl.take(li as int), ind as int),
        decreases lines@.len() - li,
    {
        if li > 0 {
            out.push('\n');
            let mut sp: usize = 0;
            while sp < ind
                invariant
                    0 <= sp <= ind,
                    li > 0,
                    li <= lines@.len(),
                    lines@.len() == gl.len(),
                    out@ == indent_join(gl.take(li as int), ind as int) + seq!['\n'] + spaces(
                        sp as int,
                    ),
                decreases ind - sp,
            {
                out.push(' ');
                proof {
                    assert(spaces(sp + 1) =~= spaces(sp as int).push(' '));
                }
                sp += 1;
            }
        }
        let line = &lines[li];
        let mut ci: usize = 0;
        let ghost mid = out@;
        while ci < line.len()
            invariant
                0 <= ci <= line@.len(),
                out@ == mid + line@.take(ci as int),
            decreases line@.len() - ci,
        {
            out.push(line[ci]);
            proof {
                assert(mid + line@.take(ci + 1) =~= (mid + line@.take(ci as int)).push(
                    line@[ci as int],
                ));
            }
            ci += 1;
        }
        proof {
            assert(line@.take(line@.len() as int) =~= line@);
            let tk = gl.take(li + 1);
            assert(tk.drop_last() =~= gl.take(li as int));
            assert(tk.last() == gl[li as int]);
            if li == 0 {
                assert(out@ =~= indent_join(tk, ind as int));
            } else {
                assert(tk.len() >= 2);
                assert(indent_join(tk, ind as int) == indent_join(gl.take(li as int), ind as int)
                    + seq!['\n'] + spaces(ind as int) + gl[li as int]);
                assert(out@ =~= indent_join(tk, ind as int));
            }
        }
        li += 1;
    }
    proof {
        assert(gl.take(gl.len() as int) =~= gl);
    }
    out
}

} // verus!
