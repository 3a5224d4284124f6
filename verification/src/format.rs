use vstd::prelude::*;

use crate::text::chars_of;
use crate::text::clone_string;
use crate::text::starts_with;
use crate::text::string_from_chars;

verus! {

broadcast use vstd::seq_lib::group_seq_properties;

/// Whether a character is blank space.
pub open spec fn is_ws(c: char) -> bool {
    c == ' ' || c == '\n' || c == '\t' || c == '\r'
}

/// The visible characters of a text: everything that is not blank space.
/// Two texts with the same visible characters are whitespace-equivalent.
pub open spec fn visible(s: Seq<char>) -> Seq<char> {
    s.filter(|c: char| !is_ws(c))
}

/// How many times `c` occurs in `s`.
pub open spec fn count_of(s: Seq<char>, c: char) -> nat {
    s.filter(|x: char| x == c).len()
}

/// `k` closing braces, each on a line of its own.
pub open spec fn brace_fill(k: nat) -> Seq<char>
    decreases k,
{
    if k == 0 {
        Seq::empty()
    } else {
        brace_fill((k - 1) as nat) + "\n}"@
    }
}

/// What the completion step yields: the text as given, or with enough
/// closing braces appended to balance the opening ones.
pub open spec fn completed(s: Seq<char>) -> Seq<char> {
    if count_of(s, '{') > count_of(s, '}') {
        s + brace_fill((count_of(s, '{') - count_of(s, '}')) as nat)
    } else {
        s
    }
}

/// The lines joined back with one newline between each pair.
pub open spec fn join_lines(ls: Seq<Seq<char>>) -> Seq<char>
    decreases ls.len(),
{
    if ls.len() == 0 {
        Seq::empty()
    } else if ls.len() == 1 {
        ls[0]
    } else {
        join_lines(ls.drop_last()) + seq!['\n'] + ls.last()
    }
}

/// The visible characters of the first `i` lines, in order.
pub open spec fn vis_cat(ls: Seq<Seq<char>>, i: int) -> Seq<char>
    decreases i,
{
    if i <= 0 {
        Seq::empty()
    } else {
        vis_cat(ls, i - 1) + visible(ls[i - 1])
    }
}

/// The text with its leading blank space removed.
pub open spec fn drop_leading_ws(s: Seq<char>) -> Seq<char>
    decreases s.len(),
{
    if s.len() > 0 && is_ws(s[0]) {
        drop_leading_ws(s.drop_first())
    } else {
        s
    }
}

/// The text with its trailing blank space removed.
pub open spec fn drop_trailing_ws(s: Seq<char>) -> Seq<char>
    decreases s.len(),
{
    if s.len() > 0 && is_ws(s.last()) {
        drop_trailing_ws(s.drop_last())
    } else {
        s
    }
}

/// The text with the blank space at both ends removed.
pub open spec fn trimmed(s: Seq<char>) -> Seq<char> {
    drop_trailing_ws(drop_leading_ws(s))
}

/// Dropping a known run of leading blank space is skipping it.
proof fn lemma_drop_leading(s: Seq<char>, a: int)
    requires
        0 <= a <= s.len(),
        forall|j: int| 0 <= j < a ==> is_ws(#[trigger] s[j]),
        a == s.len() || !is_ws(s[a]),
    ensures
        drop_leading_ws(s) == s.skip(a),
    decreases a,
{
    if a == 0 {
        assert(s.skip(0) =~= s);
    } else {
        assert(is_ws(s[0]));
        assert(forall|j: int| 0 <= j < a - 1 ==> is_ws(#[trigger] s.drop_first()[j]));
        lemma_drop_leading(s.drop_first(), a - 1);
        assert(s.drop_first().skip(a - 1) =~= s.skip(a));
    }
}

/// Dropping a known run of trailing blank space is cutting it off.
proof fn lemma_drop_trailing(s: Seq<char>, b: int)
    requires
        0 <= b <= s.len(),
        forall|j: int| b <= j < s.len() ==> is_ws(#[trigger] s[j]),
        b == 0 || !is_ws(s[b - 1]),
    ensures
        drop_trailing_ws(s) == s.take(b),
    decreases s.len() - b,
{
    if b == s.len() {
        assert(s.take(b) =~= s);
    } else {
        assert(is_ws(s.last()));
        assert(forall|j: int| b <= j < s.drop_last().len() ==> is_ws(#[trigger] s.drop_last()[j]));
        lemma_drop_trailing(s.drop_last(), b);
        assert(s.drop_last().take(b) =~= s.take(b));
    }
}

/// A text of blank space alone has no visible characters.
proof fn lemma_blank_invisible(s: Seq<char>)
    requires
        forall|i: int| 0 <= i < s.len() ==> is_ws(#[trigger] s[i]),
    ensures
        visible(s) == Seq::<char>::empty(),
    decreases s.len(),
{
    reveal_with_fuel(Seq::filter, 2);
    if s.len() > 0 {
        assert(forall|i: int| 0 <= i < s.drop_last().len() ==> is_ws(#[trigger] s.drop_last()[i]));
        lemma_blank_invisible(s.drop_last());
        assert(is_ws(s.last()));
    }
}

/// A text with no visible characters is the empty visible text.
proof fn lemma_no_visible(s: Seq<char>)
    requires
        visible(s).len() == 0,
    ensures
        visible(s) == Seq::<char>::empty(),
{
    assert(visible(s) =~= Seq::<char>::empty());
}

/// Joining the lines and taking the visible characters is the same as
/// chaining each line's visible characters.
proof fn lemma_visible_join(ls: Seq<Seq<char>>)
    ensures
        visible(join_lines(ls)) == vis_cat(ls, ls.len() as int),
    decreases ls.len(),
{
    if ls.len() == 0 {
        reveal_with_fuel(Seq::filter, 1);
    } else if ls.len() == 1 {
        reveal_with_fuel(vis_cat, 3);
        assert(vis_cat(ls, 1) =~= Seq::<char>::empty() + visible(ls[0]));
        assert(vis_cat(ls, 1) =~= visible(ls[0]));
    } else {
        lemma_visible_join(ls.drop_last());
        Seq::filter_distributes_over_add(
            join_lines(ls.drop_last()) + seq!['\n'],
            ls.last(),
            |c: char| !is_ws(c),
        );
        Seq::filter_distributes_over_add(join_lines(ls.drop_last()), seq!['\n'], |c: char| !is_ws(c));
        lemma_blank_invisible(seq!['\n']);
        lemma_vis_cat_drop(ls);
        assert(visible(join_lines(ls)) =~= vis_cat(ls, ls.len() as int));
    }
}

/// Dropping the last line drops only its own visible characters.
proof fn lemma_vis_cat_drop(ls: Seq<Seq<char>>)
    requires
        ls.len() >= 1,
    ensures
        vis_cat(ls, ls.len() as int) == vis_cat(ls.drop_last(), ls.len() - 1) + visible(ls.last()),
    decreases ls.len(),
{
    lemma_vis_cat_eq(ls.drop_last(), ls, ls.len() - 1);
}

/// Two line lists that agree on a prefix chain the same visible text.
proof fn lemma_vis_cat_eq(a: Seq<Seq<char>>, b: Seq<Seq<char>>, i: int)
    requires
        0 <= i <= a.len(),
        i <= b.len(),
        forall|j: int| 0 <= j < i ==> a[j] == b[j],
    ensures
        vis_cat(a, i) == vis_cat(b, i),
    decreases i,
{
    if i > 0 {
        lemma_vis_cat_eq(a, b, i - 1);
    }
}

/// How many times the character occurs.
fn count_char(v: &Vec<char>, c: char) -> (r: usize)
    ensures
        r == count_of(v@, c),
{
    let mut i: usize = 0;
    let mut r: usize = 0;
    let n = v.len();
    while i < n
        invariant
            n == v@.len(),
            i <= n,
            r == count_of(v@.take(i as int), c),
            r <= i,
        decreases n - i,
    {
        proof {
            reveal_with_fuel(Seq::filter, 2);
            assert(v@.take(i + 1).drop_last() =~= v@.take(i as int));
            assert(v@.take(i + 1).last() == v@[i as int]);
        }
        if v[i] == c {
            r += 1;
        }
        i += 1;
    }
    proof {
        assert(v@.take(n as int) =~= v@);
    }
    r
}

/// Whether the text holds no visible character.
fn is_blank(v: &Vec<char>) -> (r: bool)
    ensures
        r == (visible(v@).len() == 0),
{
    let mut i: usize = 0;
    let n = v.len();
    while i < n
        invariant
            n == v@.len(),
            i <= n,
            forall|j: int| 0 <= j < i ==> is_ws(#[trigger] v@[j]),
        decreases n - i,
    {
        let c = v[i];
        if !(c == ' ' || c == '\n' || c == '\t' || c == '\r') {
            proof {
                Seq::lemma_filter_contains(v@, |x: char| !is_ws(x), i as int);
            }
            return false;
        }
        i += 1;
    }
    proof {
        lemma_blank_invisible(v@);
    }
    true
}

/// The position of the first visible character, or the length.
fn first_visible(v: &Vec<char>) -> (a: usize)
    ensures
        a <= v@.len(),
        forall|j: int| 0 <= j < a ==> is_ws(#[trigger] v@[j]),
        a == v@.len() || !is_ws(v@[a as int]),
{
    let n = v.len();
    let mut a: usize = 0;
    while a < n
        invariant
            n == v@.len(),
            a <= n,
            forall|j: int| 0 <= j < a ==> is_ws(#[trigger] v@[j]),
        decreases n - a,
    {
        let c = v[a];
        if !(c == ' ' || c == '\n' || c == '\t' || c == '\r') {
            return a;
        }
        a += 1;
    }
    a
}

/// One past the last visible character at or after `a`, or `a` itself
/// when nothing visible follows.
fn last_visible_end(v: &Vec<char>, a: usize) -> (b: usize)
    requires
        a <= v@.len(),
    ensures
        a <= b <= v@.len(),
        forall|j: int| b <= j < v@.len() ==> is_ws(#[trigger] v@[j]),
        b == a || !is_ws(v@[b - 1]),
{
    let n = v.len();
    let mut b = n;
    while b > a
        invariant
            n == v@.len(),
            a <= b <= n,
            forall|j: int| b <= j < n ==> is_ws(#[trigger] v@[j]),
        decreases b,
    {
        let c = v[b - 1];
        if !(c == ' ' || c == '\n' || c == '\t' || c == '\r') {
            return b;
        }
        b -= 1;
    }
    b
}

/// The text with the blank space at both ends removed.
fn trim_chars(v: &Vec<char>) -> (r: Vec<char>)
    ensures
        r@ == trimmed(v@),
        visible(r@) == visible(v@),
        r@.len() <= v@.len(),
{
    let n = v.len();
    let a = first_visible(v);
    let b = last_visible_end(v, a);
    let mut out: Vec<char> = Vec::new();
    let mut i = a;
    while i < b
        invariant
            n == v@.len(),
            a <= i <= b <= n,
            out@ =~= v@.subrange(a as int, i as int),
        decreases b - i,
    {
        out.push(v[i]);
        i += 1;
    }
    proof {
        assert(out@ =~= v@.subrange(a as int, b as int));
        lemma_drop_leading(v@, a as int);
        assert(drop_leading_ws(v@) == v@.skip(a as int));
        assert(forall|j: int|
            b - a <= j < v@.skip(a as int).len() ==> is_ws(#[trigger] v@.skip(a as int)[j]));
        assert(b - a == 0 || !is_ws(v@.skip(a as int)[b - a - 1]));
        lemma_drop_trailing(v@.skip(a as int), b - a);
        assert(v@.skip(a as int).take(b - a) =~= v@.subrange(a as int, b as int));
        assert(forall|j: int| 0 <= j < a ==> is_ws(#[trigger] v@[j]));
        assert(forall|j: int| b <= j < n ==> is_ws(#[trigger] v@[j]));
        assert(v@ =~= v@.take(a as int) + v@.subrange(a as int, b as int) + v@.subrange(
            b as int,
            n as int,
        ));
        Seq::filter_distributes_over_add(
            v@.take(a as int) + v@.subrange(a as int, b as int),
            v@.subrange(b as int, n as int),
            |c: char| !is_ws(c),
        );
        Seq::filter_distributes_over_add(
            v@.take(a as int),
            v@.subrange(a as int, b as int),
            |c: char| !is_ws(c),
        );
        lemma_blank_invisible(v@.take(a as int));
        lemma_blank_invisible(v@.subrange(b as int, n as int));
        assert(visible(out@) =~= visible(v@));
    }
    out
}

/// Whether the text begins with the given characters.
fn chars_start_with(v: &Vec<char>, p: &Vec<char>) -> (r: bool)
    ensures
        r == (p@.len() <= v@.len() && v@.subrange(0, p@.len() as int) == p@),
{
    if p.len() > v.len() {
        return false;
    }
    let mut i: usize = 0;
    let n = p.len();
    while i < n
        invariant
            n == p@.len() <= v@.len(),
            i <= n,
            forall|j: int| 0 <= j < i ==> v@[j] == p@[j],
        decreases n - i,
    {
        if v[i] != p[i] {
            proof {
                assert(v@.subrange(0, p@.len() as int)[i as int] != p@[i as int]);
            }
            return false;
        }
        i += 1;
    }
    proof {
        assert(v@.subrange(0, p@.len() as int) =~= p@);
    }
    true
}

/// Appends the characters of `add` to `out`.
fn push_all(out: &mut Vec<char>, add: &Vec<char>)
    ensures
        final(out)@ == old(out)@ + add@,
{
    let mut i: usize = 0;
    let n = add.len();
    while i < n
        invariant
            n == add@.len(),
            i <= n,
            out@ =~= old(out)@ + add@.take(i as int),
        decreases n - i,
    {
        out.push(add[i]);
        i += 1;
    }
    proof {
        assert(old(out)@ + add@.take(n as int) =~= old(out)@ + add@);
    }
}

/// Appends blank space without changing the visible text: four spaces for
/// each indent level.
fn push_indent(out: &mut Vec<char>, level: usize)
    ensures
        final(out)@ == old(out)@ + indent_ws(level as nat),
        visible(final(out)@) == visible(old(out)@),
        final(out)@.len() >= old(out)@.len(),
    decreases level,
{
    let mut i: usize = 0;
    while i < level
        invariant
            i <= level,
            out@ == old(out)@ + indent_ws(i as nat),
            visible(out@) == visible(old(out)@),
            out@.len() >= old(out)@.len(),
        decreases level - i,
    {
        let ghost before = out@;
        out.push(' ');
        out.push(' ');
        out.push(' ');
        out.push(' ');
        proof {
            assert(out@ =~= before + seq![' ', ' ', ' ', ' ']);
            assert(out@ =~= old(out)@ + (indent_ws(i as nat) + seq![' ', ' ', ' ', ' ']));
            Seq::filter_distributes_over_add(before, seq![' ', ' ', ' ', ' '], |c: char| !is_ws(c));
            lemma_blank_invisible(seq![' ', ' ', ' ', ' ']);
            assert(visible(out@) =~= visible(before));
        }
        i += 1;
    }
    proof {
        assert(out@ =~= old(out)@ + indent_ws(level as nat));
    }
}

/// Appends one character of blank space.
fn push_ws(out: &mut Vec<char>, c: char)
    requires
        is_ws(c),
    ensures
        final(out)@ == old(out)@ + seq![c],
        visible(final(out)@) == visible(old(out)@),
        final(out)@.len() == old(out)@.len() + 1,
{
    let ghost before = out@;
    out.push(c);
    proof {
        assert(out@ =~= before + seq![c]);
        Seq::filter_distributes_over_add(before, seq![c], |x: char| !is_ws(x));
        lemma_blank_invisible(seq![c]);
        assert(visible(out@) =~= visible(before));
    }
}

/// Appends text whose own visible characters join the output's.
fn push_visible(out: &mut Vec<char>, add: &Vec<char>)
    ensures
        final(out)@ == old(out)@ + add@,
        visible(final(out)@) == visible(old(out)@) + visible(add@),
{
    push_all(out, add);
    proof {
        Seq::filter_distributes_over_add(old(out)@, add@, |c: char| !is_ws(c));
    }
}

/// Closes an unbalanced fragment by appending the missing closing braces,
/// each on its own line; a balanced or over-closed text stays as it is.
pub fn ensure_complete_function(source: &String) -> (r: String)
    ensures
        r@ == completed(source@),
        count_of(source@, '{') <= count_of(source@, '}') ==> r@ == source@,
{
    let chars = chars_of(source.as_str());
    let opens = count_char(&chars, '{');
    let closes = count_char(&chars, '}');
    if opens <= closes {
        return clone_string(source);
    }
    let diff = opens - closes;
    let mut out = clone_string(source);
    let mut k: usize = 0;
    while k < diff
        invariant
            count_of(source@, '{') > count_of(source@, '}'),
            diff == count_of(source@, '{') - count_of(source@, '}'),
            k <= diff,
            out@ == source@ + brace_fill(k as nat),
        decreases diff - k,
    {
        out.append("\n}");
        proof {
            assert(source@ + brace_fill((k + 1) as nat) =~= (source@ + brace_fill(k as nat))
                + "\n}"@);
        }
        k += 1;
    }
    out
}

/// The lines of a text, accumulated character by character from `i` on:
/// a newline closes the open line, and the last open line closes at the
/// end.
pub open spec fn spec_split_rec(
    s: Seq<char>,
    i: int,
    cur: Seq<char>,
    acc: Seq<Seq<char>>,
) -> Seq<Seq<char>>
    decreases s.len() - i,
{
    if i < 0 || i >= s.len() {
        acc.push(cur)
    } else if s[i] == '\n' {
        spec_split_rec(s, i + 1, Seq::empty(), acc.push(cur))
    } else {
        spec_split_rec(s, i + 1, cur.push(s[i]), acc)
    }
}

/// The text split at every newline.
pub open spec fn spec_lines(s: Seq<char>) -> Seq<Seq<char>> {
    spec_split_rec(s, 0, Seq::empty(), Seq::empty())
}

/// Whether `h` ends with `n`.
pub open spec fn ends_with(n: Seq<char>, h: Seq<char>) -> bool {
    n.len() <= h.len() && h.subrange(h.len() - n.len(), h.len() as int) == n
}

/// Four spaces of indentation for each level.
pub open spec fn indent_ws(level: nat) -> Seq<char>
    decreases level,
{
    if level == 0 {
        Seq::empty()
    } else {
        indent_ws((level - 1) as nat) + seq![' ', ' ', ' ', ' ']
    }
}

/// The indent level after scanning one trimmed line from position `k`:
/// opening brackets outside string and character literals deepen it (a
/// brace straight after `|` counts as a closure body and does not), and
/// closing brackets past the first position shallow it.
pub open spec fn spec_scan_line(
    line: Seq<char>,
    k: int,
    slit: bool,
    clit: bool,
    indent: nat,
) -> nat
    decreases line.len() - k,
{
    if k < 0 || k >= line.len() {
        indent
    } else {
        let c = line[k];
        if c == '"' && (k == 0 || line[k - 1] != '\\') {
            spec_scan_line(line, k + 1, !slit, clit, indent)
        } else if c == '\'' && (k == 0 || line[k - 1] != '\\') {
            spec_scan_line(line, k + 1, slit, !clit, indent)
        } else if !slit && !clit && (c == '{' || c == '[' || c == '(') {
            if !(c == '{' && k > 0 && line[k - 1] == '|') && indent < usize::MAX {
                spec_scan_line(line, k + 1, slit, clit, indent + 1)
            } else {
                spec_scan_line(line, k + 1, slit, clit, indent)
            }
        } else if !slit && !clit && (c == '}' || c == ']' || c == ')') && k > 0 && indent > 0 {
            spec_scan_line(line, k + 1, slit, clit, (indent - 1) as nat)
        } else {
            spec_scan_line(line, k + 1, slit, clit, indent)
        }
    }
}

/// The re-indented text from line `i` on: comment lines pass through
/// unchanged, blank lines collapse to one newline once content has been
/// seen, and every other line is trimmed and indented by the running
/// bracket depth — except lines opening with an attribute marker, which
/// get no indentation.
pub open spec fn spec_reindent(
    lines: Seq<Seq<char>>,
    i: int,
    indent: nat,
    within: bool,
    had: bool,
) -> Seq<char>
    decreases lines.len() - i,
{
    if i < 0 || i >= lines.len() {
        Seq::empty()
    } else {
        let t = trimmed(lines[i]);
        if within || starts_with("/*"@, t) {
            lines[i] + seq!['\n'] + spec_reindent(
                lines,
                i + 1,
                indent,
                !ends_with("*/"@, t),
                had,
            )
        } else if visible(t).len() == 0 {
            (if had {
                seq!['\n']
            } else {
                Seq::empty()
            }) + spec_reindent(lines, i + 1, indent, false, had)
        } else {
            let lowered: nat = if (starts_with("}"@, t) || starts_with("]"@, t) || starts_with(
                ")"@,
                t,
            )) && indent > 0 {
                (indent - 1) as nat
            } else {
                indent
            };
            let prefix: Seq<char> = if starts_with("#"@, t) {
                Seq::empty()
            } else {
                indent_ws(lowered)
            };
            prefix + t + seq!['\n'] + spec_reindent(
                lines,
                i + 1,
                spec_scan_line(t, 0, false, false, lowered),
                false,
                true,
            )
        }
    }
}

/// The views of a list of lines, in order.
pub open spec fn lines_view(r: Seq<Vec<char>>) -> Seq<Seq<char>> {
    Seq::new(r.len(), |i: int| r[i]@)
}

/// The text split at every newline; joining the parts with newlines gives
/// the text back.
fn split_lines(v: &Vec<char>) -> (r: Vec<Vec<char>>)
    ensures
        lines_view(r@).len() >= 1,
        lines_view(r@).len() == count_of(v@, '\n') + 1,
        join_lines(lines_view(r@)) == v@,
        lines_view(r@) == spec_lines(v@),
{
    let mut out: Vec<Vec<char>> = Vec::new();
    let mut cur: Vec<char> = Vec::new();
    let mut i: usize = 0;
    let n = v.len();
    proof {
        assert(lines_view(out@).push(cur@) =~= seq![Seq::<char>::empty()]);
        assert(join_lines(lines_view(out@).push(cur@)) =~= v@.take(0));
        reveal_with_fuel(Seq::filter, 1);
        assert(count_of(v@.take(0), '\n') == 0);
    }
    while i < n
        invariant
            n == v@.len(),
            i <= n,
            join_lines(lines_view(out@).push(cur@)) == v@.take(i as int),
            out@.len() == count_of(v@.take(i as int), '\n'),
            spec_split_rec(v@, i as int, cur@, lines_view(out@)) == spec_lines(v@),
        decreases n - i,
    {
        let ghost lines0 = lines_view(out@);
        let ghost cur0 = cur@;
        let c = v[i];
        proof {
            reveal_with_fuel(Seq::filter, 2);
            assert(v@.take(i + 1).drop_last() =~= v@.take(i as int));
            assert(v@.take(i + 1).last() == v@[i as int]);
        }
        if c == '\n' {
            out.push(cur);
            cur = Vec::new();
            proof {
                assert(lines_view(out@) =~= lines0.push(cur0));
                let ls = lines_view(out@).push(cur@);
                assert(ls.drop_last() =~= lines0.push(cur0));
                assert(ls.last() =~= Seq::<char>::empty());
                assert(join_lines(ls) =~= join_lines(lines0.push(cur0)) + seq!['\n']
                    + Seq::<char>::empty());
                assert(join_lines(ls) =~= v@.take(i as int) + seq!['\n']);
                assert(v@.take(i + 1) =~= v@.take(i as int) + seq![v@[i as int]]);
            }
        } else {
            cur.push(c);
            proof {
                let ls0 = lines0.push(cur0);
                let ls1 = lines_view(out@).push(cur@);
                assert(lines_view(out@) =~= lines0);
                assert(cur@ =~= cur0.push(v@[i as int]));
                if lines0.len() == 0 {
                    assert(join_lines(ls1) =~= join_lines(ls0) + seq![v@[i as int]]);
                } else {
                    assert(ls1.drop_last() =~= lines0);
                    assert(ls0.drop_last() =~= lines0);
                    assert(join_lines(ls1) =~= join_lines(lines0) + seq!['\n'] + cur0.push(
                        v@[i as int],
                    ));
                    assert(join_lines(ls1) =~= (join_lines(lines0) + seq!['\n'] + cur0) + seq![
                        v@[i as int],
                    ]);
                    assert(join_lines(ls1) =~= join_lines(ls0) + seq![v@[i as int]]);
                }
                assert(v@.take(i + 1) =~= v@.take(i as int) + seq![v@[i as int]]);
            }
        }
        i += 1;
    }
    let ghost lines0 = lines_view(out@);
    let ghost cur0 = cur@;
    out.push(cur);
    proof {
        assert(lines_view(out@) =~= lines0.push(cur0));
        assert(v@.take(n as int) =~= v@);
        assert(spec_split_rec(v@, n as int, cur0, lines0) == lines0.push(cur0));
    }
    out
}

/// Whether the text ends with the given characters.
fn chars_end_with(v: &Vec<char>, p: &Vec<char>) -> (r: bool)
    ensures
        r == (p@.len() <= v@.len() && v@.subrange(
            v@.len() - p@.len(),
            v@.len() as int,
        ) == p@),
{
    if p.len() > v.len() {
        return false;
    }
    let off = v.len() - p.len();
    let vl = v.len();
    let mut i: usize = 0;
    let n = p.len();
    while i < n
        invariant
            n == p@.len() <= v@.len(),
            vl == v@.len(),
            off == v@.len() - p@.len(),
            i <= n,
            forall|j: int| 0 <= j < i ==> v@[off + j] == p@[j],
        decreases n - i,
    {
        if v[off + i] != p[i] {
            proof {
                assert(v@.subrange(v@.len() - p@.len(), v@.len() as int)[i as int] != p@[
                i as int]);
            }
            return false;
        }
        i += 1;
    }
    proof {
        assert(v@.subrange(v@.len() - p@.len(), v@.len() as int) =~= p@);
    }
    true
}

/// Blank space spelling one indent step for each level.
fn make_indent(level: usize) -> (r: Vec<char>)
    ensures
        r@ == indent_ws(level as nat),
        visible(r@).len() == 0,
{
    let mut out: Vec<char> = Vec::new();
    let mut i: usize = 0;
    while i < level
        invariant
            i <= level,
            out@ == indent_ws(i as nat),
            forall|j: int| 0 <= j < out@.len() ==> is_ws(#[trigger] out@[j]),
        decreases level - i,
    {
        let ghost before = out@;
        out.push(' ');
        out.push(' ');
        out.push(' ');
        out.push(' ');
        proof {
            assert(out@ =~= before + seq![' ', ' ', ' ', ' ']);
        }
        i += 1;
    }
    proof {
        lemma_blank_invisible(out@);
    }
    out
}

/// What breaking one long line yields from position `i` on, given the
/// running indent, the string-literal state and the open piece: a line
/// break lands after every opening brace, closing brace and semicolon
/// outside string literals, the next piece opens at the running indent,
/// and a blank trailing piece is dropped.
pub open spec fn spec_break_line(
    line: Seq<char>,
    i: int,
    indent: nat,
    in_string: bool,
    cur: Seq<char>,
) -> Seq<char>
    decreases line.len() - i,
{
    if i < 0 || i >= line.len() {
        if visible(cur).len() == 0 {
            Seq::empty()
        } else {
            cur
        }
    } else {
        let ch = line[i];
        let ins = if ch == '"' {
            !in_string
        } else {
            in_string
        };
        if !ins && ch == '{' {
            let deeper: nat = if indent < usize::MAX {
                indent + 1
            } else {
                indent
            };
            (cur.push(ch) + seq!['\n']) + spec_break_line(
                line,
                i + 1,
                deeper,
                ins,
                indent_ws(deeper),
            )
        } else if !ins && ch == '}' {
            let shallower: nat = if indent > 0 {
                (indent - 1) as nat
            } else {
                0
            };
            (if visible(cur).len() == 0 {
                Seq::empty()
            } else {
                cur + seq!['\n']
            }) + spec_break_line(line, i + 1, shallower, ins, indent_ws(shallower).push(ch))
        } else if !ins && ch == ';' {
            (cur.push(ch) + seq!['\n']) + spec_break_line(line, i + 1, indent, ins, Seq::empty())
        } else {
            spec_break_line(line, i + 1, indent, ins, cur.push(ch))
        }
    }
}

/// Breaks one long line after every opening brace, closing brace and
/// semicolon outside string literals, indenting the pieces; the visible
/// characters stay exactly as they were.
fn format_single_long_line(line: &Vec<char>) -> (r: Vec<char>)
    ensures
        r@ == spec_break_line(line@, 0, 0, false, Seq::empty()),
        visible(r@) == visible(line@),
{
    let mut result: Vec<char> = Vec::new();
    let mut current: Vec<char> = Vec::new();
    let mut indent: usize = 0;
    let mut in_string = false;
    let mut i: usize = 0;
    let n = line.len();
    proof {
        reveal_with_fuel(Seq::filter, 1);
    }
    while i < n
        invariant
            n == line@.len(),
            i <= n,
            visible(result@) + visible(current@) == visible(line@.take(i as int)),
            result@ + spec_break_line(line@, i as int, indent as nat, in_string, current@)
                == spec_break_line(line@, 0, 0, false, Seq::empty()),
        decreases n - i,
    {
        let ch = line[i];
        let ghost res0 = result@;
        let ghost cur0 = current@;
        let ghost i0 = i as int;
        let ghost ind0 = indent as nat;
        let ghost ins0 = in_string;
        proof {
            assert(line@.take(i + 1) =~= line@.take(i as int) + seq![ch]);
            Seq::filter_distributes_over_add(line@.take(i as int), seq![ch], |c: char| !is_ws(c));
        }
        if ch == '"' {
            in_string = !in_string;
        }
        if !in_string && ch == '{' {
            current.push(ch);
            proof {
                assert(current@ =~= cur0 + seq![ch]);
                Seq::filter_distributes_over_add(cur0, seq![ch], |c: char| !is_ws(c));
            }
            push_visible(&mut result, &current);
            push_ws(&mut result, '\n');
            if indent < usize::MAX {
                indent += 1;
            }
            current = make_indent(indent);
            proof {
                lemma_no_visible(current@);
                assert(visible(result@) + visible(current@) =~= visible(result@));
                assert(visible(result@) =~= (visible(res0) + visible(cur0)) + visible(seq![ch]));
                assert(spec_break_line(line@, i0, ind0, ins0, cur0) == (cur0.push(ch) + seq![
                    '\n',
                ]) + spec_break_line(line@, i0 + 1, indent as nat, in_string, current@));
                assert(result@ =~= res0 + (cur0.push(ch) + seq!['\n']));
                assert(result@ + spec_break_line(line@, i0 + 1, indent as nat, in_string, current@)
                    =~= res0 + spec_break_line(line@, i0, ind0, ins0, cur0));
            }
        } else if !in_string && ch == '}' {
            if indent > 0 {
                indent -= 1;
            }
            if !is_blank(&current) {
                push_visible(&mut result, &current);
                push_ws(&mut result, '\n');
                proof {
                    assert(result@ =~= res0 + (cur0 + seq!['\n']));
                }
            } else {
                proof {
                    lemma_no_visible(cur0);
                    assert(visible(res0) + visible(cur0) =~= visible(res0));
                    assert(result@ =~= res0 + Seq::<char>::empty());
                }
            }
            proof {
                assert(visible(result@) =~= visible(res0) + visible(cur0));
            }
            current = make_indent(indent);
            let ghost ind = current@;
            current.push(ch);
            proof {
                lemma_no_visible(ind);
                assert(current@ =~= ind + seq![ch]);
                Seq::filter_distributes_over_add(ind, seq![ch], |c: char| !is_ws(c));
                assert(visible(current@) =~= visible(seq![ch]));
                assert(visible(result@) + visible(current@) =~= (visible(res0) + visible(cur0))
                    + visible(seq![ch]));
                assert(current@ == indent_ws(indent as nat).push(ch));
                assert(spec_break_line(line@, i0, ind0, ins0, cur0) == (if visible(cur0).len()
                    == 0 {
                    Seq::<char>::empty()
                } else {
                    cur0 + seq!['\n']
                }) + spec_break_line(line@, i0 + 1, indent as nat, in_string, current@));
                assert(result@ + spec_break_line(line@, i0 + 1, indent as nat, in_string, current@)
                    =~= res0 + spec_break_line(line@, i0, ind0, ins0, cur0));
            }
        } else if !in_string && ch == ';' {
            current.push(ch);
            proof {
                assert(current@ =~= cur0 + seq![ch]);
                Seq::filter_distributes_over_add(cur0, seq![ch], |c: char| !is_ws(c));
            }
            push_visible(&mut result, &current);
            push_ws(&mut result, '\n');
            current = Vec::new();
            proof {
                reveal_with_fuel(Seq::filter, 1);
                assert(visible(current@) =~= Seq::<char>::empty());
                assert(visible(result@) + visible(current@) =~= visible(result@));
                assert(visible(result@) =~= (visible(res0) + visible(cur0)) + visible(seq![ch]));
                assert(spec_break_line(line@, i0, ind0, ins0, cur0) == (cur0.push(ch) + seq![
                    '\n',
                ]) + spec_break_line(line@, i0 + 1, indent as nat, in_string, current@));
                assert(result@ =~= res0 + (cur0.push(ch) + seq!['\n']));
                assert(result@ + spec_break_line(line@, i0 + 1, indent as nat, in_string, current@)
                    =~= res0 + spec_break_line(line@, i0, ind0, ins0, cur0));
            }
        } else {
            current.push(ch);
            proof {
                assert(current@ =~= cur0 + seq![ch]);
                Seq::filter_distributes_over_add(cur0, seq![ch], |c: char| !is_ws(c));
                assert(visible(res0) + visible(current@) =~= (visible(res0) + visible(cur0))
                    + visible(seq![ch]));
                assert(spec_break_line(line@, i0, ind0, ins0, cur0) == spec_break_line(
                    line@,
                    i0 + 1,
                    indent as nat,
                    in_string,
                    current@,
                ));
            }
        }
        proof {
            assert(visible(result@) + visible(current@) =~= visible(line@.take(i + 1)));
        }
        i += 1;
    }
    let ghost resn = result@;
    let ghost curn = current@;
    if !is_blank(&current) {
        push_visible(&mut result, &current);
        proof {
            assert(spec_break_line(line@, n as int, indent as nat, in_string, curn) == curn);
        }
    } else {
        proof {
            lemma_no_visible(curn);
            assert(visible(resn) + visible(curn) =~= visible(resn));
            assert(spec_break_line(line@, n as int, indent as nat, in_string, curn) =~= Seq::<
                char,
            >::empty());
            assert(result@ =~= resn + Seq::<char>::empty());
        }
    }
    proof {
        assert(line@.take(n as int) =~= line@);
        assert(visible(result@) =~= visible(line@));
        assert(result@ =~= spec_break_line(line@, 0, 0, false, Seq::empty()));
    }
    result
}

/// Re-indents source text by counting brackets line by line, leaving the
/// token stream alone: the result is whitespace-equivalent to the input
/// once the completion step has balanced its braces, and to the input
/// itself where the braces already balance.
pub fn enhanced_format_source_code(source: &String) -> (r: String)
    ensures
        visible(r@) == visible(completed(source@)),
        count_of(source@, '{') <= count_of(source@, '}') ==> visible(r@) == visible(source@),
        ({
            let c = completed(source@);
            (count_of(c, '\n') + 1 <= 15 && !(count_of(c, '\n') == 0 && c.len() > 100)) ==> r@
                == c
        }),
        ({
            let c = completed(source@);
            count_of(c, '\n') + 1 > 15 ==> r@ == spec_reindent(spec_lines(c), 0, 0, false, false)
        }),
        ({
            let c = completed(source@);
            (count_of(c, '\n') == 0 && c.len() > 100) ==> r@ == spec_break_line(
                c,
                0,
                0,
                false,
                Seq::empty(),
            )
        }),
{
    let complete = ensure_complete_function(source);
    let chars = chars_of(complete.as_str());
    let lines = split_lines(&chars);
    let ghost lv = lines_view(lines@);
    proof {
        lemma_visible_join(lv);
        assert(lv.len() == count_of(complete@, '\n') + 1);
    }
    if lines.len() == 1 {
        if lines[0].len() > 100 {
            let formatted = format_single_long_line(&lines[0]);
            proof {
                assert(lv[0] == lines@[0]@);
                assert(join_lines(lv) == lv[0]);
                assert(lv[0] == complete@);
                assert(complete@.len() == lv[0].len());
            }
            return string_from_chars(&formatted);
        }
        return complete;
    }
    if lines.len() <= 15 {
        return complete;
    }
    let mut out: Vec<char> = Vec::new();
    let mut indent: usize = 0;
    let mut within_comment = false;
    let mut had_content = false;
    let mut i: usize = 0;
    let n = lines.len();
    proof {
        reveal_with_fuel(Seq::filter, 1);
    }
    while i < n
        invariant
            n == lines@.len(),
            i <= n,
            lv == lines_view(lines@),
            visible(out@) == vis_cat(lv, i as int),
            out@ + spec_reindent(lv, i as int, indent as nat, within_comment, had_content)
                == spec_reindent(lv, 0, 0, false, false),
        decreases n - i,
    {
        let line = &lines[i];
        let ghost i0 = i as int;
        let ghost ind0 = indent as nat;
        let ghost within0 = within_comment;
        let ghost had0 = had_content;
        let ghost out0 = out@;
        proof {
            assert(lv[i0] == lines@[i0]@);
        }
        let trimmed = trim_chars(line);
        proof {
            assert(trimmed@ == crate::format::trimmed(lv[i0]));
        }
        let comment_open = chars_start_with(&trimmed, &chars_of("/*"));
        if comment_open {
            within_comment = true;
        }
        if within_comment {
            push_visible(&mut out, line);
            push_ws(&mut out, '\n');
            if chars_end_with(&trimmed, &chars_of("*/")) {
                within_comment = false;
            } else {
                within_comment = true;
            }
            proof {
                assert(spec_reindent(lv, i0, ind0, within0, had0) == lv[i0] + seq!['\n']
                    + spec_reindent(lv, i0 + 1, ind0, within_comment, had0));
                assert(out@ =~= out0 + (lv[i0] + seq!['\n']));
                assert(out@ + spec_reindent(lv, i0 + 1, ind0, within_comment, had0) =~= out0
                    + spec_reindent(lv, i0, ind0, within0, had0));
            }
            i += 1;
            continue ;
        }
        if is_blank(&trimmed) {
            if had_content {
                push_ws(&mut out, '\n');
                proof {
                    assert(spec_reindent(lv, i0, ind0, false, had0) == seq!['\n'] + spec_reindent(
                        lv,
                        i0 + 1,
                        ind0,
                        false,
                        had0,
                    ));
                    assert(out@ + spec_reindent(lv, i0 + 1, ind0, false, had0) =~= out0
                        + spec_reindent(lv, i0, ind0, false, had0));
                }
            } else {
                proof {
                    assert(spec_reindent(lv, i0, ind0, false, had0) == Seq::<char>::empty()
                        + spec_reindent(lv, i0 + 1, ind0, false, had0));
                    assert(out@ + spec_reindent(lv, i0 + 1, ind0, false, had0) =~= out0
                        + spec_reindent(lv, i0, ind0, false, had0));
                }
            }
            i += 1;
            continue ;
        }
        had_content = true;
        let closes_first = chars_start_with(&trimmed, &chars_of("}")) || chars_start_with(
            &trimmed,
            &chars_of("]"),
        ) || chars_start_with(&trimmed, &chars_of(")"));
        if closes_first && indent > 0 {
            indent -= 1;
        }
        let ghost lowered = indent as nat;
        let ghost out1 = out@;
        if !chars_start_with(&trimmed, &chars_of("#")) {
            push_indent(&mut out, indent);
            proof {
                assert(out@ == out1 + indent_ws(lowered));
            }
        }
        let ghost prefix: Seq<char> = if starts_with("#"@, trimmed@) {
            Seq::empty()
        } else {
            indent_ws(lowered)
        };
        proof {
            assert(out@ =~= out1 + prefix);
        }
        push_visible(&mut out, &trimmed);
        push_ws(&mut out, '\n');
        proof {
            assert(out@ =~= out0 + (prefix + trimmed@ + seq!['\n']));
        }
        let ghost td = trimmed@;
        let mut string_literal = false;
        let mut char_literal = false;
        let mut k: usize = 0;
        let m = trimmed.len();
        while k < m
            invariant
                m == trimmed@.len(),
                td == trimmed@,
                k <= m,
                spec_scan_line(td, k as int, string_literal, char_literal, indent as nat)
                    == spec_scan_line(td, 0, false, false, lowered),
            decreases m - k,
        {
            let c = trimmed[k];
            if c == '"' && (k == 0 || trimmed[k - 1] != '\\') {
                string_literal = !string_literal;
            } else if c == '\'' && (k == 0 || trimmed[k - 1] != '\\') {
                char_literal = !char_literal;
            } else if !string_literal && !char_literal {
                if c == '{' || c == '[' || c == '(' {
                    let lambda_brace = c == '{' && k > 0 && trimmed[k - 1] == '|';
                    if !lambda_brace && indent < usize::MAX {
                        indent += 1;
                    }
                } else if (c == '}' || c == ']' || c == ')') && k > 0 && indent > 0 {
                    indent -= 1;
                }
            }
            k += 1;
        }
        proof {
            assert(indent as nat == spec_scan_line(td, 0, false, false, lowered));
            assert(spec_reindent(lv, i0, ind0, false, had0) == (prefix + trimmed@ + seq!['\n'])
                + spec_reindent(lv, i0 + 1, indent as nat, false, true));
            assert(out@ + spec_reindent(lv, i0 + 1, indent as nat, false, true) =~= out0
                + spec_reindent(lv, i0, ind0, false, had0));
        }
        i += 1;
    }
    proof {
        assert(visible(out@) == vis_cat(lv, lv.len() as int));
        assert(spec_reindent(lv, n as int, indent as nat, within_comment, had_content) =~= Seq::<
            char,
        >::empty());
        assert(out@ =~= spec_reindent(lv, 0, 0, false, false));
    }
    string_from_chars(&out)
}

/// What the line selection yields from line `i` on: nothing until a line
/// whose trimmed form starts with the marker opens the block at depth
/// one; inside, each line adds its opening braces to the depth, a line
/// whose closing braces meet the depth ends the selection, and every
/// other line is kept, newline-separated.
pub open spec fn spec_extract(
    lines: Seq<Seq<char>>,
    i: int,
    marker: Seq<char>,
    in_block: bool,
    level: nat,
    first: bool,
) -> Seq<char>
    decreases lines.len() - i,
{
    if i < 0 || i >= lines.len() {
        Seq::empty()
    } else if !in_block {
        if starts_with(marker, trimmed(lines[i])) {
            spec_extract(lines, i + 1, marker, true, 1, true)
        } else {
            spec_extract(lines, i + 1, marker, false, level, first)
        }
    } else {
        let opens = count_of(lines[i], '{');
        let closes = count_of(lines[i], '}');
        let up: nat = if opens + level <= usize::MAX { (opens + level) as nat } else {
            level
        };
        if closes >= up {
            Seq::empty()
        } else {
            (if first {
                lines[i]
            } else {
                seq!['\n'] + lines[i]
            }) + spec_extract(lines, i + 1, marker, true, (up - closes) as nat, false)
        }
    }
}

/// The body lines of a wrapper module named `dummy`, as the fallback
/// pretty-printer emits it: everything after the opening marker line up
/// to the line that closes the module's brace.
pub fn extract_from_mod(formatted: &String) -> (r: String)
    ensures
        r@ == spec_extract(spec_lines(formatted@), 0, "mod dummy {"@, false, 0, true),
{
    extract_between(formatted, "mod dummy {")
}

/// The body lines of a wrapper impl block named `Dummy`, up to the line
/// that closes its brace.
pub fn extract_from_impl(formatted: &String) -> (r: String)
    ensures
        r@ == spec_extract(spec_lines(formatted@), 0, "impl Dummy {"@, false, 0, true),
{
    extract_between(formatted, "impl Dummy {")
}

/// The lines between the marker line and the close of its brace.
fn extract_between(formatted: &String, marker: &str) -> (r: String)
    ensures
        r@ == spec_extract(spec_lines(formatted@), 0, marker@, false, 0, true),
{
    let chars = chars_of(formatted.as_str());
    let lines = split_lines(&chars);
    let mark = chars_of(marker);
    let ghost lv = lines_view(lines@);
    let mut out: Vec<char> = Vec::new();
    let mut in_block = false;
    let mut level: usize = 0;
    let mut first = true;
    let mut stopped = false;
    let mut i: usize = 0;
    let n = lines.len();
    proof {
        assert(out@ + spec_extract(lv, 0, mark@, false, 0, true) =~= spec_extract(
            lv,
            0,
            mark@,
            false,
            0,
            true,
        ));
    }
    while i < n && !stopped
        invariant
            n == lines@.len(),
            i <= n,
            lv == lines_view(lines@),
            lv == spec_lines(formatted@),
            mark@ == marker@,
            out@ + spec_extract(lv, i as int, mark@, in_block, level as nat, first)
                == spec_extract(lv, 0, mark@, false, 0, true),
            stopped ==> spec_extract(lv, i as int, mark@, in_block, level as nat, first)
                =~= Seq::<char>::empty(),
        decreases n - i, 1int - (if stopped {
            1int
        } else {
            0int
        }),
    {
        let line = &lines[i];
        let ghost i0 = i as int;
        let ghost level0 = level as nat;
        let ghost first0 = first;
        proof {
            assert(lv[i0] == lines@[i0]@);
        }
        let trimmed_line = trim_chars(line);
        if !in_block {
            proof {
                assert(trimmed_line@ == trimmed(lv[i0]));
            }
            if chars_start_with(&trimmed_line, &mark) {
                in_block = true;
                level = 1;
                first = true;
                proof {
                    assert(spec_extract(lv, i0, mark@, false, level0, first0) == spec_extract(
                        lv,
                        i0 + 1,
                        mark@,
                        true,
                        1,
                        true,
                    ));
                }
            } else {
                proof {
                    assert(spec_extract(lv, i0, mark@, false, level0, first0) == spec_extract(
                        lv,
                        i0 + 1,
                        mark@,
                        false,
                        level0,
                        first0,
                    ));
                }
            }
            i += 1;
            continue ;
        }
        let opens = count_char(line, '{');
        let closes = count_char(line, '}');
        let up = if opens <= usize::MAX - level {
            level + opens
        } else {
            level
        };
        proof {
            assert(opens == count_of(lv[i0], '{'));
            assert(closes == count_of(lv[i0], '}'));
        }
        if closes >= up {
            stopped = true;
            proof {
                assert(spec_extract(lv, i0, mark@, true, level0, first0) =~= Seq::<
                    char,
                >::empty());
            }
        } else {
            level = up - closes;
            let ghost before = out@;
            if !first {
                out.push('\n');
                proof {
                    assert(out@ =~= before + seq!['\n']);
                }
            }
            push_all(&mut out, line);
            let ghost piece: Seq<char> = if first0 {
                lv[i0]
            } else {
                seq!['\n'] + lv[i0]
            };
            proof {
                if first0 {
                    assert(out@ =~= before + piece);
                } else {
                    assert(out@ =~= before + piece);
                }
                assert(spec_extract(lv, i0, mark@, true, level0, first0) == piece + spec_extract(
                    lv,
                    i0 + 1,
                    mark@,
                    true,
                    (up - closes) as nat,
                    false,
                ));
                assert((before + piece) + spec_extract(
                    lv,
                    i0 + 1,
                    mark@,
                    true,
                    (up - closes) as nat,
                    false,
                ) =~= before + (piece + spec_extract(
                    lv,
                    i0 + 1,
                    mark@,
                    true,
                    (up - closes) as nat,
                    false,
                )));
            }
            first = false;
            i += 1;
        }
    }
    proof {
        if !stopped {
            assert(spec_extract(lv, n as int, mark@, in_block, level as nat, first) =~= Seq::<
                char,
            >::empty());
        }
        assert(out@ =~= spec_extract(lv, 0, mark@, false, 0, true));
    }
    string_from_chars(&out)
}

} // verus!
