//! Splitting a shell command line into its arguments.

use vstd::prelude::*;

use crate::text::{chars_of, string_of};

verus! {

broadcast use vstd::seq_lib::group_filter_ensures;

pub open spec fn is_blank(c: char) -> bool {
    c == ' ' || c == '\t' || c == '\n' || c == '\r' || c == '\x0B' || c == '\x0C'
}

/// Index of the first `c` in `s` at or after `i`, or `s.len()` if none.
pub open spec fn index_of(s: Seq<char>, c: char, i: int) -> int
    decreases s.len() - i,
{
    if i < 0 || i >= s.len() {
        s.len() as int
    } else if s[i] == c {
        i
    } else {
        index_of(s, c, i + 1)
    }
}

/// Words found so far and the word in progress, after reading `s`.
pub open spec fn scan_words(s: Seq<char>) -> (Seq<Seq<char>>, Seq<char>)
    decreases s.len(),
{
    if s.len() == 0 {
        (seq![], seq![])
    } else {
        let (ws, cur) = scan_words(s.drop_last());
        if is_blank(s.last()) {
            if cur.len() > 0 {
                (ws.push(cur), seq![])
            } else {
                (ws, seq![])
            }
        } else {
            (ws, cur.push(s.last()))
        }
    }
}

/// The maximal runs of non-blank characters of `s`, in order.
pub open spec fn words(s: Seq<char>) -> Seq<Seq<char>> {
    let (ws, cur) = scan_words(s);
    if cur.len() > 0 {
        ws.push(cur)
    } else {
        ws
    }
}

/// The arguments of a command line: the text before the first space, then
/// for the text after it (`rest`): if `rest` starts with a quote, `rest`
/// without its first and last characters as one argument; else if `rest`
/// holds a quote, `rest` without its quotes as one argument; else the words
/// of `rest`.
pub open spec fn shell_arguments(s: Seq<char>) -> Seq<Seq<char>> {
    let k = index_of(s, ' ', 0);
    let head = s.take(k);
    let rest = s.skip(k + 1);
    if rest.len() > 0 && rest[0] == '\'' {
        seq![head, rest.subrange(1, rest.len() - 1)]
    } else if rest.contains('\'') {
        seq![head, rest.filter(|c: char| c != '\'')]
    } else {
        seq![head] + words(rest)
    }
}

pub open spec fn strings_view(v: Seq<String>) -> Seq<Seq<char>> {
    v.map_values(|s: String| s@)
}

fn blank(c: char) -> (r: bool)
    ensures
        r == is_blank(c),
{
    c == ' ' || c == '\t' || c == '\n' || c == '\r' || c == '\x0B' || c == '\x0C'
}

fn slice(cs: &Vec<char>, from: usize, to: usize) -> (r: Vec<char>)
    requires
        from <= to <= cs@.len(),
    ensures
        r@ == cs@.subrange(from as int, to as int),
{
    let mut r: Vec<char> = Vec::new();
    let mut i = from;
    while i < to
        invariant
            from <= i <= to <= cs@.len(),
            r@ == cs@.subrange(from as int, i as int),
        decreases to - i,
    {
        r.push(cs[i]);
        i += 1;
    }
    r
}

/// Appends the words of `cs` to `out`.
pub(crate) fn split_words(cs: &Vec<char>, out: &mut Vec<String>)
    ensures
        strings_view(final(out)@) == strings_view(old(out)@) + words(cs@),
{
    let ghost base = strings_view(out@);
    let mut cur: Vec<char> = Vec::new();
    let mut i: usize = 0;
    assert(strings_view(out@) =~= base + scan_words(cs@.take(0)).0);
    while i < cs.len()
        invariant
            i <= cs@.len(),
            strings_view(out@) == base + scan_words(cs@.take(i as int)).0,
            cur@ == scan_words(cs@.take(i as int)).1,
        decreases cs.len() - i,
    {
        proof {
            assert(cs@.take(i + 1).drop_last() =~= cs@.take(i as int));
        }
        let c = cs[i];
        if blank(c) {
            if cur.len() > 0 {
                let w = string_of(&cur);
                let ghost prev = out@;
                out.push(w);
                proof {
                    assert(strings_view(out@) =~= strings_view(prev).push(w@));
                    assert(strings_view(out@) =~= base + scan_words(cs@.take(i + 1)).0);
                }
                cur = Vec::new();
            }
        } else {
            cur.push(c);
        }
        i += 1;
    }
    assert(cs@.take(i as int) =~= cs@);
    if cur.len() > 0 {
        let w = string_of(&cur);
        let ghost prev = out@;
        out.push(w);
        assert(strings_view(out@) =~= strings_view(prev).push(w@));
        assert(strings_view(out@) =~= base + words(cs@));
    } else {
        assert(strings_view(out@) =~= base + words(cs@));
    }
}

/// Splits a command line into its arguments as [`shell_arguments`]
/// describes: `cat file` gives `cat`, `file`; `ls 'VirtualBox VMs'` and
/// `ls VirtualBox' 'VMs` both give `ls`, `VirtualBox VMs`. The line must
/// hold a space, and text after the first space that starts with a quote
/// must have at least two characters.
pub fn parse_shell_command(command: &str) -> (r: Vec<String>)
    requires
        command@.contains(' '),
        ({
            let rest = command@.skip(index_of(command@, ' ', 0) + 1);
            rest.len() > 0 && rest[0] == '\'' ==> rest.len() >= 2
        }),
    ensures
        strings_view(r@) == shell_arguments(command@),
{
    let cs = chars_of(command);
    let n = cs.len();
    let mut k: usize = 0;
    while k < n && cs[k] != ' '
        invariant
            cs@ == command@,
            n == cs@.len(),
            k <= n,
            index_of(cs@, ' ', 0) == index_of(cs@, ' ', k as int),
            forall|j: int| 0 <= j < k ==> cs@[j] != ' ',
        decreases n - k,
    {
        k += 1;
    }
    proof {
        if k == n {
            let j = choose|j: int| 0 <= j < cs@.len() && cs@[j] == ' ';
            assert(cs@[j] != ' ');
        }
    }
    let head = string_of(&slice(&cs, 0, k));
    let rest = slice(&cs, k + 1, n);
    assert(rest@ =~= command@.skip(k + 1));
    assert(head@ =~= command@.take(k as int));
    let mut out: Vec<String> = Vec::new();
    out.push(head);
    let m = rest.len();
    if m > 0 && rest[0] == '\'' {
        let inner = string_of(&slice(&rest, 1, m - 1));
        out.push(inner);
        assert(strings_view(out@) =~= shell_arguments(command@));
        return out;
    }
    let mut q: usize = 0;
    let mut kept: Vec<char> = Vec::new();
    let mut quoted = false;
    while q < m
        invariant
            m == rest@.len(),
            q <= m,
            kept@ == rest@.take(q as int).filter(|c: char| c != '\''),
            quoted == rest@.take(q as int).contains('\''),
        decreases m - q,
    {
        proof {
            assert(rest@.take(q + 1) =~= rest@.take(q as int).push(rest@[q as int]));
            rest@.take(q as int).lemma_filter_push(rest@[q as int], |c: char| c != '\'');
            let a = rest@.take(q as int);
            let b = rest@.take(q + 1);
            if a.contains('\'') {
                let j = choose|j: int| 0 <= j < a.len() && a[j] == '\'';
                assert(b[j] == '\'');
            }
            if rest@[q as int] == '\'' {
                assert(b[q as int] == '\'');
            }
            if b.contains('\'') {
                let j = choose|j: int| 0 <= j < b.len() && b[j] == '\'';
                if j < q {
                    assert(a[j] == '\'');
                }
            }
        }
        if rest[q] == '\'' {
            quoted = true;
        } else {
            kept.push(rest[q]);
        }
        q += 1;
    }
    assert(rest@.take(q as int) =~= rest@);
    if quoted {
        out.push(string_of(&kept));
        assert(strings_view(out@) =~= shell_arguments(command@));
    } else {
        split_words(&rest, &mut out);
        assert(strings_view(out@) =~= shell_arguments(command@));
    }
    out
}

} // verus!
