//! Routines on strings, character by character.

use vstd::prelude::*;

use crate::text::{chars_of, push_char, string_of};

verus! {

pub open spec fn is_lower(c: char) -> bool {
    'a' <= c && c <= 'z'
}

/// The upper-case letter for a lower-case ASCII letter; any other
/// character is unchanged.
pub open spec fn upper(c: char) -> char {
    if is_lower(c) {
        ((c as u32 - 32) as u8) as char
    } else {
        c
    }
}

fn to_upper(c: char) -> (r: char)
    ensures
        r == upper(c),
{
    if 'a' <= c && c <= 'z' {
        ((c as u32 - 32) as u8) as char
    } else {
        c
    }
}

/// Capitalizes the English letters of `input`, leaving other characters intact.
pub fn capitalize(input: String) -> (r: String)
    ensures
        r@ == input@.map_values(|c: char| upper(c)),
{
    let cs = chars_of(input.as_str());
    let mut out = String::new();
    let mut i: usize = 0;
    while i < cs.len()
        invariant
            cs@ == input@,
            i <= cs.len(),
            out@ == cs@.take(i as int).map_values(|c: char| upper(c)),
        decreases cs.len() - i,
    {
        push_char(&mut out, to_upper(cs[i]));
        i += 1;
        assert(out@ =~= cs@.take(i as int).map_values(|c: char| upper(c)));
    }
    assert(cs@.take(i as int) =~= cs@);
    out
}

pub open spec fn is_vowel(c: char) -> bool {
    c == 'a' || c == 'e' || c == 'i' || c == 'o' || c == 'u'
}

/// Index of the first vowel of `s` at or after `i`, or `s.len()` if none.
pub open spec fn vowel_index(s: Seq<char>, i: int) -> int
    decreases s.len() - i,
{
    if i < 0 || i >= s.len() {
        s.len() as int
    } else if is_vowel(s[i]) {
        i
    } else {
        vowel_index(s, i + 1)
    }
}

/// Pig Latin for one word: a word starting with a vowel (or with no vowel
/// at all) gets `hay` appended; otherwise its leading consonants move to the
/// end, followed by `ay`.
pub open spec fn pig_latin(s: Seq<char>) -> Seq<char> {
    let k = vowel_index(s, 0);
    if k == 0 || k >= s.len() {
        s + seq!['h', 'a', 'y']
    } else {
        s.subrange(k, s.len() as int) + s.subrange(0, k) + seq!['a', 'y']
    }
}

fn vowel(c: char) -> (r: bool)
    ensures
        r == is_vowel(c),
{
    c == 'a' || c == 'e' || c == 'i' || c == 'o' || c == 'u'
}

/// Converts a non-empty word to Pig Latin (see [`pig_latin`]):
/// `happy` becomes `appyhay`, `string` becomes `ingstray`, `explain`
/// becomes `explainhay`.
pub fn piglatin(input: String) -> (r: String)
    requires
        input@.len() > 0,
    ensures
        r@ == pig_latin(input@),
{
    let cs = chars_of(input.as_str());
    let n = cs.len();
    let mut k: usize = 0;
    while k < n && !vowel(cs[k])
        invariant
            cs@ == input@,
            n == cs.len(),
            k <= n,
            vowel_index(cs@, 0) == vowel_index(cs@, k as int),
        decreases n - k,
    {
        k += 1;
    }
    let mut out: Vec<char> = Vec::new();
    if k == 0 || k >= n {
        let mut i: usize = 0;
        while i < n
            invariant
                n == cs.len(),
                i <= n,
                out@ == cs@.take(i as int),
            decreases n - i,
        {
            out.push(cs[i]);
            i += 1;
        }
        out.push('h');
        out.push('a');
        out.push('y');
        assert(out@ =~= cs@ + seq!['h', 'a', 'y']);
    } else {
        let mut i: usize = k;
        while i < n
            invariant
                n == cs.len(),
                k <= i <= n,
                out@ == cs@.subrange(k as int, i as int),
            decreases n - i,
        {
            out.push(cs[i]);
            i += 1;
        }
        let mut j: usize = 0;
        while j < k
            invariant
                n == cs.len(),
                k < n,
                j <= k,
                out@ == cs@.subrange(k as int, n as int) + cs@.subrange(0, j as int),
            decreases k - j,
        {
            out.push(cs[j]);
            j += 1;
            assert(out@ =~= cs@.subrange(k as int, n as int) + cs@.subrange(0, j as int));
        }
        out.push('a');
        out.push('y');
        assert(out@ =~= cs@.subrange(k as int, n as int) + cs@.subrange(0, k as int) + seq![
            'a',
            'y',
        ]);
    }
    string_of(&out)
}

/// Whether `s` reads the same backward as forward; the empty string does.
pub fn is_palindrome(s: String) -> (r: bool)
    ensures
        r == (s@ == s@.reverse()),
{
    let cs = chars_of(s.as_str());
    let n = cs.len();
    let mut i: usize = 0;
    while i < n / 2
        invariant
            cs@ == s@,
            n == cs.len(),
            i <= n / 2,
            forall|j: int| 0 <= j < i ==> #[trigger] cs@[j] == cs@[n - 1 - j],
        decreases n / 2 - i,
    {
        if cs[i] != cs[n - 1 - i] {
            assert(s@.reverse()[i as int] == s@[n - 1 - i]);
            return false;
        }
        i += 1;
    }
    assert(s@ =~= s@.reverse()) by {
        assert forall|j: int| 0 <= j < n implies s@[j] == s@.reverse()[j] by {
            if j >= n / 2 {
                let m = n - 1 - j;
                if m < n / 2 {
                    assert(cs@[m] == cs@[n - 1 - m]);
                }
            }
        }
    }
    true
}

/// Events of a text editor.
#[derive(Debug)]
pub enum TypeEvent {
    /// A character is typed.
    Type(char),
    /// The last character, if any, is removed.
    Backspace,
    /// The whole text is copied to the clipboard.
    Copy,
    /// The clipboard is appended to the text.
    Paste,
}

/// Text and clipboard after one event.
pub open spec fn edit_step(state: (Seq<char>, Seq<char>), e: TypeEvent) -> (Seq<char>, Seq<char>) {
    let (text, clip) = state;
    match e {
        TypeEvent::Type(c) => (text.push(c), clip),
        TypeEvent::Backspace => (if text.len() > 0 { text.drop_last() } else { text }, clip),
        TypeEvent::Copy => (text, text),
        TypeEvent::Paste => (text + clip, clip),
    }
}

/// Text and clipboard after the events, starting from both empty.
pub open spec fn edit_all(events: Seq<TypeEvent>) -> (Seq<char>, Seq<char>)
    decreases events.len(),
{
    if events.len() == 0 {
        (seq![], seq![])
    } else {
        edit_step(edit_all(events.drop_last()), events.last())
    }
}

/// Starting from an empty text and an empty clipboard, applies `events` in
/// order and returns the text.
pub fn use_editor(events: Vec<TypeEvent>) -> (r: String)
    ensures
        r@ == edit_all(events@).0,
{
    let mut text: Vec<char> = Vec::new();
    let mut clip: Vec<char> = Vec::new();
    let mut i: usize = 0;
    while i < events.len()
        invariant
            i <= events.len(),
            (text@, clip@) == edit_all(events@.take(i as int)),
        decreases events.len() - i,
    {
        proof {
            assert(events@.take(i + 1).drop_last() =~= events@.take(i as int));
        }
        match &events[i] {
            TypeEvent::Type(c) => {
                text.push(*c);
            },
            TypeEvent::Backspace => {
                if text.len() > 0 {
                    text.pop();
                }
            },
            TypeEvent::Copy => {
                let mut copy: Vec<char> = Vec::new();
                let mut j: usize = 0;
                while j < text.len()
                    invariant
                        j <= text.len(),
                        copy@ == text@.take(j as int),
                    decreases text.len() - j,
                {
                    copy.push(text[j]);
                    j += 1;
                }
                assert(copy@ =~= text@);
                clip = copy;
            },
            TypeEvent::Paste => {
                let ghost start = text@;
                let mut j: usize = 0;
                while j < clip.len()
                    invariant
                        j <= clip.len(),
                        text@ == start + clip@.take(j as int),
                    decreases clip.len() - j,
                {
                    text.push(clip[j]);
                    j += 1;
                    assert(text@ =~= start + clip@.take(j as int));
                }
                assert(clip@.take(j as int) =~= clip@);
            },
        }
        i += 1;
    }
    assert(events@.take(i as int) =~= events@);
    string_of(&text)
}

} // verus!
