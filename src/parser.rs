use vstd::prelude::*;

use crate::record::{bind_prefix, exec_sep, release_tag, Keybind, KeybindView, TriggerMode};

verus! {

/// `BINDSYM`, the upper-case form of the keyword.
pub open spec fn keyword_upper() -> Seq<char> {
    seq!['B', 'I', 'N', 'D', 'S', 'Y', 'M']
}

/// The line begins with the keyword `bindsym`, in any case. (Only ASCII
/// letters lower-case to these seven letters one for one, so this is the
/// same test as on the line's full lowercase form.)
pub open spec fn is_bind_line(l: Seq<char>) -> bool {
    &&& l.len() >= 7
    &&& forall|i: int|
        0 <= i < 7 ==> (l[i] == bind_prefix()[i] || l[i] == keyword_upper()[i])
}

/// `s` is a key token, then ` exec `, then the command `c`.
pub open spec fn tail_parses(s: Seq<char>, k: Seq<char>, c: Seq<char>) -> bool {
    &&& k.len() > 0
    &&& !k.contains(' ')
    &&& s == k + exec_sep() + c
}

/// The keys and command of what follows the keyword and the optional flag.
pub open spec fn tail_of(s: Seq<char>) -> Option<(Seq<char>, Seq<char>)> {
    if exists|k: Seq<char>, c: Seq<char>| tail_parses(s, k, c) {
        let (k, c) = choose|k: Seq<char>, c: Seq<char>| tail_parses(s, k, c);
        Some((k, c))
    } else {
        None
    }
}

/// What a line of the file is.
pub ghost enum LineReading {
    Plain,
    Bind(KeybindView),
    Malformed,
}

/// How a single line of the file reads: a passthrough line, a bind line
/// with its record, or a bind line that breaks the grammar
/// `bindsym [--release ]<keys> exec <command>`.
pub open spec fn read_line_spec(l: Seq<char>) -> LineReading {
    if !is_bind_line(l) {
        LineReading::Plain
    } else if l.len() < 8 || l[7] != ' ' {
        LineReading::Malformed
    } else {
        let rest = l.skip(8);
        if rest.len() >= 10 && rest.take(10) == release_tag() && tail_of(rest.skip(10)) is Some {
            let (k, c) = tail_of(rest.skip(10))->0;
            LineReading::Bind(KeybindView { keys: k, mode: TriggerMode::Release, action: c })
        } else if tail_of(rest) is Some {
            let (k, c) = tail_of(rest)->0;
            LineReading::Bind(KeybindView { keys: k, mode: TriggerMode::Press, action: c })
        } else {
            LineReading::Malformed
        }
    }
}

/// Two splits of one text into a key token, ` exec ` and a command agree.
pub proof fn lemma_tail_unique(
    s: Seq<char>,
    k1: Seq<char>,
    c1: Seq<char>,
    k2: Seq<char>,
    c2: Seq<char>,
)
    requires
        tail_parses(s, k1, c1),
        tail_parses(s, k2, c2),
    ensures
        k1 == k2,
        c1 == c2,
{
    if k1.len() < k2.len() {
        assert(s[k1.len() as int] == ' ');
        assert(s[k1.len() as int] == k2[k1.len() as int]);
    } else if k2.len() < k1.len() {
        assert(s[k2.len() as int] == ' ');
        assert(s[k2.len() as int] == k1[k2.len() as int]);
    }
    assert(k1 =~= s.take(k1.len() as int));
    assert(k2 =~= s.take(k2.len() as int));
    assert(c1 =~= s.skip(k1.len() as int + 6));
    assert(c2 =~= s.skip(k2.len() as int + 6));
}

/// A text that splits into a key token, ` exec ` and a command reads as
/// exactly that split.
pub proof fn lemma_tail_of(s: Seq<char>, k: Seq<char>, c: Seq<char>)
    requires
        tail_parses(s, k, c),
    ensures
        tail_of(s) == Some((k, c)),
{
    let (k2, c2) = choose|k2: Seq<char>, c2: Seq<char>| tail_parses(s, k2, c2);
    lemma_tail_unique(s, k, c, k2, c2);
}

/// The reading that a parsed line gets.
pub enum LineRead {
    Plain,
    Bind(Keybind),
    Malformed,
}

impl LineRead {
    pub open spec fn spec_reading(&self) -> LineReading {
        match self {
            LineRead::Plain => LineReading::Plain,
            LineRead::Bind(b) => LineReading::Bind(b@),
            LineRead::Malformed => LineReading::Malformed,
        }
    }
}

/// Tells whether `pat` stands in `chars` at `pos`, before `end`.
fn matches_at(chars: &Vec<char>, pos: usize, end: usize, pat: &Vec<char>) -> (r: bool)
    requires
        end <= chars.len(),
    ensures
        r == (pos + pat.len() <= end && chars@.subrange(pos as int, pos + pat.len()) == pat@),
{
    if pos > end || pat.len() > end - pos {
        return false;
    }
    let mut i: usize = 0;
    while i < pat.len()
        invariant
            pos + pat.len() <= end <= chars.len(),
            i <= pat.len(),
            forall|j: int| 0 <= j < i ==> chars@[pos + j] == pat@[j],
        decreases pat.len() - i,
    {
        if chars[pos + i] != pat[i] {
            assert(chars@.subrange(pos as int, pos + pat.len())[i as int] != pat@[i as int]);
            return false;
        }
        i = i + 1;
    }
    assert(chars@.subrange(pos as int, pos + pat.len()) =~= pat@);
    true
}

/// Reads `<keys> exec <command>` from the characters `a..end` of `text`.
fn read_tail(text: &str, chars: &Vec<char>, a: usize, end: usize) -> (r: Option<(String, String)>)
    requires
        chars@ == text@,
        a <= end <= chars.len(),
    ensures
        match r {
            Some((k, c)) => tail_of(chars@.subrange(a as int, end as int)) == Some((k@, c@)),
            None => tail_of(chars@.subrange(a as int, end as int)) is None,
        },
{
    let ghost s = chars@.subrange(a as int, end as int);
    let mut p: usize = a;
    while p < end && chars[p] != ' '
        invariant
            a <= p <= end <= chars.len(),
            forall|j: int| a <= j < p ==> chars@[j] != ' ',
        decreases end - p,
    {
        p = p + 1;
    }
    let sep: Vec<char> = vec![' ', 'e', 'x', 'e', 'c', ' '];
    assert(sep@ =~= exec_sep());
    let found = p > a && matches_at(chars, p, end, &sep);
    if found {
        let k = String::from_str(text.substring_char(a, p));
        let c = String::from_str(text.substring_char(p + 6, end));
        proof {
            assert(!k@.contains(' ')) by {
                if k@.contains(' ') {
                    let i = choose|i: int| 0 <= i < k@.len() && k@[i] == ' ';
                    assert(chars@[a + i] == ' ');
                }
            }
            assert(s =~= k@ + exec_sep() + c@);
            assert(tail_parses(s, k@, c@));
            let (k2, c2) = choose|k2: Seq<char>, c2: Seq<char>| tail_parses(s, k2, c2);
            lemma_tail_unique(s, k@, c@, k2, c2);
            assert(tail_of(s) == Some((k@, c@)));
        }
        Some((k, c))
    } else {
        proof {
            if exists|k: Seq<char>, c: Seq<char>| tail_parses(s, k, c) {
                let (k, c) = choose|k: Seq<char>, c: Seq<char>| tail_parses(s, k, c);
                let n = k.len() as int;
                assert(s.len() == n + 6 + c.len());
                assert(s.len() == end - a);
                if n < p - a {
                    assert(s[n] == ' ');
                    assert(s[n] == chars@[a + n]);
                } else if n > p - a {
                    assert(s[p - a] == k[p - a]);
                    assert(s[p - a] == chars@[p as int]);
                } else {
                    assert(chars@.subrange(p as int, p + 6) =~= s.subrange(n, n + 6));
                    assert(s.subrange(n, n + 6) =~= exec_sep());
                }
            }
        }
        None
    }
}

/// Reads one line, the characters `a..end` of `text`.
pub fn read_line(text: &str, chars: &Vec<char>, a: usize, end: usize) -> (r: LineRead)
    requires
        chars@ == text@,
        a <= end <= chars.len(),
    ensures
        r.spec_reading() == read_line_spec(chars@.subrange(a as int, end as int)),
{
    let ghost l = chars@.subrange(a as int, end as int);
    let lower: Vec<char> = vec!['b', 'i', 'n', 'd', 's', 'y', 'm', ' '];
    let upper: Vec<char> = vec!['B', 'I', 'N', 'D', 'S', 'Y', 'M'];
    assert(lower@ =~= bind_prefix());
    assert(upper@ =~= keyword_upper());
    if end - a < 7 {
        return LineRead::Plain;
    }
    let mut i: usize = 0;
    while i < 7
        invariant
            a + 7 <= end <= chars.len(),
            i <= 7,
            l == chars@.subrange(a as int, end as int),
            lower@ == bind_prefix(),
            upper@ == keyword_upper(),
            forall|j: int| 0 <= j < i ==> (l[j] == bind_prefix()[j] || l[j] == keyword_upper()[j]),
        decreases 7 - i,
    {
        let c = chars[a + i];
        if c != lower[i] && c != upper[i] {
            assert(l[i as int] == c);
            return LineRead::Plain;
        }
        i = i + 1;
    }
    if end - a < 8 || chars[a + 7] != ' ' {
        return LineRead::Malformed;
    }
    let start = a + 8;
    assert(l.skip(8) =~= chars@.subrange(start as int, end as int));
    let flag: Vec<char> = vec!['-', '-', 'r', 'e', 'l', 'e', 'a', 's', 'e', ' '];
    assert(flag@ =~= release_tag());
    if matches_at(chars, start, end, &flag) {
        assert(l.skip(8).take(10) =~= chars@.subrange(start as int, start + 10));
        assert(l.skip(8).skip(10) =~= chars@.subrange(start + 10, end as int));
        match read_tail(text, chars, start + 10, end) {
            Some((k, c)) => {
                return LineRead::Bind(Keybind { keys: k, mode: TriggerMode::Release, action: c });
            },
            None => {},
        }
    } else {
        assert(!(l.skip(8).len() >= 10 && l.skip(8).take(10) == release_tag())) by {
            if l.skip(8).len() >= 10 && l.skip(8).take(10) == release_tag() {
                assert(l.skip(8).take(10) =~= chars@.subrange(start as int, start + 10));
            }
        }
    }
    match read_tail(text, chars, start, end) {
        Some((k, c)) => LineRead::Bind(Keybind { keys: k, mode: TriggerMode::Press, action: c }),
        None => LineRead::Malformed,
    }
}

} // verus!
