use vstd::prelude::*;

verus! {

/// The characters of `s`, one per element.
pub fn chars_of(s: &str) -> (r: Vec<char>)
    ensures
        r@ == s@,
{
    let mut out: Vec<char> = Vec::new();
    for c in it: s.chars()
        invariant
            out@ == it.seq().take(it.index() as int),
            it.seq() == s@,
    {
        out.push(c);
    }
    out
}

} // verus!

verus! {

/// The complete lines of `t` (each ended by a line break), and the
/// unterminated rest.
pub open spec fn lines_of(t: Seq<char>) -> (Seq<Seq<char>>, Seq<char>)
    decreases t.len(),
{
    if t.len() == 0 {
        (Seq::empty(), Seq::empty())
    } else {
        let (done, cur) = lines_of(t.drop_last());
        if t.last() == '\n' {
            (done.push(cur), Seq::empty())
        } else {
            (done, cur.push(t.last()))
        }
    }
}

/// The lines of a text: a final line needs no line break, and a text that
/// ends with a line break has no empty line after it.
pub open spec fn split_lines(t: Seq<char>) -> Seq<Seq<char>> {
    let (done, cur) = lines_of(t);
    if cur.len() == 0 {
        done
    } else {
        done.push(cur)
    }
}

/// The text made of the given lines, each followed by a line break.
pub open spec fn join_lines(ls: Seq<Seq<char>>) -> Seq<char>
    decreases ls.len(),
{
    if ls.len() == 0 {
        Seq::empty()
    } else {
        join_lines(ls.drop_last()) + ls.last() + seq!['\n']
    }
}

/// No line holds a line break.
pub open spec fn no_breaks(ls: Seq<Seq<char>>) -> bool {
    forall|i: int| 0 <= i < ls.len() ==> !(#[trigger] ls[i]).contains('\n')
}

proof fn lemma_lines_of_extend(a: Seq<char>, l: Seq<char>)
    requires
        !l.contains('\n'),
    ensures
        lines_of(a + l) == (lines_of(a).0, lines_of(a).1 + l),
    decreases l.len(),
{
    if l.len() == 0 {
        assert(a + l =~= a);
        assert(lines_of(a).1 + l =~= lines_of(a).1);
    } else {
        let p = l.drop_last();
        assert(!p.contains('\n')) by {
            if p.contains('\n') {
                let i = choose|i: int| 0 <= i < p.len() && p[i] == '\n';
                assert(l[i] == '\n');
            }
        }
        lemma_lines_of_extend(a, p);
        assert((a + l).drop_last() =~= a + p);
        assert((a + l).last() == l.last());
        assert(l.last() != '\n') by {
            assert(l[l.len() - 1] == l.last());
        }
        assert(lines_of(a).1 + p + seq![l.last()] =~= lines_of(a).1 + l);
    }
}

/// Splitting joined lines that hold no line break gives the lines back.
pub proof fn lemma_split_join(ls: Seq<Seq<char>>)
    requires
        no_breaks(ls),
    ensures
        lines_of(join_lines(ls)) == (ls, Seq::<char>::empty()),
        split_lines(join_lines(ls)) == ls,
    decreases ls.len(),
{
    if ls.len() > 0 {
        let init = ls.drop_last();
        assert(no_breaks(init)) by {
            assert forall|i: int| 0 <= i < init.len() implies !(#[trigger] init[i]).contains('\n') by {
                assert(init[i] == ls[i]);
            }
        }
        lemma_split_join(init);
        let j = join_lines(init);
        assert(!ls[ls.len() - 1].contains('\n'));
        lemma_lines_of_extend(j, ls.last());
        assert(Seq::<char>::empty() + ls.last() =~= ls.last());
        let whole = j + ls.last() + seq!['\n'];
        assert(whole.drop_last() =~= j + ls.last());
        assert(init.push(ls.last()) =~= ls);
    }
}

/// `a` is the first `a.len()` elements of `b`.
pub open spec fn is_prefix_of<A>(a: Seq<A>, b: Seq<A>) -> bool {
    a.len() <= b.len() && b.take(a.len() as int) == a
}

/// The complete lines of a part at the front of a text are lines of the
/// whole text.
pub proof fn lemma_lines_prefix(t: Seq<char>, i: int)
    requires
        0 <= i <= t.len(),
    ensures
        is_prefix_of(lines_of(t.take(i)).0, split_lines(t)),
    decreases t.len() - i,
{
    let a = lines_of(t.take(i)).0;
    if i == t.len() {
        assert(t.take(i) =~= t);
        let (done, cur) = lines_of(t);
        assert(done.push(cur).take(done.len() as int) =~= done);
        assert(done.take(done.len() as int) =~= done);
    } else {
        lemma_lines_prefix(t, i + 1);
        let b = lines_of(t.take(i + 1)).0;
        assert(t.take(i + 1).drop_last() =~= t.take(i));
        let s = split_lines(t);
        if b.len() == a.len() + 1 {
            assert(b.drop_last() =~= a);
            assert(s.take(a.len() as int) =~= s.take(b.len() as int).take(a.len() as int));
            assert(b.take(a.len() as int) =~= a);
        }
    }
}

} // verus!
