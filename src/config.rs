use vstd::prelude::*;

use crate::editor::{
    check_keys, edited, edited_mode_of, has_duplicate, index_from_id, index_of_id, is_duplicate,
    key_invalid, release_mode, release_mode_of, EditError,
};
use crate::fold::field_is_unset;
use crate::parser::{is_bind_line, read_line, read_line_spec, LineRead, LineReading};
use crate::record::{bind_line, bind_prefix, exec_sep, release_tag, Keybind, KeybindView, TriggerMode};
use crate::text::{chars_of, is_prefix_of, join_lines, lemma_lines_prefix, lines_of, split_lines};

verus! {

/// A line of the file: passthrough text kept as it was, or the place of the
/// next bind record.
pub enum Line {
    Text(String),
    Bind,
}

pub ghost enum LineView {
    Text(Seq<char>),
    Bind,
}

impl View for Line {
    type V = LineView;

    open spec fn view(&self) -> LineView {
        match self {
            Line::Text(t) => LineView::Text(t@),
            Line::Bind => LineView::Bind,
        }
    }
}

/// A loaded keybinding file: its lines in order, and the records that its
/// bind lines hold, in the same order.
pub struct Config {
    lines: Vec<Line>,
    binds: Vec<Keybind>,
}

pub ghost struct ConfigView {
    pub lines: Seq<LineView>,
    pub binds: Seq<KeybindView>,
}

impl View for Config {
    type V = ConfigView;

    closed spec fn view(&self) -> ConfigView {
        ConfigView {
            lines: self.lines@.map_values(|l: Line| l@),
            binds: self.binds@.map_values(|b: Keybind| b@),
        }
    }
}

/// A malformed bind line: its number, counted from 1, and its text.
pub struct ParseError {
    pub line_number: usize,
    pub line: String,
}

/// How many lines are places of bind records.
pub open spec fn slot_count(lines: Seq<LineView>) -> nat
    decreases lines.len(),
{
    if lines.len() == 0 {
        0
    } else {
        slot_count(lines.drop_last()) + if lines.last() is Bind {
            1nat
        } else {
            0nat
        }
    }
}

/// A passthrough line that the file can hold and read back as passthrough.
pub open spec fn plain_line_ok(t: Seq<char>) -> bool {
    !t.contains('\n') && !is_bind_line(t)
}

/// One record per bind place, and passthrough lines that read back as such.
pub open spec fn config_wf(c: ConfigView) -> bool {
    &&& slot_count(c.lines) == c.binds.len()
    &&& forall|i: int|
        0 <= i < c.lines.len() ==> (#[trigger] c.lines[i] matches LineView::Text(t) ==> plain_line_ok(t))
}

/// The lines of the file text, records put in their places in order.
pub open spec fn rendered(lines: Seq<LineView>, binds: Seq<KeybindView>) -> Seq<Seq<char>>
    decreases lines.len(),
{
    if lines.len() == 0 {
        Seq::empty()
    } else {
        match lines.last() {
            LineView::Text(t) => rendered(lines.drop_last(), binds).push(t),
            LineView::Bind => rendered(lines.drop_last(), binds.drop_last()).push(
                bind_line(binds.last()),
            ),
        }
    }
}

/// The file text of a configuration.
pub open spec fn render(c: ConfigView) -> Seq<char> {
    join_lines(rendered(c.lines, c.binds))
}

/// The configuration with one more line read.
pub open spec fn step(c: ConfigView, l: Seq<char>) -> Option<ConfigView> {
    match read_line_spec(l) {
        LineReading::Plain => Some(ConfigView { lines: c.lines.push(LineView::Text(l)), binds: c.binds }),
        LineReading::Bind(r) => Some(ConfigView { lines: c.lines.push(LineView::Bind), binds: c.binds.push(r) }),
        LineReading::Malformed => None,
    }
}

pub open spec fn empty_view() -> ConfigView {
    ConfigView { lines: Seq::empty(), binds: Seq::empty() }
}

/// Reads lines in order; the first malformed bind line, with its number
/// counted from 1, fails the whole load.
pub open spec fn parse_lines(ls: Seq<Seq<char>>) -> Result<ConfigView, (int, Seq<char>)>
    decreases ls.len(),
{
    if ls.len() == 0 {
        Ok(empty_view())
    } else {
        match parse_lines(ls.drop_last()) {
            Err(e) => Err(e),
            Ok(c) => match step(c, ls.last()) {
                Some(c2) => Ok(c2),
                None => Err((ls.len() as int, ls.last())),
            },
        }
    }
}

/// The configuration that a file text holds, or its first malformed line.
pub open spec fn parse_text(t: Seq<char>) -> Result<ConfigView, (int, Seq<char>)> {
    parse_lines(split_lines(t))
}

proof fn lemma_slot_count_prefix(lines: Seq<LineView>, k: int)
    requires
        0 <= k <= lines.len(),
    ensures
        slot_count(lines.take(k)) <= slot_count(lines),
    decreases lines.len() - k,
{
    if k < lines.len() {
        lemma_slot_count_prefix(lines, k + 1);
        assert(lines.take(k + 1).drop_last() =~= lines.take(k));
    } else {
        assert(lines.take(k) =~= lines);
    }
}

/// A malformed line ends the reading: lines after it change nothing.
proof fn lemma_error_stays(ls: Seq<Seq<char>>, ms: Seq<Seq<char>>)
    requires
        is_prefix_of(ls, ms),
        parse_lines(ls) is Err,
    ensures
        parse_lines(ms) == parse_lines(ls),
    decreases ms.len(),
{
    if ms.len() == ls.len() {
        assert(ms.take(ls.len() as int) =~= ms);
    } else {
        let init = ms.drop_last();
        assert(init.take(ls.len() as int) =~= ms.take(ls.len() as int));
        lemma_error_stays(ls, init);
    }
}

impl Config {
    pub open spec fn wf(&self) -> bool {
        config_wf(self@)
    }

    /// A configuration with no lines.
    pub fn new() -> (r: Config)
        ensures
            r@ == empty_view(),
            r.wf(),
    {
        let r = Config { lines: Vec::new(), binds: Vec::new() };
        assert(r@.lines =~= Seq::<LineView>::empty());
        assert(r@.binds =~= Seq::<KeybindView>::empty());
        r
    }

    /// Adds the line `a..end` of `text`, read as `read_line` reads it.
    fn absorb(&mut self, text: &str, chars: &Vec<char>, a: usize, end: usize) -> (ok: bool)
        requires
            chars@ == text@,
            a <= end <= chars.len(),
            old(self).wf(),
            !chars@.subrange(a as int, end as int).contains('\n'),
        ensures
            ok == (step(old(self)@, chars@.subrange(a as int, end as int)) is Some),
            ok ==> final(self)@ == step(old(self)@, chars@.subrange(a as int, end as int))->0,
            !ok ==> final(self)@ == old(self)@,
            final(self).wf(),
    {
        let ghost l = chars@.subrange(a as int, end as int);
        let ghost before = self@;
        match read_line(text, chars, a, end) {
            LineRead::Plain => {
                let t = String::from_str(text.substring_char(a, end));
                self.lines.push(Line::Text(t));
                proof {
                    assert(self@.lines =~= before.lines.push(LineView::Text(l)));
                    assert(self@.binds =~= before.binds);
                    assert(self@.lines.drop_last() =~= before.lines);
                    assert forall|i: int| 0 <= i < self@.lines.len() implies (#[trigger] self@.lines[i] matches LineView::Text(t) ==> plain_line_ok(t)) by {
                        if i < before.lines.len() {
                            assert(self@.lines[i] == before.lines[i]);
                        }
                    }
                }
                true
            },
            LineRead::Bind(b) => {
                self.lines.push(Line::Bind);
                self.binds.push(b);
                proof {
                    assert(self@.lines =~= before.lines.push(LineView::Bind));
                    assert(self@.binds =~= before.binds.push(b@));
                    assert(self@.lines.drop_last() =~= before.lines);
                    assert forall|i: int| 0 <= i < self@.lines.len() implies (#[trigger] self@.lines[i] matches LineView::Text(t) ==> plain_line_ok(t)) by {
                        if i < before.lines.len() {
                            assert(self@.lines[i] == before.lines[i]);
                        }
                    }
                }
                true
            },
            LineRead::Malformed => false,
        }
    }

    /// Loads a file text: every line is kept, bind lines as records.
    pub fn parse(text: &str) -> (r: Result<Config, ParseError>)
        ensures
            match r {
                Ok(c) => parse_text(text@) == Ok::<ConfigView, (int, Seq<char>)>(c@) && c.wf(),
                Err(e) => parse_text(text@) == Err::<ConfigView, (int, Seq<char>)>((e.line_number as int, e.line@)),
            },
    {
        let chars = chars_of(text);
        let n = chars.len();
        let mut cfg = Config::new();
        let ghost mut done: Seq<Seq<char>> = Seq::empty();
        let mut count: usize = 0;
        let mut start: usize = 0;
        let mut i: usize = 0;
        while i < n
            invariant
                n == chars.len(),
                chars@ == text@,
                start <= i <= n,
                count == done.len(),
                count <= start,
                lines_of(chars@.take(i as int)) == (done, chars@.subrange(start as int, i as int)),
                !chars@.subrange(start as int, i as int).contains('\n'),
                parse_lines(done) == Ok::<ConfigView, (int, Seq<char>)>(cfg@),
                cfg.wf(),
            decreases n - i,
        {
            let ghost cur = chars@.subrange(start as int, i as int);
            assert(chars@.take(i + 1).drop_last() =~= chars@.take(i as int));
            assert(chars@.take(i + 1).last() == chars@[i as int]);
            if chars[i] == '\n' {
                let ok = cfg.absorb(text, &chars, start, i);
                proof {
                    assert(done.push(cur).drop_last() =~= done);
                    lemma_lines_prefix(chars@, i + 1);
                    if !ok {
                        lemma_error_stays(done.push(cur), split_lines(chars@));
                    }
                }
                if !ok {
                    let line = String::from_str(text.substring_char(start, i));
                    return Err(ParseError { line_number: count + 1, line });
                }
                proof {
                    done = done.push(cur);
                }
                count = count + 1;
                start = i + 1;
                assert(chars@.subrange(start as int, start as int) =~= Seq::<char>::empty());
            } else {
                assert(chars@.subrange(start as int, i + 1) =~= cur.push(chars@[i as int]));
                assert(!chars@.subrange(start as int, i + 1).contains('\n')) by {
                    let s2 = chars@.subrange(start as int, i + 1);
                    if s2.contains('\n') {
                        let j = choose|j: int| 0 <= j < s2.len() && s2[j] == '\n';
                        if j < cur.len() {
                            assert(cur[j] == '\n');
                        }
                    }
                }
            }
            i = i + 1;
        }
        assert(chars@.take(n as int) =~= chars@);
        if start < n {
            let ghost cur = chars@.subrange(start as int, n as int);
            let ok = cfg.absorb(text, &chars, start, n);
            proof {
                assert(done.push(cur).drop_last() =~= done);
            }
            if !ok {
                let line = String::from_str(text.substring_char(start, n));
                return Err(ParseError { line_number: count + 1, line });
            }
        }
        Ok(cfg)
    }
}

/// The bind lines of records, in order.
pub open spec fn bind_lines(binds: Seq<KeybindView>) -> Seq<Seq<char>> {
    binds.map_values(|b: KeybindView| bind_line(b))
}

/// The text of the given records alone: one bind line each, in order, each
/// ended by a line break.
pub fn update_binds(binds: Vec<Keybind>) -> (r: String)
    ensures
        r@ == join_lines(bind_lines(binds@.map_values(|b: Keybind| b@))),
{
    let ghost views = binds@.map_values(|b: Keybind| b@);
    let mut out = String::new();
    let mut i: usize = 0;
    while i < binds.len()
        invariant
            i <= binds.len(),
            views == binds@.map_values(|b: Keybind| b@),
            out@ == join_lines(bind_lines(views).take(i as int)),
        decreases binds.len() - i,
    {
        let line = binds[i].to_line();
        out.append(line.as_str());
        out.append("\n");
        proof {
            reveal_strlit("\n");
            let ls = bind_lines(views);
            assert(ls.take(i + 1).drop_last() =~= ls.take(i as int));
            assert(ls.take(i + 1).last() == line@);
        }
        i = i + 1;
    }
    assert(bind_lines(views).take(i as int) =~= bind_lines(views));
    out
}

impl Config {
    /// The file text: passthrough lines as they were read and one bind line
    /// per record, in order, each ended by a line break.
    pub fn to_text(&self) -> (r: String)
        requires
            self.wf(),
        ensures
            r@ == render(self@),
    {
        let ghost c = self@;
        let mut out = String::new();
        let mut j: usize = 0;
        let mut i: usize = 0;
        while i < self.lines.len()
            invariant
                c == self@,
                config_wf(c),
                i <= self.lines.len(),
                j == slot_count(c.lines.take(i as int)),
                j <= self.binds.len(),
                out@ == join_lines(rendered(c.lines.take(i as int), c.binds.take(j as int))),
            decreases self.lines.len() - i,
        {
            proof {
                lemma_slot_count_prefix(c.lines, i + 1);
                reveal_strlit("\n");
                assert(c.lines.take(i + 1).drop_last() =~= c.lines.take(i as int));
                assert(c.lines.take(i + 1).last() == c.lines[i as int]);
            }
            match &self.lines[i] {
                Line::Text(t) => {
                    let ghost prev = rendered(c.lines.take(i as int), c.binds.take(j as int));
                    out.append(t.as_str());
                    out.append("\n");
                    proof {
                        assert(c.lines[i as int] == LineView::Text(t@));
                        assert(prev.push(t@).drop_last() =~= prev);
                        assert(out@ =~= join_lines(prev) + t@ + seq!['\n']);
                    }
                },
                Line::Bind => {
                    let line = self.binds[j].to_line();
                    out.append(line.as_str());
                    out.append("\n");
                    proof {
                        let prev = rendered(c.lines.take(i as int), c.binds.take(j as int));
                        assert(c.lines[i as int] == LineView::Bind);
                        assert(c.binds.take(j + 1).drop_last() =~= c.binds.take(j as int));
                        assert(c.binds.take(j + 1).last() == c.binds[j as int]);
                        assert(prev.push(line@).drop_last() =~= prev);
                        assert(out@ =~= join_lines(prev) + line@ + seq!['\n']);
                    }
                    j = j + 1;
                },
            }
            i = i + 1;
        }
        proof {
            assert(c.lines.take(i as int) =~= c.lines);
            assert(c.binds.take(j as int) =~= c.binds);
        }
        out
    }
}

/// The view of an optional field.
pub open spec fn opt_view(o: Option<&str>) -> Option<Seq<char>> {
    match o {
        Some(s) => Some(s@),
        None => None,
    }
}

/// What a create does: refuses bad keys, then a duplicate (same keys in
/// lowercase, same mode); otherwise appends the record and its bind line.
pub open spec fn new_outcome(
    c: ConfigView,
    keys: Seq<char>,
    action: Seq<char>,
    flag: Option<Seq<char>>,
) -> Result<ConfigView, EditError> {
    let mode = release_mode(flag);
    if key_invalid(keys) {
        Err(EditError::InvalidKey)
    } else if is_duplicate(c.binds, keys, mode) {
        Err(EditError::DuplicateBind)
    } else {
        Ok(
            ConfigView {
                lines: c.lines.push(LineView::Bind),
                binds: c.binds.push(KeybindView { keys, mode, action }),
            },
        )
    }
}

/// What an edit does: refuses an id that is no integer or names no record;
/// otherwise replaces the fields of that record that are not `n/a`.
pub open spec fn edit_outcome(
    c: ConfigView,
    id: Seq<char>,
    keys: Seq<char>,
    action: Seq<char>,
    release: Seq<char>,
) -> Result<ConfigView, EditError> {
    match index_of_id(id, c.binds.len()) {
        Err(e) => Err(e),
        Ok(k) => Ok(
            ConfigView {
                lines: c.lines,
                binds: c.binds.update(k, edited(c.binds[k], keys, action, release)),
            },
        ),
    }
}

/// One record as a listing shows it, with its id counted from 1.
pub struct ListEntry {
    pub index: usize,
    pub keys: String,
    pub mode: TriggerMode,
    pub action: String,
}

impl Config {
    /// The number of records.
    pub fn len(&self) -> (r: usize)
        ensures
            r == self@.binds.len(),
    {
        self.binds.len()
    }

    /// The record at `i`, counted from 0.
    pub fn get(&self, i: usize) -> (r: &Keybind)
        requires
            i < self@.binds.len(),
        ensures
            r@ == self@.binds[i as int],
    {
        &self.binds[i]
    }

    /// Creates a record: `keys` must not be empty nor start with `+`, and no
    /// record may have the same keys (in lowercase) and mode. The mode is
    /// press without a flag, else release unless the flag reads `pressed` or
    /// `false`. On failure nothing changes.
    pub fn new_bind(&mut self, keys: &str, action: &str, release: Option<&str>) -> (r: Result<(), EditError>)
        requires
            old(self).wf(),
        ensures
            final(self).wf(),
            match r {
                Ok(_) => new_outcome(old(self)@, keys@, action@, opt_view(release))
                    == Ok::<ConfigView, EditError>(final(self)@),
                Err(e) => new_outcome(old(self)@, keys@, action@, opt_view(release))
                    == Err::<ConfigView, EditError>(e) && final(self)@ == old(self)@,
            },
    {
        let mode = release_mode_of(release);
        check_keys(keys)?;
        if has_duplicate(&self.binds, keys, mode) {
            return Err(EditError::DuplicateBind);
        }
        let ghost before = self@;
        let b = Keybind { keys: String::from_str(keys), mode, action: String::from_str(action) };
        self.lines.push(Line::Bind);
        self.binds.push(b);
        proof {
            assert(self@.lines =~= before.lines.push(LineView::Bind));
            assert(self@.binds =~= before.binds.push(b@));
            assert(self@.lines.drop_last() =~= before.lines);
            assert forall|i: int| 0 <= i < self@.lines.len() implies (#[trigger] self@.lines[i] matches LineView::Text(t) ==> plain_line_ok(t)) by {
                if i < before.lines.len() {
                    assert(self@.lines[i] == before.lines[i]);
                }
            }
        }
        Ok(())
    }

    /// Edits the record with the 1-based `id`: each of `keys`, `action` and
    /// `release` replaces its field unless it reads `n/a` in any case;
    /// `release` sets release mode when it reads `true` and press mode
    /// otherwise. An id that is no integer or names no record changes
    /// nothing.
    pub fn edit_bind(&mut self, id: &str, keys: &str, action: &str, release: &str) -> (r: Result<(), EditError>)
        requires
            old(self).wf(),
        ensures
            final(self).wf(),
            match r {
                Ok(_) => edit_outcome(old(self)@, id@, keys@, action@, release@)
                    == Ok::<ConfigView, EditError>(final(self)@),
                Err(e) => edit_outcome(old(self)@, id@, keys@, action@, release@)
                    == Err::<ConfigView, EditError>(e) && final(self)@ == old(self)@,
            },
    {
        let k = index_from_id(id, self.binds.len())?;
        let ghost before = self@;
        let cur = &self.binds[k];
        let new_keys = if field_is_unset(keys) {
            cur.keys.clone()
        } else {
            String::from_str(keys)
        };
        let new_action = if field_is_unset(action) {
            cur.action.clone()
        } else {
            String::from_str(action)
        };
        let new_mode = edited_mode_of(cur.mode, release);
        let b = Keybind { keys: new_keys, mode: new_mode, action: new_action };
        assert(b@ == edited(before.binds[k as int], keys@, action@, release@));
        self.binds.set(k, b);
        proof {
            assert(self@.binds =~= before.binds.update(k as int, b@));
            assert(self@.lines =~= before.lines);
        }
        Ok(())
    }

    /// The records in order, each with its id counted from 1.
    pub fn list(&self) -> (r: Vec<ListEntry>)
        ensures
            r.len() == self@.binds.len(),
            forall|i: int|
                0 <= i < r.len() ==> (#[trigger] r[i]).index == i + 1 && r[i].keys@
                    == self@.binds[i].keys && r[i].mode == self@.binds[i].mode && r[i].action@
                    == self@.binds[i].action,
    {
        let mut out: Vec<ListEntry> = Vec::new();
        let mut i: usize = 0;
        while i < self.binds.len()
            invariant
                i <= self.binds.len(),
                out.len() == i,
                forall|j: int|
                    0 <= j < i ==> (#[trigger] out[j]).index == j + 1 && out[j].keys@
                        == self@.binds[j].keys && out[j].mode == self@.binds[j].mode
                        && out[j].action@ == self@.binds[j].action,
            decreases self.binds.len() - i,
        {
            let b = &self.binds[i];
            out.push(ListEntry { index: i + 1, keys: b.keys.clone(), mode: b.mode, action: b.action.clone() });
            i = i + 1;
        }
        out
    }
}

} // verus!
