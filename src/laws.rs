use vstd::prelude::*;

use crate::config::{
    config_wf, edit_outcome, new_outcome, parse_lines, parse_text, plain_line_ok, render, rendered,
    slot_count, ConfigView, LineView,
};
use crate::editor::{edited, index_of_id, int_value, is_int_literal, key_invalid, release_mode, EditError};
use crate::fold::{is_unset, lower_of};
use crate::parser::{is_bind_line, lemma_tail_of, read_line_spec, tail_parses, LineReading};
use crate::record::{
    bind_line, bind_prefix, exec_sep, keys_are_token, record_fits_line, release_tag, KeybindView,
    TriggerMode,
};
use crate::text::{lemma_split_join, no_breaks};

verus! {

/// A record whose keys are one token reads back from its own bind line.
pub proof fn lemma_bind_line_reads_back(r: KeybindView)
    requires
        record_fits_line(r),
    ensures
        read_line_spec(bind_line(r)) == LineReading::Bind(r),
{
    let l = bind_line(r);
    let flag = if r.mode == TriggerMode::Release {
        release_tag()
    } else {
        Seq::<char>::empty()
    };
    let tail = r.keys + exec_sep() + r.action;
    assert(l =~= bind_prefix() + (flag + tail));
    assert(is_bind_line(l)) by {
        assert forall|i: int| 0 <= i < 7 implies (l[i] == bind_prefix()[i]) by {}
    }
    assert(l[7] == ' ');
    let rest = l.skip(8);
    assert(rest =~= flag + tail);
    assert(!r.keys.contains(' '));
    assert(tail_parses(tail, r.keys, r.action));
    lemma_tail_of(tail, r.keys, r.action);
    if r.mode == TriggerMode::Release {
        assert(rest.take(10) =~= release_tag());
        assert(rest.skip(10) =~= tail);
    } else {
        assert(rest =~= tail);
        if rest.len() >= 10 && rest.take(10) == release_tag() {
            let n = r.keys.len() as int;
            if n < 9 {
                assert(rest[n] == ' ');
                assert(rest.take(10)[n] == rest[n]);
                assert(release_tag()[n] != ' ');
            } else if n == 9 {
                assert(r.keys =~= release_tag().take(9)) by {
                    assert forall|j: int| 0 <= j < 9 implies r.keys[j] == release_tag().take(9)[j] by {
                        assert(rest[j] == r.keys[j]);
                        assert(rest.take(10)[j] == rest[j]);
                    }
                }
            } else {
                assert(rest[9] == r.keys[9]);
                assert(rest.take(10)[9] == rest[9]);
                assert(r.keys.contains(' '));
            }
        }
    }
}

/// Every rendered line of a well-formed configuration holds no line break.
proof fn lemma_rendered_no_breaks(lines: Seq<LineView>, binds: Seq<KeybindView>)
    requires
        slot_count(lines) == binds.len(),
        forall|i: int| 0 <= i < lines.len() ==> (#[trigger] lines[i] matches LineView::Text(t) ==> plain_line_ok(t)),
        forall|i: int| 0 <= i < binds.len() ==> record_fits_line(#[trigger] binds[i]),
    ensures
        no_breaks(rendered(lines, binds)),
        parse_lines(rendered(lines, binds)) == Ok::<ConfigView, (int, Seq<char>)>(ConfigView { lines, binds }),
    decreases lines.len(),
{
    if lines.len() > 0 {
        let init = lines.drop_last();
        let bs = if lines.last() is Bind {
            binds.drop_last()
        } else {
            binds
        };
        assert forall|i: int| 0 <= i < init.len() implies (#[trigger] init[i] matches LineView::Text(t) ==> plain_line_ok(t)) by {
            assert(init[i] == lines[i]);
        }
        assert forall|i: int| 0 <= i < bs.len() implies record_fits_line(#[trigger] bs[i]) by {
            assert(bs[i] == binds[i]);
        }
        lemma_rendered_no_breaks(init, bs);
        let prev = rendered(init, bs);
        let ls = rendered(lines, binds);
        assert(lines[lines.len() - 1] == lines.last());
        let last_line = match lines.last() {
            LineView::Text(t) => t,
            LineView::Bind => bind_line(binds.last()),
        };
        assert(ls == prev.push(last_line));
        assert(ls.drop_last() =~= prev);
        match lines.last() {
            LineView::Text(t) => {
                assert(plain_line_ok(t));
                assert(read_line_spec(t) == LineReading::Plain);
                assert(init.push(LineView::Text(t)) =~= lines);
            },
            LineView::Bind => {
                let r = binds.last();
                assert(record_fits_line(binds[binds.len() - 1]));
                lemma_bind_line_reads_back(r);
                assert(!bind_line(r).contains('\n')) by {
                    let flag = if r.mode == TriggerMode::Release {
                        release_tag()
                    } else {
                        Seq::<char>::empty()
                    };
                    let l = bind_line(r);
                    if l.contains('\n') {
                        let j = choose|j: int| 0 <= j < l.len() && l[j] == '\n';
                        let a = bind_prefix().len() + flag.len();
                        let b = a + r.keys.len();
                        let e = b + 6;
                        if j >= a && j < b {
                            assert(r.keys[j - a] == '\n');
                        } else if j >= e {
                            assert(r.action[j - e] == '\n');
                        }
                    }
                }
                assert(init.push(LineView::Bind) =~= lines);
                assert(bs.push(r) =~= binds);
            },
        }
        assert forall|i: int| 0 <= i < ls.len() implies !(#[trigger] ls[i]).contains('\n') by {
            if i < prev.len() {
                assert(ls[i] == prev[i]);
            }
        }
    } else {
        assert(ConfigView { lines, binds } == ConfigView { lines: Seq::empty(), binds: Seq::empty() }) by {
            assert(lines =~= Seq::<LineView>::empty());
            assert(binds =~= Seq::<KeybindView>::empty());
        }
    }
}

/// Round trip: reading the text of a configuration whose records each fit
/// their bind line gives that configuration back, so writing it again gives
/// the same text, byte for byte.
pub proof fn lemma_round_trip(c: ConfigView)
    requires
        config_wf(c),
        forall|i: int| 0 <= i < c.binds.len() ==> record_fits_line(#[trigger] c.binds[i]),
    ensures
        parse_text(render(c)) == Ok::<ConfigView, (int, Seq<char>)>(c),
        render(parse_text(render(c))->Ok_0) == render(c),
{
    lemma_rendered_no_breaks(c.lines, c.binds);
    lemma_split_join(rendered(c.lines, c.binds));
}

/// A create whose keys equal an existing record's keys in lowercase, with
/// that record's mode, is refused as a duplicate and changes nothing.
pub proof fn lemma_duplicate_refused(
    c: ConfigView,
    keys: Seq<char>,
    action: Seq<char>,
    flag: Option<Seq<char>>,
    i: int,
)
    requires
        0 <= i < c.binds.len(),
        lower_of(c.binds[i].keys) == lower_of(keys),
        c.binds[i].mode == release_mode(flag),
        !key_invalid(keys),
    ensures
        new_outcome(c, keys, action, flag) == Err::<ConfigView, EditError>(EditError::DuplicateBind),
{
}

/// A create with empty keys, or keys that start with `+`, is refused.
pub proof fn lemma_bad_keys_refused(
    c: ConfigView,
    keys: Seq<char>,
    action: Seq<char>,
    flag: Option<Seq<char>>,
)
    requires
        keys.len() == 0 || keys[0] == '+',
    ensures
        new_outcome(c, keys, action, flag) == Err::<ConfigView, EditError>(EditError::InvalidKey),
{
}

/// An edit with `n/a` in every field leaves the configuration as it was.
pub proof fn lemma_edit_unset_is_identity(
    c: ConfigView,
    id: Seq<char>,
    keys: Seq<char>,
    action: Seq<char>,
    release: Seq<char>,
)
    requires
        index_of_id(id, c.binds.len()) is Ok,
        is_unset(keys),
        is_unset(action),
        is_unset(release),
    ensures
        edit_outcome(c, id, keys, action, release) == Ok::<ConfigView, EditError>(c),
{
    let k = index_of_id(id, c.binds.len())->Ok_0;
    assert(edited(c.binds[k], keys, action, release) == c.binds[k]);
    assert(c.binds.update(k, c.binds[k]) =~= c.binds);
}

/// An edit that gives only a command replaces the command of the named
/// record and nothing else.
pub proof fn lemma_edit_action_only(
    c: ConfigView,
    id: Seq<char>,
    keys: Seq<char>,
    action: Seq<char>,
    release: Seq<char>,
)
    requires
        index_of_id(id, c.binds.len()) is Ok,
        is_unset(keys),
        !is_unset(action),
        is_unset(release),
    ensures
        ({
            let k = index_of_id(id, c.binds.len())->Ok_0;
            let after = edit_outcome(c, id, keys, action, release)->Ok_0;
            &&& edit_outcome(c, id, keys, action, release) is Ok
            &&& after.lines == c.lines
            &&& after.binds.len() == c.binds.len()
            &&& after.binds[k] == (KeybindView { action, ..c.binds[k] })
            &&& forall|j: int| 0 <= j < c.binds.len() && j != k ==> after.binds[j] == c.binds[j]
        }),
{
}

/// An edit whose id is an integer outside `1..=len` is refused as out of
/// range, and one whose id is no integer as an invalid id.
pub proof fn lemma_edit_bounds(
    c: ConfigView,
    id: Seq<char>,
    keys: Seq<char>,
    action: Seq<char>,
    release: Seq<char>,
)
    ensures
        is_int_literal(id) && (int_value(id) < 1 || int_value(id) > c.binds.len())
            ==> edit_outcome(c, id, keys, action, release) == Err::<ConfigView, EditError>(
            EditError::IndexOutOfRange,
        ),
        !is_int_literal(id) ==> edit_outcome(c, id, keys, action, release) == Err::<ConfigView, EditError>(
            EditError::InvalidId,
        ),
{
}

} // verus!
