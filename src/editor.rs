use vstd::prelude::*;

use crate::fold::{field_is_unset, is_unset, lower_of, lowercase};
use crate::record::{Keybind, KeybindView, TriggerMode};
use crate::text::chars_of;

verus! {

/// Why a create or an edit was refused.
#[derive(Clone, Copy, Debug, PartialEq, Eq, Structural)]
pub enum EditError {
    InvalidKey,
    DuplicateBind,
    IndexOutOfRange,
    InvalidId,
}

/// A key combination that cannot be created: empty, or starting with `+`
/// (what a shell leaves of an unquoted `$mod+x`).
pub open spec fn key_invalid(keys: Seq<char>) -> bool {
    keys.len() == 0 || keys[0] == '+'
}

/// The trigger mode that a create asks for: press when no flag is given,
/// else release unless the flag reads `pressed` or `false` in any case.
pub open spec fn release_mode(flag: Option<Seq<char>>) -> TriggerMode {
    match flag {
        None => TriggerMode::Press,
        Some(f) => if lower_of(f) == "pressed"@ || lower_of(f) == "false"@ {
            TriggerMode::Press
        } else {
            TriggerMode::Release
        },
    }
}

/// Some record has the same keys, compared in lowercase, and the same mode.
pub open spec fn is_duplicate(binds: Seq<KeybindView>, keys: Seq<char>, mode: TriggerMode) -> bool {
    exists|i: int|
        0 <= i < binds.len() && lower_of(#[trigger] binds[i].keys) == lower_of(keys) && binds[i].mode
            == mode
}

/// The mode that an edit leaves: unchanged for `n/a`, release for `true`,
/// press for anything else.
pub open spec fn edited_mode(old: TriggerMode, release: Seq<char>) -> TriggerMode {
    if is_unset(release) {
        old
    } else if release == "true"@ {
        TriggerMode::Release
    } else {
        TriggerMode::Press
    }
}

/// A record after an edit: each field that is not `n/a` is replaced.
pub open spec fn edited(r: KeybindView, keys: Seq<char>, action: Seq<char>, release: Seq<char>) -> KeybindView {
    KeybindView {
        keys: if is_unset(keys) { r.keys } else { keys },
        mode: edited_mode(r.mode, release),
        action: if is_unset(action) { r.action } else { action },
    }
}

pub open spec fn is_digit(c: char) -> bool {
    '0' <= c <= '9'
}

/// The digits of an integer literal, without its sign.
pub open spec fn unsigned_part(s: Seq<char>) -> Seq<char> {
    if s.len() > 0 && (s[0] == '+' || s[0] == '-') {
        s.skip(1)
    } else {
        s
    }
}

/// An optional sign, then one or more decimal digits.
pub open spec fn is_int_literal(s: Seq<char>) -> bool {
    let d = unsigned_part(s);
    d.len() > 0 && forall|i: int| 0 <= i < d.len() ==> is_digit(#[trigger] d[i])
}

/// The value of a string of decimal digits.
pub open spec fn digits_value(d: Seq<char>) -> nat
    decreases d.len(),
{
    if d.len() == 0 {
        0
    } else {
        digits_value(d.drop_last()) * 10 + ((d.last() as u32) - ('0' as u32)) as nat
    }
}

/// The value of an integer literal.
pub open spec fn int_value(s: Seq<char>) -> int {
    if s.len() > 0 && s[0] == '-' {
        -digits_value(unsigned_part(s))
    } else {
        digits_value(unsigned_part(s)) as int
    }
}

/// The position, counted from 0, that a 1-based record id names among
/// `len` records.
pub open spec fn index_of_id(id: Seq<char>, len: nat) -> Result<int, EditError> {
    if !is_int_literal(id) {
        Err(EditError::InvalidId)
    } else if int_value(id) < 1 || int_value(id) > len {
        Err(EditError::IndexOutOfRange)
    } else {
        Ok(int_value(id) - 1)
    }
}

/// Checks the keys of a new record.
pub fn check_keys(keys: &str) -> (r: Result<(), EditError>)
    ensures
        r is Err <==> key_invalid(keys@),
        r is Err ==> r == Err::<(), EditError>(EditError::InvalidKey),
{
    let n = keys.unicode_len();
    if n == 0 || keys.get_char(0) == '+' {
        Err(EditError::InvalidKey)
    } else {
        Ok(())
    }
}

/// The trigger mode that a create's optional release flag asks for.
pub fn release_mode_of(flag: Option<&str>) -> (r: TriggerMode)
    ensures
        r == release_mode(
            match flag {
                Some(f) => Some(f@),
                None => None,
            },
        ),
{
    match flag {
        None => TriggerMode::Press,
        Some(f) => {
            let folded = lowercase(f);
            let pressed = String::from_str("pressed");
            let off = String::from_str("false");
            if folded == pressed || folded == off {
                TriggerMode::Press
            } else {
                TriggerMode::Release
            }
        },
    }
}

/// The mode that an edit's release field leaves on a record.
pub fn edited_mode_of(old: TriggerMode, release: &str) -> (r: TriggerMode)
    ensures
        r == edited_mode(old, release@),
{
    if field_is_unset(release) {
        old
    } else {
        let given = String::from_str(release);
        let yes = String::from_str("true");
        if given == yes {
            TriggerMode::Release
        } else {
            TriggerMode::Press
        }
    }
}

/// Each record's keys in lowercase, beside its mode.
pub fn fold_pairs(binds: &Vec<Keybind>) -> (r: Vec<(String, TriggerMode)>)
    ensures
        r.len() == binds.len(),
        forall|i: int|
            0 <= i < r.len() ==> (#[trigger] r[i]).0@ == lower_of(binds[i].keys@) && r[i].1
                == binds[i].mode,
{
    let mut out: Vec<(String, TriggerMode)> = Vec::new();
    let mut i: usize = 0;
    while i < binds.len()
        invariant
            i <= binds.len(),
            out.len() == i,
            forall|j: int|
                0 <= j < i ==> (#[trigger] out[j]).0@ == lower_of(binds[j].keys@) && out[j].1
                    == binds[j].mode,
        decreases binds.len() - i,
    {
        let folded = lowercase(binds[i].keys.as_str());
        out.push((folded, binds[i].mode));
        i = i + 1;
    }
    out
}

/// Tells whether a pair of folded keys and mode is among `pairs`.
pub fn contains_pair(pairs: &Vec<(String, TriggerMode)>, folded: &String, mode: TriggerMode) -> (r: bool)
    ensures
        r == exists|i: int| 0 <= i < pairs.len() && (#[trigger] pairs[i]).0@ == folded@ && pairs[i].1 == mode,
{
    let mut i: usize = 0;
    while i < pairs.len()
        invariant
            i <= pairs.len(),
            forall|j: int| 0 <= j < i ==> !((#[trigger] pairs[j]).0@ == folded@ && pairs[j].1 == mode),
        decreases pairs.len() - i,
    {
        if pairs[i].0 == *folded && pairs[i].1 == mode {
            return true;
        }
        i = i + 1;
    }
    false
}

/// Tells whether a record with the same keys, in lowercase, and the same
/// mode exists.
pub fn has_duplicate(binds: &Vec<Keybind>, keys: &str, mode: TriggerMode) -> (r: bool)
    ensures
        r == is_duplicate(binds@.map_values(|b: Keybind| b@), keys@, mode),
{
    let pairs = fold_pairs(binds);
    let folded = lowercase(keys);
    let r = contains_pair(&pairs, &folded, mode);
    let ghost views = binds@.map_values(|b: Keybind| b@);
    proof {
        if r {
            let i = choose|i: int| 0 <= i < pairs.len() && (#[trigger] pairs[i]).0@ == folded@ && pairs[i].1 == mode;
            assert(views[i] == binds[i]@);
            assert(lower_of(views[i].keys) == lower_of(keys@) && views[i].mode == mode);
        }
        if is_duplicate(views, keys@, mode) {
            let i = choose|i: int|
                0 <= i < views.len() && lower_of(#[trigger] views[i].keys) == lower_of(keys@) && views[i].mode == mode;
            assert(views[i] == binds[i]@);
            assert(pairs[i].0@ == folded@ && pairs[i].1 == mode);
        }
    }
    r
}

/// Reads a 1-based record id among `len` records.
pub fn index_from_id(id: &str, len: usize) -> (r: Result<usize, EditError>)
    ensures
        match r {
            Ok(k) => index_of_id(id@, len as nat) == Ok::<int, EditError>(k as int),
            Err(e) => index_of_id(id@, len as nat) == Err::<int, EditError>(e),
        },
{
    let chars = chars_of(id);
    let n = chars.len();
    let signed = n > 0 && (chars[0] == '+' || chars[0] == '-');
    let negative = n > 0 && chars[0] == '-';
    let first: usize = if signed { 1 } else { 0 };
    let ghost d = unsigned_part(id@);
    assert(d =~= chars@.subrange(first as int, n as int));
    if first >= n {
        return Err(EditError::InvalidId);
    }
    let mut v: usize = 0;
    let mut over = false;
    let mut i: usize = first;
    while i < n
        invariant
            first <= i <= n == chars.len(),
            d == chars@.subrange(first as int, n as int),
            d == unsigned_part(id@),
            forall|j: int| 0 <= j < i - first ==> is_digit(#[trigger] d[j]),
            over == (digits_value(d.take(i - first)) > len),
            !over ==> v == digits_value(d.take(i - first)),
        decreases n - i,
    {
        let c = chars[i];
        if c < '0' || c > '9' {
            assert(d[i - first] == c);
            assert(!is_digit(d[i - first]));
            return Err(EditError::InvalidId);
        }
        let digit = (c as u32 - '0' as u32) as usize;
        let ghost prev = d.take(i - first);
        proof {
            assert(d.take(i - first + 1).drop_last() =~= prev);
            assert(d.take(i - first + 1).last() == c);
            assert(digits_value(d.take(i - first + 1)) == digits_value(prev) * 10 + digit);
        }
        if !over {
            if v <= len / 10 {
                assert(v * 10 <= len) by (nonlinear_arith)
                    requires v <= len / 10;
                let t = v * 10;
                if digit <= len - t {
                    v = t + digit;
                } else {
                    over = true;
                }
            } else {
                assert(v * 10 > len) by (nonlinear_arith)
                    requires v > len / 10;
                over = true;
            }
        } else {
            assert(digits_value(prev) * 10 >= digits_value(prev)) by (nonlinear_arith);
        }
        i = i + 1;
    }
    assert(d.take(n - first) =~= d);
    if negative || over || v == 0 {
        Err(EditError::IndexOutOfRange)
    } else {
        Ok(v - 1)
    }
}

} // verus!
