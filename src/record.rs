use vstd::prelude::*;

verus! {

/// Whether a binding fires when its keys go down or when they come up.
#[derive(Clone, Copy, Debug, PartialEq, Eq, Structural)]
pub enum TriggerMode {
    Press,
    Release,
}

/// One binding: a key combination, when it fires, and the command it runs.
#[derive(Clone, Debug)]
pub struct Keybind {
    pub keys: String,
    pub mode: TriggerMode,
    pub action: String,
}

/// The mathematical value of a `Keybind`.
pub ghost struct KeybindView {
    pub keys: Seq<char>,
    pub mode: TriggerMode,
    pub action: Seq<char>,
}

impl View for Keybind {
    type V = KeybindView;

    open spec fn view(&self) -> KeybindView {
        KeybindView { keys: self.keys@, mode: self.mode, action: self.action@ }
    }
}

/// The record's key combination is one token that a bind line can carry
/// and read back: not empty, no space or line break, and not the release
/// flag itself.
pub open spec fn keys_are_token(keys: Seq<char>) -> bool {
    &&& keys.len() > 0
    &&& !keys.contains(' ')
    &&& !keys.contains('\n')
    &&& keys != release_tag().take(9)
}

/// A record that its bind line describes exactly.
pub open spec fn record_fits_line(r: KeybindView) -> bool {
    keys_are_token(r.keys) && !r.action.contains('\n')
}

/// `--release ` with its trailing space.
pub open spec fn release_tag() -> Seq<char> {
    seq!['-', '-', 'r', 'e', 'l', 'e', 'a', 's', 'e', ' ']
}

/// ` exec ` with its surrounding spaces.
pub open spec fn exec_sep() -> Seq<char> {
    seq![' ', 'e', 'x', 'e', 'c', ' ']
}

/// `bindsym ` with its trailing space.
pub open spec fn bind_prefix() -> Seq<char> {
    seq!['b', 'i', 'n', 'd', 's', 'y', 'm', ' ']
}

/// The bind line of a record, without its line break.
pub open spec fn bind_line(r: KeybindView) -> Seq<char> {
    let flag = if r.mode == TriggerMode::Release {
        release_tag()
    } else {
        Seq::<char>::empty()
    };
    bind_prefix() + flag + r.keys + exec_sep() + r.action
}

impl Keybind {
    /// The record's bind line, without its line break:
    /// `bindsym [--release ]<keys> exec <action>`.
    pub fn to_line(&self) -> (r: String)
        ensures
            r@ == bind_line(self@),
    {
        proof {
            reveal_strlit("bindsym ");
            reveal_strlit("--release ");
            reveal_strlit(" exec ");
        }
        let mut out = String::from_str("bindsym ");
        assert(out@ =~= bind_prefix());
        if self.mode == TriggerMode::Release {
            out.append("--release ");
        }
        out.append(self.keys.as_str());
        out.append(" exec ");
        out.append(self.action.as_str());
        let ghost flag = if self.mode == TriggerMode::Release {
            release_tag()
        } else {
            Seq::<char>::empty()
        };
        assert(out@ =~= bind_prefix() + flag + self.keys@ + exec_sep() + self.action@);
        out
    }
}

} // verus!
