//! Key-to-action mapping: Vim and Emacs bindings converging on one action set.
//! Unmapped keys yield `None`, which the caller ignores.
use vstd::prelude::*;

verus! {

/// A key, as the terminal reports it.
#[derive(Debug, Clone, Copy, PartialEq, Eq, Structural)]
pub enum KeyCode {
    Backspace,
    Enter,
    Left,
    Right,
    Up,
    Down,
    Home,
    End,
    PageUp,
    PageDown,
    Tab,
    BackTab,
    Delete,
    Insert,
    F(u8),
    Char(char),
    Null,
    Esc,
    CapsLock,
    ScrollLock,
    NumLock,
    PrintScreen,
    Pause,
    Menu,
    KeypadBegin,
    /// A media key.
    Media,
    /// A modifier key pressed on its own.
    Modifier,
}

/// Held modifier keys, one bit each: shift, control, alt, super, hyper, meta.
#[derive(Debug, Clone, Copy, PartialEq, Eq, Structural)]
pub struct KeyModifiers {
    pub bits: u8,
}

impl KeyModifiers {
    pub fn none() -> (m: KeyModifiers)
        ensures
            m.bits == 0,
    {
        KeyModifiers { bits: 0 }
    }

    pub fn shift() -> (m: KeyModifiers)
        ensures
            m.bits == 1,
    {
        KeyModifiers { bits: 1 }
    }

    pub fn control() -> (m: KeyModifiers)
        ensures
            m.bits == 2,
    {
        KeyModifiers { bits: 2 }
    }

    pub fn alt() -> (m: KeyModifiers)
        ensures
            m.bits == 4,
    {
        KeyModifiers { bits: 4 }
    }

    /// Whether control is among the held modifiers.
    pub open spec fn has_control(self) -> bool {
        self.bits & 2 == 2
    }

    pub fn contains_control(&self) -> (r: bool)
        ensures
            r == self.has_control(),
    {
        self.bits & 2 == 2
    }
}

/// A key press.
#[derive(Debug, Clone, Copy, PartialEq, Eq, Structural)]
pub struct KeyEvent {
    pub code: KeyCode,
    pub modifiers: KeyModifiers,
}

impl KeyEvent {
    pub fn new(code: KeyCode, modifiers: KeyModifiers) -> (k: KeyEvent)
        ensures
            k.code == code,
            k.modifiers == modifiers,
    {
        KeyEvent { code, modifiers }
    }
}

/// UI-level intent decoded from a key press.
#[derive(Debug, Clone, Copy, PartialEq, Eq, Structural)]
pub enum KeyAction {
    NextChat,
    PrevChat,
    Open,
    Palette,
    Compose,
    Quit,
}

/// The binding table: control chords first, then plain keys.
pub open spec fn key_action(key: KeyEvent) -> Option<KeyAction> {
    let ctrl = key.modifiers.has_control();
    let plain = key.modifiers.bits == 0;
    match key.code {
        KeyCode::Char(c) => if c == 'q' && ctrl {
            Some(KeyAction::Quit)
        } else if c == 'k' && ctrl {
            Some(KeyAction::Palette)
        } else if c == 'n' && ctrl {
            Some(KeyAction::NextChat)
        } else if c == 'p' && ctrl {
            Some(KeyAction::PrevChat)
        } else if c == 'j' && plain {
            Some(KeyAction::NextChat)
        } else if c == 'k' && plain {
            Some(KeyAction::PrevChat)
        } else if c == 'i' && plain {
            Some(KeyAction::Compose)
        } else if c == '/' {
            Some(KeyAction::Palette)
        } else {
            None
        },
        KeyCode::Enter => Some(KeyAction::Open),
        _ => None,
    }
}

/// Maps a key press to its action; unbound keys give `None`.
pub fn map_key(key: KeyEvent) -> (r: Option<KeyAction>)
    ensures
        r == key_action(key),
{
    let ctrl = key.modifiers.contains_control();
    let plain = key.modifiers.bits == 0;
    match key.code {
        KeyCode::Char(c) => {
            if c == 'q' && ctrl {
                Some(KeyAction::Quit)
            } else if c == 'k' && ctrl {
                Some(KeyAction::Palette)
            } else if c == 'n' && ctrl {
                Some(KeyAction::NextChat)
            } else if c == 'p' && ctrl {
                Some(KeyAction::PrevChat)
            } else if c == 'j' && plain {
                Some(KeyAction::NextChat)
            } else if c == 'k' && plain {
                Some(KeyAction::PrevChat)
            } else if c == 'i' && plain {
                Some(KeyAction::Compose)
            } else if c == '/' {
                Some(KeyAction::Palette)
            } else {
                None
            }
        },
        KeyCode::Enter => Some(KeyAction::Open),
        _ => None,
    }
}

/// The actions a key stream folds into: unbound keys are skipped and the
/// stream ends with the first `Quit`.
pub open spec fn scripted(keys: Seq<KeyEvent>) -> Seq<KeyAction>
    decreases keys.len(),
{
    if keys.len() == 0 {
        Seq::empty()
    } else {
        match key_action(keys[0]) {
            Some(KeyAction::Quit) => seq![KeyAction::Quit],
            Some(a) => seq![a] + scripted(keys.drop_first()),
            None => scripted(keys.drop_first()),
        }
    }
}

/// Folds a scripted key stream into actions, stopping after `Quit`: keys past
/// it are never processed. `_selected` names the chat the stream acts on.
pub fn run_scripted(_selected: &str, keys: &[KeyEvent]) -> (r: Vec<KeyAction>)
    ensures
        r@ == scripted(keys@),
{
    let mut out: Vec<KeyAction> = Vec::new();
    let mut i: usize = 0;
    proof {
        assert(keys@.skip(0) =~= keys@);
        assert(out@ + scripted(keys@) =~= scripted(keys@));
    }
    while i < keys.len()
        invariant
            i <= keys@.len(),
            out@ + scripted(keys@.skip(i as int)) == scripted(keys@),
        decreases keys.len() - i,
    {
        let ghost rest = keys@.skip(i as int);
        proof {
            assert(rest.drop_first() =~= keys@.skip(i + 1));
            assert(rest[0] == keys@[i as int]);
        }
        match map_key(keys[i]) {
            Some(KeyAction::Quit) => {
                out.push(KeyAction::Quit);
                proof {
                    assert(out@ =~= out@.drop_last() + seq![KeyAction::Quit]);
                }
                return out;
            },
            Some(a) => {
                let ghost before = out@;
                out.push(a);
                proof {
                    assert(out@ + scripted(keys@.skip(i + 1)) =~= before + (seq![a] + scripted(
                        keys@.skip(i + 1),
                    )));
                }
            },
            None => {},
        }
        i = i + 1;
    }
    proof {
        assert(keys@.skip(i as int) =~= Seq::<KeyEvent>::empty());
        assert(out@ + Seq::<KeyAction>::empty() =~= out@);
    }
    out
}

/// Law: nothing after the first `Quit` matters: a stream that quits gives
/// the same actions whatever follows it.
pub proof fn lemma_quit_ends_stream(before: Seq<KeyEvent>, quit: KeyEvent, after: Seq<KeyEvent>)
    requires
        key_action(quit) == Some(KeyAction::Quit),
    ensures
        scripted(before + seq![quit] + after) == scripted(before + seq![quit]),
    decreases before.len(),
{
    if before.len() == 0 {
        assert((before + seq![quit] + after)[0] == quit);
        assert((before + seq![quit])[0] == quit);
    } else {
        let s1 = before + seq![quit] + after;
        let s2 = before + seq![quit];
        assert(s1[0] == before[0]);
        assert(s2[0] == before[0]);
        assert(s1.drop_first() =~= before.drop_first() + seq![quit] + after);
        assert(s2.drop_first() =~= before.drop_first() + seq![quit]);
        lemma_quit_ends_stream(before.drop_first(), quit, after);
    }
}

/// Law: a folded stream holds at most one `Quit`, and only as its last action.
pub proof fn lemma_quit_is_last(keys: Seq<KeyEvent>)
    ensures
        forall|i: int|
            0 <= i < scripted(keys).len() && #[trigger] scripted(keys)[i] == KeyAction::Quit ==> i
                == scripted(keys).len() - 1,
    decreases keys.len(),
{
    if keys.len() > 0 {
        lemma_quit_is_last(keys.drop_first());
        match key_action(keys[0]) {
            Some(KeyAction::Quit) => {},
            Some(a) => {
                let rest = scripted(keys.drop_first());
                assert forall|i: int|
                    0 <= i < scripted(keys).len() && #[trigger] scripted(keys)[i] == KeyAction::Quit
                        implies i == scripted(keys).len() - 1 by {
                    if i > 0 {
                        assert(scripted(keys)[i] == rest[i - 1]);
                    }
                }
            },
            None => {},
        }
    }
}

} // verus!
