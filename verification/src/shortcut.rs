//! The key combination that shows or hides the main window, read from its
//! text form ("CmdOrCtrl+Shift+N"), and the actions of the tray menu.

use vstd::prelude::*;
use crate::text::{to_chars, trim, trim_chars, split_char, split_on, views, chars_eq, lemma_split_char_concat, lemma_split_char_free};

verus! {

broadcast use vstd::string::group_string_axioms;

/// `c` in lower case when it is an ASCII capital (`char::to_ascii_lowercase`).
pub open spec fn ascii_lower(c: char) -> char {
    if 65 <= (c as u32) <= 90 {
        ((c as u32) + 32) as char
    } else {
        c
    }
}

/// `c` in upper case when it is an ASCII small letter (`char::to_ascii_uppercase`).
pub open spec fn ascii_upper(c: char) -> char {
    if 97 <= (c as u32) <= 122 {
        ((c as u32) - 32) as char
    } else {
        c
    }
}

/// `s` with ASCII capitals made small (`str::to_ascii_lowercase`).
pub open spec fn lower(s: Seq<char>) -> Seq<char> {
    Seq::new(s.len(), |i: int| ascii_lower(s[i]))
}

/// `s` with ASCII small letters made capital (`str::to_ascii_uppercase`).
pub open spec fn upper(s: Seq<char>) -> Seq<char> {
    Seq::new(s.len(), |i: int| ascii_upper(s[i]))
}

fn lower_char(c: char) -> (r: char)
    ensures
        r == ascii_lower(c),
{
    let u = c as u32;
    if 65 <= u && u <= 90 {
        ((u + 32) as u8) as char
    } else {
        c
    }
}

fn upper_char(c: char) -> (r: char)
    ensures
        r == ascii_upper(c),
{
    let u = c as u32;
    if 97 <= u && u <= 122 {
        ((u - 32) as u8) as char
    } else {
        c
    }
}

/// The characters of `v` with ASCII capitals made small.
pub fn lower_chars(v: &Vec<char>) -> (r: Vec<char>)
    ensures
        r@ == lower(v@),
{
    let mut r: Vec<char> = Vec::new();
    for i in 0..v.len()
        invariant
            r@ == lower(v@).take(i as int),
    {
        r.push(lower_char(v[i]));
        assert(lower(v@).take(i + 1) == lower(v@).take(i as int).push(ascii_lower(v@[i as int])));
    }
    assert(lower(v@).take(v@.len() as int) == lower(v@));
    r
}

/// The characters of `v` with ASCII small letters made capital.
pub fn upper_chars(v: &Vec<char>) -> (r: Vec<char>)
    ensures
        r@ == upper(v@),
{
    let mut r: Vec<char> = Vec::new();
    for i in 0..v.len()
        invariant
            r@ == upper(v@).take(i as int),
    {
        r.push(upper_char(v[i]));
        assert(upper(v@).take(i + 1) == upper(v@).take(i as int).push(ascii_upper(v@[i as int])));
    }
    assert(upper(v@).take(v@.len() as int) == upper(v@));
    r
}

/// A key that a shortcut can end in.
#[derive(Clone, Copy, Debug, PartialEq, Eq, Structural)]
pub enum KeyCode {
    /// The letter key, 0 for A up to 25 for Z.
    Letter(u8),
    /// The digit key, 0 to 9.
    Digit(u8),
    Space,
    Enter,
    Escape,
}

/// The key that a word names, case aside: one letter, one digit, "space",
/// "enter" or "escape".
pub open spec fn key_code_of(s: Seq<char>) -> Option<KeyCode> {
    let u = upper(s);
    if u.len() == 1 && 65 <= (u[0] as u32) <= 90 {
        Some(KeyCode::Letter(((u[0] as u32) - 65) as u8))
    } else if u.len() == 1 && 48 <= (u[0] as u32) <= 57 {
        Some(KeyCode::Digit(((u[0] as u32) - 48) as u8))
    } else if u == "SPACE"@ {
        Some(KeyCode::Space)
    } else if u == "ENTER"@ {
        Some(KeyCode::Enter)
    } else if u == "ESCAPE"@ {
        Some(KeyCode::Escape)
    } else {
        None
    }
}

/// The key that a word names.
pub fn code_from_str(s: &str) -> (r: Option<KeyCode>)
    ensures
        r == key_code_of(s@),
{
    let u = upper_chars(&to_chars(s));
    if u.len() == 1 && 65 <= (u[0] as u32) && (u[0] as u32) <= 90 {
        Some(KeyCode::Letter(((u[0] as u32) - 65) as u8))
    } else if u.len() == 1 && 48 <= (u[0] as u32) && (u[0] as u32) <= 57 {
        Some(KeyCode::Digit(((u[0] as u32) - 48) as u8))
    } else if chars_eq(&u, &to_chars("SPACE")) {
        Some(KeyCode::Space)
    } else if chars_eq(&u, &to_chars("ENTER")) {
        Some(KeyCode::Enter)
    } else if chars_eq(&u, &to_chars("ESCAPE")) {
        Some(KeyCode::Escape)
    } else {
        None
    }
}

/// The modifier keys of a shortcut.
#[derive(Clone, Copy, Debug, PartialEq, Eq, Structural)]
pub struct Modifiers {
    pub control: bool,
    pub shift: bool,
    pub alt: bool,
    pub super_key: bool,
}

/// A key combination.
#[derive(Clone, Copy, Debug, PartialEq, Eq, Structural)]
pub struct Shortcut {
    pub mods: Modifiers,
    pub key: KeyCode,
}

/// The words that mean the Control modifier.
pub open spec fn control_word(p: Seq<char>) -> bool {
    p == "ctrl"@ || p == "control"@ || p == "cmdorctrl"@ || p == "commandorcontrol"@
}

/// The words that mean the Shift modifier.
pub open spec fn shift_word(p: Seq<char>) -> bool {
    p == "shift"@
}

/// The words that mean the Alt modifier.
pub open spec fn alt_word(p: Seq<char>) -> bool {
    p == "alt"@ || p == "option"@
}

/// The words that mean the Super modifier.
pub open spec fn super_word(p: Seq<char>) -> bool {
    p == "super"@ || p == "meta"@ || p == "cmd"@ || p == "command"@
}

/// No modifier.
pub open spec fn no_mods() -> Modifiers {
    Modifiers { control: false, shift: false, alt: false, super_key: false }
}

/// The modifiers and the key that the '+'-separated parts of a shortcut
/// text give, taken in order: each part is trimmed and read case aside; a
/// modifier word adds its modifier; any other part names the key unless an
/// earlier part named one already.
pub open spec fn shortcut_parts(parts: Seq<Seq<char>>) -> (Modifiers, Option<KeyCode>)
    decreases parts.len(),
{
    if parts.len() == 0 {
        (no_mods(), None)
    } else {
        let prev = shortcut_parts(parts.drop_last());
        let m = prev.0;
        let k = prev.1;
        let p = lower(trim(parts.last()));
        if control_word(p) {
            (Modifiers { control: true, ..m }, k)
        } else if shift_word(p) {
            (Modifiers { shift: true, ..m }, k)
        } else if alt_word(p) {
            (Modifiers { alt: true, ..m }, k)
        } else if super_word(p) {
            (Modifiers { super_key: true, ..m }, k)
        } else {
            (
                m,
                match k {
                    Some(c) => Some(c),
                    None => key_code_of(p),
                },
            )
        }
    }
}

/// The shortcut that a text such as "CmdOrCtrl+Shift+N" describes; none
/// when no part names a key.
pub open spec fn shortcut_of(input: Seq<char>) -> Option<Shortcut> {
    let st = shortcut_parts(split_char(input, '+'));
    match st.1 {
        Some(k) => Some(Shortcut { mods: st.0, key: k }),
        None => None,
    }
}

/// A word that names a key is no modifier word.
proof fn lemma_key_word_is_no_modifier(p: Seq<char>)
    requires
        key_code_of(p) is Some,
    ensures
        !control_word(p),
        !shift_word(p),
        !alt_word(p),
        !super_word(p),
{
    reveal_strlit("ctrl");
    reveal_strlit("control");
    reveal_strlit("cmdorctrl");
    reveal_strlit("commandorcontrol");
    reveal_strlit("shift");
    reveal_strlit("alt");
    reveal_strlit("option");
    reveal_strlit("super");
    reveal_strlit("meta");
    reveal_strlit("cmd");
    reveal_strlit("command");
    reveal_strlit("SPACE");
    reveal_strlit("ENTER");
    reveal_strlit("ESCAPE");
    let u = upper(p);
    if p == "shift"@ || p == "super"@ {
        assert(u[1] == ascii_upper(p[1]));
        assert(u[1] != 'P' && u[1] != 'N');
    }
    if p == "option"@ {
        assert(u[0] == ascii_upper(p[0]));
        assert(u[0] != 'E');
    }
}

/// "ctrl", "control", "cmdorctrl" and "commandorcontrol", in any case and
/// with blanks around them or not, all mean Control: such a word, a '+'
/// and a word that names a key make the shortcut Control and that key.
pub proof fn law_control_words(a: Seq<char>, b: Seq<char>)
    requires
        lower(trim(a)) == "ctrl"@ || lower(trim(a)) == "control"@ || lower(trim(a)) == "cmdorctrl"@
            || lower(trim(a)) == "commandorcontrol"@,
        forall|i: int| 0 <= i < a.len() ==> #[trigger] a[i] != '+',
        forall|i: int| 0 <= i < b.len() ==> #[trigger] b[i] != '+',
        key_code_of(lower(trim(b))) is Some,
    ensures
        shortcut_of(a + seq!['+'] + b) == Some(
            Shortcut {
                mods: Modifiers { control: true, shift: false, alt: false, super_key: false },
                key: key_code_of(lower(trim(b)))->0,
            },
        ),
{
    assert(a + seq!['+'] + b == a.push('+') + b);
    lemma_split_char_concat(a, '+', b);
    lemma_split_char_free(a, '+');
    lemma_split_char_free(b, '+');
    let parts = split_char(a + seq!['+'] + b, '+');
    assert(seq![a] + seq![b] == seq![a, b]);
    assert(parts == seq![a, b]);
    lemma_key_word_is_no_modifier(lower(trim(b)));
    assert(parts.drop_last() == seq![a]);
    assert(seq![a].drop_last() == Seq::<Seq<char>>::empty());
    reveal_with_fuel(shortcut_parts, 3);
}

/// Whether `v` holds one of the given words.
fn is_one_of(v: &Vec<char>, w1: &str, w2: &str, w3: &str, w4: &str) -> (r: bool)
    ensures
        r == (v@ == w1@ || v@ == w2@ || v@ == w3@ || v@ == w4@),
{
    chars_eq(v, &to_chars(w1)) || chars_eq(v, &to_chars(w2)) || chars_eq(v, &to_chars(w3))
        || chars_eq(v, &to_chars(w4))
}

/// The shortcut that a text such as "CmdOrCtrl+Shift+N" describes.
pub fn parse_shortcut(input: &str) -> (r: Option<Shortcut>)
    ensures
        r == shortcut_of(input@),
{
    let parts = split_on(&to_chars(input), '+');
    let ghost ps = views(parts@);
    let mut mods = Modifiers { control: false, shift: false, alt: false, super_key: false };
    let mut key: Option<KeyCode> = None;
    assert(ps.take(0) == Seq::<Seq<char>>::empty());
    for i in 0..parts.len()
        invariant
            ps == views(parts@),
            (mods, key) == shortcut_parts(ps.take(i as int)),
    {
        assert(ps.take(i + 1).drop_last() == ps.take(i as int));
        assert(ps.take(i + 1).last() == parts@[i as int]@);
        let p = lower_chars(&trim_chars(&parts[i]));
        if is_one_of(&p, "ctrl", "control", "cmdorctrl", "commandorcontrol") {
            mods.control = true;
        } else if chars_eq(&p, &to_chars("shift")) {
            mods.shift = true;
        } else if chars_eq(&p, &to_chars("alt")) || chars_eq(&p, &to_chars("option")) {
            mods.alt = true;
        } else if is_one_of(&p, "super", "meta", "cmd", "command") {
            mods.super_key = true;
        } else if key.is_none() {
            let w = crate::text::string_from_chars(p.as_slice());
            key = code_from_str(w.as_str());
        }
    }
    assert(ps.take(ps.len() as int) == ps);
    match key {
        Some(k) => Some(Shortcut { mods, key: k }),
        None => None,
    }
}

/// What a tray menu item asks for.
#[derive(Clone, Copy, Debug, PartialEq, Eq, Structural)]
pub enum TrayAction {
    /// Show or hide the main window.
    ToggleMain,
    /// Show or hide the overlay window.
    TogglePip,
    /// Ask the views to refresh.
    Refresh,
    /// Quit the application.
    Quit,
    /// An item this menu does not have.
    Ignore,
}

/// The action of a tray menu item by its id.
pub open spec fn tray_action_of(id: Seq<char>) -> TrayAction {
    if id == "show"@ {
        TrayAction::ToggleMain
    } else if id == "pip"@ {
        TrayAction::TogglePip
    } else if id == "refresh"@ {
        TrayAction::Refresh
    } else if id == "quit"@ {
        TrayAction::Quit
    } else {
        TrayAction::Ignore
    }
}

/// The action of a tray menu item by its id.
pub fn tray_action(id: &str) -> (r: TrayAction)
    ensures
        r == tray_action_of(id@),
{
    if crate::text::eq_str(id, "show") {
        TrayAction::ToggleMain
    } else if crate::text::eq_str(id, "pip") {
        TrayAction::TogglePip
    } else if crate::text::eq_str(id, "refresh") {
        TrayAction::Refresh
    } else if crate::text::eq_str(id, "quit") {
        TrayAction::Quit
    } else {
        TrayAction::Ignore
    }
}

} // verus!
