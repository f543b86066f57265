//! The hotkey preference: its configuration, the key names it accepts, and
//! the recording of a new hotkey from a key press.
use vstd::prelude::*;
use vstd::string::StringExecFns;
use crate::signals::str_eq;

verus! {

/// A global hotkey: Carbon key code, Carbon modifier bits, and how it is shown.
#[derive(Clone, Debug)]
pub struct HotkeyConfig {
    pub key_code: u32,
    pub modifiers: u32,
    pub display_string: String,
}

/// Carbon modifier bits.
pub const CMD_KEY: u32 = 256;
pub const SHIFT_KEY: u32 = 512;
pub const OPTION_KEY: u32 = 2048;
pub const CONTROL_KEY: u32 = 4096;

impl Default for HotkeyConfig {
    /// Cmd+Shift+E.
    fn default() -> (r: Self)
        ensures
            r.key_code == 0x0E,
            r.modifiers == CMD_KEY + SHIFT_KEY,
            r.display_string@ == "Cmd+Shift+E"@,
    {
        HotkeyConfig { key_code: 0x0E, modifiers: CMD_KEY + SHIFT_KEY, display_string: "Cmd+Shift+E".to_owned() }
    }
}

/// The persisted preferences.
#[derive(Clone, Debug)]
pub struct Preferences {
    pub hotkey: HotkeyConfig,
}

impl Default for Preferences {
    fn default() -> (r: Self)
        ensures
            r.hotkey.key_code == 0x0E,
            r.hotkey.modifiers == CMD_KEY + SHIFT_KEY,
            r.hotkey.display_string@ == "Cmd+Shift+E"@,
    {
        Preferences { hotkey: HotkeyConfig::default() }
    }
}

/// The Carbon virtual key code of a key name, for the keys a hotkey may use.
pub open spec fn key_code_of(k: Seq<char>) -> Option<u32> {
    if k == "a"@ {
        Some(0x00)
    } else if k == "s"@ {
        Some(0x01)
    } else if k == "d"@ {
        Some(0x02)
    } else if k == "f"@ {
        Some(0x03)
    } else if k == "h"@ {
        Some(0x04)
    } else if k == "g"@ {
        Some(0x05)
    } else if k == "z"@ {
        Some(0x06)
    } else if k == "x"@ {
        Some(0x07)
    } else if k == "c"@ {
        Some(0x08)
    } else if k == "v"@ {
        Some(0x09)
    } else if k == "b"@ {
        Some(0x0B)
    } else if k == "q"@ {
        Some(0x0C)
    } else if k == "w"@ {
        Some(0x0D)
    } else if k == "e"@ {
        Some(0x0E)
    } else if k == "r"@ {
        Some(0x0F)
    } else if k == "y"@ {
        Some(0x10)
    } else if k == "t"@ {
        Some(0x11)
    } else if k == "1"@ {
        Some(0x12)
    } else if k == "2"@ {
        Some(0x13)
    } else if k == "3"@ {
        Some(0x14)
    } else if k == "4"@ {
        Some(0x15)
    } else if k == "6"@ {
        Some(0x16)
    } else if k == "5"@ {
        Some(0x17)
    } else if k == "9"@ {
        Some(0x19)
    } else if k == "7"@ {
        Some(0x1A)
    } else if k == "8"@ {
        Some(0x1C)
    } else if k == "0"@ {
        Some(0x1D)
    } else if k == "o"@ {
        Some(0x1F)
    } else if k == "u"@ {
        Some(0x20)
    } else if k == "i"@ {
        Some(0x22)
    } else if k == "p"@ {
        Some(0x23)
    } else if k == "l"@ {
        Some(0x25)
    } else if k == "j"@ {
        Some(0x26)
    } else if k == "k"@ {
        Some(0x28)
    } else if k == "n"@ {
        Some(0x2D)
    } else if k == "m"@ {
        Some(0x2E)
    } else if k == "space"@ {
        Some(0x31)
    } else if k == "escape"@ {
        Some(0x35)
    } else if k == "f1"@ {
        Some(0x7A)
    } else if k == "f2"@ {
        Some(0x78)
    } else if k == "f3"@ {
        Some(0x63)
    } else if k == "f4"@ {
        Some(0x76)
    } else if k == "f5"@ {
        Some(0x60)
    } else if k == "f6"@ {
        Some(0x61)
    } else if k == "f7"@ {
        Some(0x62)
    } else if k == "f8"@ {
        Some(0x64)
    } else if k == "f9"@ {
        Some(0x65)
    } else if k == "f10"@ {
        Some(0x6D)
    } else if k == "f11"@ {
        Some(0x67)
    } else if k == "f12"@ {
        Some(0x6F)
    } else if k == "-"@ {
        Some(0x1B)
    } else if k == "="@ {
        Some(0x18)
    } else if k == "["@ {
        Some(0x21)
    } else if k == "]"@ {
        Some(0x1E)
    } else if k == "\\"@ {
        Some(0x2A)
    } else if k == ";"@ {
        Some(0x29)
    } else if k == "'"@ {
        Some(0x27)
    } else if k == ","@ {
        Some(0x2B)
    } else if k == "."@ {
        Some(0x2F)
    } else if k == "/"@ {
        Some(0x2C)
    } else if k == "`"@ {
        Some(0x32)
    } else {
        None
    }
}

/// The Carbon virtual key code of a key name (see `key_code_of`).
pub fn gpui_key_to_vk(key: &str) -> (r: Option<u32>)
    ensures
        r == key_code_of(key@),
{
    if str_eq(key, "a") {
        Some(0x00)
    } else if str_eq(key, "s") {
        Some(0x01)
    } else if str_eq(key, "d") {
        Some(0x02)
    } else if str_eq(key, "f") {
        Some(0x03)
    } else if str_eq(key, "h") {
        Some(0x04)
    } else if str_eq(key, "g") {
        Some(0x05)
    } else if str_eq(key, "z") {
        Some(0x06)
    } else if str_eq(key, "x") {
        Some(0x07)
    } else if str_eq(key, "c") {
        Some(0x08)
    } else if str_eq(key, "v") {
        Some(0x09)
    } else if str_eq(key, "b") {
        Some(0x0B)
    } else if str_eq(key, "q") {
        Some(0x0C)
    } else if str_eq(key, "w") {
        Some(0x0D)
    } else if str_eq(key, "e") {
        Some(0x0E)
    } else if str_eq(key, "r") {
        Some(0x0F)
    } else if str_eq(key, "y") {
        Some(0x10)
    } else if str_eq(key, "t") {
        Some(0x11)
    } else if str_eq(key, "1") {
        Some(0x12)
    } else if str_eq(key, "2") {
        Some(0x13)
    } else if str_eq(key, "3") {
        Some(0x14)
    } else if str_eq(key, "4") {
        Some(0x15)
    } else if str_eq(key, "6") {
        Some(0x16)
    } else if str_eq(key, "5") {
        Some(0x17)
    } else if str_eq(key, "9") {
        Some(0x19)
    } else if str_eq(key, "7") {
        Some(0x1A)
    } else if str_eq(key, "8") {
        Some(0x1C)
    } else if str_eq(key, "0") {
        Some(0x1D)
    } else if str_eq(key, "o") {
        Some(0x1F)
    } else if str_eq(key, "u") {
        Some(0x20)
    } else if str_eq(key, "i") {
        Some(0x22)
    } else if str_eq(key, "p") {
        Some(0x23)
    } else if str_eq(key, "l") {
        Some(0x25)
    } else if str_eq(key, "j") {
        Some(0x26)
    } else if str_eq(key, "k") {
        Some(0x28)
    } else if str_eq(key, "n") {
        Some(0x2D)
    } else if str_eq(key, "m") {
        Some(0x2E)
    } else if str_eq(key, "space") {
        Some(0x31)
    } else if str_eq(key, "escape") {
        Some(0x35)
    } else if str_eq(key, "f1") {
        Some(0x7A)
    } else if str_eq(key, "f2") {
        Some(0x78)
    } else if str_eq(key, "f3") {
        Some(0x63)
    } else if str_eq(key, "f4") {
        Some(0x76)
    } else if str_eq(key, "f5") {
        Some(0x60)
    } else if str_eq(key, "f6") {
        Some(0x61)
    } else if str_eq(key, "f7") {
        Some(0x62)
    } else if str_eq(key, "f8") {
        Some(0x64)
    } else if str_eq(key, "f9") {
        Some(0x65)
    } else if str_eq(key, "f10") {
        Some(0x6D)
    } else if str_eq(key, "f11") {
        Some(0x67)
    } else if str_eq(key, "f12") {
        Some(0x6F)
    } else if str_eq(key, "-") {
        Some(0x1B)
    } else if str_eq(key, "=") {
        Some(0x18)
    } else if str_eq(key, "[") {
        Some(0x21)
    } else if str_eq(key, "]") {
        Some(0x1E)
    } else if str_eq(key, "\\") {
        Some(0x2A)
    } else if str_eq(key, ";") {
        Some(0x29)
    } else if str_eq(key, "'") {
        Some(0x27)
    } else if str_eq(key, ",") {
        Some(0x2B)
    } else if str_eq(key, ".") {
        Some(0x2F)
    } else if str_eq(key, "/") {
        Some(0x2C)
    } else if str_eq(key, "`") {
        Some(0x32)
    } else {
        None
    }
}

/// What `str::to_uppercase` makes of some characters.
pub uninterp spec fn uppercase_of(s: Seq<char>) -> Seq<char>;

/// Relies on `str::to_uppercase`: the Unicode uppercase mapping, a function of the characters alone.
#[verifier::external_body]
fn to_uppercase(s: &str) -> (r: String)
    ensures
        r@ == uppercase_of(s@),
{
    s.to_uppercase()
}

/// The Carbon modifier bits of a key press.
pub open spec fn carbon_modifiers(platform: bool, shift: bool, alt: bool, control: bool) -> u32 {
    ((if platform { CMD_KEY } else { 0 }) + (if shift { SHIFT_KEY } else { 0 }) + (if alt { OPTION_KEY } else { 0 })
        + (if control { CONTROL_KEY } else { 0 })) as u32
}

/// How a recorded hotkey is shown: Ctrl, Alt, Shift and Cmd as held, then the key in upper case.
pub open spec fn hotkey_display(shift: bool, alt: bool, control: bool, platform: bool, key: Seq<char>) -> Seq<char> {
    (if control { "Ctrl+"@ } else { Seq::empty() }) + (if alt { "Alt+"@ } else { Seq::empty() }) + (if shift { "Shift+"@ } else { Seq::empty() })
        + (if platform { "Cmd+"@ } else { Seq::empty() }) + uppercase_of(key)
}

/// The hotkey that a key press records: none unless Cmd, Alt or Ctrl is held
/// and the key has a key code.
pub fn record_hotkey(platform: bool, shift: bool, alt: bool, control: bool, key: &str) -> (r: Option<HotkeyConfig>)
    ensures
        r is Some <==> (platform || alt || control) && key_code_of(key@) is Some,
        r matches Some(c) ==> c.key_code == key_code_of(key@)->0
            && c.modifiers == carbon_modifiers(platform, shift, alt, control)
            && c.display_string@ == hotkey_display(shift, alt, control, platform, key@),
{
    if !platform && !alt && !control {
        return None;
    }
    let vk = match gpui_key_to_vk(key) {
        Some(vk) => vk,
        None => return None,
    };
    let mut mods: u32 = 0;
    if platform {
        mods = mods + CMD_KEY;
    }
    if shift {
        mods = mods + SHIFT_KEY;
    }
    if alt {
        mods = mods + OPTION_KEY;
    }
    if control {
        mods = mods + CONTROL_KEY;
    }
    let mut display = String::new();
    if control {
        display.append("Ctrl+");
    }
    if alt {
        display.append("Alt+");
    }
    if shift {
        display.append("Shift+");
    }
    if platform {
        display.append("Cmd+");
    }
    let upper = to_uppercase(key);
    display.append(upper.as_str());
    proof {
        assert(display@ =~= hotkey_display(shift, alt, control, platform, key@));
    }
    Some(HotkeyConfig { key_code: vk, modifiers: mods, display_string: display })
}

} // verus!
