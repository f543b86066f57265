//! Requests and messages passed between the global-hotkey side and the editor
//! window: flags that are read once, an error message, and text waiting to be shown.
use vstd::prelude::*;
use vstd::string::StringExecFns;
use vstd::string::StringSliceAdditionalSpecFns;
use vstd::utf8::{decode_utf8, encode_utf8, encode_utf8_decode_utf8};

verus! {

/// What the hotkey side has asked of the editor window and not yet been answered.
pub struct HotkeySignals {
    pub prefs_requested: bool,
    pub show_requested: bool,
    pub error: Option<String>,
    pub pending_clipboard: Option<String>,
}

impl HotkeySignals {
    pub fn new() -> (r: Self)
        ensures
            !r.prefs_requested,
            !r.show_requested,
            r.error is None,
            r.pending_clipboard is None,
    {
        HotkeySignals { prefs_requested: false, show_requested: false, error: None, pending_clipboard: None }
    }
}

/// Whether the preferences window was asked for; the request is consumed.
pub fn is_prefs_requested(s: &mut HotkeySignals) -> (r: bool)
    ensures
        r == old(s).prefs_requested,
        !final(s).prefs_requested,
        final(s).show_requested == old(s).show_requested,
        final(s).error == old(s).error,
        final(s).pending_clipboard == old(s).pending_clipboard,
{
    let r = s.prefs_requested;
    s.prefs_requested = false;
    r
}

/// The current error message, if any.
pub fn get_error(s: &HotkeySignals) -> (r: Option<String>)
    ensures
        r == s.error,
{
    match &s.error {
        Some(e) => Some(e.clone()),
        None => None,
    }
}

/// Replaces the current error message.
pub fn set_error(s: &mut HotkeySignals, err: Option<String>)
    ensures
        final(s).error == err,
        final(s).prefs_requested == old(s).prefs_requested,
        final(s).show_requested == old(s).show_requested,
        final(s).pending_clipboard == old(s).pending_clipboard,
{
    s.error = err;
}

/// The text waiting to be shown, if any; it is taken away.
pub fn take_pending_clipboard(s: &mut HotkeySignals) -> (r: Option<String>)
    ensures
        r == old(s).pending_clipboard,
        final(s).pending_clipboard is None,
        final(s).prefs_requested == old(s).prefs_requested,
        final(s).show_requested == old(s).show_requested,
        final(s).error == old(s).error,
{
    let r = match &s.pending_clipboard {
        Some(t) => Some(t.clone()),
        None => None,
    };
    s.pending_clipboard = None;
    r
}

/// Whether showing the window was asked for; the request is consumed.
pub fn is_show_requested(s: &mut HotkeySignals) -> (r: bool)
    ensures
        r == old(s).show_requested,
        !final(s).show_requested,
        final(s).prefs_requested == old(s).prefs_requested,
        final(s).error == old(s).error,
        final(s).pending_clipboard == old(s).pending_clipboard,
{
    let r = s.show_requested;
    s.show_requested = false;
    r
}

/// Leaves `text` to be shown and asks for the window.
pub fn set_initial_text(s: &mut HotkeySignals, text: String)
    ensures
        final(s).pending_clipboard == Some(text),
        final(s).show_requested,
        final(s).prefs_requested == old(s).prefs_requested,
        final(s).error == old(s).error,
{
    s.pending_clipboard = Some(text);
    s.show_requested = true;
}

/// Whether two strings hold the same characters.
pub fn str_eq(a: &str, b: &str) -> (r: bool)
    ensures
        r == (a@ == b@),
{
    let x = a.as_bytes();
    let y = b.as_bytes();
    proof {
        encode_utf8_decode_utf8(a@);
        encode_utf8_decode_utf8(b@);
    }
    if x.len() != y.len() {
        return false;
    }
    let mut i: usize = 0;
    while i < x.len()
        invariant
            x@ == a.spec_bytes(),
            y@ == b.spec_bytes(),
            x@.len() == y@.len(),
            i <= x@.len(),
            forall|j: int| 0 <= j < i ==> x@[j] == y@[j],
        decreases x@.len() - i,
    {
        if x[i] != y[i] {
            return false;
        }
        i += 1;
    }
    proof {
        assert(x@ =~= y@);
        assert(decode_utf8(encode_utf8(a@)) == decode_utf8(encode_utf8(b@)));
    }
    true
}

/// The name shown for a build: development builds (version 0.1.0) show their
/// commit and build date, releases their version.
pub open spec fn version_text(version: Seq<char>, commit: Seq<char>, date: Seq<char>) -> Seq<char> {
    if version == "0.1.0"@ {
        "Zeditor dev ("@ + commit + ", "@ + date + ")"@
    } else {
        "Zeditor v"@ + version
    }
}

pub fn version_string(version: &str, commit: &str, date: &str) -> (r: String)
    ensures
        r@ == version_text(version@, commit@, date@),
{
    if str_eq(version, "0.1.0") {
        let mut r = "Zeditor dev (".to_owned();
        r.append(commit);
        r.append(", ");
        r.append(date);
        r.append(")");
        r
    } else {
        let mut r = "Zeditor v".to_owned();
        r.append(version);
        r
    }
}

} // verus!
