//! Status and installation outcomes of the on-device speech model.
use vstd::prelude::*;
use crate::text::{push_chars, push_str, signed_decimal, signed_decimal_exec};

verus! {

/// Name of an asset-status code: 1 installed, 2 download required, -1 the
/// legacy engine (no assets needed), anything else unsupported.
pub open spec fn assets_status_spec(code: i32) -> Seq<char> {
    if code == 1 {
        "installed"@
    } else if code == 2 {
        "download-required"@
    } else if code == -1 {
        "legacy"@
    } else {
        "unsupported"@
    }
}

pub fn speech_assets_status(code: i32) -> (s: String)
    ensures
        s@ == assets_status_spec(code),
{
    if code == 1 {
        "installed".to_owned()
    } else if code == 2 {
        "download-required".to_owned()
    } else if code == -1 {
        "legacy".to_owned()
    } else {
        "unsupported".to_owned()
    }
}

/// The error reported with the final progress event of an install.
pub fn install_error(rc: i32) -> (e: Option<String>)
    ensures
        e is None <==> rc == 0,
        rc == -1 ==> e->0@ == "Requires macOS 26 or later"@,
        rc == -2 ==> e->0@ == "No supported speech locale"@,
        rc != 0 && rc != -1 && rc != -2 ==> e->0@ == "Speech model download failed"@,
{
    if rc == 0 {
        None
    } else if rc == -1 {
        Some("Requires macOS 26 or later".to_owned())
    } else if rc == -2 {
        Some("No supported speech locale".to_owned())
    } else {
        Some("Speech model download failed".to_owned())
    }
}

/// The outcome the install command returns.
pub fn install_result(rc: i32) -> (r: Result<(), String>)
    ensures
        r is Ok <==> rc == 0,
        r matches Err(e) ==> e@ == "Speech model install failed (code "@ + signed_decimal(rc as int)
            + ")"@,
{
    if rc == 0 {
        Ok(())
    } else {
        let mut e = "Speech model install failed (code ".to_owned();
        push_chars(&mut e, &signed_decimal_exec(rc as i64));
        push_str(&mut e, ")");
        Err(e)
    }
}

} // verus!
