//! Which report files an album directory still needs.

use vstd::prelude::*;

verus! {

/// Whether every requested report is present: the JSON report when `json`
/// is asked for, the text report when `txt` is. Nothing requested is
/// trivially present.
pub fn reports_exist(json_present: bool, txt_present: bool, json: bool, txt: bool) -> (r: bool)
    ensures
        r == ((!json || json_present) && (!txt || txt_present)),
{
    if json && !json_present {
        return false;
    }
    if txt && !txt_present {
        return false;
    }
    true
}

} // verus!
