//! Checks on file-system paths taken from requests.
use vstd::prelude::*;
use vstd::string::StringSliceAdditionalSpecFns;

verus! {

broadcast use vstd::string::to_string_from_display_ensures_for_str;

/// `b` (a `/`-separated path) has a component that is exactly `..`.
pub open spec fn has_parent_component(b: Seq<u8>) -> bool {
    exists|i: int|
        #![trigger b[i], b[i + 1]]
        0 <= i && i + 2 <= b.len() && b[i] == 0x2eu8 && b[i + 1] == 0x2eu8 && (i == 0 || b[i - 1] == 0x2fu8)
            && (i + 2 == b.len() || b[i + 2] == 0x2fu8)
}

/// Whether the bytes of a path contain a `..` component.
fn scan_parent_component(b: &[u8]) -> (r: bool)
    ensures
        r == has_parent_component(b@),
{
    let n = b.len();
    if n < 2 {
        return false;
    }
    let mut i: usize = 0;
    while i <= n - 2
        invariant
            n == b@.len(),
            n >= 2,
            i <= n - 1,
            forall|j: int|
                #![trigger b@[j], b@[j + 1]]
                0 <= j < i && j + 2 <= n ==> !(b@[j] == 0x2eu8 && b@[j + 1] == 0x2eu8 && (j == 0 || b@[j - 1]
                    == 0x2fu8) && (j + 2 == n || b@[j + 2] == 0x2fu8)),
        decreases n - i,
    {
        if b[i] == 0x2eu8 && b[i + 1] == 0x2eu8 && (i == 0 || b[i - 1] == 0x2fu8) && (i + 2 == n || b[i + 2]
            == 0x2fu8) {
            return true;
        }
        i = i + 1;
    }
    false
}

/// Accepts a checkpoint path unless it is empty or has a `..` component.
pub fn validate_checkpoint_path(path: &str) -> (r: Result<(), String>)
    ensures
        path@.len() == 0 ==> (r matches Err(m) && m@ == "path must not be empty"@),
        path@.len() != 0 && has_parent_component(path.spec_bytes()) ==> (r matches Err(m) && m@
            == "path must not contain '..' components"@),
        path@.len() != 0 && !has_parent_component(path.spec_bytes()) ==> r is Ok,
{
    if path.is_empty() {
        return Err("path must not be empty".to_string());
    }
    if scan_parent_component(path.as_bytes()) {
        return Err("path must not contain '..' components".to_string());
    }
    Ok(())
}

/// Accepts a training data directory unless it is empty or has a `..` component.
pub fn validate_data_dir(path: &str) -> (r: Result<(), String>)
    ensures
        path@.len() == 0 ==> (r matches Err(m) && m@ == "data_dir must not be empty"@),
        path@.len() != 0 && has_parent_component(path.spec_bytes()) ==> (r matches Err(m) && m@
            == "data_dir must not contain '..' components"@),
        path@.len() != 0 && !has_parent_component(path.spec_bytes()) ==> r is Ok,
{
    if path.is_empty() {
        return Err("data_dir must not be empty".to_string());
    }
    if scan_parent_component(path.as_bytes()) {
        return Err("data_dir must not contain '..' components".to_string());
    }
    Ok(())
}

} // verus!
