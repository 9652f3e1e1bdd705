//! The independent check of a finished image.

use vstd::prelude::*;

use crate::text::{chars_of, is_text};

verus! {

/// What the check of an image comes to.
#[derive(Debug, Clone, Copy, PartialEq, Eq)]
pub enum Verdict {
    /// The image is clean.
    Clean,
    /// `fsck.fat` is not installed: the check is skipped with a warning.
    NotInstalled,
    /// `fsck.fat` found fault with the image.
    Faulty,
}

/// Whether to check an image: not if the environment says `1` for skipping it.
pub fn should_check(skip: Option<&str>) -> (check: bool)
    ensures
        check == !(skip matches Some(value) && value@ == "1"@),
{
    match skip {
        Some(value) => {
            let chars: Vec<char> = chars_of(value);
            !is_text(chars.as_slice(), "1")
        },
        None => true,
    }
}

/// What the check comes to: `outcome` says whether `fsck.fat` was content, if it could be
/// run.
pub fn verdict(outcome: Option<bool>) -> (verdict: Verdict)
    ensures
        verdict == match outcome {
            Some(true) => Verdict::Clean,
            Some(false) => Verdict::Faulty,
            None => Verdict::NotInstalled,
        },
{
    match outcome {
        Some(clean) => if clean {
            Verdict::Clean
        } else {
            Verdict::Faulty
        },
        None => Verdict::NotInstalled,
    }
}

} // verus!
