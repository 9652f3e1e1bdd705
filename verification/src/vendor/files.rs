//! Which files are consumed.

use vstd::prelude::*;

use crate::text::{chars_of, ends_with, is_text, starts_with};

verus! {

/// `rel` (a forward-slash path inside the bundle or the vendor directory) is one of the
/// files that the firmware consumes: the API headers, the configuration, the prebuilt
/// library and the shared headers.
pub open spec fn consumed(rel: Seq<char>) -> bool {
    ||| "USB-D/Inc/"@.is_prefix_of(rel) && ".h"@.is_suffix_of(rel)
    ||| rel == "USB-D/Config/USB_Conf.h"@
    ||| rel == "USB-D/Lib/libUSBD_v7m_t_vfpv4_le_r.a"@
    ||| rel == "SEGGER/Inc/SEGGER.h"@
    ||| rel == "SEGGER/Inc/Global.h"@
}

/// Is `rel` one of the files that the firmware consumes?
pub fn is_consumed(rel: &str) -> (yes: bool)
    ensures
        yes == consumed(rel@),
{
    let chars: Vec<char> = chars_of(rel);
    let r: &[char] = chars.as_slice();
    (starts_with(r, "USB-D/Inc/") && ends_with(r, ".h")) || is_text(r, "USB-D/Config/USB_Conf.h")
        || is_text(r, "USB-D/Lib/libUSBD_v7m_t_vfpv4_le_r.a") || is_text(r, "SEGGER/Inc/SEGGER.h")
        || is_text(r, "SEGGER/Inc/Global.h")
}

/// How many files must exist for the build to work.
pub const REQUIRED_COUNT: usize = 6;

/// The files that must exist for the build to work.
pub open spec fn required(i: int) -> Seq<char> {
    if i == 0 {
        "USB-D/Inc/USB.h"@
    } else if i == 1 {
        "USB-D/Inc/USB_MSD.h"@
    } else if i == 2 {
        "USB-D/Config/USB_Conf.h"@
    } else if i == 3 {
        "USB-D/Lib/libUSBD_v7m_t_vfpv4_le_r.a"@
    } else if i == 4 {
        "SEGGER/Inc/SEGGER.h"@
    } else {
        "SEGGER/Inc/Global.h"@
    }
}

/// The path of a file that must exist for the build to work.
pub fn required_file(i: usize) -> (path: &'static str)
    requires
        i < REQUIRED_COUNT,
    ensures
        path@ == required(i as int),
{
    if i == 0 {
        "USB-D/Inc/USB.h"
    } else if i == 1 {
        "USB-D/Inc/USB_MSD.h"
    } else if i == 2 {
        "USB-D/Config/USB_Conf.h"
    } else if i == 3 {
        "USB-D/Lib/libUSBD_v7m_t_vfpv4_le_r.a"
    } else if i == 4 {
        "SEGGER/Inc/SEGGER.h"
    } else {
        "SEGGER/Inc/Global.h"
    }
}

/// The required files among the first `n` that are missing, separated by commas.
pub open spec fn missing_list(present: Seq<bool>, n: int) -> Seq<char>
    decreases n,
{
    if n <= 0 {
        Seq::empty()
    } else {
        let before = missing_list(present, n - 1);
        if present[n - 1] {
            before
        } else if before.len() == 0 {
            required(n - 1)
        } else {
            before + ", "@ + required(n - 1)
        }
    }
}

/// What is wrong with a bundle in which files were missing; nothing if all are there.
/// `present` says of each required file whether it exists.
pub fn missing_error(present: &Vec<bool>) -> (error: Option<String>)
    requires
        present@.len() == REQUIRED_COUNT,
    ensures
        match error {
            None => forall|i: int| 0 <= i < REQUIRED_COUNT ==> #[trigger] present@[i],
            Some(message) => {
                &&& exists|i: int| 0 <= i < REQUIRED_COUNT && !#[trigger] present@[i]
                &&& message@ == "the ZIP did not contain all required files (missing: "@
                    + missing_list(present@, 6)
                    + "). Is this the emUSB-Device eval bundle from https://www.segger.com/downloads/empower/?"@
            },
        },
{
    let mut list = String::new();
    let mut i: usize = 0;
    while i < REQUIRED_COUNT
        invariant
            i <= REQUIRED_COUNT,
            present@.len() == REQUIRED_COUNT,
            list@ == missing_list(present@, i as int),
            list@.len() == 0 <==> (forall|j: int| 0 <= j < i ==> #[trigger] present@[j]),
        decreases REQUIRED_COUNT - i,
    {
        if !present[i] {
            if !list.as_str().is_empty() {
                list.append(", ");
            }
            list.append(required_file(i));
            proof {
                lemma_required_not_empty(i as int);
                assert(!present@[i as int]);
            }
        }
        i = i + 1;
    }
    if list.as_str().is_empty() {
        return None;
    }
    let mut message = String::new();
    message.append("the ZIP did not contain all required files (missing: ");
    message.append(list.as_str());
    message.append(
        "). Is this the emUSB-Device eval bundle from https://www.segger.com/downloads/empower/?",
    );
    Some(message)
}

/// A required file has a name.
proof fn lemma_required_not_empty(i: int)
    ensures
        required(i).len() > 0,
{
    reveal_strlit("USB-D/Inc/USB.h");
    reveal_strlit("USB-D/Inc/USB_MSD.h");
    reveal_strlit("USB-D/Config/USB_Conf.h");
    reveal_strlit("USB-D/Lib/libUSBD_v7m_t_vfpv4_le_r.a");
    reveal_strlit("SEGGER/Inc/SEGGER.h");
    reveal_strlit("SEGGER/Inc/Global.h");
}

/// Every required file is one that is consumed.
pub proof fn required_files_are_consumed(i: int)
    requires
        0 <= i < REQUIRED_COUNT,
    ensures
        consumed(required(i)),
{
    reveal_strlit("USB-D/Inc/");
    reveal_strlit(".h");
    reveal_strlit("USB-D/Inc/USB.h");
    reveal_strlit("USB-D/Inc/USB_MSD.h");
    let prefix = "USB-D/Inc/"@;
    let suffix = ".h"@;
    if i < 2 {
        let r = required(i);
        assert(prefix =~= r.subrange(0, prefix.len() as int));
        assert(suffix =~= r.subrange(r.len() - suffix.len(), r.len() as int));
    }
}

/// What is consumed begins with `U` or `S` and ends with `h` or `a`.
pub proof fn lemma_consumed_ends(rel: Seq<char>)
    requires
        consumed(rel),
    ensures
        rel.len() > 0,
        rel[0] == 'U' || rel[0] == 'S',
        rel.last() == 'h' || rel.last() == 'a',
{
    reveal_strlit("USB-D/Inc/");
    reveal_strlit(".h");
    reveal_strlit("USB-D/Config/USB_Conf.h");
    reveal_strlit("USB-D/Lib/libUSBD_v7m_t_vfpv4_le_r.a");
    reveal_strlit("SEGGER/Inc/SEGGER.h");
    reveal_strlit("SEGGER/Inc/Global.h");
    let prefix = "USB-D/Inc/"@;
    let suffix = ".h"@;
    if prefix.is_prefix_of(rel) && suffix.is_suffix_of(rel) {
        assert(prefix == rel.subrange(0, prefix.len() as int));
        assert(prefix[0] == rel[0]);
        assert(suffix == rel.subrange(rel.len() - suffix.len(), rel.len() as int));
        assert(suffix[1] == rel[rel.len() - 1]);
    }
}

/// Every header of the API is consumed, whatever it is called, and so are the configuration,
/// the library and the shared headers.
pub proof fn headers_are_consumed(name: Seq<char>)
    ensures
        consumed("USB-D/Inc/"@ + name + ".h"@),
        consumed("USB-D/Config/USB_Conf.h"@),
        consumed("USB-D/Lib/libUSBD_v7m_t_vfpv4_le_r.a"@),
        consumed("SEGGER/Inc/SEGGER.h"@),
        consumed("SEGGER/Inc/Global.h"@),
{
    let prefix = "USB-D/Inc/"@;
    let suffix = ".h"@;
    let rel = prefix + name + suffix;
    assert(prefix =~= rel.subrange(0, prefix.len() as int));
    assert(suffix =~= rel.subrange(rel.len() - suffix.len(), rel.len() as int));
}

/// Nothing else is consumed.
pub proof fn nothing_else_is_consumed(rel: Seq<char>)
    requires
        consumed(rel),
        rel != "USB-D/Config/USB_Conf.h"@,
        rel != "USB-D/Lib/libUSBD_v7m_t_vfpv4_le_r.a"@,
        rel != "SEGGER/Inc/SEGGER.h"@,
        rel != "SEGGER/Inc/Global.h"@,
    ensures
        exists|name: Seq<char>| rel == #[trigger] ("USB-D/Inc/"@ + name) + ".h"@,
{
    reveal_strlit("USB-D/Inc/");
    reveal_strlit(".h");
    let prefix = "USB-D/Inc/"@;
    let suffix = ".h"@;
    assert(prefix == rel.subrange(0, 10));
    assert(suffix == rel.subrange(rel.len() - 2, rel.len() as int));
    assert(prefix[8] == rel[8] && prefix[9] == rel[9]);
    assert(suffix[0] == rel[rel.len() - 2] && suffix[1] == rel[rel.len() - 1]);
    assert(rel.len() >= 12);
    let name = rel.subrange(10, rel.len() - 2);
    assert(rel =~= (prefix + name) + suffix);
}

/// The missing files are listed in order, with commas between them; one that is there is not
/// listed.
pub proof fn missing_files_are_listed(present: Seq<bool>, i: int, n: int)
    requires
        0 <= i < n,
        forall|j: int| i < j < n ==> #[trigger] present[j],
    ensures
        present[i] ==> missing_list(present, n) == missing_list(present, i),
        !present[i] && missing_list(present, i).len() == 0 ==> missing_list(present, n) == required(
            i,
        ),
        !present[i] && missing_list(present, i).len() > 0 ==> missing_list(present, n)
            == missing_list(present, i) + ", "@ + required(i),
        missing_list(present, i).len() == 0 <==> forall|j: int| 0 <= j < i ==> #[trigger] present[j],
    decreases n,
{
    if i > 0 {
        lemma_none_missing(present, i);
    }
    if i < n - 1 {
        assert(present[n - 1]);
        missing_files_are_listed(present, i, n - 1);
    }
}

proof fn lemma_none_missing(present: Seq<bool>, n: int)
    requires
        0 <= n,
    ensures
        missing_list(present, n).len() == 0 <==> forall|j: int| 0 <= j < n ==> #[trigger] present[j],
    decreases n,
{
    if n > 0 {
        lemma_none_missing(present, n - 1);
        lemma_required_not_empty(n - 1);
    }
}

} // verus!
