//! What the build needs of the vendored files: which must be there, and how their headers
//! are parsed.

use vstd::prelude::*;

use super::files;

verus! {

/// How many paths are looked in for libclang.
pub const LIBCLANG_COUNT: usize = 3;

/// Where libclang may be, best first.
pub open spec fn libclang(i: int) -> Seq<char> {
    if i == 0 {
        "/usr/lib/llvm-19/lib"@
    } else if i == 1 {
        "/usr/lib/llvm-18/lib"@
    } else {
        "/usr/lib"@
    }
}

/// A place where libclang may be.
pub fn libclang_path(i: usize) -> (path: &'static str)
    requires
        i < LIBCLANG_COUNT,
    ensures
        path@ == libclang(i as int),
{
    if i == 0 {
        "/usr/lib/llvm-19/lib"
    } else if i == 1 {
        "/usr/lib/llvm-18/lib"
    } else {
        "/usr/lib"
    }
}

/// Place `i` is the first of these places that is there.
pub open spec fn is_first(there: Seq<bool>, i: int) -> bool {
    &&& 0 <= i < there.len()
    &&& there[i]
    &&& forall|j: int| 0 <= j < i ==> !#[trigger] there[j]
}

/// Where to point the build for libclang, if nobody has said: the first of the places
/// that exists.
pub fn pick_libclang(already_set: bool, there: &Vec<bool>) -> (path: Option<&'static str>)
    requires
        there@.len() == LIBCLANG_COUNT,
    ensures
        match path {
            Some(p) => !already_set && exists|i: int| #[trigger]
                is_first(there@, i) && p@ == libclang(i),
            None => already_set || forall|i: int| 0 <= i < LIBCLANG_COUNT ==> !#[trigger] there@[i],
        },
{
    if already_set {
        return None;
    }
    let mut i: usize = 0;
    while i < LIBCLANG_COUNT
        invariant
            i <= LIBCLANG_COUNT,
            there@.len() == LIBCLANG_COUNT,
            !already_set,
            forall|j: int| 0 <= j < i ==> !#[trigger] there@[j],
        decreases LIBCLANG_COUNT - i,
    {
        if there[i] {
            assert(is_first(there@, i as int));
            return Some(libclang_path(i));
        }
        i = i + 1;
    }
    None
}

/// Several texts as sequences of characters.
pub open spec fn args(list: Seq<String>) -> Seq<Seq<char>> {
    Seq::new(list.len(), |i: int| list[i]@)
}

/// The arguments that the headers are parsed with: for the real target, so that sizes and
/// enum widths match the prebuilt archive, and with the shim directory last, so that it
/// only satisfies headers that are found nowhere else.
pub open spec fn parse_args(
    inc: Seq<char>,
    conf: Seq<char>,
    segger_inc: Seq<char>,
    shim: Seq<char>,
) -> Seq<Seq<char>> {
    seq![
        "-target"@,
        "thumbv7em-none-eabihf"@,
        "-fshort-enums"@,
        "-I"@ + inc,
        "-I"@ + conf,
        "-I"@ + segger_inc,
        "-I"@ + shim,
    ]
}

fn include_arg(dir: &str) -> (arg: String)
    ensures
        arg@ == "-I"@ + dir@,
{
    let mut arg = "-I".to_owned();
    arg.append(dir);
    arg
}

/// The arguments that the headers are parsed with.
pub fn clang_args(inc: &str, conf: &str, segger_inc: &str, shim: &str) -> (list: Vec<String>)
    ensures
        args(list@) == parse_args(inc@, conf@, segger_inc@, shim@),
{
    let mut list: Vec<String> = Vec::new();
    list.push("-target".to_owned());
    list.push("thumbv7em-none-eabihf".to_owned());
    list.push("-fshort-enums".to_owned());
    list.push(include_arg(inc));
    list.push(include_arg(conf));
    list.push(include_arg(segger_inc));
    list.push(include_arg(shim));
    assert(args(list@) =~= parse_args(inc@, conf@, segger_inc@, shim@));
    list
}

/// Paths, one to a line and indented.
pub open spec fn path_list(paths: Seq<Seq<char>>) -> Seq<char>
    decreases paths.len(),
{
    if paths.len() == 0 {
        Seq::empty()
    } else {
        path_list(paths.drop_last()) + "    "@ + paths.last() + "\n"@
    }
}

/// What a build says that lacks these files: it doubles as setup documentation.
pub open spec fn missing_text(usbd_dir: Seq<char>, missing: Seq<Seq<char>>) -> Seq<char> {
    "\n\n================================================================================\nSEGGER emUSB-Device files not found.\n\nThis firmware links SEGGER's emUSB-Device library. Its license (SFL) forbids us\nfrom redistributing it, so it is NOT bundled in this repository. You must\nprovide it locally, once.\n\nMissing:\n"@
        + path_list(missing)
        + "\nProvide SEGGER emPower, Embedded Studio (2023-06-26) one of two ways:\n\nA) Contributors with repo access (private submodule):\ngit submodule update --init vendor/segger\n\nB) Bring your own SEGGER eval copy (free for non-commercial use):\ncargo xtask setup-segger --zip <path-to-eval.zip>\n...or copy the files into vendor/segger/ by hand (see docs/SEGGER_SETUP.md).\n\nExpected layout (override the root with SEGGER_USBD_DIR):\n"@
        + usbd_dir + "/Inc/USB.h, USB_MSD.h, ...\n"@ + usbd_dir + "/Config/USB_Conf.h\n"@
        + usbd_dir
        + "/Lib/libUSBD_v7m_t_vfpv4_le_r.a\nvendor/segger/SEGGER/Inc/SEGGER.h, Global.h\n\nFull guide: docs/SEGGER_SETUP.md\n================================================================================\n"@
}

/// What a build says that lacks these files.
pub fn fail_missing(usbd_dir: &str, missing: &Vec<String>) -> (message: String)
    ensures
        message@ == missing_text(usbd_dir@, args(missing@)),
{
    let mut list = String::new();
    let mut i: usize = 0;
    assert(args(missing@).take(0) =~= Seq::<Seq<char>>::empty());
    while i < missing.len()
        invariant
            i <= missing@.len(),
            list@ == path_list(args(missing@).take(i as int)),
        decreases missing@.len() - i,
    {
        assert(args(missing@).take(i + 1).drop_last() =~= args(missing@).take(i as int));
        list.append("    ");
        list.append(missing[i].as_str());
        list.append("\n");
        i = i + 1;
    }
    assert(args(missing@).take(i as int) =~= args(missing@));
    let mut message =
        "\n\n================================================================================\nSEGGER emUSB-Device files not found.\n\nThis firmware links SEGGER's emUSB-Device library. Its license (SFL) forbids us\nfrom redistributing it, so it is NOT bundled in this repository. You must\nprovide it locally, once.\n\nMissing:\n".to_owned();
    message.append(list.as_str());
    message.append(
        "\nProvide SEGGER emPower, Embedded Studio (2023-06-26) one of two ways:\n\nA) Contributors with repo access (private submodule):\ngit submodule update --init vendor/segger\n\nB) Bring your own SEGGER eval copy (free for non-commercial use):\ncargo xtask setup-segger --zip <path-to-eval.zip>\n...or copy the files into vendor/segger/ by hand (see docs/SEGGER_SETUP.md).\n\nExpected layout (override the root with SEGGER_USBD_DIR):\n",
    );
    message.append(usbd_dir);
    message.append("/Inc/USB.h, USB_MSD.h, ...\n");
    message.append(usbd_dir);
    message.append("/Config/USB_Conf.h\n");
    message.append(usbd_dir);
    message.append(
        "/Lib/libUSBD_v7m_t_vfpv4_le_r.a\nvendor/segger/SEGGER/Inc/SEGGER.h, Global.h\n\nFull guide: docs/SEGGER_SETUP.md\n================================================================================\n",
    );
    message
}

/// The directories that the files of a build are looked for in.
#[derive(Debug, Clone, Copy, PartialEq, Eq)]
pub enum BuildDir {
    /// The API headers.
    Inc,
    /// The prebuilt library.
    Lib,
    /// The shared headers.
    SeggerInc,
}

/// How many files a build must find.
pub const BUILD_FILE_COUNT: usize = 4;

/// The files that a build must find: where, and under which names.
pub open spec fn build_file_at(i: int) -> (BuildDir, Seq<char>) {
    if i == 0 {
        (BuildDir::Inc, "USB.h"@)
    } else if i == 1 {
        (BuildDir::Inc, "USB_MSD.h"@)
    } else if i == 2 {
        (BuildDir::Lib, "libUSBD_v7m_t_vfpv4_le_r.a"@)
    } else {
        (BuildDir::SeggerInc, "SEGGER.h"@)
    }
}

/// A file that a build must find.
pub fn build_file(i: usize) -> (file: (BuildDir, &'static str))
    requires
        i < BUILD_FILE_COUNT,
    ensures
        (file.0, file.1@) == build_file_at(i as int),
{
    if i == 0 {
        (BuildDir::Inc, "USB.h")
    } else if i == 1 {
        (BuildDir::Inc, "USB_MSD.h")
    } else if i == 2 {
        (BuildDir::Lib, "libUSBD_v7m_t_vfpv4_le_r.a")
    } else {
        (BuildDir::SeggerInc, "SEGGER.h")
    }
}

/// Those of these paths that are not present, in order.
pub open spec fn absent(paths: Seq<Seq<char>>, present: Seq<bool>) -> Seq<Seq<char>>
    decreases paths.len(),
{
    if paths.len() == 0 {
        Seq::empty()
    } else if present.last() {
        absent(paths.drop_last(), present.drop_last())
    } else {
        absent(paths.drop_last(), present.drop_last()).push(paths.last())
    }
}

/// What a build says that looks for these files; nothing if all of them are present.
pub fn missing_message(usbd_dir: &str, paths: &Vec<String>, present: &Vec<bool>) -> (message:
    Option<String>)
    requires
        paths@.len() == present@.len(),
    ensures
        match message {
            None => forall|i: int| 0 <= i < present@.len() ==> #[trigger] present@[i],
            Some(m) => {
                &&& exists|i: int| 0 <= i < present@.len() && !#[trigger] present@[i]
                &&& m@ == missing_text(usbd_dir@, absent(args(paths@), present@))
            },
        },
{
    let ghost all = args(paths@);
    let mut missing: Vec<String> = Vec::new();
    let mut i: usize = 0;
    assert(args(missing@) =~= absent(all.take(0), present@.take(0)));
    while i < paths.len()
        invariant
            i <= paths@.len(),
            paths@.len() == present@.len(),
            all == args(paths@),
            args(missing@) == absent(all.take(i as int), present@.take(i as int)),
            missing@.len() == 0 <==> (forall|j: int| 0 <= j < i ==> #[trigger] present@[j]),
        decreases paths@.len() - i,
    {
        proof {
            assert(all.take(i + 1).drop_last() =~= all.take(i as int));
            assert(present@.take(i + 1).drop_last() =~= present@.take(i as int));
        }
        if !present[i] {
            let ghost before = args(missing@);
            missing.push(paths[i].as_str().to_owned());
            assert(args(missing@) =~= before.push(all[i as int]));
        }
        i = i + 1;
    }
    proof {
        assert(all.take(i as int) =~= all);
        assert(present@.take(i as int) =~= present@);
    }
    if missing.len() == 0 {
        return None;
    }
    Some(fail_missing(usbd_dir, &missing))
}

/// Every path is listed on a line of its own, four spaces in.
pub proof fn paths_are_listed(a: Seq<Seq<char>>, b: Seq<Seq<char>>, path: Seq<char>)
    ensures
        path_list(a + b) == path_list(a) + path_list(b),
        path_list(seq![path]) == seq![' ', ' ', ' ', ' '] + path + seq!['\n'],
    decreases b.len(),
{
    if b.len() == 0 {
        assert(a + b =~= a);
        assert(path_list(a) + Seq::<char>::empty() =~= path_list(a));
    } else {
        assert((a + b).drop_last() =~= a + b.drop_last());
        paths_are_listed(a, b.drop_last(), path);
        assert(path_list(a + b) =~= path_list(a) + path_list(b));
    }
    reveal_strlit("    ");
    reveal_strlit("\n");
    let one = seq![path];
    assert(one.drop_last() =~= Seq::<Seq<char>>::empty());
    assert(path_list(one.drop_last()) == Seq::<char>::empty());
    assert(path_list(one) =~= seq![' ', ' ', ' ', ' '] + path + seq!['\n']);
}

/// The files that are missing are told in order, and no other.
pub proof fn missing_files_are_told(
    a: Seq<Seq<char>>,
    b: Seq<Seq<char>>,
    have_a: Seq<bool>,
    have_b: Seq<bool>,
    path: Seq<char>,
)
    requires
        a.len() == have_a.len(),
        b.len() == have_b.len(),
    ensures
        absent(a + b, have_a + have_b) == absent(a, have_a) + absent(b, have_b),
        absent(seq![path], seq![true]) == Seq::<Seq<char>>::empty(),
        absent(seq![path], seq![false]) == seq![path],
    decreases b.len(),
{
    if b.len() == 0 {
        assert(a + b =~= a);
        assert(have_a + have_b =~= have_a);
        assert(absent(a, have_a) + Seq::<Seq<char>>::empty() =~= absent(a, have_a));
    } else {
        assert((a + b).drop_last() =~= a + b.drop_last());
        assert((have_a + have_b).drop_last() =~= have_a + have_b.drop_last());
        missing_files_are_told(a, b.drop_last(), have_a, have_b.drop_last(), path);
        assert(absent(a + b, have_a + have_b) =~= absent(a, have_a) + absent(b, have_b));
    }
    let one = seq![path];
    assert(one.drop_last() =~= Seq::<Seq<char>>::empty());
    assert(absent(one.drop_last(), seq![true].drop_last()) == Seq::<Seq<char>>::empty());
    assert(absent(one.drop_last(), seq![false].drop_last()) == Seq::<Seq<char>>::empty());
    assert(absent(one, seq![false]) =~= one);
}

/// The four directories of headers are searched in order, each by an argument of its own.
pub proof fn all_directories_are_searched(
    inc: Seq<char>,
    conf: Seq<char>,
    segger_inc: Seq<char>,
    shim: Seq<char>,
)
    ensures
        ({
            let list = parse_args(inc, conf, segger_inc, shim);
            &&& list.len() == 7
            &&& list[3] == seq!['-', 'I'] + inc
            &&& list[4] == seq!['-', 'I'] + conf
            &&& list[5] == seq!['-', 'I'] + segger_inc
            &&& list[6] == seq!['-', 'I'] + shim
        }),
{
    reveal_strlit("-I");
    assert("-I"@ =~= seq!['-', 'I']);
}

/// The message about missing files lists them all, between the same words whichever they are.
pub proof fn messages_differ_in_their_list(usbd_dir: Seq<char>) -> (around: (Seq<char>, Seq<char>))
    ensures
        forall|missing: Seq<Seq<char>>| #[trigger]
            missing_text(usbd_dir, missing) == around.0 + path_list(missing) + around.1,
{
    let none = Seq::<Seq<char>>::empty();
    let head =
        "\n\n================================================================================\nSEGGER emUSB-Device files not found.\n\nThis firmware links SEGGER's emUSB-Device library. Its license (SFL) forbids us\nfrom redistributing it, so it is NOT bundled in this repository. You must\nprovide it locally, once.\n\nMissing:\n"@;
    let tail = missing_text(usbd_dir, none).skip(head.len() as int);
    assert(path_list(none) == Seq::<char>::empty());
    assert forall|missing: Seq<Seq<char>>| #[trigger]
        missing_text(usbd_dir, missing) == head + path_list(missing) + tail by {
        assert(missing_text(usbd_dir, missing) =~= head + path_list(missing) + tail);
    }
    (head, tail)
}

/// The files that a build looks for are files that are consumed, in the directories where
/// the bundle has them.
pub proof fn build_files_are_consumed(i: int)
    requires
        0 <= i < 4,
    ensures
        BUILD_FILE_COUNT == 4,
        files::consumed(
            match build_file_at(i).0 {
                BuildDir::Inc => "USB-D/Inc/"@,
                BuildDir::Lib => "USB-D/Lib/"@,
                BuildDir::SeggerInc => "SEGGER/Inc/"@,
            } + build_file_at(i).1,
        ),
{
    reveal_strlit("USB.h");
    reveal_strlit("USB_MSD.h");
    reveal_strlit(".h");
    reveal_strlit("USB-D/Lib/");
    reveal_strlit("SEGGER/Inc/");
    reveal_strlit("libUSBD_v7m_t_vfpv4_le_r.a");
    reveal_strlit("SEGGER.h");
    reveal_strlit("USB-D/Lib/libUSBD_v7m_t_vfpv4_le_r.a");
    reveal_strlit("SEGGER/Inc/SEGGER.h");
    reveal_strlit("USB");
    reveal_strlit("USB_MSD");
    files::headers_are_consumed("USB"@);
    files::headers_are_consumed("USB_MSD"@);
    assert("USB-D/Inc/"@ + "USB.h"@ =~= "USB-D/Inc/"@ + "USB"@ + ".h"@);
    assert("USB-D/Inc/"@ + "USB_MSD.h"@ =~= "USB-D/Inc/"@ + "USB_MSD"@ + ".h"@);
    assert("USB-D/Lib/"@ + "libUSBD_v7m_t_vfpv4_le_r.a"@
        =~= "USB-D/Lib/libUSBD_v7m_t_vfpv4_le_r.a"@);
    assert("SEGGER/Inc/"@ + "SEGGER.h"@ =~= "SEGGER/Inc/SEGGER.h"@);
}

} // verus!
