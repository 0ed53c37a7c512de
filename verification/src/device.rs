//! Reader devices and what is made for them.

use crate::text::{has_prefix, same_text};
use vstd::prelude::*;

verus! {

/// The page size of a device, and the name that the MOBI writer knows it by.
pub open spec fn profile_of(device: Seq<char>) -> (u32, u32, Seq<char>) {
    if device == "kobo-clara-hd"@ {
        (1072, 1448, "kobo_clara_hd"@)
    } else if device == "kindle-paperwhite"@ {
        (1072, 1448, "kindle_pw"@)
    } else if device == "kindle-oasis"@ {
        (1264, 1680, "kindle_oasis"@)
    } else if device == "optimize"@ {
        (2048, 2048, "optimized"@)
    } else if device == "pdf-optimize"@ {
        (1500, 1500, "pdf_optimized"@)
    } else {
        (600, 800, "kindle4"@)
    }
}

/// The width and height of a device's pages and the device's name; an unknown
/// device is a Kindle 4.
pub fn device_profile(device: &str) -> (r: (u32, u32, &'static str))
    ensures
        (r.0, r.1, r.2@) == profile_of(device@),
{
    if same_text(device, "kobo-clara-hd") {
        (1072, 1448, "kobo_clara_hd")
    } else if same_text(device, "kindle-paperwhite") {
        (1072, 1448, "kindle_pw")
    } else if same_text(device, "kindle-oasis") {
        (1264, 1680, "kindle_oasis")
    } else if same_text(device, "optimize") {
        (2048, 2048, "optimized")
    } else if same_text(device, "pdf-optimize") {
        (1500, 1500, "pdf_optimized")
    } else {
        (600, 800, "kindle4")
    }
}

/// Whether CBZ is made for a device.
pub open spec fn makes_cbz(device: Seq<char>) -> bool {
    "kobo"@.is_prefix_of(device) || device == "optimize"@
}

/// Whether CBZ is made for `device`: for every Kobo, and to optimize.
pub fn is_cbz_output(device: &str) -> (r: bool)
    ensures
        r == makes_cbz(device@),
{
    has_prefix(device, "kobo") || same_text(device, "optimize")
}

/// Whether the wanted output is a smaller file of the same kind.
pub open spec fn optimizes(device: Seq<char>) -> bool {
    device == "optimize"@ || device == "pdf-optimize"@
}

/// Whether `device` asks for a smaller file of the same kind.
pub fn is_optimize(device: &str) -> (r: bool)
    ensures
        r == optimizes(device@),
{
    same_text(device, "optimize") || same_text(device, "pdf-optimize")
}

/// The extension of the output for a device.
pub open spec fn output_extension_of(device: Seq<char>) -> Seq<char> {
    if device == "pdf-optimize"@ {
        "pdf"@
    } else if makes_cbz(device) {
        "cbz"@
    } else {
        "mobi"@
    }
}

/// The extension of the output for `device`.
pub fn output_extension(device: &str) -> (r: &'static str)
    ensures
        r@ == output_extension_of(device@),
{
    if same_text(device, "pdf-optimize") {
        "pdf"
    } else if is_cbz_output(device) {
        "cbz"
    } else {
        "mobi"
    }
}

// ---------------------------------------------------------------------------
// Laws of devices
// ---------------------------------------------------------------------------


/// A Paperwhite and a Kobo Clara HD have pages of one size, an Oasis larger ones, and
/// what is optimized is fitted into a square; every other device is taken for a
/// Kindle 4.
pub proof fn unknown_devices_are_kindle_4(device: Seq<char>)
    ensures
        device != "kobo-clara-hd"@ && device != "kindle-paperwhite"@ && device != "kindle-oasis"@ && device
            != "optimize"@ && device != "pdf-optimize"@ ==> profile_of(device) == (
            600u32,
            800u32,
            "kindle4"@,
        ),
        device == "kindle-paperwhite"@ || device == "kobo-clara-hd"@ ==> profile_of(device).0 == 1072
            && profile_of(device).1 == 1448,
        device == "kindle-oasis"@ ==> profile_of(device).0 == 1264 && profile_of(device).1 == 1680,
        device == "optimize"@ ==> profile_of(device).0 == 2048 && profile_of(device).1 == 2048,
        device == "pdf-optimize"@ ==> profile_of(device).0 == 1500 && profile_of(device).1 == 1500,
{
    reveal_strlit("kobo-clara-hd");
    reveal_strlit("kindle-paperwhite");
    reveal_strlit("kindle-oasis");
    reveal_strlit("optimize");
    reveal_strlit("pdf-optimize");
    assert("kobo-clara-hd"@.len() == 13 && "kindle-paperwhite"@.len() == 17 && "kindle-oasis"@.len()
        == 12 && "optimize"@.len() == 8 && "pdf-optimize"@.len() == 12 && "kindle-oasis"@[0] == 'k'
        && "pdf-optimize"@[0] == 'p');
}

/// The output is a CBZ file just for devices whose name starts with `kobo` and to
/// optimize, a PDF file to optimize one, and else a MOBI file.
pub proof fn outputs_follow_the_device(device: Seq<char>)
    ensures
        makes_cbz(device) <==> device == "optimize"@ || (device.len() >= 4 && device[0] == 'k'
            && device[1] == 'o' && device[2] == 'b' && device[3] == 'o'),
        optimizes(device) <==> device == "optimize"@ || device == "pdf-optimize"@,
        output_extension_of(device) == "pdf"@ <==> device == "pdf-optimize"@,
        output_extension_of(device) == "cbz"@ <==> makes_cbz(device),
        output_extension_of(device) == "mobi"@ <==> !makes_cbz(device) && device != "pdf-optimize"@,
{
    reveal_strlit("kobo");
    reveal_strlit("optimize");
    reveal_strlit("pdf-optimize");
    reveal_strlit("pdf");
    reveal_strlit("cbz");
    reveal_strlit("mobi");
    assert("pdf"@[0] == 'p' && "cbz"@[0] == 'c' && "mobi"@[0] == 'm');
    assert("pdf-optimize"@[0] == 'p' && "optimize"@[0] == 'o');
    if device.len() >= 4 {
        let p = device.subrange(0, 4);
        assert(p[0] == device[0] && p[1] == device[1] && p[2] == device[2] && p[3] == device[3]);
        if device[0] == 'k' && device[1] == 'o' && device[2] == 'b' && device[3] == 'o' {
            assert("kobo"@ =~= p);
        }
    }
}

/// Each device has its own name for the MOBI writer.
pub proof fn devices_have_their_own_names(device: Seq<char>)
    ensures
        profile_of(device).2 == "kobo_clara_hd"@ <==> device == "kobo-clara-hd"@,
        profile_of(device).2 == "kindle_pw"@ <==> device == "kindle-paperwhite"@,
        profile_of(device).2 == "kindle_oasis"@ <==> device == "kindle-oasis"@,
        profile_of(device).2 == "optimized"@ <==> device == "optimize"@,
        profile_of(device).2 == "pdf_optimized"@ <==> device == "pdf-optimize"@,
{
    reveal_strlit("kobo-clara-hd");
    reveal_strlit("kindle-paperwhite");
    reveal_strlit("kindle-oasis");
    reveal_strlit("optimize");
    reveal_strlit("pdf-optimize");
    reveal_strlit("kobo_clara_hd");
    reveal_strlit("kindle_pw");
    reveal_strlit("kindle_oasis");
    reveal_strlit("optimized");
    reveal_strlit("pdf_optimized");
    reveal_strlit("kindle4");
    assert("kobo-clara-hd"@.len() == 13 && "kindle-paperwhite"@.len() == 17 && "kindle-oasis"@.len()
        == 12 && "optimize"@.len() == 8 && "pdf-optimize"@.len() == 12 && "kindle-oasis"@[0] == 'k'
        && "pdf-optimize"@[0] == 'p');
    assert("kobo_clara_hd"@.len() == 13 && "kobo_clara_hd"@[0] == 'k' && "kindle_pw"@.len() == 9
        && "kindle_pw"@[0] == 'k' && "kindle_oasis"@.len() == 12 && "optimized"@.len() == 9
        && "optimized"@[0] == 'o' && "pdf_optimized"@.len() == 13 && "pdf_optimized"@[0] == 'p'
        && "kindle4"@.len() == 7);
}

} // verus!
