//! What the kernel decides and reports while it boots.

use crate::io::{cut_bytes, sprint};
use crate::multiboot::MAGIC;
use crate::text::{
    chars_of, dec, hex, is_text, push_dec, push_hex, push_str, split_words, string_of, views, words,
};
use vstd::prelude::*;
use vstd::utf8::encode_utf8;

verus! {

/// Whether the kernel command line asks for the self-test.
pub fn selftest_mode(cmdline: &str) -> (r: bool)
    ensures
        r == words(cmdline@).contains("selftest"@),
{
    let chars = chars_of(cmdline);
    let ws = split_words(&chars);
    let ghost all = views(ws@);
    let mut i: usize = 0;
    while i < ws.len()
        invariant
            i <= ws@.len(),
            all == views(ws@),
            all == words(cmdline@),
            forall|k: int| 0 <= k < i ==> all[k] != "selftest"@,
        decreases ws@.len() - i,
    {
        if is_text(&ws[i], "selftest") {
            assert(all[i as int] == "selftest"@);
            return true;
        }
        i += 1;
    }
    false
}

/// The boot log's line about the boot protocol.
pub fn magic_line(magic: u32) -> (r: String)
    ensures
        r@ == magic_text(magic),
{
    let mut out: Vec<char> = Vec::new();
    if magic == MAGIC {
        push_str(&mut out, "[OK] multiboot boot protocol (magic ");
        push_hex(&mut out, magic as u64);
        push_str(&mut out, ")");
        assert(out@ =~= "[OK] multiboot boot protocol (magic "@ + hex(magic as nat) + ")"@);
    } else {
        push_str(&mut out, "[WARN] invalid multiboot magic: ");
        push_hex(&mut out, magic as u64);
        assert(out@ =~= "[WARN] invalid multiboot magic: "@ + hex(magic as nat));
    }
    string_of(&out)
}

/// What the boot loader handed over.
pub struct BootFacts {
    pub magic: u32,
    pub loader: Option<String>,
    pub cmdline: Option<String>,
    pub lower_kb: Option<u32>,
    pub upper_kb: Option<u32>,
    pub regions: usize,
}

pub open spec fn magic_text(magic: u32) -> Seq<char> {
    if magic == MAGIC {
        "[OK] multiboot boot protocol (magic "@ + hex(magic as nat) + ")"@
    } else {
        "[WARN] invalid multiboot magic: "@ + hex(magic as nat)
    }
}

pub open spec fn memory_text(lower: u32, upper: u32) -> Seq<char> {
    "[OK] memory: "@ + dec(lower as nat) + " KiB lower, "@ + dec(upper as nat) + " KiB upper"@
}

/// The boot log's lines about what the boot loader handed over; a line
/// about something that it did not is left out.
pub open spec fn boot_lines(f: BootFacts) -> Seq<Seq<char>> {
    seq![magic_text(f.magic)] + (match f.loader {
        Some(name) => seq!["[OK] boot loader: "@ + name@],
        None => Seq::empty(),
    }) + (match f.cmdline {
        Some(line) => seq!["[OK] kernel cmdline: '"@ + line@ + "'"@],
        None => Seq::empty(),
    }) + (if f.lower_kb is Some && f.upper_kb is Some {
        seq![memory_text(f.lower_kb->0, f.upper_kb->0)]
    } else {
        Seq::empty()
    }) + seq!["[OK] memory map: "@ + dec(f.regions as nat) + " regions"@]
}

/// The contents of the lines.
pub open spec fn line_views(v: Seq<String>) -> Seq<Seq<char>> {
    v.map_values(|s: String| s@)
}

/// A text between two others.
fn between(before: &str, text: &str, after: &str) -> (r: String)
    ensures
        r@ == before@ + text@ + after@,
{
    let mut out: Vec<char> = Vec::new();
    push_str(&mut out, before);
    push_str(&mut out, text);
    push_str(&mut out, after);
    assert(out@ =~= before@ + text@ + after@);
    string_of(&out)
}

fn add_line(lines: &mut Vec<String>, line: String)
    ensures
        line_views(final(lines)@) == line_views(old(lines)@).push(line@),
{
    lines.push(line);
    assert(line_views(lines@) =~= line_views(old(lines)@).push(line@));
}

fn memory_line(lower: u32, upper: u32) -> (r: String)
    ensures
        r@ == memory_text(lower, upper),
{
    let mut out: Vec<char> = Vec::new();
    push_str(&mut out, "[OK] memory: ");
    push_dec(&mut out, lower as u64);
    push_str(&mut out, " KiB lower, ");
    push_dec(&mut out, upper as u64);
    push_str(&mut out, " KiB upper");
    assert(out@ =~= memory_text(lower, upper));
    string_of(&out)
}

fn regions_line(n: usize) -> (r: String)
    ensures
        r@ == "[OK] memory map: "@ + dec(n as nat) + " regions"@,
{
    let mut out: Vec<char> = Vec::new();
    push_str(&mut out, "[OK] memory map: ");
    push_dec(&mut out, n as u64);
    push_str(&mut out, " regions");
    assert(out@ =~= "[OK] memory map: "@ + dec(n as nat) + " regions"@);
    string_of(&out)
}

/// Reports what the boot loader handed over.
pub fn boot_report(f: &BootFacts) -> (r: Vec<String>)
    ensures
        line_views(r@) == boot_lines(*f),
{
    let mut lines: Vec<String> = Vec::new();
    assert(line_views(lines@) =~= Seq::<Seq<char>>::empty());
    add_line(&mut lines, magic_line(f.magic));
    if let Some(name) = &f.loader {
        let line = between("[OK] boot loader: ", name.as_str(), "");
        proof {
            reveal_strlit("");
            assert(line@ =~= "[OK] boot loader: "@ + name@);
        }
        add_line(&mut lines, line);
    }
    if let Some(text) = &f.cmdline {
        add_line(&mut lines, between("[OK] kernel cmdline: '", text.as_str(), "'"));
    }
    if let Some(lower) = f.lower_kb {
        if let Some(upper) = f.upper_kb {
            add_line(&mut lines, memory_line(lower, upper));
        }
    }
    add_line(&mut lines, regions_line(f.regions));
    assert(line_views(lines@) =~= boot_lines(*f));
    lines
}

/// The boot log's line about the processor.
pub fn cpu_line(vendor: &str, cores: u32) -> (r: String)
    ensures
        r@ == "[OK] CPU: "@ + vendor@ + " ("@ + dec(cores as nat) + " logical cores)"@,
{
    let mut out: Vec<char> = Vec::new();
    push_str(&mut out, "[OK] CPU: ");
    push_str(&mut out, vendor);
    push_str(&mut out, " (");
    push_dec(&mut out, cores as u64);
    push_str(&mut out, " logical cores)");
    assert(out@ =~= "[OK] CPU: "@ + vendor@ + " ("@ + dec(cores as nat) + " logical cores)"@);
    string_of(&out)
}

pub open spec fn panic_text(message: Seq<char>) -> Seq<char> {
    "\nKERNEL PANIC: "@ + message + "\n"@
}

pub open spec fn location_text(file: Seq<char>, line: u32) -> Seq<char> {
    "  at "@ + file + ":"@ + dec(line as nat) + "\n"@
}

/// What is printed when the kernel panics, piece by piece: the message, at
/// most 256 bytes of it; where it happened, if that is known, at most 128
/// bytes; and that the system is halted.
pub fn panic_report(message: &str, location: Option<(&str, u32)>) -> (r: (
    Vec<u8>,
    Option<Vec<u8>>,
    &'static str,
))
    ensures
        r.0@ == cut_bytes(encode_utf8(panic_text(message@)), 256),
        match location {
            None => r.1 is None,
            Some((file, line)) => r.1 matches Some(b) && b@ == cut_bytes(
                encode_utf8(location_text(file@, line)),
                128,
            ),
        },
        r.2 == "System halted.\n",
{
    let text = between("\nKERNEL PANIC: ", message, "\n");
    let head = sprint(256, text.as_str());
    let place = match location {
        None => None,
        Some((file, line)) => {
            let mut out: Vec<char> = Vec::new();
            push_str(&mut out, "  at ");
            push_str(&mut out, file);
            push_str(&mut out, ":");
            push_dec(&mut out, line as u64);
            push_str(&mut out, "\n");
            assert(out@ =~= location_text(file@, line));
            let text = string_of(&out);
            Some(sprint(128, text.as_str()))
        },
    };
    (head, place, "System halted.\n")
}

} // verus!
