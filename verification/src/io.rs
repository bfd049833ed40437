//! Where printed text goes.

use crate::port::{out, PortWrite};
use crate::serial::COM1;
use crate::text::{chars_of, push_chars};
use vstd::prelude::*;
use vstd::utf8::encode_utf8;

verus! {

/// The text that is captured instead of shown, while a command's output is
/// the input of another; and whether a console window takes what is shown.
pub struct Output {
    pub capture: Option<String>,
    pub console: bool,
}

/// Where a text has to be shown.
#[derive(Clone, Copy, Debug, PartialEq, Eq, Structural)]
pub enum Route {
    /// Nowhere: it was captured.
    Captured,
    /// On the serial line and in the active console.
    Console,
    /// On the serial line and the text screen.
    Screen,
}

pub open spec fn captured(o: Option<String>) -> Option<Seq<char>> {
    match o {
        Some(s) => Some(s@),
        None => None,
    }
}

/// Where output stands: the text captured so far, if it is captured.
#[verifier::ext_equal]
pub struct Sink {
    pub capture: Option<Seq<char>>,
    pub console: bool,
}

impl View for Output {
    type V = Sink;

    open spec fn view(&self) -> Sink {
        Sink { capture: captured(self.capture), console: self.console }
    }
}

/// Where shown text goes.
pub open spec fn shown(s: Sink) -> Route {
    if s.console {
        Route::Console
    } else {
        Route::Screen
    }
}

/// The output after a text was printed, and where that text has to be
/// shown.
pub open spec fn printed(s: Sink, text: Seq<char>) -> (Sink, Route) {
    match s.capture {
        Some(t) => (Sink { capture: Some(t + text), ..s }, Route::Captured),
        None => (s, shown(s)),
    }
}

/// The output with another capture target.
pub open spec fn retargeted(s: Sink, target: Option<Seq<char>>) -> Sink {
    Sink { capture: target, ..s }
}

/// The output after the first `n` texts were printed.
pub open spec fn all_printed(s: Sink, texts: Seq<Seq<char>>, n: nat) -> Sink
    decreases n,
{
    if n == 0 {
        s
    } else {
        printed(all_printed(s, texts, (n - 1) as nat), texts[n - 1]).0
    }
}

/// The first `n` texts in a row.
pub open spec fn in_a_row(texts: Seq<Seq<char>>, n: nat) -> Seq<char>
    decreases n,
{
    if n == 0 {
        Seq::empty()
    } else {
        in_a_row(texts, (n - 1) as nat) + texts[n - 1]
    }
}

/// Points shown text at a console window, or back at the text screen.
pub fn set_console_sink(output: &mut Output, on: bool)
    ensures
        *final(output) == (Output { console: on, ..*old(output) }),
{
    output.console = on;
}

/// Sets the capture target and returns the previous one.
pub fn set_output_capture(output: &mut Output, target: Option<String>) -> (r: Option<String>)
    ensures
        r == old(output).capture,
        *final(output) == (Output { capture: target, ..*old(output) }),
        final(output)@ == retargeted(old(output)@, captured(target)),
{
    let console = output.console;
    let mut fresh = Output { capture: target, console };
    std::mem::swap(output, &mut fresh);
    fresh.capture
}

/// Restores the capture target saved by `set_output_capture`, and returns
/// the one that was in place.
pub fn restore_output_capture(output: &mut Output, prev: Option<String>) -> (r: Option<String>)
    ensures
        r == old(output).capture,
        *final(output) == (Output { capture: prev, ..*old(output) }),
        final(output)@ == retargeted(old(output)@, captured(prev)),
{
    set_output_capture(output, prev)
}

/// Prints a text: it goes to the capture target if there is one, and is to
/// be shown otherwise.
pub fn print(output: &mut Output, text: &str) -> (r: Route)
    ensures
        (final(output)@, r) == printed(old(output)@, text@),
{
    let chars = chars_of(text);
    match &mut output.capture {
        Some(t) => {
            push_chars(t, &chars);
            return Route::Captured;
        },
        None => {},
    }
    if output.console {
        Route::Console
    } else {
        Route::Screen
    }
}

/// Where clearing the screen takes effect: never in a capture.
pub fn clear_active(output: &Output) -> (r: Route)
    ensures
        r == shown(output@),
{
    if output.console {
        Route::Console
    } else {
        Route::Screen
    }
}

/// Prints from exception or panic context: the serial writes that always
/// happen, and whether the text screen is written too, which it is only
/// where nobody else is writing to it.
pub fn exception_print(text: &str, screen_free: bool) -> (r: (Vec<PortWrite>, bool))
    ensures
        r.0@ == encode_utf8(text@).map_values(|b: u8| out(COM1, b)),
        r.1 == screen_free,
{
    (crate::serial::write_str(text), screen_free)
}

proof fn lemma_captured(s: Sink, texts: Seq<Seq<char>>, n: nat)
    requires
        s.capture == Some(Seq::<char>::empty()),
        n <= texts.len(),
    ensures
        all_printed(s, texts, n) == (Sink { capture: Some(in_a_row(texts, n)), ..s }),
    decreases n,
{
    if n > 0 {
        lemma_captured(s, texts, (n - 1) as nat);
    }
}

/// What is printed while a capture is on is shown nowhere and is in the
/// capture, all of it in order; putting the old target back leaves the
/// output as it was.
pub proof fn law_nested_capture(outer: Sink, texts: Seq<Seq<char>>, i: int)
    requires
        0 <= i < texts.len(),
    ensures
        ({
            let inner = retargeted(outer, Some(Seq::empty()));
            let done = all_printed(inner, texts, texts.len());
            &&& printed(all_printed(inner, texts, i as nat), texts[i]).1 == Route::Captured
            &&& done.capture == Some(in_a_row(texts, texts.len()))
            &&& retargeted(done, outer.capture) == outer
        }),
{
    let inner = retargeted(outer, Some(Seq::empty()));
    lemma_captured(inner, texts, texts.len());
    lemma_captured(inner, texts, i as nat);
}

/// The bytes, at most `n` of them.
pub open spec fn cut_bytes(s: Seq<u8>, n: int) -> Seq<u8> {
    if s.len() <= n {
        s
    } else {
        s.take(n)
    }
}

/// Formats into a buffer of a fixed size: what does not fit is dropped.
pub fn sprint(capacity: usize, text: &str) -> (r: Vec<u8>)
    ensures
        r@ == cut_bytes(encode_utf8(text@), capacity as int),
{
    let mut buffer: Vec<u8> = Vec::new();
    write_str(&mut buffer, capacity, text);
    assert(Seq::<u8>::empty() + encode_utf8(text@) =~= encode_utf8(text@));
    buffer
}

/// Appends a text to a buffer as far as it fits.
pub fn write_str(buffer: &mut Vec<u8>, capacity: usize, text: &str)
    requires
        old(buffer)@.len() <= capacity,
    ensures
        ({
            let all = old(buffer)@ + encode_utf8(text@);
            final(buffer)@ == if all.len() <= capacity {
                all
            } else {
                all.take(capacity as int)
            }
        }),
{
    let bytes = text.as_bytes();
    let ghost all = old(buffer)@ + encode_utf8(text@);
    let ghost n = old(buffer)@.len() as int;
    let mut i: usize = 0;
    assert(buffer@ =~= all.take(n));
    while i < bytes.len()
        invariant
            i <= bytes@.len(),
            bytes@ == encode_utf8(text@),
            all == old(buffer)@ + bytes@,
            n == old(buffer)@.len() <= capacity,
            buffer@ == all.take(
                if n + i <= capacity {
                    n + i
                } else {
                    capacity as int
                },
            ),
        decreases bytes@.len() - i,
    {
        if buffer.len() < capacity {
            buffer.push(bytes[i]);
            assert(buffer@ =~= all.take(n + i + 1));
        }
        i += 1;
    }
    assert(all.take(all.len() as int) =~= all);
}

} // verus!
