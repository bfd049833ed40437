//! System clipboard: a small store that any app can write text (or a raw
//! RGBA image) into and read back from, shared across the desktop.
//!
//! The clipboard holds whichever of the two payload types was written
//! last; pasting the "wrong" kind for an app is a no-op rather than a
//! conversion.

use vstd::prelude::*;

verus! {

/// The stored payload: either text or a raw `RGBA8888` image with its
/// width and height.
pub enum ClipboardData {
    Text(String),
    Image { width: u32, height: u32, pixels: Vec<u32> },
}

/// What a clipboard holds, as mathematical values.
pub enum Payload {
    Empty,
    Text(Seq<char>),
    Image(u32, u32, Seq<u32>),
}

/// The desktop's clipboard.
pub struct Clipboard {
    data: Option<ClipboardData>,
}

impl View for Clipboard {
    type V = Payload;

    closed spec fn view(&self) -> Payload {
        match self.data {
            None => Payload::Empty,
            Some(ClipboardData::Text(t)) => Payload::Text(t@),
            Some(ClipboardData::Image { width, height, pixels }) => Payload::Image(
                width,
                height,
                pixels@,
            ),
        }
    }
}

impl Clipboard {
    /// A clipboard that nothing was copied to yet.
    pub fn new() -> (r: Self)
        ensures
            r@ == Payload::Empty,
    {
        Clipboard { data: None }
    }
}

/// Replaces the clipboard contents with `text`.
pub fn copy_text(board: &mut Clipboard, text: String)
    ensures
        final(board)@ == Payload::Text(text@),
{
    board.data = Some(ClipboardData::Text(text));
}

/// Returns a copy of the clipboard when it currently holds text.
pub fn paste_text(board: &Clipboard) -> (r: Option<String>)
    ensures
        match board@ {
            Payload::Text(t) => r is Some && r->0@ == t,
            _ => r is None,
        },
{
    match &board.data {
        Some(ClipboardData::Text(text)) => Some(text.clone()),
        _ => None,
    }
}

/// Replaces the clipboard contents with a raw RGBA image.
pub fn copy_image(board: &mut Clipboard, width: u32, height: u32, pixels: Vec<u32>)
    ensures
        final(board)@ == Payload::Image(width, height, pixels@),
{
    board.data = Some(ClipboardData::Image { width, height, pixels });
}

/// Returns a copy of the clipboard when it currently holds an image.
pub fn paste_image(board: &Clipboard) -> (r: Option<(u32, u32, Vec<u32>)>)
    ensures
        match board@ {
            Payload::Image(w, h, p) => r matches Some((rw, rh, rp)) && rw == w && rh == h && rp@ == p,
            _ => r is None,
        },
{
    match &board.data {
        Some(ClipboardData::Image { width, height, pixels }) => {
            let copy = pixels.clone();
            assert(copy@ =~= pixels@);
            Some((*width, *height, copy))
        },
        _ => None,
    }
}

/// True when the clipboard holds text (so a paste key can beep or
/// ignore the key rather than silently doing nothing).
pub fn has_text(board: &Clipboard) -> (r: bool)
    ensures
        r == (board@ is Text),
{
    match &board.data {
        Some(ClipboardData::Text(_)) => true,
        _ => false,
    }
}

} // verus!
