//! Desktop session persistence: the set of open windows and the
//! "remembered" geometry of closed apps, written to
//! `/system/desktop.session` and restored at boot.
//!
//! The file is line-based text, one entry per line (`#` starts a comment):
//!
//! ```text
//! # MachaOS desktop session
//! window terminal 100 80 80 24 0 0
//! remembered calculator 140 100 0 0 0
//! ```
//!
//! Fields of a `window` entry: `app x y cols rows minimized maximized`; of a
//! `remembered` entry: `app x y cols rows maximized`. Unknown and malformed
//! lines are skipped.

use crate::fat::{file_at, file_written, read_file, write_file, Mount, Volume};
use crate::fat_laws::{can_keep, law_written_file_reads_back};
use crate::fat_room::{can_write, law_file_can_be_written};
use crate::rtc::DateTime;
use crate::text::{
    chars_of, dec, dec_signed, is_digit, is_space, is_text, is_word, joined, law_dec_parses_back, law_dec_value,
    law_joined_words, law_unlines_pieces, lemma_unlines_push, parse_i32, parse_uint, parsed_int, parsed_uint, pieces,
    push_dec, push_dec_signed, push_joined, push_str, split_at_each, split_words, string_of,
    unlines, utf8, views, words, words_from,
};
use vstd::prelude::*;
use vstd::utf8::{decode_utf8, encode_utf8, valid_utf8};

verus! {

/// One restored window or remembered geometry entry.
#[derive(Clone, Debug, PartialEq)]
pub struct SessionWindow {
    /// App name as written to the session file.
    pub app: String,
    pub x: i32,
    pub y: i32,
    pub cols: usize,
    pub rows: usize,
    pub minimized: bool,
    pub maximized: bool,
}

/// The complete persisted desktop session.
#[derive(Clone, Debug, PartialEq)]
pub struct SessionData {
    /// Windows that were open when the session was saved.
    pub windows: Vec<SessionWindow>,
    /// "Where was this app last left" entries for closed apps.
    pub remembered: Vec<SessionWindow>,
}

impl Default for SessionData {
    fn default() -> (r: Self)
        ensures
            r@ == nothing(),
    {
        let r = SessionData { windows: Vec::new(), remembered: Vec::new() };
        assert(r@.windows =~= Seq::<Window>::empty());
        assert(r@.remembered =~= Seq::<Window>::empty());
        r
    }
}

/// An entry.
pub struct Window {
    pub app: Seq<char>,
    pub x: int,
    pub y: int,
    pub cols: nat,
    pub rows: nat,
    pub minimized: bool,
    pub maximized: bool,
}

/// A session.
pub struct Session {
    pub windows: Seq<Window>,
    pub remembered: Seq<Window>,
}

impl View for SessionWindow {
    type V = Window;

    open spec fn view(&self) -> Window {
        Window {
            app: self.app@,
            x: self.x as int,
            y: self.y as int,
            cols: self.cols as nat,
            rows: self.rows as nat,
            minimized: self.minimized,
            maximized: self.maximized,
        }
    }
}

pub open spec fn window_views(v: Seq<SessionWindow>) -> Seq<Window> {
    v.map_values(|w: SessionWindow| w@)
}

impl View for SessionData {
    type V = Session;

    open spec fn view(&self) -> Session {
        Session {
            windows: window_views(self.windows@),
            remembered: window_views(self.remembered@),
        }
    }
}

pub open spec fn nothing() -> Session {
    Session { windows: Seq::empty(), remembered: Seq::empty() }
}

pub const SESSION_PATH: &'static str = "/system/desktop.session";

// ---------------------------------------------------------------------
// Writing
// ---------------------------------------------------------------------

pub open spec fn bit(b: bool) -> Seq<char> {
    if b {
        "1"@
    } else {
        "0"@
    }
}

/// The words of an entry's line.
pub open spec fn fields(w: Window, window: bool) -> Seq<Seq<char>> {
    if window {
        seq![
            "window"@,
            w.app,
            dec_signed(w.x),
            dec_signed(w.y),
            dec(w.cols),
            dec(w.rows),
            bit(w.minimized),
            bit(w.maximized),
        ]
    } else {
        seq![
            "remembered"@,
            w.app,
            dec_signed(w.x),
            dec_signed(w.y),
            dec(w.cols),
            dec(w.rows),
            bit(w.maximized),
        ]
    }
}

/// The lines of entries.
pub open spec fn entry_lines(ws: Seq<Window>, window: bool) -> Seq<Seq<char>> {
    ws.map_values(|w: Window| joined(fields(w, window)))
}

/// The lines of a session.
pub open spec fn session_lines(s: Session) -> Seq<Seq<char>> {
    seq!["# MachaOS desktop session"@] + entry_lines(s.windows, true) + entry_lines(
        s.remembered,
        false,
    )
}

/// The session file's text.
pub open spec fn session_text(s: Session) -> Seq<char> {
    unlines(session_lines(s))
}

fn bit_chars(b: bool) -> (r: Vec<char>)
    ensures
        r@ == bit(b),
{
    chars_of(if b { "1" } else { "0" })
}

fn signed_chars(v: i32) -> (r: Vec<char>)
    ensures
        r@ == dec_signed(v as int),
{
    let mut out: Vec<char> = Vec::new();
    push_dec_signed(&mut out, v as i64);
    assert(out@ =~= dec_signed(v as int));
    out
}

fn dec_chars(v: usize) -> (r: Vec<char>)
    ensures
        r@ == dec(v as nat),
{
    let mut out: Vec<char> = Vec::new();
    push_dec(&mut out, v as u64);
    assert(out@ =~= dec(v as nat));
    out
}

fn push_entry(out: &mut Vec<char>, w: &SessionWindow, window: bool)
    ensures
        final(out)@ == old(out)@ + joined(fields(w@, window)) + seq!['\n'],
{
    let mut f: Vec<Vec<char>> = Vec::new();
    f.push(chars_of(if window { "window" } else { "remembered" }));
    f.push(chars_of(w.app.as_str()));
    f.push(signed_chars(w.x));
    f.push(signed_chars(w.y));
    f.push(dec_chars(w.cols));
    f.push(dec_chars(w.rows));
    if window {
        f.push(bit_chars(w.minimized));
    }
    f.push(bit_chars(w.maximized));
    assert(views(f@) =~= fields(w@, window));
    push_joined(out, &f);
    out.push('\n');
    assert(out@ =~= old(out)@ + joined(fields(w@, window)) + seq!['\n']);
}

fn push_entries(out: &mut Vec<char>, ws: &Vec<SessionWindow>, window: bool, Ghost(ls): Ghost<
    Seq<Seq<char>>,
>)
    requires
        old(out)@ == unlines(ls),
    ensures
        final(out)@ == unlines(ls + entry_lines(window_views(ws@), window)),
{
    let ghost all = entry_lines(window_views(ws@), window);
    let mut i: usize = 0;
    assert(ls + all.take(0) =~= ls);
    while i < ws.len()
        invariant
            i <= ws@.len(),
            all == entry_lines(window_views(ws@), window),
            out@ == unlines(ls + all.take(i as int)),
        decreases ws@.len() - i,
    {
        push_entry(out, &ws[i], window);
        proof {
            lemma_unlines_push(ls + all.take(i as int), all[i as int]);
            assert((ls + all.take(i as int)).push(all[i as int]) =~= ls + all.take(i + 1));
        }
        i += 1;
    }
    assert(all.take(i as int) =~= all);
}

/// Serializes a session to the on-disk text format.
pub fn serialize(data: &SessionData) -> (r: String)
    ensures
        r@ == session_text(data@),
{
    let mut out: Vec<char> = Vec::new();
    push_str(&mut out, "# MachaOS desktop session");
    out.push('\n');
    let ghost head = seq!["# MachaOS desktop session"@];
    proof {
        lemma_unlines_push(Seq::empty(), "# MachaOS desktop session"@);
        assert(Seq::<Seq<char>>::empty().push("# MachaOS desktop session"@) =~= head);
        assert(out@ =~= unlines(head));
    }
    push_entries(&mut out, &data.windows, true, Ghost(head));
    push_entries(
        &mut out,
        &data.remembered,
        false,
        Ghost(head + entry_lines(data@.windows, true)),
    );
    string_of(&out)
}

// ---------------------------------------------------------------------
// Reading
// ---------------------------------------------------------------------

pub open spec fn truth(w: Seq<char>) -> bool {
    w == "1"@ || w == "true"@
}

/// The entry in a line's words behind the first.
pub open spec fn parsed_entry(ws: Seq<Seq<char>>, window: bool) -> Option<Window> {
    if ws.len() < (if window {
        8int
    } else {
        7
    }) {
        None
    } else {
        match (
            parsed_int(ws[2], i32::MAX as nat),
            parsed_int(ws[3], i32::MAX as nat),
            parsed_uint(ws[4], usize::MAX as nat),
            parsed_uint(ws[5], usize::MAX as nat),
        ) {
            (Some(x), Some(y), Some(cols), Some(rows)) => Some(
                Window {
                    app: ws[1],
                    x,
                    y,
                    cols,
                    rows,
                    minimized: window && truth(ws[6]),
                    maximized: truth(
                        if window {
                            ws[7]
                        } else {
                            ws[6]
                        },
                    ),
                },
            ),
            _ => None,
        }
    }
}

/// The session with what a line adds.
pub open spec fn with_line(s: Session, line: Seq<char>) -> Session {
    let ws = words(line);
    if ws.len() == 0 || ws[0][0] == '#' {
        s
    } else if ws[0] == "window"@ {
        match parsed_entry(ws, true) {
            Some(w) => Session { windows: s.windows.push(w), ..s },
            None => s,
        }
    } else if ws[0] == "remembered"@ {
        match parsed_entry(ws, false) {
            Some(w) => Session { remembered: s.remembered.push(w), ..s },
            None => s,
        }
    } else {
        s
    }
}

/// The session in lines.
pub open spec fn with_lines(s: Session, lines: Seq<Seq<char>>) -> Session
    decreases lines.len(),
{
    if lines.len() == 0 {
        s
    } else {
        with_line(with_lines(s, lines.drop_last()), lines.last())
    }
}

/// The session in a file's text.
pub open spec fn parsed(text: Seq<char>) -> Session {
    with_lines(nothing(), pieces(text, '\n'))
}

fn parse_bool(value: &Vec<char>) -> (r: bool)
    ensures
        r == truth(value@),
{
    is_text(value, "1") || is_text(value, "true")
}

fn parse_entry(ws: &Vec<Vec<char>>, window: bool) -> (r: Option<SessionWindow>)
    ensures
        match parsed_entry(views(ws@), window) {
            None => r is None,
            Some(w) => r matches Some(e) && e@ == w,
        },
{
    let n: usize = if window { 8 } else { 7 };
    if ws.len() < n {
        return None;
    }
    let x = match parse_i32(&ws[2]) {
        None => {
            return None;
        },
        Some(v) => v,
    };
    let y = match parse_i32(&ws[3]) {
        None => {
            return None;
        },
        Some(v) => v,
    };
    let cols = match parse_uint(&ws[4], usize::MAX as u64) {
        None => {
            return None;
        },
        Some(v) => v as usize,
    };
    let rows = match parse_uint(&ws[5], usize::MAX as u64) {
        None => {
            return None;
        },
        Some(v) => v as usize,
    };
    let first = parse_bool(&ws[6]);
    let (minimized, maximized) = if window {
        (first, parse_bool(&ws[7]))
    } else {
        (false, first)
    };
    Some(SessionWindow { app: string_of(&ws[1]), x, y, cols, rows, minimized, maximized })
}

proof fn lemma_words_nonempty(s: Seq<char>, i: int, cur: Seq<char>)
    requires
        0 <= i,
    ensures
        forall|k: int|
            0 <= k < words_from(s, i, cur).len()
                ==> (#[trigger] words_from(s, i, cur)[k]).len() > 0,
    decreases s.len() - i,
{
    if i < s.len() {
        lemma_words_nonempty(s, i + 1, Seq::empty());
        lemma_words_nonempty(s, i + 1, cur.push(s[i]));
        let all = words_from(s, i, cur);
        let rest = words_from(s, i + 1, Seq::empty());
        let more = words_from(s, i + 1, cur.push(s[i]));
        assert forall|k: int| 0 <= k < all.len() implies (#[trigger] all[k]).len() > 0 by {
            if is_space(s[i]) {
                if cur.len() > 0 {
                    if k > 0 {
                        assert(all[k] == rest[k - 1]);
                    }
                } else {
                    assert(all[k] == rest[k]);
                }
            } else {
                assert(all[k] == more[k]);
            }
        }
    }
}

fn parse_line(data: &mut SessionData, line: &Vec<char>)
    ensures
        final(data)@ == with_line(old(data)@, line@),
{
    let ws = split_words(line);
    if ws.len() == 0 {
        return;
    }
    proof {
        lemma_words_nonempty(line@, 0, Seq::empty());
        assert(views(ws@)[0] == ws@[0]@);
        assert(words(line@)[0].len() > 0);
    }
    if ws[0][0] == '#' {
        return;
    }
    if is_text(&ws[0], "window") {
        if let Some(w) = parse_entry(&ws, true) {
            data.windows.push(w);
            assert(data@.windows =~= old(data)@.windows.push(w@));
        }
    } else if is_text(&ws[0], "remembered") {
        if let Some(w) = parse_entry(&ws, false) {
            data.remembered.push(w);
            assert(data@.remembered =~= old(data)@.remembered.push(w@));
        }
    }
}

/// Parses the on-disk text format back into a session. Malformed or unknown
/// lines are skipped.
pub fn parse(text: &str) -> (r: SessionData)
    ensures
        r@ == parsed(text@),
{
    let chars = chars_of(text);
    let lines = split_at_each(&chars, '\n');
    let mut data = SessionData::default();
    let ghost all = views(lines@);
    let mut i: usize = 0;
    assert(all.take(0) =~= Seq::<Seq<char>>::empty());
    while i < lines.len()
        invariant
            i <= lines@.len(),
            all == views(lines@),
            data@ == with_lines(nothing(), all.take(i as int)),
        decreases lines@.len() - i,
    {
        parse_line(&mut data, &lines[i]);
        proof {
            assert(all.take(i + 1).drop_last() =~= all.take(i as int));
            assert(all.take(i + 1).last() == lines@[i as int]@);
        }
        i += 1;
    }
    assert(all.take(i as int) =~= all);
    data
}

// ---------------------------------------------------------------------
// The file
// ---------------------------------------------------------------------

/// What saving a session does to a volume.
pub open spec fn saved(disk: Option<Volume>, s: Session, now: DateTime) -> (bool, Option<Volume>) {
    match disk {
        None => (false, None),
        Some(v) => {
            let w = file_written(v, SESSION_PATH@, encode_utf8(session_text(s)), now);
            (w.0 is Ok, Some(w.1))
        },
    }
}

/// Saves a session to `/system/desktop.session`. `false` when no volume is
/// mounted or the write fails.
pub fn save_to_disk(disk: &mut Mount, data: &SessionData, now: DateTime) -> (r: bool)
    requires
        old(disk).wf(),
        encode_utf8(session_text(data@)).len() <= 0xFFFF_FFFF,
    ensures
        final(disk).wf(),
        r == saved(old(disk)@, data@, now).0,
        final(disk)@ == saved(old(disk)@, data@, now).1,
{
    let text = serialize(data);
    let bytes = text.as_str().as_bytes();
    write_file(disk, SESSION_PATH, bytes, now).is_ok()
}

/// The session in a file's bytes: bytes that are no text hold none.
pub open spec fn parsed_bytes(bytes: Seq<u8>) -> Session {
    if valid_utf8(bytes) {
        parsed(decode_utf8(bytes))
    } else {
        nothing()
    }
}

/// The session on a disk; an empty one where there is no file.
pub open spec fn loaded(disk: Option<Volume>) -> Session {
    match disk {
        Some(v) => match file_at(v, SESSION_PATH@) {
            Ok(bytes) => parsed_bytes(bytes),
            Err(_) => nothing(),
        },
        None => nothing(),
    }
}

/// Loads the persisted session from disk; a missing file restores an empty
/// session.
pub fn load_from_disk(disk: &Mount) -> (r: SessionData)
    requires
        disk.wf(),
    ensures
        r@ == loaded(disk@),
{
    match read_file(disk, SESSION_PATH) {
        Ok(bytes) => match utf8(bytes.as_slice()) {
            Some(text) => parse(text.as_str()),
            None => SessionData::default(),
        },
        Err(_) => SessionData::default(),
    }
}

// ---------------------------------------------------------------------
// What is saved comes back
// ---------------------------------------------------------------------

/// An entry that its line can hold.
pub open spec fn storable(w: Window, window: bool) -> bool {
    &&& is_word(w.app)
    &&& i32::MIN <= w.x <= i32::MAX
    &&& i32::MIN <= w.y <= i32::MAX
    &&& w.cols <= usize::MAX
    &&& w.rows <= usize::MAX
    &&& !window ==> !w.minimized
}

proof fn lemma_dec_word(n: nat)
    ensures
        is_word(dec(n)),
{
    law_dec_value(n);
    assert forall|i: int| 0 <= i < dec(n).len() implies !is_space(
        #[trigger] dec(n)[i],
    ) by {
        assert(is_digit(dec(n)[i]));
    }
}

proof fn lemma_signed_word(n: int)
    ensures
        is_word(dec_signed(n)),
{
    if n < 0 {
        lemma_dec_word((-n) as nat);
        let s = dec_signed(n);
        assert forall|i: int| 0 <= i < s.len() implies !is_space(#[trigger] s[i]) by {
            if i > 0 {
                assert(s[i] == dec((-n) as nat)[i - 1]);
            }
        }
    } else {
        lemma_dec_word(n as nat);
    }
}

proof fn lemma_fields_are_words(w: Window, window: bool)
    requires
        storable(w, window),
    ensures
        forall|i: int| 0 <= i < fields(w, window).len() ==> is_word(#[trigger] fields(w, window)[i]),
        words(joined(fields(w, window))) == fields(w, window),
{
    reveal_strlit("window");
    reveal_strlit("remembered");
    reveal_strlit("1");
    reveal_strlit("0");
    lemma_signed_word(w.x);
    lemma_signed_word(w.y);
    lemma_dec_word(w.cols);
    lemma_dec_word(w.rows);
    assert(is_word("window"@));
    assert(is_word("remembered"@));
    assert(is_word(bit(w.minimized)));
    assert(is_word(bit(w.maximized)));
    law_joined_words(fields(w, window));
}

proof fn lemma_entry_line(s: Session, w: Window, window: bool)
    requires
        storable(w, window),
    ensures
        with_line(s, joined(fields(w, window))) == if window {
            Session { windows: s.windows.push(w), ..s }
        } else {
            Session { remembered: s.remembered.push(w), ..s }
        },
{
    reveal_strlit("window");
    reveal_strlit("remembered");
    reveal_strlit("1");
    reveal_strlit("0");
    reveal_strlit("true");
    lemma_fields_are_words(w, window);
    law_dec_parses_back(w.x, i32::MAX as nat);
    law_dec_parses_back(w.y, i32::MAX as nat);
    law_dec_parses_back(w.cols as int, usize::MAX as nat);
    law_dec_parses_back(w.rows as int, usize::MAX as nat);
    assert("window"@[0] == 'w');
    assert("remembered"@[0] == 'r');
    assert("window"@.len() != "remembered"@.len());
    assert("0"@[0] == '0');
    assert("1"@[0] == '1');
    assert("true"@[0] == 't');
}

proof fn lemma_entry_lines(s: Session, ls: Seq<Seq<char>>, ws: Seq<Window>, window: bool)
    requires
        forall|i: int| 0 <= i < ws.len() ==> storable(#[trigger] ws[i], window),
    ensures
        with_lines(s, ls + entry_lines(ws, window)) == ({
            let t = with_lines(s, ls);
            if window {
                Session { windows: t.windows + ws, ..t }
            } else {
                Session { remembered: t.remembered + ws, ..t }
            }
        }),
    decreases ws.len(),
{
    let t = with_lines(s, ls);
    if ws.len() == 0 {
        assert(ls + entry_lines(ws, window) =~= ls);
        assert(t.windows + ws =~= t.windows);
        assert(t.remembered + ws =~= t.remembered);
    } else {
        let head = ws.drop_last();
        assert forall|i: int| 0 <= i < head.len() implies storable(#[trigger] head[i], window) by {
            assert(head[i] == ws[i]);
        }
        lemma_entry_lines(s, ls, head, window);
        let all = ls + entry_lines(ws, window);
        assert(all.drop_last() =~= ls + entry_lines(head, window));
        assert(storable(ws[ws.len() - 1], window));
        assert(all.last() == joined(fields(ws.last(), window)));
        lemma_entry_line(with_lines(s, all.drop_last()), ws.last(), window);
        assert((t.windows + head).push(ws.last()) =~= t.windows + ws);
        assert((t.remembered + head).push(ws.last()) =~= t.remembered + ws);
    }
}

proof fn lemma_no_feed(ws: Seq<Seq<char>>)
    requires
        forall|i: int| 0 <= i < ws.len() ==> is_word(#[trigger] ws[i]),
    ensures
        !joined(ws).contains('\n'),
    decreases ws.len(),
{
    if ws.len() > 1 {
        let head = ws.drop_last();
        assert forall|i: int| 0 <= i < head.len() implies is_word(#[trigger] head[i]) by {
            assert(head[i] == ws[i]);
        }
        lemma_no_feed(head);
        assert(is_word(ws[ws.len() - 1]));
        let s = joined(ws);
        assert forall|i: int| 0 <= i < s.len() implies s[i] != '\n' by {
            if i < joined(head).len() {
                assert(s[i] == joined(head)[i]);
            } else if i > joined(head).len() {
                assert(s[i] == ws.last()[i - joined(head).len() - 1]);
            }
        }
    } else if ws.len() == 1 {
        assert(is_word(ws[0]));
    }
}

/// Whether each entry of a session fits its line.
pub open spec fn all_storable(s: Session) -> bool {
    &&& forall|i: int| 0 <= i < s.windows.len() ==> storable(#[trigger] s.windows[i], true)
    &&& forall|i: int| 0 <= i < s.remembered.len() ==> storable(#[trigger] s.remembered[i], false)
}

/// A session that is written and read again is the same session, where its
/// app names are words. A remembered entry has no place for a minimized
/// state.
pub proof fn law_session_round_trip(s: Session)
    requires
        all_storable(s),
    ensures
        parsed(session_text(s)) == s,
        parsed_bytes(encode_utf8(session_text(s))) == s,
{
    let lines = session_lines(s);
    let head = seq!["# MachaOS desktop session"@];
    let a = entry_lines(s.windows, true);
    let b = entry_lines(s.remembered, false);
    reveal_strlit("# MachaOS desktop session");
    assert forall|i: int| 0 <= i < lines.len() implies !(#[trigger] lines[i]).contains('\n') by {
        if i == 0 {
            assert(lines[0] == "# MachaOS desktop session"@);
            assert(!"# MachaOS desktop session"@.contains('\n'));
        } else if i < 1 + a.len() {
            let w = s.windows[i - 1];
            assert(storable(w, true));
            assert(lines[i] == joined(fields(w, true)));
            lemma_fields_are_words(w, true);
            lemma_no_feed(fields(w, true));
        } else {
            let w = s.remembered[i - 1 - a.len()];
            assert(storable(w, false));
            assert(lines[i] == joined(fields(w, false)));
            lemma_fields_are_words(w, false);
            lemma_no_feed(fields(w, false));
        }
    }
    law_unlines_pieces(lines);
    let all = lines.push(Seq::empty());
    assert(all.drop_last() =~= lines);
    assert(words(Seq::<char>::empty()) =~= Seq::<Seq<char>>::empty());
    lemma_entry_lines(nothing(), head + a, s.remembered, false);
    lemma_entry_lines(nothing(), head, s.windows, true);
    assert(head.drop_last() =~= Seq::<Seq<char>>::empty());
    lemma_comment(nothing());
    assert(with_lines(nothing(), head) == nothing()) by {
        reveal_with_fuel(with_lines, 2);
        assert(head.last() == "# MachaOS desktop session"@);
    }
    assert(nothing().windows + s.windows =~= s.windows);
    assert(nothing().remembered + s.remembered =~= s.remembered);
    vstd::utf8::encode_utf8_valid_utf8(session_text(s));
    vstd::utf8::encode_utf8_decode_utf8(session_text(s));
}

/// A session that was saved loads back as it was.
pub proof fn law_saved_session_loads_back(v: Volume, s: Session, now: DateTime)
    requires
        all_storable(s),
        can_keep(v, SESSION_PATH@, encode_utf8(session_text(s)).len()),
        saved(Some(v), s, now).0,
    ensures
        loaded(saved(Some(v), s, now).1) == s,
{
    law_session_round_trip(s);
    law_written_file_reads_back(v, SESSION_PATH@, encode_utf8(session_text(s)), now);
}

/// A session is saved on a volume that has room for its file, and loads back
/// as it was.
pub proof fn law_session_can_be_saved(v: Volume, s: Session, now: DateTime)
    requires
        all_storable(s),
        can_write(v, SESSION_PATH@, encode_utf8(session_text(s)).len()),
    ensures
        saved(Some(v), s, now).0,
        loaded(saved(Some(v), s, now).1) == s,
{
    law_file_can_be_written(v, SESSION_PATH@, encode_utf8(session_text(s)), now);
    law_saved_session_loads_back(v, s, now);
}

proof fn lemma_comment(s: Session)
    ensures
        with_line(s, "# MachaOS desktop session"@) == s,
{
    reveal_strlit("# MachaOS desktop session");
    let t = "# MachaOS desktop session"@;
    assert(t[0] == '#');
    assert(t[1] == ' ');
    reveal_with_fuel(words_from, 3);
    let e = Seq::<char>::empty();
    assert(e.push('#') =~= seq!['#']);
    assert(words(t) == seq![seq!['#']] + words_from(t, 2, e));
    assert(words(t)[0] == seq!['#']);
}

} // verus!
