//! A minimal Japanese IME: romaji -> kana conversion with a small
//! kanji dictionary, integrated at the window-manager key-dispatch
//! level for the Notepad editor.
//!
//! Model: while composing, the romaji the user types is passed through
//! to the editor as ordinary characters, so it is visible in the text
//! immediately. Space then converts: the IME emits `Backspace` events
//! to erase the romaji and `Char` events to insert the converted
//! string. When a reading has several candidates, further Spaces cycle
//! through them (kana is always the last candidate), number keys pick
//! one directly, and Enter commits. Any other key commits whatever is
//! on screen and then passes through normally.

use crate::keyboard::Event;
use crate::text::{chars_of, push_str, same, string_of, views};
use vstd::prelude::*;

verus! {

/// Greedy romaji -> kana table. 3-char entries first (digraphs and
/// special spellings), then 2-char, then single vowels.
pub const KANA_TABLE: [(&'static str, &'static str); 100] = [
    ("kya", "きゃ"), ("kyu", "きゅ"), ("kyo", "きょ"),
    ("sha", "しゃ"), ("shu", "しゅ"), ("sho", "しょ"),
    ("cha", "ちゃ"), ("chu", "ちゅ"), ("cho", "ちょ"),
    ("nya", "にゃ"), ("nyu", "にゅ"), ("nyo", "にょ"),
    ("hya", "ひゃ"), ("hyu", "ひゅ"), ("hyo", "ひょ"),
    ("mya", "みゃ"), ("myu", "みゅ"), ("myo", "みょ"),
    ("rya", "りゃ"), ("ryu", "りゅ"), ("ryo", "りょ"),
    ("gya", "ぎゃ"), ("gyu", "ぎゅ"), ("gyo", "ぎょ"),
    ("bya", "びゃ"), ("byu", "びゅ"), ("byo", "びょ"),
    ("pya", "ぴゃ"), ("pyu", "ぴゅ"), ("pyo", "ぴょ"),
    ("shi", "し"), ("chi", "ち"), ("tsu", "つ"),
    ("ka", "か"), ("ki", "き"), ("ku", "く"),
    ("ke", "け"), ("ko", "こ"), ("sa", "さ"),
    ("su", "す"), ("se", "せ"), ("so", "そ"),
    ("ta", "た"), ("te", "て"), ("to", "と"),
    ("na", "な"), ("ni", "に"), ("nu", "ぬ"),
    ("ne", "ね"), ("no", "の"), ("ha", "は"),
    ("hi", "ひ"), ("he", "へ"), ("ho", "ほ"),
    ("fu", "ふ"), ("ma", "ま"), ("mi", "み"),
    ("mu", "む"), ("me", "め"), ("mo", "も"),
    ("ya", "や"), ("yu", "ゆ"), ("yo", "よ"),
    ("ra", "ら"), ("ri", "り"), ("ru", "る"),
    ("re", "れ"), ("ro", "ろ"), ("wa", "わ"),
    ("wo", "を"), ("ga", "が"), ("gi", "ぎ"),
    ("gu", "ぐ"), ("ge", "げ"), ("go", "ご"),
    ("za", "ざ"), ("ji", "じ"), ("zu", "ず"),
    ("ze", "ぜ"), ("zo", "ぞ"), ("da", "だ"),
    ("di", "ぢ"), ("du", "づ"), ("de", "で"),
    ("do", "ど"), ("ba", "ば"), ("bi", "び"),
    ("bu", "ぶ"), ("be", "べ"), ("bo", "ぼ"),
    ("pa", "ぱ"), ("pi", "ぴ"), ("pu", "ぷ"),
    ("pe", "ぺ"), ("po", "ぽ"), ("a", "あ"),
    ("i", "い"), ("u", "う"), ("e", "え"),
    ("o", "お"),
];

/// Small everyday kanji dictionary: hiragana reading and candidate; a
/// reading with several candidates stands once for each. The kana reading
/// itself is always appended as the last candidate by the converter, so it
/// is not listed here.
pub const DICT: [(&'static str, &'static str); 90] = [
    ("にほん", "日本"), ("にほん", "二本"),
    ("にほんご", "日本語"), ("わたし", "私"),
    ("がっこう", "学校"), ("がくせい", "学生"),
    ("せんせい", "先生"), ("ともだち", "友達"),
    ("かぞく", "家族"), ("でんわ", "電話"),
    ("てんき", "天気"), ("しんぶん", "新聞"),
    ("ざっし", "雑誌"), ("ほん", "本"),
    ("じしょ", "辞書"), ("かいしゃ", "会社"),
    ("しごと", "仕事"), ("やすみ", "休み"),
    ("きょう", "今日"), ("あした", "明日"),
    ("きのう", "昨日"), ("すうがく", "数学"),
    ("えいご", "英語"), ("でんき", "電気"),
    ("みず", "水"), ("おちゃ", "お茶"),
    ("たべもの", "食べ物"), ("のみもの", "飲み物"),
    ("さかな", "魚"), ("いぬ", "犬"),
    ("ねこ", "猫"), ("とり", "鳥"),
    ("はな", "花"), ("そら", "空"),
    ("うみ", "海"), ("やま", "山"),
    ("かわ", "川"), ("まち", "町"),
    ("みち", "道"), ("でんしゃ", "電車"),
    ("くるま", "車"), ("じてんしゃ", "自転車"),
    ("ひこうき", "飛行機"), ("ふね", "船"),
    ("こうえん", "公園"), ("びょういん", "病院"),
    ("くすり", "薬"), ("おかね", "お金"),
    ("かいもの", "買い物"), ("りょこう", "旅行"),
    ("しゃしん", "写真"), ("おんがく", "音楽"),
    ("えいが", "映画"), ("てれび", "テレビ"),
    ("こんぴゅーたー", "コンピューター"), ("いんたーねっと", "インターネット"),
    ("けいたいでんわ", "携帯電話"), ("めーる", "メール"),
    ("きーぼーど", "キーボード"), ("まうす", "マウス"),
    ("ふぁいる", "ファイル"), ("ふぉるだー", "フォルダー"),
    ("でーた", "データ"), ("おす", "OS"),
    ("うぃんどう", "ウィンドウ"), ("ですくとっぷ", "デスクトップ"),
    ("しすてむ", "システム"), ("せってい", "設定"),
    ("ぶんしょ", "文書"), ("きろく", "記録"),
    ("ほぞん", "保存"), ("さくじょ", "削除"),
    ("いどう", "移動"), ("こぴー", "コピー"),
    ("ぺーすと", "ペースト"), ("いちらん", "一覧"),
    ("ひょうじ", "表示"), ("とうろく", "登録"),
    ("ほんやく", "翻訳"), ("まいにち", "毎日"),
    ("げつようび", "月曜日"), ("かようび", "火曜日"),
    ("すいようび", "水曜日"), ("もくようび", "木曜日"),
    ("きんようび", "金曜日"), ("どようび", "土曜日"),
    ("にちようび", "日曜日"), ("じかん", "時間"),
    ("こんばんは", "こんばんは"), ("おはよう", "おはよう"),
];

/// The first table entry from `j` on whose romaji is `sub`, or the table's
/// length.
pub open spec fn kana_index(sub: Seq<char>, j: int) -> int
    decreases 100 - j,
{
    if j >= 100 || KANA_TABLE@[j].0@ == sub {
        j
    } else {
        kana_index(sub, j + 1)
    }
}

/// The kana that the `n` characters from `i` on spell.
pub open spec fn kana_at(s: Seq<char>, i: int, n: int) -> Option<Seq<char>> {
    if i + n > s.len() {
        None
    } else {
        let j = kana_index(s.subrange(i, i + n), 0);
        if j < 100 {
            Some(KANA_TABLE@[j].1@)
        } else {
            None
        }
    }
}

pub open spec fn vowel(c: char) -> bool {
    c == 'a' || c == 'i' || c == 'u' || c == 'e' || c == 'o'
}

/// Consonants whose doubling stands for a small tsu.
pub open spec fn doubles(c: char) -> bool {
    c == 'k' || c == 's' || c == 't' || c == 'p' || c == 'g' || c == 'z' || c == 'd' || c == 'b'
}

/// How many characters a syllabic n at `i` takes, if there is one: before a
/// consonant, at the end, or doubled.
pub open spec fn syllabic_n(s: Seq<char>, i: int) -> Option<int> {
    if s[i] != 'n' {
        None
    } else if i + 1 >= s.len() {
        Some(1int)
    } else if s[i + 1] == 'n' {
        if i + 2 >= s.len() || !vowel(s[i + 2]) {
            Some(2int)
        } else {
            Some(1int)
        }
    } else if !vowel(s[i + 1]) && s[i + 1] != 'y' {
        Some(1int)
    } else {
        None
    }
}

/// The longest table match at `i`: its kana and how many characters it
/// takes. Anything else stands for itself.
pub open spec fn syllable(s: Seq<char>, i: int) -> (Seq<char>, int) {
    if kana_at(s, i, 3) is Some {
        (kana_at(s, i, 3)->0, 3)
    } else if kana_at(s, i, 2) is Some {
        (kana_at(s, i, 2)->0, 2)
    } else if kana_at(s, i, 1) is Some {
        (kana_at(s, i, 1)->0, 1)
    } else {
        (seq![s[i]], 1)
    }
}

/// The kana of the romaji from `i` on.
pub open spec fn kana_from(s: Seq<char>, i: int) -> Seq<char>
    decreases (if i < s.len() { s.len() - i } else { 0 }),
{
    if i >= s.len() {
        Seq::empty()
    } else if i + 1 < s.len() && s[i + 1] == s[i] && doubles(s[i]) {
        seq!['っ'] + kana_from(s, i + 1)
    } else {
        match syllabic_n(s, i) {
            Some(k) => seq!['ん'] + kana_from(s, i + k),
            None => syllable(s, i).0 + kana_from(s, i + syllable(s, i).1),
        }
    }
}

fn is_vowel(c: char) -> (r: bool)
    ensures
        r == vowel(c),
{
    c == 'a' || c == 'i' || c == 'u' || c == 'e' || c == 'o'
}

/// The kana that a short run of characters spells, from the table.
fn find_kana(s: &Vec<char>, i: usize, n: usize) -> (r: Option<&'static str>)
    requires
        i + n <= usize::MAX,
    ensures
        match kana_at(s@, i as int, n as int) {
            Some(k) => r is Some && r->0@ == k,
            None => r is None,
        },
{
    if i + n > s.len() {
        return None;
    }
    let mut sub: Vec<char> = Vec::new();
    let mut k: usize = 0;
    while k < n
        invariant
            k <= n,
            i + n <= s@.len(),
            s@.len() == s.len(),
            sub@ =~= s@.subrange(i as int, i + k),
        decreases n - k,
    {
        sub.push(s[i + k]);
        k += 1;
    }
    let mut j: usize = 0;
    while j < 100
        invariant
            j <= 100,
            i + n <= s@.len(),
            sub@ == s@.subrange(i as int, i + n),
            kana_index(sub@, 0) == kana_index(sub@, j as int),
        decreases 100 - j,
    {
        let (romaji, kana) = KANA_TABLE[j];
        let chars = chars_of(romaji);
        if same(&chars, &sub) {
            return Some(kana);
        }
        j += 1;
    }
    None
}

/// Romaji -> hiragana, longest-match greedy. Handles the common rules:
/// digraphs (kya -> きゃ), sokuon (kka -> っか), and the n-rules
/// (kan -> かん, kann -> かん, minna -> みんな).
pub fn romaji_to_kana(s: &Vec<char>) -> (r: Vec<char>)
    requires
        s@.len() < usize::MAX - 3,
    ensures
        r@ == kana_from(s@, 0),
{
    let mut out: Vec<char> = Vec::new();
    let mut i: usize = 0;
    assert(out@ + kana_from(s@, 0) =~= kana_from(s@, 0));
    while i < s.len()
        invariant
            i <= s@.len(),
            s@.len() < usize::MAX - 3,
            out@ + kana_from(s@, i as int) == kana_from(s@, 0),
        decreases s@.len() - i,
    {
        let c = s[i];
        let ghost before = out@;
        let ghost i0 = i as int;
        let double = i + 1 < s.len() && s[i + 1] == c && (c == 'k' || c == 's' || c == 't' || c
            == 'p' || c == 'g' || c == 'z' || c == 'd' || c == 'b');
        let n_len: usize = if double || c != 'n' {
            0
        } else if i + 1 >= s.len() {
            1
        } else if s[i + 1] == 'n' {
            if i + 2 >= s.len() || !is_vowel(s[i + 2]) {
                2
            } else {
                1
            }
        } else if !is_vowel(s[i + 1]) && s[i + 1] != 'y' {
            1
        } else {
            0
        };
        if double {
            out.push('っ');
            i += 1;
            assert(out@ + kana_from(s@, i as int) =~= before + (seq!['っ'] + kana_from(
                s@,
                i as int,
            )));
        } else if n_len > 0 {
            out.push('ん');
            i += n_len;
            assert(out@ + kana_from(s@, i as int) =~= before + (seq!['ん'] + kana_from(
                s@,
                i as int,
            )));
        } else {
            let ghost (piece, took) = syllable(s@, i0);
            if let Some(k) = find_kana(s, i, 3) {
                push_str(&mut out, k);
                i += 3;
            } else if let Some(k) = find_kana(s, i, 2) {
                push_str(&mut out, k);
                i += 2;
            } else if let Some(k) = find_kana(s, i, 1) {
                push_str(&mut out, k);
                i += 1;
            } else {
                out.push(c);
                i += 1;
                assert(out@ =~= before + seq![c]);
            }
            assert(out@ == before + piece);
            assert(i == i0 + took);
            assert(before + piece + kana_from(s@, i as int) =~= before + (piece + kana_from(
                s@,
                i as int,
            )));
        }
    }
    assert(out@ + kana_from(s@, i as int) =~= out@);
    out
}

/// The dictionary's candidates for a reading among its first `n` entries,
/// in order.
pub open spec fn dictionary(reading: Seq<char>, n: int) -> Seq<Seq<char>>
    decreases n,
{
    if n <= 0 {
        Seq::empty()
    } else {
        let before = dictionary(reading, n - 1);
        if DICT@[n - 1].0@ == reading {
            before.push(DICT@[n - 1].1@)
        } else {
            before
        }
    }
}

/// The candidates for a reading: the dictionary's, then the kana itself.
pub open spec fn candidates_for(kana: Seq<char>) -> Seq<Seq<char>> {
    dictionary(kana, 90).push(kana)
}

fn look_up(kana: &Vec<char>) -> (r: Vec<Vec<char>>)
    ensures
        views(r@) == candidates_for(kana@),
        r@.len() > 0,
{
    let mut out: Vec<Vec<char>> = Vec::new();
    let mut j: usize = 0;
    assert(views(out@) =~= Seq::<Seq<char>>::empty());
    while j < 90
        invariant
            j <= 90,
            views(out@) == dictionary(kana@, j as int),
        decreases 90 - j,
    {
        let (reading, candidate) = DICT[j];
        let chars = chars_of(reading);
        let ghost before = views(out@);
        if same(&chars, kana) {
            let c = chars_of(candidate);
            out.push(c);
            assert(views(out@) =~= before.push(candidate@));
        }
        j += 1;
    }
    let ghost before = views(out@);
    let copy = copy_of(kana);
    out.push(copy);
    assert(views(out@) =~= before.push(kana@));
    out
}

fn copy_of(s: &Vec<char>) -> (r: Vec<char>)
    ensures
        r@ == s@,
{
    let mut out: Vec<char> = Vec::new();
    let mut i: usize = 0;
    while i < s.len()
        invariant
            i <= s@.len(),
            out@ =~= s@.take(i as int),
        decreases s@.len() - i,
    {
        out.push(s[i]);
        i += 1;
    }
    assert(out@ =~= s@);
    out
}

/// The events a `feed` call wants delivered to the editor, plus an
/// optional status-bar message.
pub struct ImeOutcome {
    pub events: Vec<Event>,
    pub status: Option<String>,
}

pub struct Ime {
    composing: bool,
    /// Romaji typed during the current composition (mirrors what is in
    /// the document, so backspace counts stay in sync).
    romaji: Vec<char>,
    /// Candidate strings for the current reading; empty before the
    /// first conversion.
    candidates: Vec<Vec<char>>,
    index: usize,
    /// The candidate most recently inserted by a conversion (erased
    /// first when cycling to the next one).
    inserted: Vec<char>,
}

/// The state of the input method.
pub struct Composition {
    pub composing: bool,
    pub romaji: Seq<char>,
    pub candidates: Seq<Seq<char>>,
    pub index: int,
    pub inserted: Seq<char>,
}

/// What is delivered to the editor and shown.
pub struct Output {
    pub events: Seq<Event>,
    pub status: Option<Seq<char>>,
}

impl View for Ime {
    type V = Composition;

    closed spec fn view(&self) -> Composition {
        Composition {
            composing: self.composing,
            romaji: self.romaji@,
            candidates: views(self.candidates@),
            index: self.index as int,
            inserted: self.inserted@,
        }
    }
}

impl View for ImeOutcome {
    type V = Output;

    open spec fn view(&self) -> Output {
        Output {
            events: self.events@,
            status: match self.status {
                Some(s) => Some(s@),
                None => None,
            },
        }
    }
}

/// The key event that types a character.
pub open spec fn key(c: char) -> Event {
    Event::Char(c)
}

/// The key events that type a text.
pub open spec fn typed(s: Seq<char>) -> Seq<Event>
    decreases s.len(),
{
    if s.len() == 0 {
        Seq::empty()
    } else {
        typed(s.drop_last()).push(key(s.last()))
    }
}

/// The key events that erase `n` characters.
pub open spec fn erased(n: nat) -> Seq<Event> {
    Seq::new(n, |i: int| Event::Backspace)
}

/// The editor's text before the cursor after some key events.
pub open spec fn applied(doc: Seq<char>, events: Seq<Event>) -> Seq<char>
    decreases events.len(),
{
    if events.len() == 0 {
        doc
    } else {
        let before = applied(doc, events.drop_last());
        match events.last() {
            Event::Char(c) => before.push(c),
            Event::Backspace => if before.len() > 0 {
                before.drop_last()
            } else {
                before
            },
            _ => before,
        }
    }
}

/// Status while typing romaji: the kana it will convert to.
pub open spec fn preview(c: Composition) -> Option<Seq<char>> {
    if c.composing && c.romaji.len() > 0 {
        Some("IME: "@ + kana_from(c.romaji, 0) + " (Spaceで変換)"@)
    } else {
        None
    }
}

/// The first `n` candidates in one line, the current one in brackets.
pub open spec fn candidate_line(cs: Seq<Seq<char>>, index: int, n: int) -> Seq<char>
    decreases n,
{
    if n <= 0 {
        Seq::empty()
    } else {
        candidate_line(cs, index, n - 1) + (if n > 1 { seq![' '] } else { Seq::empty() }) + (
        if n - 1 == index { seq!['['] + cs[n - 1] + seq![']'] } else { cs[n - 1] })
    }
}

/// Status while cycling candidates.
pub open spec fn candidate_text(c: Composition) -> Option<Seq<char>> {
    if c.candidates.len() == 0 {
        None
    } else {
        Some(
            "変換: "@ + candidate_line(c.candidates, c.index, c.candidates.len() as int)
                + " (Space: 次 / 数字: 選択 / Enter: 確定)"@,
        )
    }
}

/// A composition that was committed.
pub open spec fn committed(c: Composition) -> Composition {
    Composition {
        composing: false,
        romaji: Seq::empty(),
        candidates: Seq::empty(),
        inserted: Seq::empty(),
        ..c
    }
}

/// A lowercase letter: it is typed through and joins the romaji, starting a
/// new composition if none is under way or a conversion is showing.
pub open spec fn on_letter(c: Composition, ch: char) -> (Composition, Output) {
    let fresh = !c.composing || c.candidates.len() > 0;
    let d = Composition {
        composing: true,
        romaji: (if fresh { Seq::empty() } else { c.romaji }).push(ch),
        candidates: if fresh {
            Seq::empty()
        } else {
            c.candidates
        },
        inserted: if fresh {
            Seq::empty()
        } else {
            c.inserted
        },
        ..c
    };
    (d, Output { events: seq![Event::Char(ch)], status: preview(d) })
}

/// Space on a fresh reading: the romaji gives way to the first candidate.
/// With nothing to cycle through it is committed at once.
pub open spec fn on_convert(c: Composition) -> (Composition, Output) {
    let cs = candidates_for(kana_from(c.romaji, 0));
    let events = erased(c.romaji.len()) + typed(cs[0]);
    if cs.len() == 1 {
        (Composition { index: 0, ..committed(c) }, Output { events, status: None })
    } else {
        let d = Composition {
            romaji: Seq::empty(),
            candidates: cs,
            index: 0,
            inserted: cs[0],
            ..c
        };
        (d, Output { events, status: candidate_text(d) })
    }
}

/// Space while candidates are showing: the next one takes the place of the
/// one inserted.
pub open spec fn on_cycle(c: Composition) -> (Composition, Output) {
    let i = if c.index + 1 == c.candidates.len() { 0 } else { c.index + 1 };
    let d = Composition { index: i, inserted: c.candidates[i], ..c };
    (
        d,
        Output {
            events: erased(c.inserted.len()) + typed(c.candidates[i]),
            status: candidate_text(d),
        },
    )
}

/// A digit: 1 to 9 picks a candidate and commits; where there is no such
/// candidate what is on screen is committed and the digit passes through.
pub open spec fn on_digit(c: Composition, ch: char) -> (Composition, Output) {
    let n = ch as u32 - 48;
    let done = Composition {
        composing: false,
        candidates: Seq::empty(),
        inserted: Seq::empty(),
        ..c
    };
    if 1 <= n <= c.candidates.len() {
        (
            Composition { index: n - 1, ..done },
            Output {
                events: erased(c.inserted.len()) + typed(c.candidates[n - 1]),
                status: None,
            },
        )
    } else {
        (done, Output { events: seq![Event::Char(ch)], status: None })
    }
}

/// Backspace: it passes through and the romaji loses its last character.
pub open spec fn on_backspace(c: Composition) -> (Composition, Output) {
    let romaji = if c.romaji.len() > 0 { c.romaji.drop_last() } else { c.romaji };
    let d = Composition { romaji, composing: romaji.len() > 0, ..c };
    (d, Output { events: seq![Event::Backspace], status: preview(d) })
}

/// Any other key passes through; it commits the composition first.
pub open spec fn on_other(c: Composition, e: Event) -> (Composition, Output) {
    (
        if c.composing {
            committed(c)
        } else {
            c
        },
        Output { events: seq![e], status: None },
    )
}

pub open spec fn lowercase(c: char) -> bool {
    97 <= c as u32 <= 122
}

pub open spec fn digit(c: char) -> bool {
    48 <= c as u32 <= 57
}

/// What a key does.
pub open spec fn fed(c: Composition, e: Event) -> (Composition, Output) {
    match e {
        Event::Char(ch) => if lowercase(ch) {
            on_letter(c, ch)
        } else if c.composing && ch == ' ' {
            if c.candidates.len() == 0 {
                on_convert(c)
            } else {
                on_cycle(c)
            }
        } else if c.composing && digit(ch) {
            on_digit(c, ch)
        } else {
            on_other(c, e)
        },
        Event::Backspace => if c.composing {
            on_backspace(c)
        } else {
            on_other(c, e)
        },
        _ => on_other(c, e),
    }
}

impl Ime {
    pub closed spec fn wf(&self) -> bool {
        &&& self.candidates@.len() > 0 ==> self.index < self.candidates@.len()
        &&& self.romaji@.len() < usize::MAX - 4
    }

    pub fn new() -> (r: Self)
        ensures
            r.wf(),
            r@ == (Composition {
                composing: false,
                romaji: Seq::empty(),
                candidates: Seq::empty(),
                index: 0,
                inserted: Seq::empty(),
            }),
    {
        let r = Ime {
            composing: false,
            romaji: Vec::new(),
            candidates: Vec::new(),
            index: 0,
            inserted: Vec::new(),
        };
        assert(r@.candidates =~= Seq::<Seq<char>>::empty());
        r
    }

    fn clear_conversion(&mut self)
        requires
            old(self).wf(),
        ensures
            final(self).wf(),
            final(self)@ == (Composition {
                candidates: Seq::empty(),
                inserted: Seq::empty(),
                ..old(self)@
            }),
    {
        self.candidates.clear();
        self.inserted.clear();
        assert(self@.candidates =~= Seq::<Seq<char>>::empty());
        assert(self@.inserted =~= Seq::<char>::empty());
    }

    fn commit(&mut self)
        requires
            old(self).wf(),
        ensures
            final(self).wf(),
            final(self)@ == committed(old(self)@),
    {
        self.clear_conversion();
        self.composing = false;
        self.romaji.clear();
        assert(self@.romaji =~= Seq::<char>::empty());
    }

    /// Takes in one key.
    pub fn feed(&mut self, event: Event) -> (r: ImeOutcome)
        requires
            old(self).wf(),
            old(self)@.romaji.len() < usize::MAX - 8,
        ensures
            final(self).wf(),
            (final(self)@, r@) == fed(old(self)@, event),
    {
        match event {
            Event::Char(c) => {
                let u = c as u32;
                if 97 <= u && u <= 122 {
                    self.letter(c)
                } else if self.composing && c == ' ' {
                    if self.candidates.len() == 0 {
                        self.first_conversion()
                    } else {
                        self.cycle_candidate()
                    }
                } else if self.composing && 48 <= u && u <= 57 {
                    self.select_candidate(c)
                } else {
                    self.other(event)
                }
            },
            Event::Backspace => {
                if self.composing {
                    self.backspace()
                } else {
                    self.other(event)
                }
            },
            _ => self.other(event),
        }
    }

    fn letter(&mut self, c: char) -> (r: ImeOutcome)
        requires
            old(self).wf(),
            old(self)@.romaji.len() < usize::MAX - 8,
        ensures
            final(self).wf(),
            (final(self)@, r@) == on_letter(old(self)@, c),
    {
        if !self.composing || self.candidates.len() > 0 {
            self.clear_conversion();
            self.romaji.clear();
            assert(self@.romaji =~= Seq::<char>::empty());
        }
        self.composing = true;
        self.romaji.push(c);
        let mut events: Vec<Event> = Vec::new();
        events.push(Event::Char(c));
        assert(events@ =~= seq![Event::Char(c)]);
        ImeOutcome { events, status: self.preview_status() }
    }

    fn backspace(&mut self) -> (r: ImeOutcome)
        requires
            old(self).wf(),
        ensures
            final(self).wf(),
            (final(self)@, r@) == on_backspace(old(self)@),
    {
        if self.romaji.len() > 0 {
            let _ = self.romaji.pop();
            assert(self@.romaji =~= old(self)@.romaji.drop_last());
        }
        self.composing = self.romaji.len() > 0;
        let mut events: Vec<Event> = Vec::new();
        events.push(Event::Backspace);
        assert(events@ =~= seq![Event::Backspace]);
        ImeOutcome { events, status: self.preview_status() }
    }

    fn other(&mut self, event: Event) -> (r: ImeOutcome)
        requires
            old(self).wf(),
        ensures
            final(self).wf(),
            (final(self)@, r@) == on_other(old(self)@, event),
    {
        if self.composing {
            self.commit();
        }
        let mut events: Vec<Event> = Vec::new();
        events.push(event);
        assert(events@ =~= seq![event]);
        ImeOutcome { events, status: None }
    }

    /// Space on a fresh reading: romaji -> kana, look up kanji
    /// candidates, insert the first one and keep composing so more
    /// Spaces can cycle.
    fn first_conversion(&mut self) -> (r: ImeOutcome)
        requires
            old(self).wf(),
            old(self)@.candidates.len() == 0,
        ensures
            final(self).wf(),
            (final(self)@, r@) == on_convert(old(self)@),
    {
        let kana = romaji_to_kana(&self.romaji);
        let candidates = look_up(&kana);
        let ghost cs = candidates_for(kana@);
        assert(cs.len() == candidates@.len());
        assert(cs[0] == candidates@[0]@);
        let events = replace_events(self.romaji.len(), &candidates[0]);
        self.index = 0;
        if candidates.len() == 1 {
            self.commit();
            ImeOutcome { events, status: None }
        } else {
            self.inserted = copy_of(&candidates[0]);
            self.candidates = candidates;
            self.romaji.clear();
            assert(self@.romaji =~= Seq::<char>::empty());
            ImeOutcome { events, status: self.candidate_status() }
        }
    }

    /// Space while candidates are showing: move to the next one,
    /// erasing the previous insertion first.
    fn cycle_candidate(&mut self) -> (r: ImeOutcome)
        requires
            old(self).wf(),
            old(self)@.candidates.len() > 0,
        ensures
            final(self).wf(),
            (final(self)@, r@) == on_cycle(old(self)@),
    {
        let n = self.candidates.len();
        self.index = if self.index + 1 == n { 0 } else { self.index + 1 };
        assert(self@.candidates[self.index as int] == self.candidates@[self.index as int]@);
        let events = replace_events(self.inserted.len(), &self.candidates[self.index]);
        let next = copy_of(&self.candidates[self.index]);
        self.inserted = next;
        ImeOutcome { events, status: self.candidate_status() }
    }

    /// Number key 1..=9 selects a candidate directly and commits.
    fn select_candidate(&mut self, c: char) -> (r: ImeOutcome)
        requires
            old(self).wf(),
            digit(c),
        ensures
            final(self).wf(),
            (final(self)@, r@) == on_digit(old(self)@, c),
    {
        let n = (c as u32 - 48) as usize;
        if 1 <= n && n <= self.candidates.len() {
            self.index = n - 1;
            assert(self@.candidates[self.index as int] == self.candidates@[self.index as int]@);
            let events = replace_events(self.inserted.len(), &self.candidates[self.index]);
            self.composing = false;
            self.clear_conversion();
            ImeOutcome { events, status: None }
        } else {
            self.composing = false;
            self.clear_conversion();
            let mut events: Vec<Event> = Vec::new();
            events.push(Event::Char(c));
            assert(events@ =~= seq![Event::Char(c)]);
            ImeOutcome { events, status: None }
        }
    }

    /// Status while typing romaji: show the kana it will convert to.
    fn preview_status(&self) -> (r: Option<String>)
        requires
            self.romaji@.len() < usize::MAX - 3,
        ensures
            match preview(self@) {
                Some(t) => r is Some && r->0@ == t,
                None => r is None,
            },
    {
        if self.composing && self.romaji.len() > 0 {
            let kana = romaji_to_kana(&self.romaji);
            let mut out: Vec<char> = Vec::new();
            push_str(&mut out, "IME: ");
            let text = string_of(&kana);
            push_str(&mut out, text.as_str());
            push_str(&mut out, " (Spaceで変換)");
            assert(out@ =~= "IME: "@ + kana_from(self.romaji@, 0) + " (Spaceで変換)"@);
            Some(string_of(&out))
        } else {
            None
        }
    }

    /// Status while cycling candidates: current one bracketed.
    fn candidate_status(&self) -> (r: Option<String>)
        ensures
            match candidate_text(self@) {
                Some(t) => r is Some && r->0@ == t,
                None => r is None,
            },
    {
        if self.candidates.len() == 0 {
            return None;
        }
        let ghost cs = self@.candidates;
        let mut out: Vec<char> = Vec::new();
        push_str(&mut out, "変換: ");
        let ghost head = out@;
        assert(head =~= "変換: "@);
        let mut i: usize = 0;
        assert(out@ =~= head + candidate_line(cs, self.index as int, 0));
        while i < self.candidates.len()
            invariant
                i <= self.candidates@.len(),
                cs == self@.candidates,
                out@ == head + candidate_line(cs, self.index as int, i as int),
            decreases self.candidates@.len() - i,
        {
            let ghost before = out@;
            if i > 0 {
                out.push(' ');
            }
            let ghost spaced = out@;
            assert(spaced =~= before + (if i > 0 { seq![' '] } else { Seq::empty() }));
            let text = string_of(&self.candidates[i]);
            assert(cs[i as int] == text@);
            if i == self.index {
                out.push('[');
                push_str(&mut out, text.as_str());
                out.push(']');
                assert(out@ =~= spaced + (seq!['['] + cs[i as int] + seq![']']));
            } else {
                push_str(&mut out, text.as_str());
            }
            i += 1;
            assert(out@ =~= head + candidate_line(cs, self.index as int, i as int));
        }
        push_str(&mut out, " (Space: 次 / 数字: 選択 / Enter: 確定)");
        assert(out@ =~= "変換: "@ + candidate_line(cs, self.index as int, cs.len() as int)
            + " (Space: 次 / 数字: 選択 / Enter: 確定)"@);
        Some(string_of(&out))
    }
}

/// The events that erase `n` characters and type a text.
fn replace_events(n: usize, text: &Vec<char>) -> (r: Vec<Event>)
    ensures
        r@ == erased(n as nat) + typed(text@),
{
    let mut events: Vec<Event> = Vec::new();
    let mut i: usize = 0;
    while i < n
        invariant
            i <= n,
            events@ =~= erased(i as nat),
        decreases n - i,
    {
        events.push(Event::Backspace);
        i += 1;
    }
    let mut i: usize = 0;
    assert(text@.take(0) =~= Seq::<char>::empty());
    assert(events@ =~= erased(n as nat) + typed(text@.take(0)));
    while i < text.len()
        invariant
            i <= text@.len(),
            events@ == erased(n as nat) + typed(text@.take(i as int)),
        decreases text@.len() - i,
    {
        assert(text@.take(i + 1).drop_last() =~= text@.take(i as int));
        assert(text@.take(i + 1).last() == text@[i as int]);
        assert(key(text@[i as int]) == Event::Char(text@[i as int]));
        events.push(Event::Char(text[i]));
        i += 1;
        assert(events@ =~= erased(n as nat) + typed(text@.take(i as int)));
    }
    assert(text@.take(i as int) =~= text@);
    events
}

proof fn lemma_erased(doc: Seq<char>, tail: Seq<char>, n: nat)
    requires
        n <= tail.len(),
    ensures
        applied(doc + tail, erased(n)) == doc + tail.take(tail.len() - n),
    decreases n,
{
    if n > 0 {
        lemma_erased(doc, tail, (n - 1) as nat);
        assert(erased(n).drop_last() =~= erased((n - 1) as nat));
        let before = doc + tail.take(tail.len() - (n - 1));
        assert(before.drop_last() =~= doc + tail.take(tail.len() - n));
    } else {
        assert(tail.take(tail.len() as int) =~= tail);
    }
}

proof fn lemma_typed(doc: Seq<char>, s: Seq<char>, head: Seq<Event>)
    ensures
        applied(doc, head + typed(s)) == applied(doc, head) + s,
    decreases s.len(),
{
    if s.len() > 0 {
        lemma_typed(doc, s.drop_last(), head);
        let all = head + typed(s);
        assert(all.drop_last() =~= head + typed(s.drop_last()));
        assert(all.last() == key(s.last()));
        assert((applied(doc, head) + s.drop_last()).push(s.last()) =~= applied(doc, head) + s);
    } else {
        assert(head + typed(s) =~= head);
        assert(applied(doc, head) + s =~= applied(doc, head));
    }
}

/// A conversion replaces exactly the romaji before the cursor with the
/// first candidate.
pub proof fn law_conversion_replaces_romaji(c: Composition, doc: Seq<char>)
    ensures
        applied(doc + c.romaji, on_convert(c).1.events) == doc + candidates_for(
            kana_from(c.romaji, 0),
        )[0],
{
    let to = candidates_for(kana_from(c.romaji, 0))[0];
    lemma_replaces(doc, c.romaji, to);
}

/// Cycling replaces exactly the inserted candidate with the next one, and
/// picking one by its number replaces it with that one.
pub proof fn law_cycling_replaces_candidate(c: Composition, doc: Seq<char>, ch: char)
    requires
        c.candidates.len() > 0,
        0 <= c.index < c.candidates.len(),
    ensures
        applied(doc + c.inserted, on_cycle(c).1.events) == doc + on_cycle(c).0.inserted,
        1 <= ch as u32 - 48 <= c.candidates.len() ==> applied(
            doc + c.inserted,
            on_digit(c, ch).1.events,
        ) == doc + c.candidates[ch as u32 - 49],
{
    let i = on_cycle(c).0.index;
    lemma_replaces(doc, c.inserted, c.candidates[i]);
    if 1 <= ch as u32 - 48 <= c.candidates.len() {
        lemma_replaces(doc, c.inserted, c.candidates[ch as u32 - 49]);
    }
}

proof fn lemma_replaces(doc: Seq<char>, from: Seq<char>, to: Seq<char>)
    ensures
        applied(doc + from, erased(from.len()) + typed(to)) == doc + to,
{
    lemma_erased(doc, from, from.len());
    assert(from.take(0) =~= Seq::<char>::empty());
    assert(doc + Seq::<char>::empty() =~= doc);
    lemma_typed(doc + from, to, erased(from.len()));
}

/// Kana is always the last candidate.
pub proof fn law_kana_is_last(kana: Seq<char>)
    ensures
        candidates_for(kana).last() == kana,
{
}

/// The composition after `n` Spaces while candidates are showing.
pub open spec fn cycled(c: Composition, n: nat) -> Composition
    decreases n,
{
    if n == 0 {
        c
    } else {
        on_cycle(cycled(c, (n - 1) as nat)).0
    }
}

proof fn lemma_cycled(c: Composition, n: nat)
    requires
        0 <= c.index < c.candidates.len(),
        n <= c.candidates.len(),
    ensures
        cycled(c, n).candidates == c.candidates,
        cycled(c, n).index == if c.index + n < c.candidates.len() {
            c.index + n
        } else {
            c.index + n - c.candidates.len()
        },
    decreases n,
{
    if n > 0 {
        lemma_cycled(c, (n - 1) as nat);
    }
}

/// As many Spaces as there are candidates lead back to the same one.
pub proof fn law_cycling_comes_round(c: Composition)
    requires
        0 <= c.index < c.candidates.len(),
    ensures
        cycled(c, c.candidates.len()).index == c.index,
{
    lemma_cycled(c, c.candidates.len());
}

} // verus!
