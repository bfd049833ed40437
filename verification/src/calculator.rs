//! A small four-function calculator app for the desktop. Integer-only
//! (`i64`).

use crate::font::Font;
use crate::gfx::{Canvas, Pic, Surface};
use crate::scene::{picture, Mark, Scene};
use crate::text::{
    dec, dec_signed, law_dec_parses_back, law_dec_value, parse_i64, parsed_int,
    push_dec_signed, push_str,
};
use vstd::prelude::*;

verus! {

pub const BUTTON_SIZE: u32 = 60;

pub const DISPLAY_HEIGHT: u32 = 60;

pub const WIDTH: u32 = 240;

pub const HEIGHT: u32 = 300;

pub const BG: u32 = 0x202020;

pub const BUTTON_BG: u32 = 0x333333;

pub const BUTTON_FG: u32 = 0xFFFFFF;

pub const DISPLAY_BG: u32 = 0x10161C;

pub const DISPLAY_FG: u32 = 0x9FCB6B;

pub const ERROR_FG: u32 = 0xE06060;

/// The labels of the 4x4 grid, row by row.
pub const BUTTONS: [char; 16] = [
    '7', '8', '9', '/',
    '4', '5', '6', '*',
    '1', '2', '3', '-',
    '0', 'C', '=', '+',
];

pub const MAX_DIGITS: usize = 18;

pub struct CalculatorApp {
    canvas: Canvas,
    display: Vec<char>,
    accumulator: i64,
    pending_op: Option<char>,
    fresh_entry: bool,
    error: bool,
}

/// The state of the calculator.
pub struct Calc {
    pub display: Seq<char>,
    pub acc: i64,
    pub op: Option<char>,
    /// The next digit starts a new number.
    pub fresh: bool,
    pub error: bool,
}

impl View for CalculatorApp {
    type V = Calc;

    closed spec fn view(&self) -> Calc {
        Calc {
            display: self.display@,
            acc: self.accumulator,
            op: self.pending_op,
            fresh: self.fresh_entry,
            error: self.error,
        }
    }
}

pub open spec fn cleared() -> Calc {
    Calc { display: seq!['0'], acc: 0, op: None, fresh: false, error: false }
}

pub open spec fn is_digit_key(k: char) -> bool {
    '0' <= k <= '9'
}

pub open spec fn is_op_key(k: char) -> bool {
    k == '+' || k == '-' || k == '*' || k == '/'
}

/// A number brought into 64 bits by leaving out what does not fit.
pub open spec fn wrapped(v: int) -> i64 {
    ((v + 0x8000_0000_0000_0000) % 0x1_0000_0000_0000_0000 - 0x8000_0000_0000_0000) as i64
}

/// Division that rounds toward zero.
pub open spec fn quotient(a: int, b: int) -> int {
    if a >= 0 && b > 0 {
        a / b
    } else if a >= 0 {
        -(a / -b)
    } else if b > 0 {
        -(-a / b)
    } else {
        -a / -b
    }
}

pub open spec fn computed(op: char, a: i64, b: i64) -> i64 {
    if op == '+' {
        wrapped(a + b)
    } else if op == '-' {
        wrapped(a - b)
    } else if op == '*' {
        wrapped(a * b)
    } else {
        quotient(a as int, b as int) as i64
    }
}

/// The number on the display.
pub open spec fn operand(c: Calc) -> i64 {
    match parsed_int(c.display, i64::MAX as nat) {
        Some(v) => v as i64,
        None => 0,
    }
}

/// The calculator with the pending operation carried out.
pub open spec fn applied(c: Calc) -> Calc {
    let b = operand(c);
    match c.op {
        None => Calc { acc: b, display: dec_signed(b as int), ..c },
        Some(op) => if op == '/' && b == 0 {
            Calc { error: true, display: "Error"@, ..c }
        } else {
            let v = computed(op, c.acc, b);
            Calc { acc: v, display: dec_signed(v as int), ..c }
        },
    }
}

/// The calculator after a key.
pub open spec fn pressed(c: Calc, k: char) -> Calc {
    if is_digit_key(k) {
        let d = if c.error || c.fresh || c.display == seq!['0'] {
            Calc { display: Seq::empty(), fresh: false, error: false, ..c }
        } else {
            c
        };
        if d.display.len() < 18 {
            Calc { display: d.display.push(k), ..d }
        } else {
            d
        }
    } else if k == 'C' {
        cleared()
    } else if c.error {
        c
    } else if is_op_key(k) {
        Calc { op: Some(k), fresh: true, ..applied(c) }
    } else if k == '=' {
        Calc { op: None, fresh: true, ..applied(c) }
    } else {
        c
    }
}

/// The display shows the accumulator, or up to 18 typed digits.
pub open spec fn sensible(c: Calc) -> bool {
    &&& c.op matches Some(k) ==> is_op_key(k)
    &&& c.error || operand(c) >= 0 || operand(c) == c.acc
    &&& !c.fresh && !c.error && c.display.len() > 0 ==> (forall|i: int|
        0 <= i < c.display.len() ==> is_digit_key(#[trigger] c.display[i]))
}

/// What is painted.
pub open spec fn button_marks(i: int) -> Seq<Mark> {
    let bx = (i % 4 * 60) as u32;
    let by = (60 + i / 4 * 60) as u32;
    seq![
        Mark::Rect((bx + 2) as u32, (by + 2) as u32, 56, 56, BUTTON_BG),
        Mark::Text((bx + 26) as u32, (by + 26) as u32, seq![BUTTONS@[i]], BUTTON_FG),
    ]
}

pub open spec fn buttons(n: nat) -> Seq<Mark>
    decreases n,
{
    if n == 0 {
        Seq::empty()
    } else {
        buttons((n - 1) as nat) + button_marks(n - 1)
    }
}

pub open spec fn display_x(len: int) -> u32 {
    if 8 * len + 10 >= 240 {
        0
    } else {
        (230 - 8 * len) as u32
    }
}

pub open spec fn calc_marks(c: Calc) -> Seq<Mark> {
    seq![
        Mark::Rect(0, 0, WIDTH, HEIGHT, BG),
        Mark::Rect(0, 0, WIDTH, DISPLAY_HEIGHT, DISPLAY_BG),
        Mark::Text(
            display_x(c.display.len() as int),
            26,
            c.display,
            if c.error {
                ERROR_FG
            } else {
                DISPLAY_FG
            },
        ),
    ] + buttons(16)
}

/// The key under a point.
pub open spec fn key_under(x: int, y: int) -> Option<char> {
    if 0 <= x < 240 && 60 <= y < 300 {
        Some(BUTTONS@[(y - 60) / 60 * 4 + x / 60])
    } else {
        None
    }
}

fn quotient_of(a: i64, b: i64) -> (r: i64)
    requires
        b != 0,
        b >= 0 || a == b,
    ensures
        r == quotient(a as int, b as int),
{
    if a == b {
        assert(quotient(a as int, a as int) == 1) by (nonlinear_arith)
            requires
                a != 0,
        ;
        return 1;
    }
    if a >= 0 {
        let q = a as u64 / b as u64;
        proof {
            vstd::arithmetic::div_mod::lemma_div_is_ordered_by_denominator(a as int, 1, b as int);
        }
        q as i64
    } else {
        let m: u64 = (-(a + 1)) as u64 + 1;
        let q = m / b as u64;
        proof {
            vstd::arithmetic::div_mod::lemma_div_is_ordered_by_denominator(m as int, 1, b as int);
        }
        if q == 0x8000_0000_0000_0000 {
            i64::MIN
        } else {
            -(q as i64)
        }
    }
}

fn compute(op: char, a: i64, b: i64) -> (r: i64)
    requires
        is_op_key(op),
        op == '/' ==> b != 0 && (b >= 0 || a == b),
    ensures
        r == computed(op, a, b),
{
    if op == '+' {
        let r = a.wrapping_add(b);
        proof {
            lemma_wrapped(a + b, r);
        }
        r
    } else if op == '-' {
        let r = a.wrapping_sub(b);
        proof {
            lemma_wrapped(a - b, r);
        }
        r
    } else if op == '*' {
        a.wrapping_mul(b)
    } else {
        quotient_of(a, b)
    }
}

proof fn lemma_wrapped(v: int, r: i64)
    requires
        -0x1_0000_0000_0000_0000 <= v < 0x1_0000_0000_0000_0000,
        r == v || r == v + 0x1_0000_0000_0000_0000 || r == v - 0x1_0000_0000_0000_0000,
    ensures
        r == wrapped(v),
{
}

proof fn lemma_digits_value(s: Seq<char>)
    requires
        forall|i: int| 0 <= i < s.len() ==> is_digit_key(#[trigger] s[i]),
    ensures
        parsed_int(s, i64::MAX as nat) matches Some(v) ==> v >= 0,
{
    if s.len() > 0 {
        assert(is_digit_key(s[0]));
    }
}

impl CalculatorApp {
    pub closed spec fn wf(&self) -> bool {
        self.canvas.ok() && sensible(self@) && self.display@.len() <= 20
    }

    /// What the window's pixels show.
    pub closed spec fn shown(&self) -> Pic {
        self.canvas.pic()
    }

    /// Whether the pixels show the state.
    pub open spec fn up_to_date(&self, font: &Font) -> bool {
        self.shown() == picture(
            240,
            300,
            BG,
            calc_marks(self@),
            font.bits(),
            font.factor() as int,
        )
    }

    pub fn new(font: &Font) -> (r: Self)
        requires
            font.wf(),
        ensures
            r.wf(),
            r@ == cleared(),
            r.up_to_date(font),
    {
        let mut app = CalculatorApp {
            canvas: Canvas::new(0, 0, BG),
            display: vec!['0'],
            accumulator: 0,
            pending_op: None,
            fresh_entry: false,
            error: false,
        };
        assert(app.display@ =~= seq!['0']);
        proof {
            lemma_cleared();
        }
        app.render(font);
        app
    }

    pub fn width(&self) -> (r: u32)
        ensures
            r == WIDTH,
    {
        WIDTH
    }

    pub fn height(&self) -> (r: u32)
        ensures
            r == HEIGHT,
    {
        HEIGHT
    }

    pub fn pixels(&self) -> (r: &Vec<u32>)
        requires
            self.wf(),
        ensures
            r@.len() == self.shown().w * self.shown().h,
            self.shown() == crate::gfx::picture_of(r@, self.shown().w, self.shown().h),
    {
        self.canvas.pixels()
    }

    /// Clicking a button presses it; clicking the display does nothing.
    pub fn handle_click(&mut self, font: &Font, x: i32, y: i32)
        requires
            old(self).wf(),
            font.wf(),
        ensures
            final(self).wf(),
            final(self)@ == match key_under(x as int, y as int) {
                Some(k) => pressed(old(self)@, k),
                None => old(self)@,
            },
            old(self).up_to_date(font) || key_under(x as int, y as int) is Some
                ==> final(self).up_to_date(font),
    {
        if x < 0 || y < DISPLAY_HEIGHT as i32 {
            return;
        }
        let col = x as u32 / BUTTON_SIZE;
        let row = (y as u32 - DISPLAY_HEIGHT) / BUTTON_SIZE;
        if col >= 4 || row >= 4 {
            return;
        }
        let k = BUTTONS[(row * 4 + col) as usize];
        self.press(k);
        self.render(font);
    }

    fn press(&mut self, k: char)
        requires
            old(self).wf(),
        ensures
            final(self).wf(),
            final(self)@ == pressed(old(self)@, k),
    {
        if '0' <= k && k <= '9' {
            let zero = self.display.len() == 1 && self.display[0] == '0';
            proof {
                if zero {
                    assert(self.display@ =~= seq!['0']);
                } else if self.display@ == seq!['0'] {
                    assert(self.display@.len() == 1 && self.display@[0] == '0');
                }
            }
            if self.error || self.fresh_entry || zero {
                self.display.clear();
                assert(self.display@ =~= Seq::<char>::empty());
                self.fresh_entry = false;
                self.error = false;
            }
            if self.display.len() < MAX_DIGITS {
                self.display.push(k);
            }
            proof {
                let d = self.display@;
                assert forall|i: int| 0 <= i < d.len() implies is_digit_key(#[trigger] d[i]) by {
                    if old(self)@.error || old(self)@.fresh || zero {
                    } else if i < old(self)@.display.len() {
                        assert(d[i] == old(self)@.display[i]);
                    }
                }
                lemma_digits_value(d);
            }
        } else if k == 'C' {
            self.display = vec!['0'];
            assert(self.display@ =~= seq!['0']);
            self.accumulator = 0;
            self.pending_op = None;
            self.fresh_entry = false;
            self.error = false;
            proof {
                lemma_cleared();
            }
        } else if self.error {
        } else if k == '+' || k == '-' || k == '*' || k == '/' {
            self.apply_pending();
            self.pending_op = Some(k);
            self.fresh_entry = true;
        } else if k == '=' {
            self.apply_pending();
            self.pending_op = None;
            self.fresh_entry = true;
        }
    }

    fn apply_pending(&mut self)
        requires
            old(self).wf(),
            !old(self)@.error,
        ensures
            final(self).canvas == old(self).canvas,
            final(self)@ == applied(old(self)@),
            final(self)@.error || operand(final(self)@) == final(self)@.acc,
            final(self).display@.len() <= 20,
    {
        let b: i64 = match parse_i64(&self.display) {
            Some(v) => v,
            None => 0,
        };
        match self.pending_op {
            None => {
                self.accumulator = b;
            },
            Some(op) => {
                if op == '/' && b == 0 {
                    self.error = true;
                    let mut text: Vec<char> = Vec::new();
                    push_str(&mut text, "Error");
                    proof {
                        reveal_strlit("Error");
                        assert(text@ =~= "Error"@);
                    }
                    self.display = text;
                    return;
                }
                self.accumulator = compute(op, self.accumulator, b);
            },
        }
        let mut text: Vec<char> = Vec::new();
        push_dec_signed(&mut text, self.accumulator);
        assert(text@ =~= dec_signed(self.accumulator as int));
        self.display = text;
        proof {
            law_dec_parses_back(self.accumulator as int, i64::MAX as nat);
            lemma_dec_len(self.accumulator as int);
        }
    }

    fn render(&mut self, font: &Font)
        requires
            old(self).wf(),
            font.wf(),
        ensures
            final(self).wf(),
            final(self)@ == old(self)@,
            final(self).up_to_date(font),
    {
        let mut scene = Scene::new();
        scene.rect(0, 0, WIDTH, HEIGHT, BG);
        scene.rect(0, 0, WIDTH, DISPLAY_HEIGHT, DISPLAY_BG);
        let text_w = self.display.len() as u32 * 8 + 10;
        let x = if text_w >= WIDTH { 0 } else { WIDTH - text_w };
        let shown = crate::text::part(&self.display, 0, self.display.len());
        assert(shown@ =~= self.display@);
        scene.chars(x, 26, shown, if self.error { ERROR_FG } else { DISPLAY_FG });
        let ghost start = scene@;
        assert(scene@ =~= start + buttons(0));
        let mut i: usize = 0;
        while i < 16
            invariant
                i <= 16,
                scene@ == start + buttons(i as nat),
            decreases 16 - i,
        {
            let bx = (i % 4) as u32 * BUTTON_SIZE;
            let by = DISPLAY_HEIGHT + (i / 4) as u32 * BUTTON_SIZE;
            scene.rect(bx + 2, by + 2, 56, 56, BUTTON_BG);
            let label = vec![BUTTONS[i]];
            assert(label@ =~= seq![BUTTONS@[i as int]]);
            scene.chars(bx + 26, by + 26, label, BUTTON_FG);
            i += 1;
            assert(scene@ =~= start + buttons(i as nat));
        }
        assert(scene@ =~= calc_marks(self@));
        self.canvas = scene.paint(font, WIDTH, HEIGHT, BG);
    }
}

proof fn lemma_cleared()
    ensures
        sensible(cleared()),
{
    let d = seq!['0'];
    assert forall|i: int| 0 <= i < d.len() implies is_digit_key(#[trigger] d[i]) by {}
    lemma_digits_value(d);
}

/// Ten to the power of `k`.
spec fn ten(k: nat) -> nat
    decreases k,
{
    if k == 0 {
        1
    } else {
        10 * ten((k - 1) as nat)
    }
}

proof fn lemma_dec_length(n: nat, k: nat)
    requires
        n < ten(k),
        k > 0,
    ensures
        dec(n).len() <= k,
    decreases k,
{
    reveal_with_fuel(ten, 2);
    if n >= 10 {
        lemma_dec_length(n / 10, (k - 1) as nat);
    }
}

proof fn lemma_dec_len(v: int)
    requires
        i64::MIN <= v <= i64::MAX,
    ensures
        dec_signed(v).len() <= 20,
{
    reveal_with_fuel(ten, 20);
    if v < 0 {
        lemma_dec_length((-v) as nat, 19);
    } else {
        lemma_dec_length(v as nat, 19);
    }
}

// ---------------------------------------------------------------------
// What the keys compute
// ---------------------------------------------------------------------

/// The calculator after keys in order.
pub open spec fn typed(c: Calc, keys: Seq<char>) -> Calc
    decreases keys.len(),
{
    if keys.len() == 0 {
        c
    } else {
        pressed(typed(c, keys.drop_last()), keys.last())
    }
}

/// Typing a number of up to 18 digits, where a new number starts, puts it on
/// the display.
pub proof fn law_typed_number(c: Calc, n: nat)
    requires
        c.fresh || c.display == seq!['0'],
        !c.error,
        dec(n).len() <= 18,
    ensures
        typed(c, dec(n)) == (Calc { display: dec(n), fresh: false, ..c }),
    decreases n,
{
    law_dec_value(n);
    let d = dec(n);
    assert(crate::text::is_digit(d[d.len() - 1]));
    if n >= 10 {
        assert(d.drop_last() =~= dec(n / 10));
        law_typed_number(c, n / 10);
        law_dec_value(n / 10);
        let before = dec(n / 10);
        assert(before != seq!['0']) by {
            if before == seq!['0'] {
                assert(before.drop_last() =~= Seq::<char>::empty());
                reveal_with_fuel(crate::text::value, 2);
                assert(crate::text::value(before) == 0);
            }
        }
    } else {
        assert(d.drop_last() =~= Seq::<char>::empty());
        assert(typed(c, d.drop_last()) == c);
        assert(Seq::<char>::empty().push(d.last()) =~= d);
    }
}

/// A number, an operation, a number, and equals show the result.
pub proof fn law_binary_operation(a: nat, op: char, b: nat)
    requires
        dec(a).len() <= 18,
        dec(b).len() <= 18,
        a <= i64::MAX,
        b <= i64::MAX,
        is_op_key(op),
        op == '/' ==> b != 0,
    ensures
        ({
            let first = pressed(typed(cleared(), dec(a)), op);
            let second = pressed(typed(first, dec(b)), '=');
            let v = computed(op, a as i64, b as i64);
            second.display == dec_signed(v as int) && second.acc == v && !second.error
        }),
{
    law_typed_number(cleared(), a);
    law_dec_parses_back(a as int, i64::MAX as nat);
    law_dec_parses_back(b as int, i64::MAX as nat);
    let first = pressed(typed(cleared(), dec(a)), op);
    assert(first.acc == a);
    law_typed_number(first, b);
}

/// Dividing by zero shows an error, which only `C` or a digit takes away.
pub proof fn law_division_by_zero(c: Calc, k: char)
    requires
        !c.error,
        c.op == Some('/'),
        operand(c) == 0,
    ensures
        pressed(c, '=').error,
        pressed(c, '=').display == "Error"@,
        pressed(pressed(c, '='), k).error <==> !is_digit_key(k) && k != 'C',
{
}

/// Sums, differences and products that fit are shown as they are, and a
/// quotient of two numbers is cut to a whole one.
#[verifier::spinoff_prover]
pub proof fn law_results_are_exact(a: nat, b: nat)
    requires
        dec(a).len() <= 18,
        dec(b).len() <= 18,
        a <= 0x3FFF_FFFF_FFFF_FFFF,
        b <= 0x3FFF_FFFF_FFFF_FFFF,
    ensures
        shows_result(a, '+', b, (a + b) as int),
        shows_result(a, '-', b, a - b),
        a * b <= i64::MAX ==> shows_result(a, '*', b, (a * b) as int),
        b > 0 ==> shows_result(a, '/', b, (a / b) as int),
{
    assert(a * b >= 0) by (nonlinear_arith)
        requires
            a >= 0,
            b >= 0,
    ;
    lemma_result(a, '+', b, (a + b) as int);
    lemma_result(a, '-', b, a - b);
    if a * b <= i64::MAX {
        lemma_result(a, '*', b, (a * b) as int);
    }
    if b > 0 {
        assert(0 <= a / b <= a) by (nonlinear_arith)
            requires
                b > 0,
        ;
        lemma_result(a, '/', b, (a / b) as int);
    }
}

#[verifier::spinoff_prover]
proof fn lemma_result(a: nat, op: char, b: nat, v: int)
    requires
        dec(a).len() <= 18,
        dec(b).len() <= 18,
        a <= i64::MAX,
        b <= i64::MAX,
        is_op_key(op),
        op == '/' ==> b != 0,
        computed(op, a as i64, b as i64) == v,
    ensures
        shows_result(a, op, b, v),
{
    reveal(shows_result);
    law_binary_operation(a, op, b);
}

/// Whether a number, an operation, a number and equals show a result.
#[verifier::opaque]
pub open spec fn shows_result(a: nat, op: char, b: nat, v: int) -> bool {
    pressed(typed(pressed(typed(cleared(), dec(a)), op), dec(b)), '=').display == dec_signed(v)
}

/// The keys lie in four rows of four squares below the display.
pub proof fn law_keys_under_a_point(row: int, col: int, dx: int, dy: int)
    requires
        0 <= row < 4,
        0 <= col < 4,
        0 <= dx < 60,
        0 <= dy < 60,
    ensures
        key_under(60 * col + dx, 60 + 60 * row + dy) == Some("789/456*123-0C=+"@[4 * row + col]),
{
    reveal_strlit("789/456*123-0C=+");
    assert((60 * row + dy) / 60 == row);
    assert((60 * col + dx) / 60 == col);
    let k = 4 * row + col;
    assert(k == 0 || k == 1 || k == 2 || k == 3 || k == 4 || k == 5 || k == 6 || k == 7 || k == 8 || k == 9 || k == 10
        || k == 11 || k == 12 || k == 13 || k == 14 || k == 15);
}

} // verus!
