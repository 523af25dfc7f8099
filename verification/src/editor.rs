//! The inline editor popup used outside tmux: the popup's geometry, the
//! bytes a key press sends to the editor's terminal, the colours and styles
//! of the editor's screen cells, and the decisions of the event loop.
//!
//! The terminal, the pseudo-terminal and the screen emulator are driven by
//! the application; it hands these functions plain values.

use vstd::prelude::*;
use crate::text::{
    ascii_lower, ascii_lower_exec,
    chars_of, parse_unsigned, parse_unsigned_exec, str_concat, string_of, strip_suffix,
    strip_suffix_str, trim, trim_chars,
};

verus! {

// ───────────────────────────── geometry ─────────────────────────────

/// A popup dimension: `75%` is that share of `total`, `80` that many columns
/// or lines; never more than `total`. An unreadable percentage counts as
/// 100%, an unreadable number as `total`.
pub open spec fn dim_of(s: Seq<char>, total: u16) -> u16 {
    match strip_suffix(s, "%"@) {
        Some(pct) => {
            let p: nat = match parse_unsigned(trim(pct), u16::MAX as nat) {
                Some(v) => v,
                None => 100,
            };
            let v = (total as nat * p) / 100;
            if v <= total as nat {
                v as u16
            } else {
                total
            }
        },
        None => match parse_unsigned(trim(s), u16::MAX as nat) {
            Some(v) => if v <= total as nat {
                v as u16
            } else {
                total
            },
            None => total,
        },
    }
}

/// Parse a dimension string: `75%` → percentage of `total`; `80` → literal
/// columns/lines.
pub fn resolve_dim(s: &str, total: u16) -> (r: u16)
    ensures
        r == dim_of(s@, total),
        r <= total,
{
    let v = chars_of(s);
    match strip_suffix_str(v.as_slice(), "%") {
        Some(pct) => {
            let t = trim_chars(pct.as_slice());
            let p: u64 = match parse_unsigned_exec(t.as_slice(), 0xffff) {
                Some(p) => p,
                None => 100,
            };
            assert(p <= 0xffff);
            assert((total as u64) * p <= 0xffff * 0xffff) by (nonlinear_arith)
                requires
                    total <= 0xffff,
                    p <= 0xffff,
            ;
            let prod: u64 = (total as u64) * p;
            let q: u64 = prod / 100;
            if q <= total as u64 {
                q as u16
            } else {
                total
            }
        },
        None => {
            let t = trim_chars(v.as_slice());
            match parse_unsigned_exec(t.as_slice(), 0xffff) {
                Some(n) => if n <= total as u64 {
                    n as u16
                } else {
                    total
                },
                None => total,
            }
        },
    }
}

/// A rectangle of the terminal: its top-left corner and its size.
#[derive(Clone, Copy, PartialEq, Eq, Debug, Structural)]
pub struct PopupRect {
    pub x: u16,
    pub y: u16,
    pub width: u16,
    pub height: u16,
}

/// The rectangle `ratatui::layout::Rect::new(x, y, width, height)` makes:
/// width and height clamped so that the right and bottom edges stay within
/// `u16`.
pub open spec fn rect_of(x: u16, y: u16, width: u16, height: u16) -> PopupRect {
    PopupRect {
        x,
        y,
        width: if width > u16::MAX - x {
            (u16::MAX - x) as u16
        } else {
            width
        },
        height: if height > u16::MAX - y {
            (u16::MAX - y) as u16
        } else {
            height
        },
    }
}

/// Calls `ratatui::layout::Rect::new`, which keeps `x`, `y` and clamps the
/// width and height so that `x + width` and `y + height` fit in `u16` (as its
/// source shows); the result's fields are returned as they are.
#[verifier::external_body]
fn rect_new(x: u16, y: u16, width: u16, height: u16) -> (r: PopupRect)
    ensures
        r == rect_of(x, y, width, height),
{
    let r = ratatui::layout::Rect::new(x, y, width, height);
    PopupRect { x: r.x, y: r.y, width: r.width, height: r.height }
}

/// Where the popup stands and the size of the editor's screen inside its
/// border.
#[derive(Clone, Copy, PartialEq, Eq, Debug, Structural)]
pub struct Geometry {
    pub rect: PopupRect,
    pub inner_w: u16,
    pub inner_h: u16,
}

/// The popup anchored to the top-right corner of a `term_w` × `term_h`
/// terminal, with the border taking one cell on each side.
pub open spec fn geometry_of(width: Seq<char>, height: Seq<char>, term_w: u16, term_h: u16) -> Geometry {
    let w = dim_of(width, term_w);
    let h = dim_of(height, term_h);
    Geometry {
        rect: rect_of((term_w - w) as u16, 0, w, h),
        inner_w: if w >= 2 {
            (w - 2) as u16
        } else {
            0
        },
        inner_h: if h >= 2 {
            (h - 2) as u16
        } else {
            0
        },
    }
}

/// The popup's rectangle and inner size for a terminal of the given size.
pub fn make_rect(width: &str, height: &str, term_w: u16, term_h: u16) -> (r: Geometry)
    ensures
        r == geometry_of(width@, height@, term_w, term_h),
        r.rect.x + r.rect.width == term_w,
        r.rect.y == 0,
        r.rect.width == dim_of(width@, term_w),
        r.rect.height == dim_of(height@, term_h),
{
    let popup_w = resolve_dim(width, term_w);
    let popup_h = resolve_dim(height, term_h);
    let rect = rect_new(term_w - popup_w, 0, popup_w, popup_h);
    let inner_w = if popup_w >= 2 {
        popup_w - 2
    } else {
        0
    };
    let inner_h = if popup_h >= 2 {
        popup_h - 2
    } else {
        0
    };
    Geometry { rect, inner_w, inner_h }
}

// ───────────────────────────── keys ─────────────────────────────

/// The keys the editor forwards.
#[derive(Clone, Copy, PartialEq, Eq, Debug, Structural)]
pub enum KeyCodeIn {
    Char(char),
    Enter,
    Backspace,
    Delete,
    Esc,
    Tab,
    BackTab,
    Up,
    Down,
    Right,
    Left,
    Home,
    End,
    PageUp,
    PageDown,
    F(u8),
    /// Any other key.
    Other,
}

/// A key press: the key and whether Control and Alt were held.
#[derive(Clone, Copy, PartialEq, Eq, Debug, Structural)]
pub struct KeyInput {
    pub code: KeyCodeIn,
    pub ctrl: bool,
    pub alt: bool,
}

/// The UTF-8 encoding of a character.
pub open spec fn utf8(c: char) -> Seq<u8> {
    let n = c as nat;
    if n < 0x80 {
        seq![n as u8]
    } else if n < 0x800 {
        seq![(0xc0 + n / 64) as u8, (0x80 + n % 64) as u8]
    } else if n < 0x10000 {
        seq![(0xe0 + n / 4096) as u8, (0x80 + (n / 64) % 64) as u8, (0x80 + n % 64) as u8]
    } else {
        seq![
            (0xf0 + n / 262144) as u8,
            (0x80 + (n / 4096) % 64) as u8,
            (0x80 + (n / 64) % 64) as u8,
            (0x80 + n % 64) as u8,
        ]
    }
}

fn utf8_exec(c: char) -> (r: Vec<u8>)
    ensures
        r@ == utf8(c),
{
    let n = c as u32;
    if n < 0x80 {
        vec![n as u8]
    } else if n < 0x800 {
        vec![(0xc0 + n / 64) as u8, (0x80 + n % 64) as u8]
    } else if n < 0x10000 {
        vec![(0xe0 + n / 4096) as u8, (0x80 + (n / 64) % 64) as u8, (0x80 + n % 64) as u8]
    } else {
        vec![
            (0xf0 + n / 262144) as u8,
            (0x80 + (n / 4096) % 64) as u8,
            (0x80 + (n / 64) % 64) as u8,
            (0x80 + n % 64) as u8,
        ]
    }
}

/// The escape sequence of a function key, F1 to F12.
pub open spec fn function_key_bytes(n: u8) -> Seq<u8> {
    if n == 1 {
        seq![0x1bu8, 0x4fu8, 0x50u8]
    } else if n == 2 {
        seq![0x1bu8, 0x4fu8, 0x51u8]
    } else if n == 3 {
        seq![0x1bu8, 0x4fu8, 0x52u8]
    } else if n == 4 {
        seq![0x1bu8, 0x4fu8, 0x53u8]
    } else if n == 5 {
        seq![0x1bu8, 0x5bu8, 0x31u8, 0x35u8, 0x7eu8]
    } else if n == 6 {
        seq![0x1bu8, 0x5bu8, 0x31u8, 0x37u8, 0x7eu8]
    } else if n == 7 {
        seq![0x1bu8, 0x5bu8, 0x31u8, 0x38u8, 0x7eu8]
    } else if n == 8 {
        seq![0x1bu8, 0x5bu8, 0x31u8, 0x39u8, 0x7eu8]
    } else if n == 9 {
        seq![0x1bu8, 0x5bu8, 0x32u8, 0x30u8, 0x7eu8]
    } else if n == 10 {
        seq![0x1bu8, 0x5bu8, 0x32u8, 0x31u8, 0x7eu8]
    } else if n == 11 {
        seq![0x1bu8, 0x5bu8, 0x32u8, 0x33u8, 0x7eu8]
    } else if n == 12 {
        seq![0x1bu8, 0x5bu8, 0x32u8, 0x34u8, 0x7eu8]
    } else {
        Seq::<u8>::empty()
    }
}

/// The bytes a terminal sends for a key, before any Alt prefix: Control with
/// a letter gives its control code (1 for `a` … 26 for `z`), Control-Space
/// NUL, Control with anything else nothing; a character on its own its UTF-8
/// encoding; the special keys their usual escape sequences.
pub open spec fn base_bytes(code: KeyCodeIn, ctrl: bool) -> Seq<u8> {
    match code {
        KeyCodeIn::Char(c) => if ctrl {
            let l = ascii_lower(c);
            if 'a' <= l && l <= 'z' {
                seq![((l as nat) - ('a' as nat) + 1) as u8]
            } else if l == ' ' {
                seq![0u8]
            } else {
                Seq::<u8>::empty()
            }
        } else {
            utf8(c)
        },
        KeyCodeIn::Enter => seq![0x0du8],
        KeyCodeIn::Backspace => seq![0x7fu8],
        KeyCodeIn::Delete => seq![0x1bu8, 0x5bu8, 0x33u8, 0x7eu8],
        KeyCodeIn::Esc => seq![0x1bu8],
        KeyCodeIn::Tab => seq![0x09u8],
        KeyCodeIn::BackTab => seq![0x1bu8, 0x5bu8, 0x5au8],
        KeyCodeIn::Up => seq![0x1bu8, 0x5bu8, 0x41u8],
        KeyCodeIn::Down => seq![0x1bu8, 0x5bu8, 0x42u8],
        KeyCodeIn::Right => seq![0x1bu8, 0x5bu8, 0x43u8],
        KeyCodeIn::Left => seq![0x1bu8, 0x5bu8, 0x44u8],
        KeyCodeIn::Home => seq![0x1bu8, 0x5bu8, 0x48u8],
        KeyCodeIn::End => seq![0x1bu8, 0x5bu8, 0x46u8],
        KeyCodeIn::PageUp => seq![0x1bu8, 0x5bu8, 0x35u8, 0x7eu8],
        KeyCodeIn::PageDown => seq![0x1bu8, 0x5bu8, 0x36u8, 0x7eu8],
        KeyCodeIn::F(n) => function_key_bytes(n),
        KeyCodeIn::Other => Seq::<u8>::empty(),
    }
}

/// The bytes a terminal sends for a key press: Alt puts an ESC in front of
/// a non-empty sequence, except for Esc itself.
pub open spec fn key_bytes(key: KeyInput) -> Seq<u8> {
    let b = base_bytes(key.code, key.ctrl);
    if key.alt && b.len() > 0 && !(key.code is Esc) {
        seq![0x1bu8] + b
    } else {
        b
    }
}

fn function_key_exec(n: u8) -> (r: Vec<u8>)
    ensures
        r@ == function_key_bytes(n),
{
    if n == 1 {
        vec![0x1b, 0x4f, 0x50]
    } else if n == 2 {
        vec![0x1b, 0x4f, 0x51]
    } else if n == 3 {
        vec![0x1b, 0x4f, 0x52]
    } else if n == 4 {
        vec![0x1b, 0x4f, 0x53]
    } else if n == 5 {
        vec![0x1b, 0x5b, 0x31, 0x35, 0x7e]
    } else if n == 6 {
        vec![0x1b, 0x5b, 0x31, 0x37, 0x7e]
    } else if n == 7 {
        vec![0x1b, 0x5b, 0x31, 0x38, 0x7e]
    } else if n == 8 {
        vec![0x1b, 0x5b, 0x31, 0x39, 0x7e]
    } else if n == 9 {
        vec![0x1b, 0x5b, 0x32, 0x30, 0x7e]
    } else if n == 10 {
        vec![0x1b, 0x5b, 0x32, 0x31, 0x7e]
    } else if n == 11 {
        vec![0x1b, 0x5b, 0x32, 0x33, 0x7e]
    } else if n == 12 {
        vec![0x1b, 0x5b, 0x32, 0x34, 0x7e]
    } else {
        Vec::new()
    }
}

/// Convert a key press into the byte sequence a terminal would send.
pub fn key_to_bytes(key: KeyInput) -> (r: Vec<u8>)
    ensures
        r@ == key_bytes(key),
{
    let mut bytes: Vec<u8> = match key.code {
        KeyCodeIn::Char(c) => {
            if key.ctrl {
                let l = ascii_lower_exec(c);
                if 'a' <= l && l <= 'z' {
                    let code: u32 = (l as u32) - ('a' as u32) + 1;
                    vec![code as u8]
                } else if l == ' ' {
                    vec![0]
                } else {
                    Vec::new()
                }
            } else {
                utf8_exec(c)
            }
        },
        KeyCodeIn::Enter => vec![0x0d],
        KeyCodeIn::Backspace => vec![0x7f],
        KeyCodeIn::Delete => vec![0x1b, 0x5b, 0x33, 0x7e],
        KeyCodeIn::Esc => vec![0x1b],
        KeyCodeIn::Tab => vec![0x09],
        KeyCodeIn::BackTab => vec![0x1b, 0x5b, 0x5a],
        KeyCodeIn::Up => vec![0x1b, 0x5b, 0x41],
        KeyCodeIn::Down => vec![0x1b, 0x5b, 0x42],
        KeyCodeIn::Right => vec![0x1b, 0x5b, 0x43],
        KeyCodeIn::Left => vec![0x1b, 0x5b, 0x44],
        KeyCodeIn::Home => vec![0x1b, 0x5b, 0x48],
        KeyCodeIn::End => vec![0x1b, 0x5b, 0x46],
        KeyCodeIn::PageUp => vec![0x1b, 0x5b, 0x35, 0x7e],
        KeyCodeIn::PageDown => vec![0x1b, 0x5b, 0x36, 0x7e],
        KeyCodeIn::F(n) => function_key_exec(n),
        KeyCodeIn::Other => Vec::new(),
    };
    let is_esc = match key.code {
        KeyCodeIn::Esc => true,
        _ => false,
    };
    if key.alt && bytes.len() > 0 && !is_esc {
        let ghost b = bytes@;
        bytes.insert(0, 0x1b);
        proof {
            assert(bytes@ =~= seq![0x1bu8] + b);
        }
    }
    bytes
}

// ───────────────────────────── screen cells ─────────────────────────────

/// A colour as the terminal emulator reports it for a cell.
#[derive(Clone, Copy, PartialEq, Eq, Debug, Structural)]
pub enum TermColor {
    Default,
    Idx(u8),
    Rgb(u8, u8, u8),
}

/// A colour as the popup draws it.
#[derive(Clone, Copy, PartialEq, Eq, Debug, Structural)]
pub enum UiColor {
    Reset,
    Indexed(u8),
    Rgb(u8, u8, u8),
}

/// The terminal's default colour is the popup's reset colour; indexed and
/// RGB colours stay what they are.
pub open spec fn ui_color_of(color: TermColor) -> UiColor {
    match color {
        TermColor::Default => UiColor::Reset,
        TermColor::Idx(n) => UiColor::Indexed(n),
        TermColor::Rgb(r, g, b) => UiColor::Rgb(r, g, b),
    }
}

pub fn vt100_color(color: TermColor) -> (r: UiColor)
    ensures
        r == ui_color_of(color),
{
    match color {
        TermColor::Default => UiColor::Reset,
        TermColor::Idx(n) => UiColor::Indexed(n),
        TermColor::Rgb(r, g, b) => UiColor::Rgb(r, g, b),
    }
}

/// How a cell of the editor's screen is drawn.
#[derive(Clone, Copy, PartialEq, Eq, Debug, Structural)]
pub struct CellStyle {
    pub fg: UiColor,
    pub bg: UiColor,
    pub bold: bool,
    pub italic: bool,
    pub underlined: bool,
    pub reversed: bool,
}

/// The style of a cell from its colours and attributes; inverse video is
/// drawn reversed.
pub fn cell_style(fg: TermColor, bg: TermColor, bold: bool, italic: bool, underline: bool, inverse: bool) -> (r:
    CellStyle)
    ensures
        r == (CellStyle {
            fg: ui_color_of(fg),
            bg: ui_color_of(bg),
            bold,
            italic,
            underlined: underline,
            reversed: inverse,
        }),
{
    CellStyle {
        fg: vt100_color(fg),
        bg: vt100_color(bg),
        bold,
        italic,
        underlined: underline,
        reversed: inverse,
    }
}

/// What a cell shows: its contents, or a space when it is empty.
pub fn cell_text(contents: &str) -> (r: String)
    ensures
        r@ == if contents@.len() == 0 {
            " "@
        } else {
            contents@
        },
{
    let v = chars_of(contents);
    if v.len() == 0 {
        String::from_str(" ")
    } else {
        string_of(v.as_slice())
    }
}

/// The popup's border title.
pub fn popup_title(label: &str) -> (r: String)
    ensures
        r@ == " tnote: "@ + label@ + " "@,
{
    let mut v = str_concat(" tnote: ", chars_of(label).as_slice());
    crate::text::extend_str(&mut v, " ");
    string_of(v.as_slice())
}

/// `n` spaces.
pub fn blank_row_chars(n: usize) -> (r: Vec<char>)
    ensures
        r@ == Seq::new(n as nat, |i: int| ' '),
{
    let mut v: Vec<char> = Vec::new();
    let mut i: usize = 0;
    while i < n
        invariant
            0 <= i <= n,
            v@ == Seq::new(i as nat, |k: int| ' '),
        decreases n - i,
    {
        v.push(' ');
        proof {
            assert(v@ =~= Seq::new((i + 1) as nat, |k: int| ' '));
        }
        i = i + 1;
    }
    v
}

/// A row of spaces as wide as the popup, to clear it before drawing.
pub fn blank_row(width: u16) -> (r: String)
    ensures
        r@ == Seq::new(width as nat, |i: int| ' '),
{
    string_of(blank_row_chars(width as usize).as_slice())
}

/// A geometry that fits the terminal's coordinates, with the inner size
/// inside the border.
pub open spec fn fits(g: Geometry) -> bool {
    &&& g.rect.x + g.rect.width <= u16::MAX
    &&& g.rect.y + g.rect.height <= u16::MAX
    &&& g.inner_w + 2 <= g.rect.width || g.inner_w == 0
    &&& g.inner_h + 2 <= g.rect.height || g.inner_h == 0
}

/// Every geometry `make_rect` makes fits.
pub proof fn lemma_geometry_fits(width: Seq<char>, height: Seq<char>, term_w: u16, term_h: u16)
    ensures
        fits(geometry_of(width, height, term_w, term_h)),
{
}

/// Where the cell at (`row`, `col`) of the editor's screen is drawn: inside
/// the border, as (x, y).
pub fn cell_position(g: Geometry, row: u16, col: u16) -> (r: (u16, u16))
    requires
        fits(g),
        row < g.inner_h,
        col < g.inner_w,
    ensures
        r.0 == g.rect.x + 1 + col,
        r.1 == g.rect.y + 1 + row,
{
    (g.rect.x + 1 + col, g.rect.y + 1 + row)
}

/// Where the terminal cursor goes: at the editor's cursor when it is shown
/// and inside the screen, else nowhere.
pub fn cursor_at(g: Geometry, hidden: bool, row: u16, col: u16) -> (r: Option<(u16, u16)>)
    requires
        fits(g),
    ensures
        match r {
            Some(p) => !hidden && row < g.inner_h && col < g.inner_w && p.0 == g.rect.x + 1 + col
                && p.1 == g.rect.y + 1 + row,
            None => hidden || row >= g.inner_h || col >= g.inner_w,
        },
{
    if !hidden && row < g.inner_h && col < g.inner_w {
        Some(cell_position(g, row, col))
    } else {
        None
    }
}

/// The lines of a captured pane, without the empty piece after a final
/// newline.
pub open spec fn background_lines_of(content: Seq<char>) -> Seq<Seq<char>> {
    let p = crate::text::split_on(content, '\n');
    if p.last().len() == 0 {
        p.drop_last()
    } else {
        p
    }
}

/// The lines of the tmux pane captured behind the popup, painted one per
/// row from the top.
pub fn background_lines(content: &str) -> (r: Vec<String>)
    ensures
        crate::text::str_views(r@) == background_lines_of(content@),
{
    let v = chars_of(content);
    let mut parts = crate::text::split_chars(v.as_slice(), '\n');
    proof {
        crate::text::lemma_split_nonempty(v@, '\n');
    }
    let n = parts.len();
    if parts[n - 1].len() == 0 {
        let ghost before = crate::text::views(parts@);
        parts.pop();
        proof {
            assert(crate::text::views(parts@) =~= before.drop_last());
        }
    }
    crate::text::strings_of(&parts)
}

// ───────────────────────────── the event loop ─────────────────────────────

/// What the terminal reported while the editor runs.
pub enum InputEvent {
    Key(KeyInput),
    /// The terminal was resized; its new size when it could be read.
    Resize(Option<(u16, u16)>),
    Other,
}

/// What the event loop does next.
pub enum EditorAction {
    /// Write these bytes to the editor's terminal.
    Send(Vec<u8>),
    /// Move and resize the popup and the editor's screen.
    Relayout(Geometry),
    Nothing,
}

/// The event loop's answer to an input event: a key is forwarded as the
/// bytes a terminal sends for it (when there are any); a resize lays the
/// popup out again for the new terminal size (when it could be read).
pub fn on_input(event: InputEvent, width: &str, height: &str) -> (r: EditorAction)
    ensures
        match event {
            InputEvent::Key(k) => if key_bytes(k).len() > 0 {
                r matches EditorAction::Send(b) && b@ == key_bytes(k)
            } else {
                r is Nothing
            },
            InputEvent::Resize(Some((w, h))) => r == EditorAction::Relayout(
                geometry_of(width@, height@, w, h),
            ),
            _ => r is Nothing,
        },
{
    match event {
        InputEvent::Key(k) => {
            let b = key_to_bytes(k);
            if b.len() > 0 {
                EditorAction::Send(b)
            } else {
                EditorAction::Nothing
            }
        },
        InputEvent::Resize(Some((w, h))) => EditorAction::Relayout(make_rect(width, height, w, h)),
        _ => EditorAction::Nothing,
    }
}

} // verus!
