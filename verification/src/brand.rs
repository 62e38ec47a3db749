//! The face of the command line: the mark, the palette, and which of them a
//! terminal gets to see.

use crate::text::{finds, lower, same, spaces, split, trim_end};
use vstd::prelude::*;
use vstd::string::*;

verus! {

// ---------------------------------------------------------------------------
// The mark and the palette
// ---------------------------------------------------------------------------

/// The mark on a grid of 28 columns and 14 rows, drawn in braille.
pub const MARK_BRAILLE: &'static str = "  ⠛⠛⠛⠛⠿⠿⢷⣶⣤⣄⣀\n          ⠉⠙⠻⢿⣶⣄⡀\n  ⣤⣤⣤⣀⣀⡀      ⠈⠙⠿⣶⣄\n  ⠉⠉⠉⠙⠛⠻⠿⣶⣦⣄⡀    ⠈⠛⢷⣦⡀\n          ⠈⠙⠻⣷⣄⡀    ⠙⣷⣄\n  ⣤⣤⣄⣀⡀      ⠈⠙⢿⣦⡀   ⠈⢻⣧⡀\n  ⠉⠉⠉⠛⠛⠿⣶⣤⡀     ⠙⢿⣆    ⠹⣷⡄\n         ⠙⠻⣷⣄    ⠈⠻⣷⡀   ⠹⣿⡄\n  ⣤⣤⣀⡀     ⠈⠻⣷⡀    ⠹⣷⡀   ⢹⣷\n  ⠉⠉⠙⠻⢷⣦⡀    ⠙⣿⡄    ⢻⣧    ⢿⣇\n       ⠙⢿⣆    ⠘⣿⡀   ⠈⣿⡆   ⢸⣿\n        ⠈⢿⡆    ⢻⣇    ⢹⣧    ⣿\n⢠⣾⣿⣦⣀⣀⣀⣀⣀⣸⣿⣀⣀⣀⣀⣸⣿⣀⣀⣀⣀⣸⣿⣀⣀⣀⣀⣿\n⠈⠻⠿⠋\n";

/// The mark on the same grid, in tones of plain ASCII.
pub const MARK_ASCII: &'static str = "  ====****=-:\n          :-+#*-.\n  ===::.      .-**-\n  :::-=+**+-.    .=*+.\n          .-+#-.    -#-\n  ==-:.      .-#+.   .**.\n  :::==**=.     -#=    =#:\n         -+#-    .+#.   =@:\n  ==:.     .+#.    =#.   +#\n  ::-+*+.    -@:    **    #+\n       -#=    :@.   .@-   =@\n        .#-    *+    +*    @\n:#@+:::::+@::::+@::::+@::::@\n.+*-\n";

pub const TAGLINE: &'static str = "a runtime for header-less content delivery";

/// The cells of the bottom row that the hub of the mark takes.
pub const HUB_CELLS: usize = 2;

/// The three colours. Each means the same in the mark and in the data.
#[derive(Debug, Clone, Copy, PartialEq, Eq)]
pub enum Tone {
    /// Reachable.
    Reach,
    /// A path that is down.
    Severed,
    /// Unprobed or stale.
    Unknown,
}

impl Tone {
    /// Red, green and blue.
    pub open spec fn rgb(self) -> (u8, u8, u8) {
        match self {
            Tone::Reach => (0x16, 0xC7, 0x9A),
            Tone::Severed => (0xF2, 0x67, 0x4A),
            Tone::Unknown => (0x7C, 0x8B, 0x93),
        }
    }

    /// Red, green and blue.
    pub fn color(&self) -> (r: (u8, u8, u8))
        ensures
            r == self.rgb(),
    {
        match *self {
            Tone::Reach => (0x16, 0xC7, 0x9A),
            Tone::Severed => (0xF2, 0x67, 0x4A),
            Tone::Unknown => (0x7C, 0x8B, 0x93),
        }
    }
}

/// What selects bold type.
pub open spec fn bold_code() -> Seq<char> {
    seq!['\u{1b}', '[', '1', 'm']
}

/// What selects a colour of the text.
pub open spec fn color_code(c: (u8, u8, u8)) -> Seq<char> {
    seq!['\u{1b}'] + color_digits(c) + seq!['m']
}

/// The inside of a colour code.
pub open spec fn color_digits(c: (u8, u8, u8)) -> Seq<char> {
    seq!['[', '3', '8', ';', '2', ';'] + crate::text::decimal_of(c.0 as nat) + seq![';']
        + crate::text::decimal_of(c.1 as nat) + seq![';'] + crate::text::decimal_of(c.2 as nat)
}

/// What ends all of it.
pub open spec fn reset_code() -> Seq<char> {
    seq!['\u{1b}', '[', '0', 'm']
}

/// `text` in bold type or in a colour, or in both, or plain.
pub open spec fn painted(text: Seq<char>, bold: bool, color: Option<(u8, u8, u8)>) -> Seq<char> {
    (if bold {
        bold_code()
    } else {
        Seq::empty()
    }) + (match color {
        Some(c) => color_code(c),
        None => Seq::empty(),
    }) + text + (if bold || color is Some {
        reset_code()
    } else {
        Seq::empty()
    })
}

/// anstyle's `Style`, written before a text and, in its alternate form, behind
/// it: the code for bold type comes before that for the colour, the decimal
/// numbers of a colour carry no leading zeros, and a style without any effect
/// writes nothing at either end.
#[verifier::external_body]
fn paint(text: &str, bold: bool, color: Option<(u8, u8, u8)>) -> (r: String)
    ensures
        r@ == painted(text@, bold, color),
{
    let effects = anstyle::Effects::new().set(anstyle::Effects::BOLD, bold);
    let color = color.map(|(r, g, b)| anstyle::Color::Rgb(anstyle::RgbColor(r, g, b)));
    let style = anstyle::Style::new().effects(effects).fg_color(color);
    format!("{style}{text}{style:#}")
}

/// `text` in a tone, where colour is on.
pub open spec fn toned(text: Seq<char>, tone: Tone, on: bool) -> Seq<char> {
    if on {
        painted(text, false, Some(tone.rgb()))
    } else {
        text
    }
}

/// `text` in a tone, where colour is on.
fn tint(text: &str, tone: Tone, on: bool) -> (r: String)
    ensures
        r@ == toned(text@, tone, on),
{
    if on {
        paint(text, false, Some(tone.color()))
    } else {
        text.to_owned()
    }
}

// ---------------------------------------------------------------------------
// The terminal
// ---------------------------------------------------------------------------

/// Which cut of the mark a terminal gets.
#[derive(Debug, Clone, Copy, PartialEq, Eq)]
pub enum Cut {
    Braille,
    Ascii,
    /// No mark at all.
    Blank,
}

/// Everything about the surroundings that changes what is printed.
#[derive(Debug)]
pub struct Term {
    pub stdout_is_tty: bool,
    pub no_color: bool,
    pub term: Option<String>,
    pub term_program: Option<String>,
    pub wt_session: bool,
    /// What [`locale`] makes of `LC_ALL`, `LC_CTYPE` and `LANG`.
    pub locale: Option<String>,
    /// The operator's word on the cut, for where detection is wrong.
    pub banner_override: Option<String>,
}

/// Whether an optional text is there and not empty.
pub open spec fn told(s: Option<String>) -> bool {
    s matches Some(t) && t@.len() > 0
}

/// Whether an optional text is there and not empty.
fn is_told(s: &Option<String>) -> (r: bool)
    ensures
        r == told(*s),
{
    match s {
        None => false,
        Some(t) => t.as_str().unicode_len() > 0,
    }
}

/// The locale: the first of the three variables that is set and not empty.
pub fn locale(lc_all: Option<String>, lc_ctype: Option<String>, lang: Option<String>) -> (r: Option<
    String,
>)
    ensures
        r == if told(lc_all) {
            lc_all
        } else if told(lc_ctype) {
            lc_ctype
        } else if told(lang) {
            lang
        } else {
            None
        },
{
    if is_told(&lc_all) {
        lc_all
    } else if is_told(&lc_ctype) {
        lc_ctype
    } else if is_told(&lang) {
        lang
    } else {
        None
    }
}

impl Default for Term {
    fn default() -> (r: Self)
        ensures
            !r.stdout_is_tty && !r.no_color && !r.wt_session,
            r.term is None && r.term_program is None && r.locale is None,
            r.banner_override is None,
    {
        Term {
            stdout_is_tty: false,
            no_color: false,
            term: None,
            term_program: None,
            wt_session: false,
            locale: None,
            banner_override: None,
        }
    }
}

/// A copy of an optional text.
fn copy_opt(s: &Option<String>) -> (r: Option<String>)
    ensures
        crate::proto::opt_text(r) == crate::proto::opt_text(*s),
{
    match s {
        None => None,
        Some(t) => Some(t.clone()),
    }
}

impl Clone for Term {
    fn clone(&self) -> (r: Self)
        ensures
            r.stdout_is_tty == self.stdout_is_tty,
            r.no_color == self.no_color,
            r.wt_session == self.wt_session,
            crate::proto::opt_text(r.term) == crate::proto::opt_text(self.term),
            crate::proto::opt_text(r.term_program) == crate::proto::opt_text(self.term_program),
            crate::proto::opt_text(r.locale) == crate::proto::opt_text(self.locale),
            crate::proto::opt_text(r.banner_override) == crate::proto::opt_text(
                self.banner_override,
            ),
    {
        Term {
            stdout_is_tty: self.stdout_is_tty,
            no_color: self.no_color,
            term: copy_opt(&self.term),
            term_program: copy_opt(&self.term_program),
            wt_session: self.wt_session,
            locale: copy_opt(&self.locale),
            banner_override: copy_opt(&self.banner_override),
        }
    }
}

/// Whether an optional text is this one.
pub open spec fn is_text(s: Option<String>, text: Seq<char>) -> bool {
    s matches Some(t) && t@ == text
}

/// Whether an optional text is this one.
fn equals(s: &Option<String>, text: &str) -> (r: bool)
    ensures
        r == is_text(*s, text@),
{
    match s {
        None => false,
        Some(t) => same(t.as_str(), text),
    }
}

impl Term {
    /// A terminal that can do nothing but text.
    pub open spec fn dumb(self) -> bool {
        is_text(self.term, "dumb"@) || is_text(self.term, ""@)
    }

    /// Whether the locale speaks of UTF-8.
    pub open spec fn utf8_locale(self) -> bool {
        self.locale matches Some(l) && (crate::text::occurs(crate::text::lowered(l@), "utf-8"@)
            || crate::text::occurs(crate::text::lowered(l@), "utf8"@))
    }

    /// Whether Unicode can be trusted: a best guess, which the override beats.
    pub open spec fn unicode(self) -> bool {
        self.wt_session || self.term_program is Some || self.utf8_locale()
    }

    /// The cut of the mark. What is not a terminal with a reader gets none.
    pub open spec fn chosen_cut(self) -> Cut {
        if is_text(self.banner_override, "braille"@) {
            Cut::Braille
        } else if is_text(self.banner_override, "ascii"@) {
            Cut::Ascii
        } else if is_text(self.banner_override, "none"@) {
            Cut::Blank
        } else if !self.stdout_is_tty || self.dumb() {
            Cut::Blank
        } else if self.unicode() {
            Cut::Braille
        } else {
            Cut::Ascii
        }
    }

    /// Whether there is colour.
    pub open spec fn colored(self) -> bool {
        self.stdout_is_tty && !self.no_color && !self.dumb()
    }

    fn term_is_dumb(&self) -> (r: bool)
        ensures
            r == self.dumb(),
    {
        equals(&self.term, "dumb") || equals(&self.term, "")
    }

    fn unicode_is_safe(&self) -> (r: bool)
        ensures
            r == self.unicode(),
    {
        if self.wt_session || self.term_program.is_some() {
            return true;
        }
        match &self.locale {
            None => false,
            Some(l) => {
                let l: String = lower(l.as_str());
                finds(l.as_str(), "utf-8") || finds(l.as_str(), "utf8")
            },
        }
    }

    /// The cut of the mark that this terminal gets.
    pub fn cut(&self) -> (r: Cut)
        ensures
            r == self.chosen_cut(),
    {
        if equals(&self.banner_override, "braille") {
            Cut::Braille
        } else if equals(&self.banner_override, "ascii") {
            Cut::Ascii
        } else if equals(&self.banner_override, "none") {
            Cut::Blank
        } else if !self.stdout_is_tty || self.term_is_dumb() {
            Cut::Blank
        } else if self.unicode_is_safe() {
            Cut::Braille
        } else {
            Cut::Ascii
        }
    }

    /// Whether this terminal gets colour.
    pub fn color(&self) -> (r: bool)
        ensures
            r == self.colored(),
    {
        self.stdout_is_tty && !self.no_color && !self.term_is_dumb()
    }
}

// ---------------------------------------------------------------------------
// The banner
// ---------------------------------------------------------------------------

/// The rows of a mark. A line end closes a row.
pub open spec fn rows(mark: Seq<char>) -> Seq<Seq<char>> {
    let all = crate::text::pieces(mark, '\n');
    if all.last().len() == 0 {
        all.drop_last()
    } else {
        all
    }
}

/// The length of the longest row.
pub open spec fn widest(rows: Seq<Seq<char>>) -> nat
    decreases rows.len(),
{
    if rows.len() == 0 {
        0
    } else {
        let before = widest(rows.drop_last());
        if rows.last().len() > before {
            rows.last().len()
        } else {
            before
        }
    }
}

/// A row as it is drawn: the hub, at the start of the bottom row, is the one
/// part of the mark that has colour.
pub open spec fn drawn(row: Seq<char>, bottom: bool, color: bool) -> Seq<char> {
    if bottom && row.len() > HUB_CELLS {
        toned(row.take(HUB_CELLS as int), Tone::Reach, color) + row.skip(HUB_CELLS as int)
    } else {
        row
    }
}

/// The row beside which the name stands; the tagline stands beside the next.
pub open spec fn name_row(n: nat) -> int {
    if n == 0 {
        0
    } else {
        (n - 1) / 2
    }
}

/// From the end of a row to where the words start.
pub open spec fn gap(width: nat, columns: nat) -> Seq<char> {
    crate::text::blanks(
        if columns < width {
            (width - columns + 4) as nat
        } else {
            4
        },
    )
}

/// The words beside the row `i` of `n`.
pub open spec fn beside(
    i: int,
    n: nat,
    width: nat,
    columns: nat,
    version: Seq<char>,
    color: bool,
) -> Seq<char> {
    if i == name_row(n) {
        gap(width, columns) + ("radii "@ + version)
    } else if i == name_row(n) + 1 {
        gap(width, columns) + toned(TAGLINE@, Tone::Unknown, color)
    } else {
        Seq::empty()
    }
}

/// The row `i` with what stands beside it.
pub open spec fn banner_line(
    rows: Seq<Seq<char>>,
    i: int,
    version: Seq<char>,
    color: bool,
) -> Seq<char> {
    drawn(rows[i], i == rows.len() - 1, color) + beside(
        i,
        rows.len(),
        widest(rows),
        rows[i].len(),
        version,
        color,
    )
}

/// The first `k` rows, each with its line end.
pub open spec fn stacked(
    rows: Seq<Seq<char>>,
    k: int,
    version: Seq<char>,
    color: bool,
) -> Seq<char>
    decreases k,
{
    if k <= 0 {
        Seq::empty()
    } else {
        stacked(rows, k - 1, version, color) + banner_line(rows, k - 1, version, color) + seq![
            '\n',
        ]
    }
}

/// The mark with the name and the tagline beside it, without white space at
/// its end.
pub open spec fn composed(mark: Seq<char>, version: Seq<char>, color: bool) -> Seq<char> {
    crate::text::trimmed_end(stacked(rows(mark), rows(mark).len() as int, version, color))
}

/// The rows of a mark.
fn rows_of(mark: &str) -> (r: Vec<String>)
    ensures
        r@.map_values(|s: String| s@) == rows(mark@),
{
    let mut all: Vec<String> = split(mark, '\n');
    let ghost seen = all@.map_values(|s: String| s@);
    let n: usize = all.len();
    assert(seen.last() == all@[n - 1]@);
    if all[n - 1].as_str().unicode_len() == 0 {
        let _ = all.pop();
        assert(all@.map_values(|s: String| s@) =~= seen.drop_last());
    }
    all
}

/// The length of the longest row.
fn width_of(list: &Vec<String>) -> (r: usize)
    ensures
        r == widest(list@.map_values(|s: String| s@)),
{
    let ghost all = list@.map_values(|s: String| s@);
    let mut r: usize = 0;
    let mut i: usize = 0;
    assert(all.take(0) =~= Seq::<Seq<char>>::empty());
    while i < list.len()
        invariant
            i <= list@.len(),
            all == list@.map_values(|s: String| s@),
            r == widest(all.take(i as int)),
        decreases list@.len() - i,
    {
        assert(all.take(i + 1).drop_last() =~= all.take(i as int));
        assert(all.take(i + 1).last() == list@[i as int]@);
        let n: usize = list[i].as_str().unicode_len();
        if n > r {
            r = n;
        }
        i += 1;
    }
    assert(all.take(all.len() as int) =~= all);
    r
}

/// A row as it is drawn.
fn draw(row: &str, bottom: bool, color: bool) -> (r: String)
    ensures
        r@ == drawn(row@, bottom, color),
{
    let columns: usize = row.unicode_len();
    if bottom && columns > HUB_CELLS {
        let mut r: String = tint(row.substring_char(0, HUB_CELLS), Tone::Reach, color);
        r.append(row.substring_char(HUB_CELLS, columns));
        proof {
            assert(row@.subrange(0, HUB_CELLS as int) =~= row@.take(HUB_CELLS as int));
            assert(row@.subrange(HUB_CELLS as int, columns as int) =~= row@.skip(
                HUB_CELLS as int,
            ));
        }
        r
    } else {
        row.to_owned()
    }
}

/// From the end of a row to where the words start.
fn gap_text(width: usize, columns: usize) -> (r: String)
    ensures
        r@ == gap(width as nat, columns as nat),
{
    let mut r: String = spaces(
        if columns < width {
            width - columns
        } else {
            0
        },
    );
    r.append(spaces(4).as_str());
    assert(r@ =~= gap(width as nat, columns as nat));
    r
}

/// Lays the name and the tagline beside the mark.
fn compose(mark: &str, version: &str, color: bool) -> (r: String)
    ensures
        r@ == composed(mark@, version@, color),
{
    let list: Vec<String> = rows_of(mark);
    let ghost all = rows(mark@);
    let n: usize = list.len();
    let width: usize = width_of(&list);
    let at: usize = if n == 0 {
        0
    } else {
        (n - 1) / 2
    };
    let mut out: String = String::new();
    let mut i: usize = 0;
    while i < n
        invariant
            i <= n,
            n == list@.len(),
            all == list@.map_values(|s: String| s@),
            width == widest(all),
            at == name_row(n as nat),
            out@ == stacked(all, i as int, version@, color),
        decreases n - i,
    {
        let row: &str = list[i].as_str();
        let columns: usize = row.unicode_len();
        let ghost before = out@;
        assert(all[i as int] == row@);
        let drawn_row: String = draw(row, i == n - 1, color);
        out.append(drawn_row.as_str());
        let ghost middle = out@;
        if i == at {
            out.append(gap_text(width, columns).as_str());
            out.append("radii ");
            out.append(version);
            assert(out@ =~= middle + beside(
                i as int,
                n as nat,
                width as nat,
                columns as nat,
                version@,
                color,
            ));
        } else if i > at && i - at == 1 {
            out.append(gap_text(width, columns).as_str());
            out.append(tint(TAGLINE, Tone::Unknown, color).as_str());
            assert(out@ =~= middle + beside(
                i as int,
                n as nat,
                width as nat,
                columns as nat,
                version@,
                color,
            ));
        } else {
            assert(out@ =~= middle + beside(
                i as int,
                n as nat,
                width as nat,
                columns as nat,
                version@,
                color,
            ));
        }
        out.push('\n');
        assert(out@ =~= stacked(all, i + 1, version@, color));
        i += 1;
    }
    trim_end(out.as_str()).to_owned()
}

/// The mark in a cut.
pub open spec fn mark_in(cut: Cut) -> Option<Seq<char>> {
    match cut {
        Cut::Braille => Some(MARK_BRAILLE@),
        Cut::Ascii => Some(MARK_ASCII@),
        Cut::Blank => None,
    }
}

/// The banner that a terminal gets.
pub open spec fn banner_text(term: Term, version: Seq<char>) -> Option<Seq<char>> {
    match mark_in(term.chosen_cut()) {
        None => None,
        Some(mark) => Some(composed(mark, version, term.colored())),
    }
}

/// The banner over the help, for a terminal that gets one.
pub fn banner(term: &Term, version: &str) -> (r: Option<String>)
    ensures
        crate::proto::opt_text(r) == banner_text(*term, version@),
{
    let color: bool = term.color();
    match term.cut() {
        Cut::Braille => Some(compose(MARK_BRAILLE, version, color)),
        Cut::Ascii => Some(compose(MARK_ASCII, version, color)),
        Cut::Blank => None,
    }
}

// ---------------------------------------------------------------------------
// What a reader sees
// ---------------------------------------------------------------------------

/// A text without its codes: each runs from an escape to the next `m`.
pub open spec fn bare(s: Seq<char>, in_code: bool) -> Seq<char>
    decreases s.len(),
{
    if s.len() == 0 {
        Seq::empty()
    } else if in_code {
        bare(s.drop_first(), s[0] != 'm')
    } else if s[0] == '\u{1b}' {
        bare(s.drop_first(), true)
    } else {
        seq![s[0]] + bare(s.drop_first(), false)
    }
}

/// Whether a text holds no escape.
pub open spec fn codeless(s: Seq<char>) -> bool {
    forall|i: int| 0 <= i < s.len() ==> #[trigger] s[i] != '\u{1b}'
}

/// Whether `a`, wherever it stands outside of codes, shows `p`.
spec fn shows(a: Seq<char>, p: Seq<char>) -> bool {
    forall|t: Seq<char>| #[trigger] bare(a + t, false) == p + bare(t, false)
}

proof fn lemma_codeless_shows(s: Seq<char>)
    requires
        codeless(s),
    ensures
        shows(s, s),
    decreases s.len(),
{
    if s.len() == 0 {
        assert forall|t: Seq<char>| #[trigger] bare(s + t, false) == s + bare(t, false) by {
            assert(s + t =~= t);
            assert(s + bare(t, false) =~= bare(t, false));
        }
    } else {
        let rest = s.drop_first();
        assert forall|i: int| 0 <= i < rest.len() implies #[trigger] rest[i] != '\u{1b}' by {
            assert(rest[i] == s[i + 1]);
        }
        lemma_codeless_shows(rest);
        assert forall|t: Seq<char>| #[trigger] bare(s + t, false) == s + bare(t, false) by {
            assert((s + t).drop_first() =~= rest + t);
            assert((s + t)[0] == s[0]);
            assert(bare(rest + t, false) == rest + bare(t, false));
            assert(seq![s[0]] + (rest + bare(t, false)) =~= s + bare(t, false));
        }
    }
}

/// What stands inside of a code does not show.
proof fn lemma_inside(inside: Seq<char>, t: Seq<char>)
    requires
        forall|i: int| 0 <= i < inside.len() ==> #[trigger] inside[i] != 'm',
    ensures
        bare(inside + seq!['m'] + t, true) == bare(t, false),
    decreases inside.len(),
{
    let all = inside + seq!['m'] + t;
    if inside.len() == 0 {
        assert(all.drop_first() =~= t);
        assert(all[0] == 'm');
    } else {
        let rest = inside.drop_first();
        assert forall|i: int| 0 <= i < rest.len() implies #[trigger] rest[i] != 'm' by {
            assert(rest[i] == inside[i + 1]);
        }
        lemma_inside(rest, t);
        assert(all.drop_first() =~= rest + seq!['m'] + t);
        assert(all[0] == inside[0]);
    }
}

proof fn lemma_code_shows_nothing(inside: Seq<char>)
    requires
        forall|i: int| 0 <= i < inside.len() ==> #[trigger] inside[i] != 'm',
    ensures
        shows(seq!['\u{1b}'] + inside + seq!['m'], Seq::empty()),
{
    let code = seq!['\u{1b}'] + inside + seq!['m'];
    assert forall|t: Seq<char>| #[trigger] bare(code + t, false) == Seq::<char>::empty() + bare(
        t,
        false,
    ) by {
        lemma_inside(inside, t);
        assert((code + t).drop_first() =~= inside + seq!['m'] + t);
        assert((code + t)[0] == '\u{1b}');
        assert(Seq::<char>::empty() + bare(t, false) =~= bare(t, false));
    }
}

proof fn lemma_shows_join(a: Seq<char>, p: Seq<char>, b: Seq<char>, q: Seq<char>)
    requires
        shows(a, p),
        shows(b, q),
    ensures
        shows(a + b, p + q),
{
    assert forall|t: Seq<char>| #[trigger] bare(a + b + t, false) == (p + q) + bare(t, false) by {
        assert(a + b + t =~= a + (b + t));
        assert(bare(a + (b + t), false) == p + bare(b + t, false));
        assert(bare(b + t, false) == q + bare(t, false));
        assert(p + (q + bare(t, false)) =~= (p + q) + bare(t, false));
    }
}

proof fn lemma_decimal_digits(n: nat)
    ensures
        forall|i: int|
            0 <= i < crate::text::decimal_of(n).len() ==> 48 <= (#[trigger] crate::text::decimal_of(
                n,
            )[i]) as u32 <= 57,
    decreases n,
{
    let d = n % 10;
    assert(48 <= crate::text::digit(d) as u32 <= 57);
    if n >= 10 {
        lemma_decimal_digits(n / 10);
        let before = crate::text::decimal_of(n / 10);
        assert(crate::text::decimal_of(n) == before.push(crate::text::digit(d)));
    } else {
        assert(d == n);
        assert(crate::text::decimal_of(n) == seq![crate::text::digit(n)]);
    }
}

/// The inside of a colour code neither ends it nor ends a line.
proof fn lemma_color_digits(c: (u8, u8, u8))
    ensures
        forall|i: int|
            0 <= i < color_digits(c).len() ==> (#[trigger] color_digits(c)[i]) != 'm'
                && color_digits(c)[i] != '\n',
{
    lemma_decimal_digits(c.0 as nat);
    lemma_decimal_digits(c.1 as nat);
    lemma_decimal_digits(c.2 as nat);
    let inside = color_digits(c);
    assert forall|i: int| 0 <= i < inside.len() implies (#[trigger] inside[i]) != 'm' && inside[i]
        != '\n' by {
        let a = seq!['[', '3', '8', ';', '2', ';'];
        let d0 = crate::text::decimal_of(c.0 as nat);
        let d1 = crate::text::decimal_of(c.1 as nat);
        let d2 = crate::text::decimal_of(c.2 as nat);
        let k0 = a.len() + d0.len();
        let k1 = k0 + 1 + d1.len();
        if i < a.len() {
            assert(inside[i] == a[i]);
        } else if i < k0 {
            assert(inside[i] == d0[i - a.len()]);
        } else if i == k0 {
        } else if i < k1 {
            assert(inside[i] == d1[i - k0 - 1]);
        } else if i == k1 {
        } else {
            assert(inside[i] == d2[i - k1 - 1]);
        }
    }
}

proof fn lemma_toned_shows(text: Seq<char>, tone: Tone, on: bool)
    requires
        codeless(text),
    ensures
        shows(toned(text, tone, on), text),
{
    lemma_codeless_shows(text);
    if on {
        let c = tone.rgb();
        let inside = color_digits(c);
        lemma_color_digits(c);
        lemma_code_shows_nothing(inside);
        let none = Seq::<char>::empty();
        let zero = seq!['[', '0'];
        lemma_code_shows_nothing(zero);
        assert(seq!['\u{1b}'] + zero + seq!['m'] =~= reset_code());
        lemma_shows_join(color_code(c), none, text, text);
        lemma_shows_join(color_code(c) + text, none + text, reset_code(), none);
        assert(none + color_code(c) + text + reset_code() =~= color_code(c) + text
            + reset_code());
        assert(none + text + none =~= text);
        assert(toned(text, tone, on) == color_code(c) + text + reset_code());
    }
}

proof fn lemma_line_shows(list: Seq<Seq<char>>, i: int, version: Seq<char>, color: bool)
    requires
        0 <= i < list.len(),
        forall|j: int| 0 <= j < list.len() ==> codeless(#[trigger] list[j]),
        codeless(version),
    ensures
        shows(drawn(list[i], i == list.len() - 1, color), drawn(list[i], false, false)),
        shows(
            banner_line(list, i, version, color),
            banner_line(list, i, version, false),
        ),
{
    let row = list[i];
    let bottom = i == list.len() - 1;
    let n = list.len();
    assert(codeless(row));
    lemma_codeless_shows(row);
    if bottom && row.len() > HUB_CELLS {
        let hub = row.take(HUB_CELLS as int);
        let rest = row.skip(HUB_CELLS as int);
        lemma_toned_shows(hub, Tone::Reach, color);
        lemma_codeless_shows(rest);
        lemma_shows_join(toned(hub, Tone::Reach, color), hub, rest, rest);
        assert(hub + rest =~= row);
    }
    assert(drawn(row, bottom, false) =~= row);
    let words = beside(i, n, widest(list), row.len(), version, color);
    let plain = beside(i, n, widest(list), row.len(), version, false);
    if i == name_row(n) {
        reveal_strlit("radii ");
        lemma_codeless_shows(words);
    } else if i == name_row(n) + 1 {
        reveal_strlit("a runtime for header-less content delivery");
        let space = gap(widest(list), row.len());
        lemma_codeless_shows(space);
        assert(codeless(TAGLINE@));
        lemma_toned_shows(TAGLINE@, Tone::Unknown, color);
        lemma_shows_join(
            space,
            space,
            toned(TAGLINE@, Tone::Unknown, color),
            TAGLINE@,
        );
    } else {
        lemma_codeless_shows(words);
    }
    lemma_shows_join(drawn(row, bottom, color), row, words, plain);
}

proof fn lemma_stack_shows(list: Seq<Seq<char>>, k: int, version: Seq<char>, color: bool)
    requires
        0 <= k <= list.len(),
        forall|j: int| 0 <= j < list.len() ==> codeless(#[trigger] list[j]),
        codeless(version),
    ensures
        shows(stacked(list, k, version, color), stacked(list, k, version, false)),
    decreases k,
{
    if k == 0 {
        lemma_codeless_shows(Seq::empty());
    } else {
        lemma_stack_shows(list, k - 1, version, color);
        lemma_line_shows(list, k - 1, version, color);
        let end = seq!['\n'];
        lemma_codeless_shows(end);
        lemma_shows_join(
            stacked(list, k - 1, version, color),
            stacked(list, k - 1, version, false),
            banner_line(list, k - 1, version, color),
            banner_line(list, k - 1, version, false),
        );
        lemma_shows_join(
            stacked(list, k - 1, version, color) + banner_line(list, k - 1, version, color),
            stacked(list, k - 1, version, false) + banner_line(list, k - 1, version, false),
            end,
            end,
        );
    }
}

/// The stack up to the last character of the mark.
proof fn lemma_trimmed_stack(list: Seq<Seq<char>>, version: Seq<char>, color: bool)
    requires
        list.len() >= 4,
        list.last().len() > 0,
        !crate::text::white(list.last().last()),
    ensures
        crate::text::trimmed_end(stacked(list, list.len() as int, version, color)) == stacked(
            list,
            list.len() - 1,
            version,
            color,
        ) + drawn(list.last(), true, color),
{
    let n = list.len();
    let above = stacked(list, n - 1, version, color);
    let bottom = drawn(list.last(), true, color);
    let all = stacked(list, n as int, version, color);
    lemma_name_row(n);
    assert(banner_line(list, n - 1, version, color) =~= bottom);
    assert(all =~= (above + bottom).push('\n'));
    assert(bottom.last() == list.last().last());
    assert(all.drop_last() =~= above + bottom);
    assert((above + bottom).last() == bottom.last());
    assert(crate::text::white('\n'));
    reveal_with_fuel(crate::text::trimmed_end, 3);
}

/// A mark that a banner can stand on: at least four rows, the last of which
/// ends in a visible character, and no codes.
pub open spec fn fit(mark: Seq<char>) -> bool {
    &&& rows(mark).len() >= 4
    &&& rows(mark).last().len() > 0
    &&& !crate::text::white(rows(mark).last().last())
    &&& codeless(mark)
}

/// The rows of a mark hold no codes and no line ends.
proof fn lemma_rows(mark: Seq<char>)
    requires
        codeless(mark),
    ensures
        forall|j: int|
            0 <= j < rows(mark).len() ==> codeless(#[trigger] rows(mark)[j])
                && crate::text::free_of(rows(mark)[j], '\n'),
{
    let all = crate::text::pieces(mark, '\n');
    crate::text::lemma_pieces(mark, '\n');
    assert forall|j: int| 0 <= j < rows(mark).len() implies codeless(#[trigger] rows(mark)[j])
        && crate::text::free_of(rows(mark)[j], '\n') by {
        assert(rows(mark)[j] == all[j]);
        assert forall|i: int| 0 <= i < all[j].len() implies #[trigger] all[j][i] != '\u{1b}' by {
            assert(mark.contains(all[j][i]));
            let k = mark.index_of(all[j][i]);
            assert(mark[k] != '\u{1b}');
        }
    }
}

/// What stands before a line end adds pieces in front and changes none behind.
proof fn lemma_more_pieces(front: Seq<char>, rest: Seq<char>)
    ensures
        ({
            let all = crate::text::pieces(front + seq!['\n'] + rest, '\n');
            let tail = crate::text::pieces(rest, '\n');
            &&& all.len() >= tail.len() + 1
            &&& tail.len() >= 1 ==> all.last() == tail.last()
            &&& tail.len() >= 2 ==> all[all.len() - 2] == tail[tail.len() - 2]
        }),
{
    crate::text::lemma_pieces_parted(front, rest, '\n');
    crate::text::lemma_pieces(front, '\n');
}

/// A mark with line ends at three places and at its end, the last row of which
/// ends in a visible character, can carry a banner.
proof fn lemma_fit(mark: Seq<char>, a: int, b: int, c: int)
    requires
        0 <= a < b < c < mark.len() - 2,
        mark[a] == '\n',
        mark[b] == '\n',
        mark[c] == '\n',
        mark.last() == '\n',
        forall|i: int| c < i < mark.len() - 1 ==> #[trigger] mark[i] != '\n',
        !crate::text::white(mark[mark.len() - 2]),
        codeless(mark),
    ensures
        fit(mark),
{
    let end = seq!['\n'];
    let none = Seq::<char>::empty();
    let n = mark.len() as int;
    let first = mark.take(a);
    let second = mark.subrange(a + 1, b);
    let third = mark.subrange(b + 1, c);
    let last = mark.subrange(c + 1, n - 1);
    let from_third = mark.skip(b + 1);
    let from_second = mark.skip(a + 1);
    let from_last = mark.skip(c + 1);
    assert(mark =~= first + end + from_second);
    assert(from_second =~= second + end + from_third);
    assert(from_third =~= third + end + from_last);
    assert(from_last =~= last + end + none);
    lemma_more_pieces(first, from_second);
    lemma_more_pieces(second, from_third);
    lemma_more_pieces(third, from_last);
    crate::text::lemma_pieces_parted(last, none, '\n');
    assert(crate::text::free_of(last, '\n')) by {
        assert forall|i: int| 0 <= i < last.len() implies #[trigger] last[i] != '\n' by {
            assert(last[i] == mark[c + 1 + i]);
        }
    }
    crate::text::lemma_one_piece(last, '\n');
    crate::text::lemma_one_piece(none, '\n');
    let all = crate::text::pieces(mark, '\n');
    assert(all.last() == none);
    assert(all[all.len() - 2] == last);
    assert(rows(mark).last() == last);
    assert(last.last() == mark[n - 2]);
}

proof fn lemma_braille_is_fit()
    ensures
        fit(MARK_BRAILLE@),
{
    reveal_strlit("  ⠛⠛⠛⠛⠿⠿⢷⣶⣤⣄⣀\n          ⠉⠙⠻⢿⣶⣄⡀\n  ⣤⣤⣤⣀⣀⡀      ⠈⠙⠿⣶⣄\n  ⠉⠉⠉⠙⠛⠻⠿⣶⣦⣄⡀    ⠈⠛⢷⣦⡀\n          ⠈⠙⠻⣷⣄⡀    ⠙⣷⣄\n  ⣤⣤⣄⣀⡀      ⠈⠙⢿⣦⡀   ⠈⢻⣧⡀\n  ⠉⠉⠉⠛⠛⠿⣶⣤⡀     ⠙⢿⣆    ⠹⣷⡄\n         ⠙⠻⣷⣄    ⠈⠻⣷⡀   ⠹⣿⡄\n  ⣤⣤⣀⡀     ⠈⠻⣷⡀    ⠹⣷⡀   ⢹⣷\n  ⠉⠉⠙⠻⢷⣦⡀    ⠙⣿⡄    ⢻⣧    ⢿⣇\n       ⠙⢿⣆    ⠘⣿⡀   ⠈⣿⡆   ⢸⣿\n        ⠈⢿⡆    ⢻⣇    ⢹⣧    ⣿\n⢠⣾⣿⣦⣀⣀⣀⣀⣀⣸⣿⣀⣀⣀⣀⣸⣿⣀⣀⣀⣀⣸⣿⣀⣀⣀⣀⣿\n⠈⠻⠿⠋\n");
    lemma_fit(MARK_BRAILLE@, 13, 31, 323);
}

proof fn lemma_ascii_is_fit()
    ensures
        fit(MARK_ASCII@),
{
    reveal_strlit("  ====****=-:\n          :-+#*-.\n  ===::.      .-**-\n  :::-=+**+-.    .=*+.\n          .-+#-.    -#-\n  ==-:.      .-#+.   .**.\n  :::==**=.     -#=    =#:\n         -+#-    .+#.   =@:\n  ==:.     .+#.    =#.   +#\n  ::-+*+.    -@:    **    #+\n       -#=    :@.   .@-   =@\n        .#-    *+    +*    @\n:#@+:::::+@::::+@::::+@::::@\n.+*-\n");
    lemma_fit(MARK_ASCII@, 13, 31, 323);
}

/// Both cuts of the mark can carry a banner.
proof fn lemma_cut_is_fit(cut: Cut)
    ensures
        mark_in(cut) matches Some(mark) ==> fit(mark),
{
    lemma_braille_is_fit();
    lemma_ascii_is_fit();
}

proof fn lemma_composed_shows(mark: Seq<char>, version: Seq<char>)
    requires
        fit(mark),
        codeless(version),
    ensures
        bare(composed(mark, version, true), false) == composed(mark, version, false),
{
    lemma_rows(mark);
    let list = rows(mark);
    let n = list.len() as int;
    lemma_trimmed_stack(list, version, true);
    lemma_trimmed_stack(list, version, false);
    lemma_stack_shows(list, n - 1, version, true);
    lemma_line_shows(list, n - 1, version, true);
    let row = list[n - 1];
    assert(drawn(row, true, false) =~= row);
    lemma_shows_join(
        stacked(list, n - 1, version, true),
        stacked(list, n - 1, version, false),
        drawn(row, true, true),
        row,
    );
    let painted_all = stacked(list, n - 1, version, true) + drawn(row, true, true);
    let plain_all = stacked(list, n - 1, version, false) + row;
    let none = Seq::<char>::empty();
    assert(bare(painted_all + none, false) == plain_all + bare(none, false));
    assert(painted_all + none =~= painted_all);
    assert(plain_all + none =~= plain_all);
}

/// A text that is shown as it is holds no codes.
proof fn lemma_bare_is_codeless(s: Seq<char>, in_code: bool)
    ensures
        codeless(bare(s, in_code)),
    decreases s.len(),
{
    if s.len() > 0 {
        let rest = s.drop_first();
        lemma_bare_is_codeless(rest, true);
        lemma_bare_is_codeless(rest, false);
        if !in_code && s[0] != '\u{1b}' {
            let tail = bare(rest, false);
            let all = seq![s[0]] + tail;
            assert forall|i: int| 0 <= i < all.len() implies #[trigger] all[i] != '\u{1b}' by {
                if i > 0 {
                    assert(all[i] == tail[i - 1]);
                }
            }
        }
    }
}

/// Colour moves nothing: of two terminals that get the same cut, the one
/// without colour gets a banner without codes, and the one with colour gets,
/// but for its codes, the same banner, character for character.
pub proof fn law_color_moves_nothing(plain: Term, colorful: Term, version: Seq<char>)
    requires
        plain.chosen_cut() == colorful.chosen_cut(),
        plain.chosen_cut() != Cut::Blank,
        !plain.colored(),
        colorful.colored(),
        codeless(version),
    ensures
        banner_text(plain, version) is Some,
        banner_text(colorful, version) is Some,
        codeless(banner_text(plain, version)->0),
        bare(banner_text(colorful, version)->0, false) == banner_text(plain, version)->0,
{
    lemma_cut_is_fit(plain.chosen_cut());
    let mark = mark_in(plain.chosen_cut())->0;
    lemma_composed_shows(mark, version);
    lemma_bare_is_codeless(composed(mark, version, true), false);
}

/// A line of the banner holds no line end.
proof fn lemma_line_is_one(list: Seq<Seq<char>>, i: int, version: Seq<char>, color: bool)
    requires
        0 <= i < list.len(),
        crate::text::free_of(list[i], '\n'),
        crate::text::free_of(version, '\n'),
    ensures
        crate::text::free_of(banner_line(list, i, version, color), '\n'),
{
    lemma_color_digits(Tone::Reach.rgb());
    lemma_color_digits(Tone::Unknown.rgb());
    reveal_strlit("radii ");
    reveal_strlit("a runtime for header-less content delivery");
    let row = list[i];
    let n = list.len();
    let bottom = i == n - 1;
    let hub = row.take(HUB_CELLS as int);
    assert(crate::text::free_of(TAGLINE@, '\n'));
    assert(crate::text::free_of(color_code(Tone::Reach.rgb()), '\n'));
    assert(crate::text::free_of(color_code(Tone::Unknown.rgb()), '\n'));
    assert(crate::text::free_of(reset_code(), '\n'));
    if bottom && row.len() > HUB_CELLS {
        assert(crate::text::free_of(hub, '\n'));
        assert(crate::text::free_of(toned(hub, Tone::Reach, color), '\n'));
        assert(crate::text::free_of(row.skip(HUB_CELLS as int), '\n'));
    }
    assert(crate::text::free_of(drawn(row, bottom, color), '\n'));
    assert(crate::text::free_of(toned(TAGLINE@, Tone::Unknown, color), '\n'));
    assert(crate::text::free_of("radii "@ + version, '\n'));
    assert(crate::text::free_of(gap(widest(list), row.len()), '\n'));
    let words = beside(i, n, widest(list), row.len(), version, color);
    assert(crate::text::free_of(words, '\n'));
}

/// The lines of a stack, with what follows it.
proof fn lemma_stack_lines(
    list: Seq<Seq<char>>,
    k: int,
    version: Seq<char>,
    color: bool,
    tail: Seq<char>,
)
    requires
        0 <= k <= list.len(),
        forall|j: int| 0 <= j < list.len() ==> crate::text::free_of(#[trigger] list[j], '\n'),
        crate::text::free_of(version, '\n'),
    ensures
        crate::text::pieces(stacked(list, k, version, color) + tail, '\n') == Seq::new(
            k as nat,
            |i: int| banner_line(list, i, version, color),
        ) + crate::text::pieces(tail, '\n'),
    decreases k,
{
    let lines = Seq::new(k as nat, |i: int| banner_line(list, i, version, color));
    let end = seq!['\n'];
    if k == 0 {
        assert(stacked(list, k, version, color) + tail =~= tail);
        assert(lines + crate::text::pieces(tail, '\n') =~= crate::text::pieces(tail, '\n'));
    } else {
        let line = banner_line(list, k - 1, version, color);
        let before = Seq::new((k - 1) as nat, |i: int| banner_line(list, i, version, color));
        lemma_line_is_one(list, k - 1, version, color);
        crate::text::lemma_one_piece(line, '\n');
        crate::text::lemma_pieces_parted(line, tail, '\n');
        lemma_stack_lines(list, k - 1, version, color, line + end + tail);
        assert(stacked(list, k, version, color) + tail =~= stacked(list, k - 1, version, color) + (
        line + end + tail));
        assert(before + (seq![line] + crate::text::pieces(tail, '\n')) =~= lines
            + crate::text::pieces(tail, '\n'));
    }
}

/// Where a line stands in a stack.
proof fn lemma_line_stands(
    list: Seq<Seq<char>>,
    k: int,
    i: int,
    version: Seq<char>,
    color: bool,
    tail: Seq<char>,
)
    requires
        0 <= i < k <= list.len(),
    ensures
        crate::text::stands_at(
            stacked(list, k, version, color) + tail,
            banner_line(list, i, version, color),
            stacked(list, i, version, color).len() as int,
        ),
    decreases k,
{
    let above = stacked(list, k - 1, version, color);
    let line = banner_line(list, k - 1, version, color);
    let rest = line + seq!['\n'] + tail;
    assert(stacked(list, k, version, color) + tail =~= above + rest);
    if i < k - 1 {
        lemma_line_stands(list, k - 1, i, version, color, rest);
    } else {
        assert((above + rest).subrange(above.len() as int, (above.len() + line.len()) as int) =~= line);
    }
}

/// What stands in a part stands in the whole.
proof fn lemma_stands_within(s: Seq<char>, t: Seq<char>, i: int, p: Seq<char>, j: int)
    requires
        crate::text::stands_at(s, t, i),
        crate::text::stands_at(t, p, j),
    ensures
        crate::text::stands_at(s, p, i + j),
{
    assert(s.subrange(i + j, i + j + p.len()) =~= t.subrange(j, j + p.len()));
}

/// The banner has as many lines as its mark. Each is a row of the mark with
/// what stands beside it, and shows the same with and without colour; the name
/// with the version, and the tagline, stand in the plain banner.
pub proof fn law_banner_lines(term: Term, version: Seq<char>)
    requires
        term.chosen_cut() != Cut::Blank,
        codeless(version),
        crate::text::free_of(version, '\n'),
    ensures
        mark_in(term.chosen_cut()) is Some,
        banner_text(term, version) is Some,
        ({
            let list = rows(mark_in(term.chosen_cut())->0);
            let text = banner_text(term, version)->0;
            &&& crate::text::pieces(text, '\n') == Seq::new(
                list.len(),
                |i: int| banner_line(list, i, version, term.colored()),
            )
            &&& forall|i: int|
                0 <= i < list.len() ==> bare(
                    #[trigger] banner_line(list, i, version, true),
                    false,
                ) == banner_line(list, i, version, false)
            &&& !term.colored() ==> crate::text::occurs(text, "radii "@ + version)
            &&& !term.colored() ==> crate::text::occurs(text, TAGLINE@)
        }),
{
    let cut = term.chosen_cut();
    lemma_cut_is_fit(cut);
    let mark = mark_in(cut)->0;
    let list = rows(mark);
    let n = list.len() as int;
    let color = term.colored();
    let text = banner_text(term, version)->0;
    lemma_rows(mark);
    lemma_trimmed_stack(list, version, color);
    let bottom = banner_line(list, n - 1, version, color);
    lemma_name_row(list.len());
    assert(bottom =~= drawn(list.last(), true, color));
    lemma_stack_lines(list, n - 1, version, color, bottom);
    lemma_line_is_one(list, n - 1, version, color);
    crate::text::lemma_one_piece(bottom, '\n');
    assert(crate::text::pieces(text, '\n') =~= Seq::new(
        list.len(),
        |i: int| banner_line(list, i, version, color),
    ));
    assert forall|i: int| 0 <= i < list.len() implies bare(
        #[trigger] banner_line(list, i, version, true),
        false,
    ) == banner_line(list, i, version, false) by {
        lemma_line_shows(list, i, version, true);
        let none = Seq::<char>::empty();
        let line = banner_line(list, i, version, true);
        assert(bare(line + none, false) == banner_line(list, i, version, false) + bare(
            none,
            false,
        ));
        assert(line + none =~= line);
        assert(banner_line(list, i, version, false) + none =~= banner_line(
            list,
            i,
            version,
            false,
        ));
    }
    if !color {
        let m = name_row(list.len());
        let words = "radii "@ + version;
        let at = list[m].len() + gap(widest(list), list[m].len()).len();
        let line = banner_line(list, m, version, false);
        lemma_line_stands(list, n - 1, m, version, false, bottom);
        assert(line.subrange(at as int, (at + words.len()) as int) =~= words);
        lemma_stands_within(
            text,
            line,
            stacked(list, m, version, false).len() as int,
            words,
            at as int,
        );
        let at = list[m + 1].len() + gap(widest(list), list[m + 1].len()).len();
        let line = banner_line(list, m + 1, version, false);
        lemma_line_stands(list, n - 1, m + 1, version, false, bottom);
        assert(line.subrange(at as int, (at + TAGLINE@.len()) as int) =~= TAGLINE@);
        lemma_stands_within(
            text,
            line,
            stacked(list, m + 1, version, false).len() as int,
            TAGLINE@,
            at as int,
        );
    }
}

/// Name and tagline stand above the last row.
proof fn lemma_name_row(n: nat)
    requires
        n >= 4,
    ensures
        0 <= name_row(n),
        name_row(n) + 1 < n - 1,
{
    assert(name_row(n) + 1 < n - 1) by (nonlinear_arith)
        requires
            n >= 4,
            name_row(n) == (n - 1) / 2,
    ;
}

// ---------------------------------------------------------------------------
// Results
// ---------------------------------------------------------------------------

/// How a command renders its result.
#[derive(Debug, Clone, Copy, PartialEq, Eq)]
pub enum Format {
    /// One JSON document, where it was asked for.
    Json,
    /// Lines of keys and values, where the output is piped. Scripts read them.
    Plain,
    /// For a reader at a terminal.
    Pretty,
}

/// How a command renders its result.
pub fn format(term: &Term, json: bool) -> (r: Format)
    ensures
        r == if json {
            Format::Json
        } else if term.stdout_is_tty {
            Format::Pretty
        } else {
            Format::Plain
        },
{
    if json {
        Format::Json
    } else if term.stdout_is_tty {
        Format::Pretty
    } else {
        Format::Plain
    }
}

/// `text` in a tone, where the terminal has colour.
pub fn tinted(text: &str, tone: Tone, term: &Term) -> (r: String)
    ensures
        r@ == toned(text@, tone, term.colored()),
{
    tint(text, tone, term.color())
}

/// The sign of a state: reachable, severed, or unprobed.
pub open spec fn glyph(reachable: Option<bool>) -> Seq<char> {
    match reachable {
        Some(true) => "\u{25cf}"@,
        Some(false) => "\u{25d0}"@,
        None => "\u{25cb}"@,
    }
}

/// The tone of a state.
pub open spec fn tone_of(reachable: Option<bool>) -> Tone {
    match reachable {
        Some(true) => Tone::Reach,
        Some(false) => Tone::Severed,
        None => Tone::Unknown,
    }
}

/// The sign of a state, in the tone that the state always has. `None` is
/// unprobed, which is not severed.
pub fn reach_glyph(reachable: Option<bool>, term: &Term) -> (r: String)
    ensures
        r@ == toned(glyph(reachable), tone_of(reachable), term.colored()),
{
    match reachable {
        Some(true) => tinted("\u{25cf}", Tone::Reach, term),
        Some(false) => tinted("\u{25d0}", Tone::Severed, term),
        None => tinted("\u{25cb}", Tone::Unknown, term),
    }
}

/// Text that the eye should skip.
pub fn dim(text: &str, term: &Term) -> (r: String)
    ensures
        r@ == toned(text@, Tone::Unknown, term.colored()),
{
    tinted(text, Tone::Unknown, term)
}

/// A heading.
pub open spec fn headed(text: Seq<char>, on: bool) -> Seq<char> {
    if on {
        painted(text, true, Some(Tone::Unknown.rgb()))
    } else {
        text
    }
}

/// A heading.
pub fn heading(text: &str, term: &Term) -> (r: String)
    ensures
        r@ == headed(text@, term.colored()),
{
    if !term.color() {
        return text.to_owned();
    }
    let tone: Tone = Tone::Unknown;
    paint(text, true, Some(tone.color()))
}

/// What a user types.
pub open spec fn typed(text: Seq<char>, on: bool) -> Seq<char> {
    if on {
        painted(text, true, None)
    } else {
        text
    }
}

/// What a user types: a command or a flag.
pub fn literal(text: &str, term: &Term) -> (r: String)
    ensures
        r@ == typed(text@, term.colored()),
{
    if !term.color() {
        return text.to_owned();
    }
    paint(text, true, None)
}

/// What the signs mean.
pub open spec fn legend_text(on: bool) -> Seq<char> {
    toned(glyph(Some(true)), Tone::Reach, on) + " reachable   "@ + toned(
        glyph(Some(false)),
        Tone::Severed,
        on,
    ) + " severed   "@ + toned(glyph(None), Tone::Unknown, on) + " unprobed"@
}

/// What the signs mean.
pub fn legend(term: &Term) -> (r: String)
    ensures
        r@ == legend_text(term.colored()),
{
    let mut r: String = reach_glyph(Some(true), term);
    r.append(" reachable   ");
    r.append(reach_glyph(Some(false), term).as_str());
    r.append(" severed   ");
    r.append(reach_glyph(None, term).as_str());
    r.append(" unprobed");
    r
}

// ---------------------------------------------------------------------------
// What is drawn
// ---------------------------------------------------------------------------

/// Without colour a text is shown as it is. With it, it stands between the code
/// of its tone and the code that ends it; a heading is bold and dim, a literal
/// bold.
pub proof fn law_painting(text: Seq<char>, tone: Tone)
    ensures
        toned(text, tone, false) == text,
        headed(text, false) == text,
        typed(text, false) == text,
        ({
            let open = seq!['\u{1b}', '[', '3', '8', ';', '2', ';'];
            let close = seq!['\u{1b}', '[', '0', 'm'];
            let bold = seq!['\u{1b}', '[', '1', 'm'];
            let reach = open + crate::text::decimal_of(22) + seq![';'] + crate::text::decimal_of(
                199,
            ) + seq![';'] + crate::text::decimal_of(154) + seq!['m'];
            let severed = open + crate::text::decimal_of(242) + seq![';']
                + crate::text::decimal_of(103) + seq![';'] + crate::text::decimal_of(74) + seq![
                'm',
            ];
            let unknown = open + crate::text::decimal_of(124) + seq![';']
                + crate::text::decimal_of(139) + seq![';'] + crate::text::decimal_of(147) + seq![
                'm',
            ];
            &&& toned(text, Tone::Reach, true) == reach + text + close
            &&& toned(text, Tone::Severed, true) == severed + text + close
            &&& toned(text, Tone::Unknown, true) == unknown + text + close
            &&& headed(text, true) == bold + unknown + text + close
            &&& typed(text, true) == bold + text + close
        }),
{
    let open = seq!['\u{1b}', '[', '3', '8', ';', '2', ';'];
    let close = seq!['\u{1b}', '[', '0', 'm'];
    let bold = seq!['\u{1b}', '[', '1', 'm'];
    let reach = open + crate::text::decimal_of(22) + seq![';'] + crate::text::decimal_of(199)
        + seq![';'] + crate::text::decimal_of(154) + seq!['m'];
    let severed = open + crate::text::decimal_of(242) + seq![';'] + crate::text::decimal_of(103)
        + seq![';'] + crate::text::decimal_of(74) + seq!['m'];
    let unknown = open + crate::text::decimal_of(124) + seq![';'] + crate::text::decimal_of(139)
        + seq![';'] + crate::text::decimal_of(147) + seq!['m'];
    assert(color_code(Tone::Reach.rgb()) =~= reach);
    assert(color_code(Tone::Severed.rgb()) =~= severed);
    assert(color_code(Tone::Unknown.rgb()) =~= unknown);
    assert(toned(text, Tone::Reach, true) =~= reach + text + close);
    assert(toned(text, Tone::Severed, true) =~= severed + text + close);
    assert(toned(text, Tone::Unknown, true) =~= unknown + text + close);
    assert(headed(text, true) =~= bold + unknown + text + close);
    assert(typed(text, true) =~= bold + text + close);
}

/// What is reachable, severed and unprobed has a sign and a tone of its own.
pub proof fn law_signs()
    ensures
        glyph(Some(true)) == "\u{25cf}"@,
        glyph(Some(false)) == "\u{25d0}"@,
        glyph(None) == "\u{25cb}"@,
        tone_of(Some(true)) == Tone::Reach,
        tone_of(Some(false)) == Tone::Severed,
        tone_of(None) == Tone::Unknown,
        legend_text(false) == "\u{25cf}"@ + " reachable   "@ + "\u{25d0}"@ + " severed   "@
            + "\u{25cb}"@ + " unprobed"@,
        legend_text(true) == toned("\u{25cf}"@, Tone::Reach, true) + " reachable   "@ + toned(
            "\u{25d0}"@,
            Tone::Severed,
            true,
        ) + " severed   "@ + toned("\u{25cb}"@, Tone::Unknown, true) + " unprobed"@,
{
}

/// There is colour exactly at a terminal that is not dumb and where the
/// operator did not turn it off.
pub proof fn law_when_there_is_color(term: Term)
    ensures
        term.colored() <==> term.stdout_is_tty && !term.no_color && !(term.term matches Some(name)
            && (name@ == "dumb"@ || name@ == ""@)),
{
}

/// Which mark is drawn: the operator's word comes first; without a terminal, or
/// at a dumb one, none; else the fine one where the terminal is known to show
/// it.
pub proof fn law_which_mark_is_drawn(term: Term)
    ensures
        ({
            let word = match term.banner_override {
                Some(w) => w@,
                None => Seq::empty(),
            };
            let dumb = term.term matches Some(name) && (name@ == "dumb"@ || name@ == ""@);
            let fine = term.wt_session || term.term_program is Some || (
            term.locale matches Some(l) && (crate::text::occurs(
                crate::text::lowered(l@),
                "utf-8"@,
            ) || crate::text::occurs(crate::text::lowered(l@), "utf8"@)));
            &&& word == "braille"@ ==> term.chosen_cut() == Cut::Braille
            &&& word == "ascii"@ ==> term.chosen_cut() == Cut::Ascii
            &&& word == "none"@ ==> term.chosen_cut() == Cut::Blank
            &&& word != "braille"@ && word != "ascii"@ && word != "none"@ ==> {
                &&& !term.stdout_is_tty || dumb ==> term.chosen_cut() == Cut::Blank
                &&& term.stdout_is_tty && !dumb && fine ==> term.chosen_cut() == Cut::Braille
                &&& term.stdout_is_tty && !dumb && !fine ==> term.chosen_cut() == Cut::Ascii
            }
        }),
        mark_in(Cut::Braille) == Some(MARK_BRAILLE@),
        mark_in(Cut::Ascii) == Some(MARK_ASCII@),
        mark_in(Cut::Blank) is None,
{
    reveal_strlit("braille");
    reveal_strlit("ascii");
    reveal_strlit("none");
    assert("braille"@.len() == 7 && "ascii"@.len() == 5 && "none"@.len() == 4);
}

/// The rows of a mark are its lines; the line end of the last one opens no
/// other.
pub proof fn law_rows_are_lines(mark: Seq<char>)
    ensures
        ({
            let lines = crate::text::pieces(mark, '\n');
            &&& lines.last().len() > 0 ==> rows(mark) == lines
            &&& lines.last().len() == 0 ==> rows(mark).len() == lines.len() - 1 && forall|i: int|
                0 <= i < lines.len() - 1 ==> #[trigger] rows(mark)[i] == lines[i]
        }),
{
    crate::text::law_splitting(mark, '\n');
}

/// The name stands beside the middle row, four columns behind the widest, and
/// the tagline beside the next; every other row stands alone.
pub proof fn law_the_name_stands_beside_the_mark(
    list: Seq<Seq<char>>,
    i: int,
    version: Seq<char>,
)
    requires
        0 <= i < list.len(),
    ensures
        ({
            let line = banner_line(list, i, version, false);
            let row = list[i];
            let middle = (list.len() - 1) / 2;
            let space = crate::text::blanks((widest(list) - row.len() + 4) as nat);
            &&& i == middle ==> line == row + (space + ("radii "@ + version))
            &&& i == middle + 1 ==> line == row + (space
                + "a runtime for header-less content delivery"@)
            &&& i != middle && i != middle + 1 ==> line == row
        }),
{
    let row = list[i];
    let w = lemma_widest(list);
    assert(list[i].len() <= widest(list));
    if row.len() > HUB_CELLS {
        assert(row.take(HUB_CELLS as int) + row.skip(HUB_CELLS as int) =~= row);
    }
    assert(drawn(row, i == list.len() - 1, false) == row);
    let line = banner_line(list, i, version, false);
    assert(row + Seq::<char>::empty() =~= row);
}

/// In colour, the hub is painted: the first two cells of the bottom row. No
/// other cell of the mark is.
pub proof fn law_the_hub_is_painted(row: Seq<char>)
    ensures
        drawn(row, false, true) == row,
        row.len() > 2 ==> drawn(row, true, true) == toned(row.take(2), Tone::Reach, true)
            + row.skip(2),
        row.len() <= 2 ==> drawn(row, true, true) == row,
{
}

/// The width of the widest text is reached by one and exceeded by none.
pub proof fn lemma_widest(list: Seq<Seq<char>>) -> (w: int)
    requires
        list.len() > 0,
    ensures
        0 <= w < list.len(),
        list[w].len() == widest(list),
        forall|i: int| 0 <= i < list.len() ==> (#[trigger] list[i]).len() <= widest(list),
    decreases list.len(),
{
    let init = list.drop_last();
    if init.len() == 0 {
        0
    } else {
        let w = lemma_widest(init);
        assert(init[w] == list[w]);
        assert forall|i: int| 0 <= i < list.len() implies (#[trigger] list[i]).len() <= widest(
            list,
        ) by {
            if i < init.len() {
                assert(init[i] == list[i]);
            }
        }
        if list.last().len() > widest(init) {
            list.len() - 1
        } else {
            w
        }
    }
}

} // verus!
