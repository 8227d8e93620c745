//! Human and JSON rendering of a snapshot.
//!
//! [`render`] builds the coloured multi-line terminal report; [`render_json`]
//! builds the machine-readable payload. The live watch clears and redraws each
//! frame (see [`frame`]).

use crate::git;
use crate::model::{GitStatus, Space};
use crate::text;
use vstd::prelude::*;

verus! {

// ---- ANSI styling -----------------------------------------------------------

/// ANSI paint gate: colours only when stdout is a TTY and `NO_COLOR` is unset.
#[derive(Debug, Clone, Copy, PartialEq, Eq, Structural)]
pub struct Style {
    pub color: bool,
}

/// `s` in the SGR `code` when colour is enabled, else plain.
pub open spec fn painted(style: Style, code: Seq<char>, s: Seq<char>) -> Seq<char> {
    if style.color {
        "\x1b["@ + code + "m"@ + s + "\x1b[0m"@
    } else {
        s
    }
}

/// The SGR code of a severity: conflicts red, other changes yellow, clean green.
pub open spec fn severity_code(severity: git::Severity) -> Seq<char> {
    match severity {
        git::Severity::Conflict => "31"@,
        git::Severity::Dirty => "33"@,
        git::Severity::Clean => "32"@,
    }
}

impl Style {
    /// Colours when standard output is a terminal (`tty`) and `NO_COLOR`, whose
    /// value is `no_color`, is unset. Set to anything, the empty string included, it
    /// turns them off.
    pub fn detect(tty: bool, no_color: Option<&str>) -> (r: Style)
        ensures
            r.color == (tty && no_color is None),
    {
        Style { color: tty && no_color.is_none() }
    }

    /// Wrap `s` in the SGR `code` when colour is enabled, else return it plain.
    pub fn paint(&self, code: &str, s: &str) -> (r: String)
        ensures
            r@ == painted(*self, code@, s@),
    {
        if self.color {
            let mut r = String::from_str("\x1b[");
            r.append(code);
            r.append("m");
            r.append(s);
            r.append("\x1b[0m");
            r
        } else {
            String::from_str(s)
        }
    }

    pub fn dim(&self, s: &str) -> (r: String)
        ensures
            r@ == painted(*self, "2"@, s@),
    {
        self.paint("2", s)
    }

    pub fn bold(&self, s: &str) -> (r: String)
        ensures
            r@ == painted(*self, "1"@, s@),
    {
        self.paint("1", s)
    }

    pub fn green(&self, s: &str) -> (r: String)
        ensures
            r@ == painted(*self, "32"@, s@),
    {
        self.paint("32", s)
    }

    pub fn yellow(&self, s: &str) -> (r: String)
        ensures
            r@ == painted(*self, "33"@, s@),
    {
        self.paint("33", s)
    }

    pub fn red(&self, s: &str) -> (r: String)
        ensures
            r@ == painted(*self, "31"@, s@),
    {
        self.paint("31", s)
    }

    /// Colour a status cell by severity: conflicts red, other changes yellow,
    /// clean green.
    pub fn status(&self, g: &GitStatus, s: &str) -> (r: String)
        ensures
            r@ == painted(*self, severity_code(git::severity_of(*g)), s@),
    {
        match git::severity(g) {
            git::Severity::Conflict => self.red(s),
            git::Severity::Dirty => self.yellow(s),
            git::Severity::Clean => self.green(s),
        }
    }
}

// ---- cells ------------------------------------------------------------------

/// An arrow and a count, omitted when the count is zero.
pub open spec fn arrow(mark: Seq<char>, n: u32) -> Seq<char> {
    if n > 0 {
        mark + text::decimal(n as nat)
    } else {
        Seq::empty()
    }
}

/// The branch with its divergence from the upstream.
pub open spec fn branch_text(g: GitStatus) -> Seq<char> {
    if !g.is_repo || g.branch@.len() == 0 {
        "(no branch)"@
    } else {
        g.branch@ + arrow(" ↑"@, g.ahead) + arrow(" ↓"@, g.behind)
    }
}

/// The status cell: a dash for a non-repo, the surfaced status, or `clean` where
/// that is empty.
pub open spec fn cell_text(g: GitStatus) -> Seq<char> {
    if !g.is_repo {
        "—"@
    } else if git::status_text(g).len() == 0 {
        "clean"@
    } else {
        git::status_text(g)
    }
}

/// Branch display: `"<branch> ↑a ↓b"` (arrows only when non-zero), or
/// `"(no branch)"` for a non-repo / unknown branch.
pub fn branch_display(g: &GitStatus) -> (r: String)
    ensures
        r@ == branch_text(*g),
{
    if !g.is_repo || g.branch.as_str().is_empty() {
        return String::from_str("(no branch)");
    }
    let mut out = g.branch.clone();
    if g.ahead > 0 {
        out.append(" ↑");
        text::push_decimal(&mut out, g.ahead as u64);
    }
    assert(out@ =~= g.branch@ + arrow(" ↑"@, g.ahead));
    if g.behind > 0 {
        out.append(" ↓");
        text::push_decimal(&mut out, g.behind as u64);
    }
    assert(out@ =~= g.branch@ + arrow(" ↑"@, g.ahead) + arrow(" ↓"@, g.behind));
    out
}

/// Status cell text: [`git::status_token`] (compact token, or `"✓"` for a fully
/// clean repo), spelled out as `"clean"` for a clean-but-diverged tree — where
/// the updater pushes nothing — and `"—"` when the space isn't a git repo.
pub fn status_cell(g: &GitStatus) -> (r: String)
    ensures
        r@ == cell_text(*g),
{
    if !g.is_repo {
        return String::from_str("—");
    }
    let token = git::status_token(g);
    if token.as_str().is_empty() {
        String::from_str("clean")
    } else {
        token
    }
}

// ---- human render -----------------------------------------------------------

/// The plural ending of a count.
pub open spec fn plural(n: nat) -> Seq<char> {
    if n == 1 {
        Seq::empty()
    } else {
        "s"@
    }
}

/// The marker of a space: filled when focused.
pub open spec fn marker_text(sp: Space, style: Style) -> Seq<char> {
    if sp.focused {
        painted(style, "32"@, "●"@)
    } else {
        painted(style, "2"@, "○"@)
    }
}

/// The pane count of a space.
pub open spec fn notes_text(sp: Space) -> Seq<char> {
    "· "@ + text::decimal(sp.pane_count as nat) + " pane"@ + plural(sp.pane_count as nat)
}

/// The four lines of a space: marker and label, branch, status and panes, blank.
pub open spec fn space_lines(sp: Space, style: Style) -> Seq<Seq<char>> {
    seq![
        "  "@ + marker_text(sp, style) + " "@ + painted(style, "1"@, sp.label@),
        "      "@ + painted(style, "2"@, branch_text(sp.git)),
        "      "@ + painted(style, severity_code(git::severity_of(sp.git)), cell_text(sp.git))
            + "   "@ + painted(style, "2"@, notes_text(sp)),
        Seq::<char>::empty(),
    ]
}

/// The lines of all the spaces.
pub open spec fn all_lines(spaces: Seq<Space>, style: Style) -> Seq<Seq<char>>
    decreases spaces.len(),
{
    if spaces.len() == 0 {
        Seq::empty()
    } else {
        all_lines(spaces.drop_last(), style) + space_lines(spaces.last(), style)
    }
}

/// How many spaces have something to surface.
pub open spec fn dirty_count(spaces: Seq<Space>) -> nat
    decreases spaces.len(),
{
    if spaces.len() == 0 {
        0
    } else {
        dirty_count(spaces.drop_last()) + if spaces.last().git.clean() {
            0nat
        } else {
            1
        }
    }
}

/// The heading and the blank line under it.
pub open spec fn heading(style: Style) -> Seq<Seq<char>> {
    seq![painted(style, "1"@, "  Git status per space"@), Seq::<char>::empty()]
}

/// The summary line.
pub open spec fn summary_text(spaces: Seq<Space>) -> Seq<char> {
    "  ── "@ + text::decimal(spaces.len()) + " space"@ + plural(spaces.len()) + " · "@
        + text::decimal(dirty_count(spaces)) + " dirty"@
}

/// The lines of the report.
pub open spec fn report_lines(spaces: Seq<Space>, style: Style) -> Seq<Seq<char>> {
    if spaces.len() == 0 {
        heading(style).push(painted(style, "2"@, "  No spaces open."@))
    } else {
        (heading(style) + all_lines(spaces, style)).push(
            painted(style, "2"@, summary_text(spaces)),
        )
    }
}

/// Appends the lines of one space.
fn push_space_lines(lines: &mut Vec<String>, sp: &Space, style: &Style)
    ensures
        text::views(final(lines)@) == text::views(old(lines)@) + space_lines(*sp, *style),
{
    let ghost prev = text::views(lines@);
    let marker = if sp.focused {
        style.green("●")
    } else {
        style.dim("○")
    };
    let mut notes = String::from_str("· ");
    text::push_decimal(&mut notes, sp.pane_count as u64);
    notes.append(" pane");
    if sp.pane_count != 1 {
        notes.append("s");
    }
    assert(notes@ =~= notes_text(*sp));
    let mut first = String::from_str("  ");
    first.append(marker.as_str());
    first.append(" ");
    first.append(style.bold(sp.label.as_str()).as_str());
    let mut second = String::from_str("      ");
    second.append(style.dim(branch_display(&sp.git).as_str()).as_str());
    let mut third = String::from_str("      ");
    third.append(style.status(&sp.git, status_cell(&sp.git).as_str()).as_str());
    third.append("   ");
    third.append(style.dim(notes.as_str()).as_str());
    lines.push(first);
    lines.push(second);
    lines.push(third);
    lines.push(String::new());
    assert(text::views(lines@) =~= prev + space_lines(*sp, *style));
}

/// Colour-parametrised body of [`render`].
pub fn render_styled(spaces: &[Space], style: &Style) -> (r: String)
    ensures
        r@ == text::join(report_lines(spaces@, *style), "\n"@),
{
    let mut lines: Vec<String> = Vec::new();
    lines.push(style.bold("  Git status per space"));
    lines.push(String::new());
    assert(text::views(lines@) =~= heading(*style));
    if spaces.len() == 0 {
        lines.push(style.dim("  No spaces open."));
        assert(text::views(lines@) =~= report_lines(spaces@, *style));
        return text::join_with(&lines, "\n");
    }
    let mut dirty: usize = 0;
    let mut i: usize = 0;
    assert(spaces@.take(0) =~= Seq::<Space>::empty());
    assert(text::views(lines@) =~= heading(*style) + all_lines(spaces@.take(0), *style));
    while i < spaces.len()
        invariant
            i <= spaces@.len(),
            dirty <= i,
            dirty == dirty_count(spaces@.take(i as int)),
            text::views(lines@) == heading(*style) + all_lines(spaces@.take(i as int), *style),
        decreases spaces@.len() - i,
    {
        let sp = &spaces[i];
        assert(spaces@.take(i + 1).drop_last() =~= spaces@.take(i as int));
        if !sp.git.is_clean() {
            dirty += 1;
        }
        push_space_lines(&mut lines, sp, style);
        assert(text::views(lines@) =~= heading(*style) + all_lines(spaces@.take(i + 1), *style));
        i += 1;
    }
    assert(spaces@.take(i as int) =~= spaces@);
    let mut summary = String::from_str("  ── ");
    text::push_decimal(&mut summary, spaces.len() as u64);
    summary.append(" space");
    if spaces.len() != 1 {
        summary.append("s");
    }
    summary.append(" · ");
    text::push_decimal(&mut summary, dirty as u64);
    summary.append(" dirty");
    assert(summary@ =~= summary_text(spaces@));
    let ghost prev = text::views(lines@);
    lines.push(style.dim(summary.as_str()));
    assert(text::views(lines@) =~= prev.push(painted(*style, "2"@, summary_text(spaces@))));
    text::join_with(&lines, "\n")
}

/// Format the per-space git-status report as a coloured, multi-line string;
/// colours as [`Style::detect`] says.
pub fn render(spaces: &[Space], tty: bool, no_color: Option<&str>) -> (r: String)
    ensures
        r@ == text::join(
            report_lines(spaces@, Style { color: tty && no_color is None }),
            "\n"@,
        ),
{
    let style = Style::detect(tty, no_color);
    render_styled(spaces, &style)
}

// ---- live watch -------------------------------------------------------------

/// `n` in decimal, padded with zeros to two characters.
pub open spec fn two_wide(n: int) -> Seq<char> {
    if n < 0 {
        "-"@ + text::decimal((-n) as nat)
    } else if n < 10 {
        "0"@ + text::decimal(n as nat)
    } else {
        text::decimal(n as nat)
    }
}

fn push_two_wide(out: &mut String, n: i32)
    ensures
        final(out)@ == old(out)@ + two_wide(n as int),
{
    let wide: i64 = n as i64;
    if wide < 0 {
        out.append("-");
        text::push_decimal(out, (-wide) as u64);
    } else {
        if wide < 10 {
            out.append("0");
        }
        text::push_decimal(out, wide as u64);
    }
    assert(out@ =~= old(out)@ + two_wide(n as int));
}

/// Local wall-clock `HH:MM:SS` for the live-watch footer stamp.
pub fn local_time_string(hour: i32, min: i32, sec: i32) -> (r: String)
    ensures
        r@ == two_wide(hour as int) + ":"@ + two_wide(min as int) + ":"@ + two_wide(sec as int),
{
    let mut r = String::new();
    push_two_wide(&mut r, hour);
    r.append(":");
    push_two_wide(&mut r, min);
    r.append(":");
    push_two_wide(&mut r, sec);
    assert(r@ =~= two_wide(hour as int) + ":"@ + two_wide(min as int) + ":"@ + two_wide(
        sec as int,
    ));
    r
}

/// The footer of the live watch.
pub open spec fn footer_text(seconds: Seq<char>, clock: Seq<char>, style: Style) -> Seq<char> {
    painted(
        style,
        "2"@,
        "  refreshing every "@ + seconds + "s · "@ + clock + " · ctrl-c to quit"@,
    )
}

/// What the live watch shows in place of a report.
pub open spec fn unavailable_text(error: Seq<char>, style: Style) -> Seq<char> {
    painted(style, "31"@, "  herdr unavailable:"@) + " "@ + error
}

/// Clear the screen, home, body and footer.
pub open spec fn frame_text(body: Seq<char>, footer: Seq<char>) -> Seq<char> {
    "\x1b[2J\x1b[H"@ + body + "\n\n"@ + footer + "\n"@
}

/// The footer of the live watch: `seconds` is the refresh interval as a number of
/// seconds, `clock` the time of day.
pub fn footer(seconds: &str, clock: &str, style: &Style) -> (r: String)
    ensures
        r@ == footer_text(seconds@, clock@, *style),
{
    let mut s = String::from_str("  refreshing every ");
    s.append(seconds);
    s.append("s · ");
    s.append(clock);
    s.append(" · ctrl-c to quit");
    style.dim(s.as_str())
}

/// What the live watch shows in place of a report when the host fails.
pub fn unavailable(error: &str, style: &Style) -> (r: String)
    ensures
        r@ == unavailable_text(error@, *style),
{
    let mut r = style.red("  herdr unavailable:");
    r.append(" ");
    r.append(error);
    r
}

/// One frame of the live watch: clear the screen, home, body and footer.
pub fn frame(body: &str, footer: &str) -> (r: String)
    ensures
        r@ == frame_text(body@, footer@),
{
    let mut r = String::from_str("\x1b[2J\x1b[H");
    r.append(body);
    r.append("\n\n");
    r.append(footer);
    r.append("\n");
    r
}

/// What one redraw of the live watch writes.
pub open spec fn screen_text(
    snapshot: Result<Seq<Space>, Seq<char>>,
    seconds: Seq<char>,
    clock: Seq<char>,
    style: Style,
) -> Seq<char> {
    frame_text(
        match snapshot {
            Ok(spaces) => text::join(report_lines(spaces, style), "\n"@),
            Err(error) => unavailable_text(error, style),
        },
        footer_text(seconds, clock, style),
    )
}

/// What one redraw of the live watch writes: the report of the snapshot, or the
/// error where it failed, over the footer. `seconds` is the refresh interval as a
/// number of seconds, `clock` the time of day.
pub fn screen(
    snapshot: &Result<Vec<Space>, String>,
    seconds: &str,
    clock: &str,
    style: &Style,
) -> (r: String)
    ensures
        r@ == screen_text(
            match *snapshot {
                Ok(spaces) => Ok(spaces@),
                Err(error) => Err(error@),
            },
            seconds@,
            clock@,
            *style,
        ),
{
    let body = match snapshot {
        Ok(spaces) => render_styled(spaces.as_slice(), style),
        Err(error) => unavailable(error.as_str(), style),
    };
    frame(body.as_str(), footer(seconds, clock, style).as_str())
}

// ---- JSON payload -----------------------------------------------------------

/// A value of the `--json` payload.
#[derive(Debug, Clone, PartialEq, Eq)]
pub enum JsonValue {
    Text(String),
    Number(u64),
    Flag(bool),
}

/// What a value of the payload is.
pub ghost enum JsonView {
    Text(Seq<char>),
    Number(nat),
    Flag(bool),
}

impl View for JsonValue {
    type V = JsonView;

    open spec fn view(&self) -> JsonView {
        match *self {
            JsonValue::Text(s) => JsonView::Text(s@),
            JsonValue::Number(n) => JsonView::Number(n as nat),
            JsonValue::Flag(b) => JsonView::Flag(b),
        }
    }
}

/// The fields of an object, in order.
pub open spec fn field_views(row: Seq<(String, JsonValue)>) -> Seq<(Seq<char>, JsonView)> {
    Seq::new(row.len(), |i: int| (row[i].0@, row[i].1@))
}

/// The objects of the payload, in order.
pub open spec fn row_views(rows: Seq<Vec<(String, JsonValue)>>) -> Seq<
    Seq<(Seq<char>, JsonView)>,
> {
    Seq::new(rows.len(), |i: int| field_views(rows[i]@))
}

/// The entry of the `--json` payload for one space; `fully_clean` is a clean
/// working tree AND nothing to push/pull — the `✓` state.
pub open spec fn json_fields(sp: Space) -> Seq<(Seq<char>, JsonView)> {
    seq![
        ("workspace_id"@, JsonView::Text(sp.id@)),
        ("label"@, JsonView::Text(sp.label@)),
        ("branch"@, JsonView::Text(sp.git.branch@)),
        ("focused"@, JsonView::Flag(sp.focused)),
        ("panes"@, JsonView::Number(sp.pane_count as nat)),
        ("is_repo"@, JsonView::Flag(sp.git.is_repo)),
        ("ahead"@, JsonView::Number(sp.git.ahead as nat)),
        ("behind"@, JsonView::Number(sp.git.behind as nat)),
        ("staged"@, JsonView::Number(sp.git.staged as nat)),
        ("modified"@, JsonView::Number(sp.git.modified as nat)),
        ("untracked"@, JsonView::Number(sp.git.untracked as nat)),
        ("conflicts"@, JsonView::Number(sp.git.conflicts as nat)),
        ("clean"@, JsonView::Flag(sp.git.clean())),
        ("fully_clean"@, JsonView::Flag(sp.git.fully_clean())),
    ]
}

/// The `--json` payload: one entry per space.
pub open spec fn json_payload(spaces: Seq<Space>) -> Seq<Seq<(Seq<char>, JsonView)>> {
    Seq::new(spaces.len(), |i: int| json_fields(spaces[i]))
}

/// What `serde_json::to_string_pretty` makes of an array of objects with these
/// fields.
pub uninterp spec fn pretty_json(rows: Seq<Seq<(Seq<char>, JsonView)>>) -> Seq<char>;

/// `serde_json::to_string_pretty` on an array of objects, whose fields keep their
/// order. The text depends on the fields alone. It fails only for a map with keys
/// that are not strings, or where a value's own serialization fails, neither of
/// which occurs here. An empty array is written as `[]`; the text of any other is
/// not stated.
#[verifier::external_body]
fn to_string_pretty(rows: &Vec<Vec<(String, JsonValue)>>) -> (r: Option<String>)
    ensures
        r is Some,
        r->0@ == pretty_json(row_views(rows@)),
        rows@.len() == 0 ==> r->0@ == "[]"@,
{
    let value = |v: &JsonValue| match v {
        JsonValue::Text(s) => serde_json::Value::from(s.as_str()),
        JsonValue::Number(n) => serde_json::Value::from(*n),
        JsonValue::Flag(b) => serde_json::Value::from(*b),
    };
    let object = |row: &Vec<(String, JsonValue)>| -> serde_json::Map<String, serde_json::Value> {
        row.iter().map(|field| (field.0.clone(), value(&field.1))).collect()
    };
    let payload: Vec<serde_json::Map<String, serde_json::Value>> = rows.iter().map(object).collect();
    serde_json::to_string_pretty(&payload).ok()
}

fn text_field(key: &str, value: &str) -> (r: (String, JsonValue))
    ensures
        (r.0@, r.1@) == (key@, JsonView::Text(value@)),
{
    (String::from_str(key), JsonValue::Text(String::from_str(value)))
}

fn number_field(key: &str, value: u64) -> (r: (String, JsonValue))
    ensures
        (r.0@, r.1@) == (key@, JsonView::Number(value as nat)),
{
    (String::from_str(key), JsonValue::Number(value))
}

fn flag_field(key: &str, value: bool) -> (r: (String, JsonValue))
    ensures
        (r.0@, r.1@) == (key@, JsonView::Flag(value)),
{
    (String::from_str(key), JsonValue::Flag(value))
}

/// The entry of the `--json` payload for one space.
pub fn json_space(sp: &Space) -> (row: Vec<(String, JsonValue)>)
    ensures
        field_views(row@) == json_fields(*sp),
        row@.len() == 14,
        row@[0].0@ == "workspace_id"@ && row@[0].1@ == JsonView::Text(sp.id@),
        row@[1].0@ == "label"@ && row@[1].1@ == JsonView::Text(sp.label@),
        row@[2].0@ == "branch"@ && row@[2].1@ == JsonView::Text(sp.git.branch@),
        row@[3].0@ == "focused"@ && row@[3].1@ == JsonView::Flag(sp.focused),
        row@[4].0@ == "panes"@ && row@[4].1@ == JsonView::Number(sp.pane_count as nat),
        row@[5].0@ == "is_repo"@ && row@[5].1@ == JsonView::Flag(sp.git.is_repo),
        row@[6].0@ == "ahead"@ && row@[6].1@ == JsonView::Number(sp.git.ahead as nat),
        row@[7].0@ == "behind"@ && row@[7].1@ == JsonView::Number(sp.git.behind as nat),
        row@[8].0@ == "staged"@ && row@[8].1@ == JsonView::Number(sp.git.staged as nat),
        row@[9].0@ == "modified"@ && row@[9].1@ == JsonView::Number(sp.git.modified as nat),
        row@[10].0@ == "untracked"@ && row@[10].1@ == JsonView::Number(sp.git.untracked as nat),
        row@[11].0@ == "conflicts"@ && row@[11].1@ == JsonView::Number(sp.git.conflicts as nat),
        row@[12].0@ == "clean"@ && row@[12].1@ == JsonView::Flag(
            !sp.git.is_repo || (sp.git.staged == 0 && sp.git.modified == 0 && sp.git.untracked == 0
                && sp.git.conflicts == 0),
        ),
        row@[13].0@ == "fully_clean"@ && row@[13].1@ == JsonView::Flag(
            sp.git.is_repo && sp.git.staged == 0 && sp.git.modified == 0 && sp.git.untracked == 0
                && sp.git.conflicts == 0
                && sp.git.ahead == 0 && sp.git.behind == 0,
        ),
{
    let g = &sp.git;
    let mut row: Vec<(String, JsonValue)> = Vec::new();
    row.push(text_field("workspace_id", sp.id.as_str()));
    row.push(text_field("label", sp.label.as_str()));
    row.push(text_field("branch", g.branch.as_str()));
    row.push(flag_field("focused", sp.focused));
    row.push(number_field("panes", sp.pane_count as u64));
    row.push(flag_field("is_repo", g.is_repo));
    row.push(number_field("ahead", g.ahead as u64));
    row.push(number_field("behind", g.behind as u64));
    row.push(number_field("staged", g.staged as u64));
    row.push(number_field("modified", g.modified as u64));
    row.push(number_field("untracked", g.untracked as u64));
    row.push(number_field("conflicts", g.conflicts as u64));
    row.push(flag_field("clean", g.is_clean()));
    row.push(flag_field("fully_clean", g.is_fully_clean()));
    assert(field_views(row@) =~= json_fields(*sp));
    row
}

/// The `--json` payload: one entry per space.
pub fn json_spaces(spaces: &[Space]) -> (rows: Vec<Vec<(String, JsonValue)>>)
    ensures
        row_views(rows@) == json_payload(spaces@),
        rows@.len() == spaces@.len(),
{
    let mut rows: Vec<Vec<(String, JsonValue)>> = Vec::new();
    let mut i: usize = 0;
    while i < spaces.len()
        invariant
            i <= spaces@.len(),
            rows@.len() == i,
            forall|k: int| 0 <= k < i ==> field_views(#[trigger] rows@[k]@) == json_fields(spaces@[k]),
        decreases spaces@.len() - i,
    {
        rows.push(json_space(&spaces[i]));
        i += 1;
    }
    assert(row_views(rows@) =~= json_payload(spaces@));
    rows
}

/// Serialize spaces to the `--json` payload (array of per-space objects), 2-space
/// indented. No trailing newline.
pub fn render_json(spaces: &[Space]) -> (r: String)
    ensures
        r@ == pretty_json(json_payload(spaces@)),
        spaces@.len() == 0 ==> r@ == "[]"@,
{
    let rows = json_spaces(spaces);
    proof {
        assert(row_views(rows@).len() == spaces@.len());
    }
    match to_string_pretty(&rows) {
        Some(text) => text,
        None => String::from_str("[]"),
    }
}

// ---- laws -------------------------------------------------------------------

/// Every space takes four lines, between the heading's two and the summary.
pub proof fn law_four_lines_per_space(spaces: Seq<Space>, style: Style)
    ensures
        all_lines(spaces, style).len() == 4 * spaces.len(),
        spaces.len() > 0 ==> report_lines(spaces, style).len() == 4 * spaces.len() + 3,
        spaces.len() == 0 ==> report_lines(spaces, style).len() == 3,
        dirty_count(spaces) <= spaces.len(),
    decreases spaces.len(),
{
    if spaces.len() > 0 {
        law_four_lines_per_space(spaces.drop_last(), style);
    }
}

/// The colours of the report match the tokens that are pushed: two statuses have
/// the same colour exactly when they ride the same token.
pub proof fn law_colours_match_tokens(g: GitStatus, h: GitStatus)
    ensures
        severity_code(git::severity_of(g)) == severity_code(git::severity_of(h))
            <==> crate::daemon::token_of(git::severity_of(g)) == crate::daemon::token_of(
            git::severity_of(h),
        ),
{
    reveal_strlit("31");
    reveal_strlit("32");
    reveal_strlit("33");
    reveal_strlit("git_clean");
    reveal_strlit("git_dirty");
    reveal_strlit("git_conflict");
    assert("31"@[1] == '1' && "32"@[1] == '2' && "33"@[1] == '3');
    assert(crate::daemon::TOKEN_CONFLICT@.len() == 12);
    assert(crate::daemon::TOKEN_CLEAN@.len() == 9 && crate::daemon::TOKEN_DIRTY@.len() == 9);
    assert(crate::daemon::TOKEN_CLEAN@[4] == 'c' && crate::daemon::TOKEN_DIRTY@[4] == 'd');
}

/// Text without escape characters.
pub open spec fn plain(s: Seq<char>) -> bool {
    forall|i: int| 0 <= i < s.len() ==> #[trigger] s[i] != '\x1b'
}

proof fn lemma_plain_decimal(n: nat)
    ensures
        plain(text::decimal(n)),
{
    text::lemma_decimal_value(n);
    let d = text::decimal(n);
    assert forall|i: int| 0 <= i < d.len() implies #[trigger] d[i] != '\x1b' by {
        assert(text::digit(d[i]));
    }
}

proof fn lemma_plain_join(parts: Seq<Seq<char>>, sep: Seq<char>)
    requires
        plain(sep),
        forall|i: int| 0 <= i < parts.len() ==> plain(#[trigger] parts[i]),
    ensures
        plain(text::join(parts, sep)),
    decreases parts.len(),
{
    if parts.len() > 1 {
        let init = parts.drop_last();
        assert forall|i: int| 0 <= i < init.len() implies plain(#[trigger] init[i]) by {
            assert(init[i] == parts[i]);
        }
        lemma_plain_join(init, sep);
        assert(plain(parts[parts.len() - 1]));
    } else if parts.len() == 1 {
        assert(plain(parts[0]));
    }
}

proof fn lemma_plain_status(g: GitStatus)
    ensures
        plain(git::status_text(g)),
{
    reveal_strlit("✓");
    reveal_strlit(" ");
    if g.fully_clean() {
        assert(git::CLEAN_MARK@.len() == 1 && git::CLEAN_MARK@[0] == '✓');
    } else if !g.clean() {
        lemma_plain_decimal(g.staged as nat);
        lemma_plain_decimal(g.modified as nat);
        lemma_plain_decimal(g.untracked as nat);
        lemma_plain_decimal(g.conflicts as nat);
        let parts = git::token_parts(g);
        assert forall|i: int| 0 <= i < parts.len() implies plain(#[trigger] parts[i]) by {
            let p = parts[i];
            assert(p == seq!['+'] + text::decimal(g.staged as nat) || p == seq!['~']
                + text::decimal(g.modified as nat) || p == seq!['?'] + text::decimal(
                g.untracked as nat,
            ) || p == seq!['!'] + text::decimal(g.conflicts as nat));
        }
        lemma_plain_join(parts, " "@);
    }
}

/// What the lines of a space are made of is plain.
proof fn lemma_plain_parts(sp: Space)
    requires
        plain(sp.git.branch@),
    ensures
        plain("●"@),
        plain("○"@),
        plain(notes_text(sp)),
        plain(branch_text(sp.git)),
        plain(cell_text(sp.git)),
{
    reveal_strlit("●");
    reveal_strlit("○");
    reveal_strlit("· ");
    reveal_strlit(" pane");
    reveal_strlit("s");
    reveal_strlit("—");
    reveal_strlit("clean");
    reveal_strlit("(no branch)");
    reveal_strlit(" ↑");
    reveal_strlit(" ↓");
    lemma_plain_decimal(sp.pane_count as nat);
    lemma_plain_decimal(sp.git.ahead as nat);
    lemma_plain_decimal(sp.git.behind as nat);
    lemma_plain_status(sp.git);
}

proof fn lemma_plain_space(sp: Space, style: Style)
    requires
        !style.color,
        plain(sp.label@),
        plain(sp.git.branch@),
    ensures
        forall|i: int| 0 <= i < 4 ==> plain(#[trigger] space_lines(sp, style)[i]),
{
    reveal_strlit("  ");
    reveal_strlit(" ");
    reveal_strlit("   ");
    reveal_strlit("      ");
    lemma_plain_parts(sp);
    let lines = space_lines(sp, style);
    assert(plain(lines[0]) && plain(lines[1]) && plain(lines[2]) && plain(lines[3]));
}

proof fn lemma_plain_lines(spaces: Seq<Space>, style: Style)
    requires
        !style.color,
        forall|i: int|
            0 <= i < spaces.len() ==> plain((#[trigger] spaces[i]).label@) && plain(
                spaces[i].git.branch@,
            ),
    ensures
        forall|i: int|
            0 <= i < all_lines(spaces, style).len() ==> plain(
                #[trigger] all_lines(spaces, style)[i],
            ),
    decreases spaces.len(),
{
    if spaces.len() > 0 {
        let init = spaces.drop_last();
        assert forall|i: int| 0 <= i < init.len() implies plain((#[trigger] init[i]).label@)
            && plain(init[i].git.branch@) by {
            assert(init[i] == spaces[i]);
        }
        lemma_plain_lines(init, style);
        assert(spaces.last() == spaces[spaces.len() - 1]);
        lemma_plain_space(spaces.last(), style);
        let (a, b) = (all_lines(init, style), space_lines(spaces.last(), style));
        assert forall|i: int| 0 <= i < (a + b).len() implies plain(#[trigger] (a + b)[i]) by {
            if i < a.len() {
                assert(plain(a[i]));
            } else {
                assert(plain(b[i - a.len()]));
            }
        }
    }
}

/// The heading and the summary are plain.
proof fn lemma_plain_frame(spaces: Seq<Space>)
    ensures
        plain("\n"@),
        plain("  Git status per space"@),
        plain("  No spaces open."@),
        plain(summary_text(spaces)),
{
    reveal_strlit("\n");
    reveal_strlit("  Git status per space");
    reveal_strlit("  No spaces open.");
    reveal_strlit("  ── ");
    reveal_strlit(" space");
    reveal_strlit("s");
    reveal_strlit(" · ");
    reveal_strlit(" dirty");
    lemma_plain_decimal(spaces.len());
    lemma_plain_decimal(dirty_count(spaces));
}

/// Without colour the report holds no escape sequence (unless a label or a branch
/// name brings one).
pub proof fn law_no_colour_no_escape(spaces: Seq<Space>, style: Style)
    requires
        !style.color,
        forall|i: int|
            0 <= i < spaces.len() ==> plain((#[trigger] spaces[i]).label@) && plain(
                spaces[i].git.branch@,
            ),
    ensures
        plain(text::join(report_lines(spaces, style), "\n"@)),
{
    lemma_plain_frame(spaces);
    lemma_plain_lines(spaces, style);
    let lines = report_lines(spaces, style);
    let body = all_lines(spaces, style);
    assert forall|i: int| 0 <= i < lines.len() implies plain(#[trigger] lines[i]) by {
        if spaces.len() > 0 && 2 <= i < lines.len() - 1 {
            assert(lines[i] == body[i - 2]);
        }
    }
    lemma_plain_join(lines, "\n"@);
}

// ---- deleting the colours ---------------------------------------------------

/// How many digits `s` starts with.
pub open spec fn digits_len(s: Seq<char>) -> nat
    decreases s.len(),
{
    if s.len() > 0 && text::digit(s[0]) {
        1 + digits_len(s.skip(1))
    } else {
        0
    }
}

/// The length of the colour sequence that `s` starts with: an escape, `[`, one or
/// more digits and `m`. Zero where it starts with none.
pub open spec fn colour_len(s: Seq<char>) -> nat {
    let n = digits_len(s.skip(2));
    if s.len() >= 2 && s[0] == '\x1b' && s[1] == '[' && n > 0 && n + 2 < s.len() && s[n as int + 2]
        == 'm' {
        n + 3
    } else {
        0
    }
}

/// `s` with every colour sequence deleted.
pub open spec fn uncoloured(s: Seq<char>) -> Seq<char>
    decreases s.len(),
{
    if s.len() == 0 {
        s
    } else if colour_len(s) > 0 {
        uncoloured(s.skip(colour_len(s) as int))
    } else {
        seq![s[0]] + uncoloured(s.skip(1))
    }
}

/// Deleting the colour sequences of `c` gives `p`, whatever follows.
spec fn fades(c: Seq<char>, p: Seq<char>) -> bool {
    forall|rest: Seq<char>| #[trigger] uncoloured(c + rest) == p + uncoloured(rest)
}

/// Plain text stays.
proof fn lemma_fades_plain(s: Seq<char>)
    requires
        plain(s),
    ensures
        fades(s, s),
    decreases s.len(),
{
    if s.len() == 0 {
        assert forall|rest: Seq<char>| #[trigger] uncoloured(s + rest) == s + uncoloured(rest) by {
            assert(s + rest =~= rest);
            assert(s + uncoloured(rest) =~= uncoloured(rest));
        }
    } else {
        let tail = s.skip(1);
        assert forall|i: int| 0 <= i < tail.len() implies #[trigger] tail[i] != '\x1b' by {
            assert(tail[i] == s[i + 1]);
        }
        lemma_fades_plain(tail);
        assert forall|rest: Seq<char>| #[trigger] uncoloured(s + rest) == s + uncoloured(rest) by {
            let all = s + rest;
            assert(all[0] == s[0]);
            assert(colour_len(all) == 0);
            assert(all.skip(1) =~= tail + rest);
            assert(uncoloured(tail + rest) == tail + uncoloured(rest));
            assert(seq![s[0]] + (tail + uncoloured(rest)) =~= s + uncoloured(rest));
        }
    }
}

proof fn lemma_fades_concat(c: Seq<char>, p: Seq<char>, d: Seq<char>, q: Seq<char>)
    requires
        fades(c, p),
        fades(d, q),
    ensures
        fades(c + d, p + q),
{
    assert forall|rest: Seq<char>| #[trigger] uncoloured((c + d) + rest) == (p + q) + uncoloured(
        rest,
    ) by {
        assert((c + d) + rest =~= c + (d + rest));
        assert(uncoloured(c + (d + rest)) == p + uncoloured(d + rest));
        assert(p + (q + uncoloured(rest)) =~= (p + q) + uncoloured(rest));
    }
}

proof fn lemma_digits_len(code: Seq<char>, rest: Seq<char>)
    requires
        forall|i: int| 0 <= i < code.len() ==> text::digit(#[trigger] code[i]),
        rest.len() > 0,
        !text::digit(rest[0]),
    ensures
        digits_len(code + rest) == code.len(),
    decreases code.len(),
{
    if code.len() == 0 {
        assert(code + rest =~= rest);
    } else {
        let tail = code.skip(1);
        assert forall|i: int| 0 <= i < tail.len() implies text::digit(#[trigger] tail[i]) by {
            assert(tail[i] == code[i + 1]);
        }
        lemma_digits_len(tail, rest);
        assert((code + rest)[0] == code[0]);
        assert((code + rest).skip(1) =~= tail + rest);
    }
}

/// A colour sequence goes.
proof fn lemma_fades_code(code: Seq<char>)
    requires
        text::all_digits(code),
    ensures
        fades("\x1b["@ + code + "m"@, Seq::empty()),
{
    reveal_strlit("\x1b[");
    reveal_strlit("m");
    let c = "\x1b["@ + code + "m"@;
    assert forall|rest: Seq<char>| #[trigger]
        uncoloured(c + rest) == Seq::<char>::empty() + uncoloured(rest) by {
        let all = c + rest;
        let after = "m"@ + rest;
        assert(after[0] == 'm');
        assert(all[0] == '\x1b' && all[1] == '[');
        assert(all.skip(2) =~= code + after);
        lemma_digits_len(code, after);
        assert(all[code.len() as int + 2] == 'm');
        assert(all.skip(code.len() as int + 3) =~= rest);
        assert(Seq::<char>::empty() + uncoloured(rest) =~= uncoloured(rest));
    }
}

/// Painted text fades to the text.
proof fn lemma_fades_painted(code: Seq<char>, s: Seq<char>)
    requires
        text::all_digits(code),
        plain(s),
    ensures
        fades(painted(Style { color: true }, code, s), s),
{
    reveal_strlit("\x1b[");
    reveal_strlit("m");
    reveal_strlit("\x1b[0m");
    let zero = seq!['0'];
    let on = "\x1b["@ + code + "m"@;
    let off = "\x1b["@ + zero + "m"@;
    let none = Seq::<char>::empty();
    assert(off =~= "\x1b[0m"@);
    lemma_fades_code(code);
    lemma_fades_code(zero);
    lemma_fades_plain(s);
    lemma_fades_concat(on, none, s, s);
    lemma_fades_concat(on + s, none + s, off, none);
    assert(none + s + none =~= s);
    assert(on + s + off =~= painted(Style { color: true }, code, s));
}

/// Lines fade to lines.
spec fn all_fade(c: Seq<Seq<char>>, p: Seq<Seq<char>>) -> bool {
    c.len() == p.len() && forall|i: int| 0 <= i < c.len() ==> fades(#[trigger] c[i], p[i])
}

proof fn lemma_fades_join(c: Seq<Seq<char>>, p: Seq<Seq<char>>, sep: Seq<char>)
    requires
        all_fade(c, p),
        plain(sep),
    ensures
        fades(text::join(c, sep), text::join(p, sep)),
    decreases c.len(),
{
    lemma_fades_plain(sep);
    if c.len() == 0 {
        lemma_fades_plain(Seq::empty());
    } else if c.len() == 1 {
        assert(fades(c[0], p[0]));
    } else {
        let (a, b) = (c.drop_last(), p.drop_last());
        assert forall|i: int| 0 <= i < a.len() implies fades(#[trigger] a[i], b[i]) by {
            assert(fades(c[i], p[i]));
        }
        lemma_fades_join(a, b, sep);
        assert(fades(c[c.len() - 1], p[p.len() - 1]));
        lemma_fades_concat(text::join(a, sep), text::join(b, sep), sep, sep);
        lemma_fades_concat(
            text::join(a, sep) + sep,
            text::join(b, sep) + sep,
            c.last(),
            p.last(),
        );
    }
}

/// The codes that the report uses are digits.
proof fn lemma_codes()
    ensures
        text::all_digits("1"@),
        text::all_digits("2"@),
        text::all_digits("31"@),
        text::all_digits("32"@),
        text::all_digits("33"@),
{
    reveal_strlit("1");
    reveal_strlit("2");
    reveal_strlit("31");
    reveal_strlit("32");
    reveal_strlit("33");
}

proof fn lemma_fades_space(sp: Space)
    requires
        plain(sp.label@),
        plain(sp.git.branch@),
    ensures
        all_fade(
            space_lines(sp, Style { color: true }),
            space_lines(sp, Style { color: false }),
        ),
{
    let (on, off) = (Style { color: true }, Style { color: false });
    lemma_codes();
    lemma_plain_parts(sp);
    reveal_strlit("  ");
    reveal_strlit(" ");
    reveal_strlit("   ");
    reveal_strlit("      ");
    let (gap, one, three, six) = ("  "@, " "@, "   "@, "      "@);
    lemma_fades_plain(gap);
    lemma_fades_plain(one);
    lemma_fades_plain(three);
    lemma_fades_plain(six);
    // Marker and label.
    lemma_fades_painted("32"@, "●"@);
    lemma_fades_painted("2"@, "○"@);
    lemma_fades_painted("1"@, sp.label@);
    let (m, n) = (marker_text(sp, on), marker_text(sp, off));
    assert(fades(m, n));
    lemma_fades_concat(gap, gap, m, n);
    lemma_fades_concat(gap + m, gap + n, one, one);
    lemma_fades_concat(gap + m + one, gap + n + one, painted(on, "1"@, sp.label@), sp.label@);
    // Branch.
    let branch = branch_text(sp.git);
    lemma_fades_painted("2"@, branch);
    lemma_fades_concat(six, six, painted(on, "2"@, branch), branch);
    // Status and panes.
    let code = severity_code(git::severity_of(sp.git));
    let (cell, notes) = (cell_text(sp.git), notes_text(sp));
    lemma_fades_painted(code, cell);
    lemma_fades_painted("2"@, notes);
    let status = painted(on, code, cell);
    lemma_fades_concat(six, six, status, cell);
    lemma_fades_concat(six + status, six + cell, three, three);
    lemma_fades_concat(
        six + status + three,
        six + cell + three,
        painted(on, "2"@, notes),
        notes,
    );
    lemma_fades_plain(Seq::empty());
    let (c, p) = (space_lines(sp, on), space_lines(sp, off));
    assert(fades(c[0], p[0]) && fades(c[1], p[1]) && fades(c[2], p[2]) && fades(c[3], p[3]));
}

proof fn lemma_fades_lines(spaces: Seq<Space>)
    requires
        forall|i: int|
            0 <= i < spaces.len() ==> plain((#[trigger] spaces[i]).label@) && plain(
                spaces[i].git.branch@,
            ),
    ensures
        all_fade(
            all_lines(spaces, Style { color: true }),
            all_lines(spaces, Style { color: false }),
        ),
    decreases spaces.len(),
{
    let (on, off) = (Style { color: true }, Style { color: false });
    if spaces.len() > 0 {
        let init = spaces.drop_last();
        assert forall|i: int| 0 <= i < init.len() implies plain((#[trigger] init[i]).label@)
            && plain(init[i].git.branch@) by {
            assert(init[i] == spaces[i]);
        }
        lemma_fades_lines(init);
        assert(spaces.last() == spaces[spaces.len() - 1]);
        lemma_fades_space(spaces.last());
        let (a, b) = (all_lines(init, on), space_lines(spaces.last(), on));
        let (x, y) = (all_lines(init, off), space_lines(spaces.last(), off));
        assert forall|i: int| 0 <= i < (a + b).len() implies fades(
            #[trigger] (a + b)[i],
            (x + y)[i],
        ) by {
            if i < a.len() {
                assert(fades(a[i], x[i]));
            } else {
                assert(fades(b[i - a.len()], y[i - a.len()]));
            }
        }
    }
}

/// Colour adds nothing but colour: deleting every colour sequence from the coloured
/// report gives exactly the plain one (unless a label or a branch name brings an
/// escape of its own).
pub proof fn law_colour_adds_only_colour(spaces: Seq<Space>)
    requires
        forall|i: int|
            0 <= i < spaces.len() ==> plain((#[trigger] spaces[i]).label@) && plain(
                spaces[i].git.branch@,
            ),
    ensures
        uncoloured(text::join(report_lines(spaces, Style { color: true }), "\n"@)) == text::join(
            report_lines(spaces, Style { color: false }),
            "\n"@,
        ),
{
    let (on, off) = (Style { color: true }, Style { color: false });
    lemma_codes();
    lemma_plain_frame(spaces);
    lemma_fades_lines(spaces);
    lemma_fades_plain(Seq::empty());
    lemma_fades_painted("1"@, "  Git status per space"@);
    lemma_fades_painted("2"@, "  No spaces open."@);
    lemma_fades_painted("2"@, summary_text(spaces));
    let (c, p) = (report_lines(spaces, on), report_lines(spaces, off));
    let (a, b) = (all_lines(spaces, on), all_lines(spaces, off));
    assert forall|i: int| 0 <= i < c.len() implies fades(#[trigger] c[i], p[i]) by {
        if spaces.len() > 0 && 2 <= i < c.len() - 1 {
            assert(c[i] == a[i - 2] && p[i] == b[i - 2]);
            assert(fades(a[i - 2], b[i - 2]));
        }
    }
    lemma_fades_join(c, p, "\n"@);
    let whole = text::join(c, "\n"@);
    let none = Seq::<char>::empty();
    assert(whole + none =~= whole);
    assert(uncoloured(whole + none) == text::join(p, "\n"@) + uncoloured(none));
    assert(text::join(p, "\n"@) + none =~= text::join(p, "\n"@));
}

// ---- what the report shows --------------------------------------------------

/// The displayed branch, in each case: the name, then an arrow up with the commits to
/// push and an arrow down with the commits to pull, each only where there are some.
pub proof fn law_branch_shows_divergence(g: GitStatus)
    ensures
        !g.is_repo || g.branch@.len() == 0 ==> branch_text(g) == "(no branch)"@,
        g.is_repo && g.branch@.len() > 0 ==> {
            &&& g.ahead == 0 && g.behind == 0 ==> branch_text(g) == g.branch@
            &&& g.ahead > 0 && g.behind == 0 ==> branch_text(g) == g.branch@ + " ↑"@
                + text::decimal(g.ahead as nat)
            &&& g.ahead == 0 && g.behind > 0 ==> branch_text(g) == g.branch@ + " ↓"@
                + text::decimal(g.behind as nat)
            &&& g.ahead > 0 && g.behind > 0 ==> branch_text(g) == g.branch@ + " ↑"@
                + text::decimal(g.ahead as nat) + " ↓"@ + text::decimal(g.behind as nat)
        },
{
    let none = Seq::<char>::empty();
    if g.is_repo && g.branch@.len() > 0 {
        let (a, b) = (text::decimal(g.ahead as nat), text::decimal(g.behind as nat));
        assert(g.branch@ + none + none =~= g.branch@);
        assert(g.branch@ + (" ↑"@ + a) + none =~= g.branch@ + " ↑"@ + a);
        assert(g.branch@ + none + (" ↓"@ + b) =~= g.branch@ + " ↓"@ + b);
        assert(g.branch@ + (" ↑"@ + a) + (" ↓"@ + b) =~= g.branch@ + " ↑"@ + a + " ↓"@ + b);
    }
}

/// The displayed branch tells the whole divergence: two repositories on the same
/// branch that display the same are the same number of commits ahead and behind.
pub proof fn law_branch_tells_the_divergence(g: GitStatus, h: GitStatus)
    requires
        g.is_repo && h.is_repo,
        g.branch@.len() > 0,
        g.branch@ == h.branch@,
        branch_text(g) == branch_text(h),
    ensures
        g.ahead == h.ahead,
        g.behind == h.behind,
{
    reveal_strlit(" ↑");
    reveal_strlit(" ↓");
    let (a, b) = (arrow(" ↑"@, g.ahead), arrow(" ↓"@, g.behind));
    let (c, d) = (arrow(" ↑"@, h.ahead), arrow(" ↓"@, h.behind));
    let n = g.branch@.len() as int;
    assert(branch_text(g).skip(n) =~= a + b);
    assert(branch_text(h).skip(n) =~= c + d);
    let (x, y) = (a + b, c + d);
    lemma_arrow_digits(g.behind);
    lemma_arrow_digits(h.behind);
    if g.ahead > 0 || h.ahead > 0 {
        if g.ahead > 0 {
            assert(x[1] == '↑');
        }
        if h.ahead > 0 {
            assert(y[1] == '↑');
        }
        if g.ahead == 0 {
            assert(x.len() > 1 && x[1] == '↓');
        }
        if h.ahead == 0 {
            assert(y.len() > 1 && y[1] == '↓');
        }
        let (p, q) = (text::decimal(g.ahead as nat), text::decimal(h.ahead as nat));
        assert(x.skip(2) =~= p + b);
        assert(y.skip(2) =~= q + d);
        lemma_decimal_run(g.ahead as nat, b);
        lemma_decimal_run(h.ahead as nat, d);
        assert((p + b).take(p.len() as int) =~= p);
        assert((q + d).take(q.len() as int) =~= q);
        assert(p == q);
        text::lemma_decimal_value(g.ahead as nat);
        text::lemma_decimal_value(h.ahead as nat);
        assert((p + b).skip(p.len() as int) =~= b);
        assert((q + d).skip(q.len() as int) =~= d);
    } else {
        assert(x =~= b && y =~= d);
    }
    assert(b == d);
    if g.behind > 0 {
        assert(b.skip(2) =~= text::decimal(g.behind as nat));
        assert(d.skip(2) =~= text::decimal(h.behind as nat));
        text::lemma_decimal_value(g.behind as nat);
        text::lemma_decimal_value(h.behind as nat);
    }
}

/// An arrow down, if there is one, does not start with a digit.
proof fn lemma_arrow_digits(n: u32)
    ensures
        arrow(" ↓"@, n).len() > 0 ==> n > 0 && !text::digit(arrow(" ↓"@, n)[0]),
        n > 0 ==> arrow(" ↓"@, n).len() > 2 && arrow(" ↓"@, n)[1] == '↓',
{
    reveal_strlit(" ↓");
    text::lemma_decimal_value(n as nat);
}

/// A number in decimal is the run of digits that text starts with, where what follows
/// starts with none.
proof fn lemma_decimal_run(n: nat, rest: Seq<char>)
    requires
        rest.len() > 0 ==> !text::digit(rest[0]),
    ensures
        digits_len(text::decimal(n) + rest) == text::decimal(n).len(),
{
    let d = text::decimal(n);
    text::lemma_decimal_value(n);
    if rest.len() > 0 {
        lemma_digits_len(d, rest);
    } else {
        lemma_digits_end(d);
        assert(d + rest =~= d);
    }
}

proof fn lemma_digits_end(code: Seq<char>)
    requires
        forall|i: int| 0 <= i < code.len() ==> text::digit(#[trigger] code[i]),
    ensures
        digits_len(code) == code.len(),
    decreases code.len(),
{
    if code.len() > 0 {
        let tail = code.skip(1);
        assert forall|i: int| 0 <= i < tail.len() implies text::digit(#[trigger] tail[i]) by {
            assert(tail[i] == code[i + 1]);
        }
        lemma_digits_end(tail);
    }
}

/// The status cell, on the fields: a dash without a repository, the check mark for one
/// with nothing to commit, push or pull, `clean` where only commits are to be pushed
/// or pulled, and else the token.
pub proof fn law_cell_on_the_fields(g: GitStatus)
    ensures
        !g.is_repo ==> cell_text(g) == "—"@,
        g.is_repo && g.staged == 0 && g.modified == 0 && g.untracked == 0 && g.conflicts == 0 ==> {
            &&& g.ahead == 0 && g.behind == 0 ==> cell_text(g) == "✓"@
            &&& g.ahead > 0 || g.behind > 0 ==> cell_text(g) == "clean"@
        },
        g.is_repo && (g.staged > 0 || g.modified > 0 || g.untracked > 0 || g.conflicts > 0)
            ==> cell_text(g) == git::token_text(g),
{
    reveal_strlit("✓");
    git::law_status_on_the_fields(g);
}

/// Painting wraps the text in the code where there is colour, and leaves it alone
/// where there is none; conflicts are red, other changes yellow, the rest green.
pub proof fn law_paint(code: Seq<char>, s: Seq<char>, g: GitStatus)
    ensures
        painted(Style { color: true }, code, s) == "\x1b["@ + code + "m"@ + s + "\x1b[0m"@,
        painted(Style { color: false }, code, s) == s,
        g.conflicts > 0 ==> severity_code(git::severity_of(g)) == "31"@,
        g.conflicts == 0 && g.is_repo && (g.staged > 0 || g.modified > 0 || g.untracked > 0)
            ==> severity_code(git::severity_of(g)) == "33"@,
        g.conflicts == 0 && (!g.is_repo || (g.staged == 0 && g.modified == 0 && g.untracked == 0))
            ==> severity_code(git::severity_of(g)) == "32"@,
{
}

proof fn lemma_lines_of_space(spaces: Seq<Space>, style: Style, k: int, r: int)
    requires
        0 <= k < spaces.len(),
        0 <= r < 4,
    ensures
        all_lines(spaces, style).len() == 4 * spaces.len(),
        all_lines(spaces, style)[4 * k + r] == space_lines(spaces[k], style)[r],
    decreases spaces.len(),
{
    let init = spaces.drop_last();
    law_four_lines_per_space(init, style);
    law_four_lines_per_space(spaces, style);
    if k < init.len() {
        lemma_lines_of_space(init, style, k, r);
        assert(init[k] == spaces[k]);
    } else {
        assert(spaces.last() == spaces[k]);
    }
}

/// The report, line by line: the heading, then for every space, in order, its marker
/// (filled where it has the focus) and label, its branch, its status and how many
/// panes it has, and a blank line; at the end how many spaces there are and how many
/// of them are dirty.
#[verifier::spinoff_prover]
pub proof fn law_report_line_by_line(spaces: Seq<Space>, style: Style, k: int)
    requires
        0 <= k < spaces.len(),
    ensures
        ({
            let lines = report_lines(spaces, style);
            let sp = spaces[k];
            let panes = sp.pane_count as nat;
            &&& lines.len() == 4 * spaces.len() + 3
            &&& lines[0] == painted(style, "1"@, "  Git status per space"@)
            &&& lines[1].len() == 0
            &&& sp.focused ==> lines[4 * k + 2] == "  "@ + painted(style, "32"@, "●"@) + " "@
                + painted(style, "1"@, sp.label@)
            &&& !sp.focused ==> lines[4 * k + 2] == "  "@ + painted(style, "2"@, "○"@) + " "@
                + painted(style, "1"@, sp.label@)
            &&& lines[4 * k + 3] == "      "@ + painted(style, "2"@, branch_text(sp.git))
            &&& panes == 1 ==> lines[4 * k + 4] == "      "@ + painted(
                style,
                severity_code(git::severity_of(sp.git)),
                cell_text(sp.git),
            ) + "   "@ + painted(style, "2"@, "· 1 pane"@)
            &&& panes != 1 ==> lines[4 * k + 4] == "      "@ + painted(
                style,
                severity_code(git::severity_of(sp.git)),
                cell_text(sp.git),
            ) + "   "@ + painted(style, "2"@, "· "@ + text::decimal(panes) + " panes"@)
            &&& lines[4 * k + 5].len() == 0
            &&& spaces.len() == 1 ==> lines.last() == painted(
                style,
                "2"@,
                "  ── 1 space · "@ + text::decimal(dirty_count(spaces)) + " dirty"@,
            )
            &&& spaces.len() > 1 ==> lines.last() == painted(
                style,
                "2"@,
                "  ── "@ + text::decimal(spaces.len()) + " spaces · "@ + text::decimal(
                    dirty_count(spaces),
                ) + " dirty"@,
            )
        }),
        report_lines(Seq::empty(), style) == seq![
            painted(style, "1"@, "  Git status per space"@),
            Seq::<char>::empty(),
            painted(style, "2"@, "  No spaces open."@),
        ],
{
    lemma_report_at(spaces, style, k);
    lemma_notes_written(spaces[k]);
    lemma_summary_written(spaces);
    assert(report_lines(Seq::empty(), style) =~= seq![
        painted(style, "1"@, "  Git status per space"@),
        Seq::<char>::empty(),
        painted(style, "2"@, "  No spaces open."@),
    ]);
}

/// Where the lines of a space stand.
proof fn lemma_report_at(spaces: Seq<Space>, style: Style, k: int)
    requires
        0 <= k < spaces.len(),
    ensures
        ({
            let lines = report_lines(spaces, style);
            let own = space_lines(spaces[k], style);
            &&& lines.len() == 4 * spaces.len() + 3
            &&& lines[0] == painted(style, "1"@, "  Git status per space"@)
            &&& lines[1].len() == 0
            &&& lines[4 * k + 2] == own[0] && lines[4 * k + 3] == own[1]
            &&& lines[4 * k + 4] == own[2] && lines[4 * k + 5] == own[3]
            &&& lines.last() == painted(style, "2"@, summary_text(spaces))
        }),
{
    let lines = report_lines(spaces, style);
    law_four_lines_per_space(spaces, style);
    lemma_lines_of_space(spaces, style, k, 0);
    lemma_lines_of_space(spaces, style, k, 1);
    lemma_lines_of_space(spaces, style, k, 2);
    lemma_lines_of_space(spaces, style, k, 3);
    let body = all_lines(spaces, style);
    assert(lines[4 * k + 2] == body[4 * k]);
    assert(lines[4 * k + 3] == body[4 * k + 1]);
    assert(lines[4 * k + 4] == body[4 * k + 2]);
    assert(lines[4 * k + 5] == body[4 * k + 3]);
}

proof fn lemma_notes_written(sp: Space)
    ensures
        sp.pane_count == 1 ==> notes_text(sp) == "· 1 pane"@,
        sp.pane_count != 1 ==> notes_text(sp) == "· "@ + text::decimal(sp.pane_count as nat)
            + " panes"@,
{
    let n = sp.pane_count as nat;
    lemma_counts_written(n);
    if n != 1 {
        assert(notes_text(sp) =~= "· "@ + text::decimal(n) + (" pane"@ + plural(n)));
    }
}

proof fn lemma_summary_written(spaces: Seq<Space>)
    ensures
        spaces.len() == 1 ==> summary_text(spaces) == "  ── 1 space · "@ + text::decimal(
            dirty_count(spaces),
        ) + " dirty"@,
        spaces.len() > 1 ==> summary_text(spaces) == "  ── "@ + text::decimal(spaces.len())
            + " spaces · "@ + text::decimal(dirty_count(spaces)) + " dirty"@,
{
    let n = spaces.len();
    lemma_counts_written(n);
    if n != 1 {
        assert(summary_text(spaces) =~= "  ── "@ + text::decimal(n) + (" space"@ + plural(n)
            + " · "@) + text::decimal(dirty_count(spaces)) + " dirty"@);
    }
}

/// How a count and its noun are written.
proof fn lemma_counts_written(n: nat)
    ensures
        n == 1 ==> "· "@ + text::decimal(n) + " pane"@ + plural(n) == "· 1 pane"@,
        n != 1 ==> " pane"@ + plural(n) == " panes"@,
        n == 1 ==> "  ── "@ + text::decimal(n) + " space"@ + plural(n) + " · "@
            == "  ── 1 space · "@,
        n != 1 ==> " space"@ + plural(n) + " · "@ == " spaces · "@,
{
    reveal_strlit("· ");
    reveal_strlit(" pane");
    reveal_strlit("s");
    reveal_strlit(" panes");
    reveal_strlit("· 1 pane");
    reveal_strlit("  ── ");
    reveal_strlit(" space");
    reveal_strlit(" · ");
    reveal_strlit("  ── 1 space · ");
    reveal_strlit(" spaces · ");
    if n == 1 {
        assert(text::decimal(1) =~= seq!['1']);
        assert("· "@ + text::decimal(n) + " pane"@ + plural(n) =~= "· 1 pane"@);
        assert("  ── "@ + text::decimal(n) + " space"@ + plural(n) + " · "@
            =~= "  ── 1 space · "@);
    } else {
        assert(" pane"@ + plural(n) =~= " panes"@);
        assert(" space"@ + plural(n) + " · "@ =~= " spaces · "@);
    }
}

/// A space counts as dirty exactly when it is a repository with a changed path.
pub proof fn law_dirty_spaces_are_counted(spaces: Seq<Space>, sp: Space)
    ensures
        dirty_count(Seq::empty()) == 0,
        dirty_count(spaces.push(sp)) == dirty_count(spaces) + if sp.git.is_repo && (sp.git.staged
            > 0 || sp.git.modified > 0 || sp.git.untracked > 0 || sp.git.conflicts > 0) {
            1nat
        } else {
            0
        },
{
    assert(spaces.push(sp).drop_last() =~= spaces);
}

/// A part of the time of day is written with at least two digits, that give it.
pub proof fn law_two_digits(n: int)
    ensures
        n >= 0 ==> text::all_digits(two_wide(n)) && text::digits_value(two_wide(n)) == n
            && two_wide(n).len() >= 2,
        0 <= n < 100 ==> two_wide(n).len() == 2,
        n >= 100 ==> two_wide(n) == text::decimal(n as nat),
        n < 0 ==> two_wide(n) == seq!['-'] + text::decimal((-n) as nat),
{
    reveal_strlit("0");
    reveal_strlit("-");
    assert("-"@ =~= seq!['-']);
    if n >= 0 {
        let d = text::decimal(n as nat);
        text::lemma_decimal_value(n as nat);
        if n < 10 {
            let t = two_wide(n);
            assert(d =~= seq![text::digit_char(n as nat)]);
            assert(t =~= seq!['0', d[0]]);
            assert(t.drop_last() =~= seq!['0']);
            assert(seq!['0'].drop_last() =~= Seq::<char>::empty());
            assert(text::digits_value(seq!['0'].drop_last()) == 0);
            assert(text::digits_value(seq!['0']) == 0);
            assert(d.drop_last() =~= Seq::<char>::empty());
            assert(text::digits_value(d.drop_last()) == 0);
            assert(text::digit(d[0]));
        } else {
            let tens = (n / 10) as nat;
            lemma_nonempty_decimal(tens);
            if n < 100 {
                assert(text::decimal(tens).len() == 1);
            }
        }
    }
}

proof fn lemma_nonempty_decimal(n: nat)
    ensures
        text::decimal(n).len() > 0,
{
    text::lemma_decimal_value(n);
}

/// The screens of the live watch, written out: the report, or the error, over the
/// footer.
pub proof fn law_screen(
    spaces: Seq<Space>,
    body: Seq<char>,
    foot: Seq<char>,
    seconds: Seq<char>,
    clock: Seq<char>,
    error: Seq<char>,
    style: Style,
)
    ensures
        frame_text(body, foot) == "\x1b[2J\x1b[H"@ + body + "\n\n"@ + foot + "\n"@,
        footer_text(seconds, clock, style) == painted(
            style,
            "2"@,
            "  refreshing every "@ + seconds + "s · "@ + clock + " · ctrl-c to quit"@,
        ),
        unavailable_text(error, style) == painted(style, "31"@, "  herdr unavailable:"@) + " "@
            + error,
        screen_text(Ok(spaces), seconds, clock, style) == "\x1b[2J\x1b[H"@ + text::join(
            report_lines(spaces, style),
            "\n"@,
        ) + "\n\n"@ + footer_text(seconds, clock, style) + "\n"@,
        screen_text(Err(error), seconds, clock, style) == "\x1b[2J\x1b[H"@ + unavailable_text(
            error,
            style,
        ) + "\n\n"@ + footer_text(seconds, clock, style) + "\n"@,
{
}

// ---- what the payload says --------------------------------------------------

/// The object of a space, field by field.
pub proof fn law_json_field_by_field(sp: Space)
    ensures
        json_fields(sp).len() == 14,
        json_fields(sp)[0] == ("workspace_id"@, JsonView::Text(sp.id@)),
        json_fields(sp)[1] == ("label"@, JsonView::Text(sp.label@)),
        json_fields(sp)[2] == ("branch"@, JsonView::Text(sp.git.branch@)),
        json_fields(sp)[3] == ("focused"@, JsonView::Flag(sp.focused)),
        json_fields(sp)[4] == ("panes"@, JsonView::Number(sp.pane_count as nat)),
        json_fields(sp)[5] == ("is_repo"@, JsonView::Flag(sp.git.is_repo)),
        json_fields(sp)[6] == ("ahead"@, JsonView::Number(sp.git.ahead as nat)),
        json_fields(sp)[7] == ("behind"@, JsonView::Number(sp.git.behind as nat)),
        json_fields(sp)[8] == ("staged"@, JsonView::Number(sp.git.staged as nat)),
        json_fields(sp)[9] == ("modified"@, JsonView::Number(sp.git.modified as nat)),
        json_fields(sp)[10] == ("untracked"@, JsonView::Number(sp.git.untracked as nat)),
        json_fields(sp)[11] == ("conflicts"@, JsonView::Number(sp.git.conflicts as nat)),
        json_fields(sp)[12] == ("clean"@, JsonView::Flag(
            !sp.git.is_repo || (sp.git.staged == 0 && sp.git.modified == 0 && sp.git.untracked == 0
                && sp.git.conflicts == 0),
        )),
        json_fields(sp)[13] == ("fully_clean"@, JsonView::Flag(
            sp.git.is_repo && sp.git.staged == 0 && sp.git.modified == 0 && sp.git.untracked == 0
                && sp.git.conflicts == 0
                && sp.git.ahead == 0 && sp.git.behind == 0,
        )),
{
}

/// The payload gives back what it was made from: one object per space, in order, and
/// equal objects only for spaces with the same id, label, branch, focus, pane count,
/// repository and counts.
pub proof fn law_json_gives_back_the_spaces(a: Seq<Space>, b: Seq<Space>, i: int)
    requires
        json_payload(a) == json_payload(b),
        0 <= i < a.len(),
    ensures
        a.len() == b.len(),
        a[i].id@ == b[i].id@ && a[i].label@ == b[i].label@,
        a[i].git.branch@ == b[i].git.branch@,
        a[i].focused == b[i].focused && a[i].pane_count == b[i].pane_count,
        a[i].git.is_repo == b[i].git.is_repo,
        a[i].git.ahead == b[i].git.ahead && a[i].git.behind == b[i].git.behind,
        a[i].git.staged == b[i].git.staged && a[i].git.modified == b[i].git.modified,
        a[i].git.untracked == b[i].git.untracked && a[i].git.conflicts == b[i].git.conflicts,
        json_payload(a).len() == a.len() && json_payload(a)[i] == json_fields(a[i]),
{
    assert(json_payload(a).len() == a.len() && json_payload(b).len() == b.len());
    let (x, y) = (json_payload(a)[i], json_payload(b)[i]);
    law_json_field_by_field(a[i]);
    law_json_field_by_field(b[i]);
    assert(x[0] == y[0] && x[1] == y[1] && x[2] == y[2] && x[3] == y[3] && x[4] == y[4]);
    assert(x[5] == y[5] && x[6] == y[6] && x[7] == y[7] && x[8] == y[8] && x[9] == y[9]);
    assert(x[10] == y[10] && x[11] == y[11]);
}

/// The texts that the colour laws speak of: any without the escape character.
pub proof fn law_plain_texts(s: Seq<char>)
    ensures
        plain(s) <==> !s.contains('\x1b'),
{
    if !s.contains('\x1b') {
        assert forall|i: int| 0 <= i < s.len() implies #[trigger] s[i] != '\x1b' by {
            assert(s.contains(s[i]));
        }
    }
}

} // verus!
