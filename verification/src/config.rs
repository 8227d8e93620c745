//! Plugin config and env/state path resolution.
//!
//! - [`load_config`] parses `$HERDR_PLUGIN_CONFIG_DIR/config.toml` (flat
//!   `key = value` lines).
//! - The path helpers resolve the host-injected environment (`HERDR_PLUGIN_*`)
//!   with the same `<tmpdir>/<id>` fallbacks the runtime uses.

use crate::text;
use vstd::prelude::*;

verus! {

/// Status-surfacing strategy (plugin `config.toml` `mode`).
#[derive(Debug, Clone, Copy, PartialEq, Eq, Structural)]
pub enum Mode {
    /// Stock host: a "git" pseudo-agent per space in the agents panel. This is
    /// the default — it works on any host build, no patch required.
    AgentsPanel,
    /// Opt-in for host builds with a spaces-card status row: display-only
    /// metadata rendered inside the spaces card.
    Sidebar,
}

/// Plugin user config from `$HERDR_PLUGIN_CONFIG_DIR/config.toml`.
#[derive(Debug, Clone, Copy, PartialEq, Eq, Structural)]
pub struct Config {
    pub mode: Mode,
    pub interval_seconds: u64,
    /// Surface `✓` for fully clean repos (nothing to commit, push, or pull)
    /// instead of clearing the status. `false` shows nothing at all for a clean
    /// space.
    pub clean_checkmark: bool,
}

/// The documented defaults.
pub open spec fn default_config() -> Config {
    Config { mode: Mode::AgentsPanel, interval_seconds: 5, clean_checkmark: true }
}

impl Default for Config {
    fn default() -> (c: Self)
        ensures
            c == default_config(),
    {
        Config { mode: Mode::AgentsPanel, interval_seconds: 5, clean_checkmark: true }
    }
}

// ---- one line ---------------------------------------------------------------

/// A quote character, double or single.
pub open spec fn quote(c: char) -> bool {
    c == '"' || c == '\''
}

/// `s` without a leading quote.
pub open spec fn unquoted_start(s: Seq<char>) -> Seq<char> {
    if s.len() > 0 && quote(s[0]) {
        s.skip(1)
    } else {
        s
    }
}

/// `s` without a trailing quote.
pub open spec fn unquoted_end(s: Seq<char>) -> Seq<char> {
    if s.len() > 0 && quote(s.last()) {
        s.drop_last()
    } else {
        s
    }
}

/// `s` without a leading quote and then without a trailing one.
pub open spec fn unquoted(s: Seq<char>) -> Seq<char> {
    unquoted_end(unquoted_start(s))
}

/// A character that may stand in a key: an ASCII letter or an underscore.
pub open spec fn key_char(c: char) -> bool {
    'a' <= c <= 'z' || 'A' <= c <= 'Z' || c == '_'
}

/// A key: one or more key characters.
pub open spec fn key_word(s: Seq<char>) -> bool {
    s.len() > 0 && forall|i: int| 0 <= i < s.len() ==> key_char(#[trigger] s[i])
}

/// The key and the value of a flat `key = value` line, if it is one.
pub open spec fn key_value(line: Seq<char>) -> Option<(Seq<char>, Seq<char>)> {
    match text::cut(line, "="@) {
        Some((key, value)) => if key_word(text::trimmed(key)) && text::trimmed(value).len() > 0 {
            Some((text::trimmed(key), unquoted(text::trimmed(value))))
        } else {
            None
        },
        None => None,
    }
}

/// Remove at most one leading and one trailing quote (`"` or `'`), independently.
pub fn strip_quotes(s: &str) -> (r: &str)
    ensures
        r@ == unquoted(s@),
{
    let x = text::chars_of(s);
    let n: usize = x.len();
    let from: usize = if n > 0 && (x[0] == '"' || x[0] == '\'') {
        1
    } else {
        0
    };
    let to: usize = if n > from && (x[n - 1] == '"' || x[n - 1] == '\'') {
        n - 1
    } else {
        n
    };
    let r = s.substring_char(from, to);
    assert(unquoted_start(s@) =~= s@.subrange(from as int, n as int));
    assert(r@ =~= unquoted(s@));
    r
}

/// Whether `s` is a key: one or more ASCII letters/underscores.
fn is_key(s: &str) -> (r: bool)
    ensures
        r == key_word(s@),
{
    let x = text::chars_of(s);
    let mut i: usize = 0;
    while i < x.len()
        invariant
            x@ == s@,
            i <= x@.len(),
            forall|j: int| 0 <= j < i ==> key_char(#[trigger] x@[j]),
        decreases x@.len() - i,
    {
        let c: char = x[i];
        if !(('a' <= c && c <= 'z') || ('A' <= c && c <= 'Z') || c == '_') {
            assert(!key_char(s@[i as int]));
            return false;
        }
        i += 1;
    }
    x.len() > 0
}

/// Split one flat `key = value` line into `(key, unquoted_value)`.
///
/// The key is one or more ASCII letters/underscores; the value is everything
/// after the FIRST `=` with surrounding whitespace trimmed (non-empty required)
/// and at most one leading and one trailing quote (`"` or `'`) removed. Inline
/// `#` comments are NOT stripped.
pub fn parse_kv_line(line: &str) -> (r: Option<(&str, &str)>)
    ensures
        r is Some <==> key_value(line@) is Some,
        r matches Some((k, v)) ==> key_value(line@) == Some((k@, v@)),
{
    match text::split_once(line, "=") {
        Some((key, value)) => {
            let k = text::trim(key);
            let v = text::trim(value);
            if is_key(k) && !v.is_empty() {
                Some((k, strip_quotes(v)))
            } else {
                None
            }
        },
        None => None,
    }
}

// ---- whole file -------------------------------------------------------------

/// A `#` comment line, leading white space aside.
pub open spec fn comment(line: Seq<char>) -> bool {
    text::has_prefix(text::skip_white(line), "#"@)
}

/// The key and the value that a line of the file sets, if it sets one.
pub open spec fn entry(line: Seq<char>) -> Option<(Seq<char>, Seq<char>)> {
    if comment(line) {
        None
    } else {
        key_value(line)
    }
}

/// The mode after a run of lines: what the last line that sets a known one says.
pub open spec fn mode_after(lines: Seq<Seq<char>>) -> Mode
    decreases lines.len(),
{
    if lines.len() == 0 {
        Mode::AgentsPanel
    } else if entry(lines.last()) == Some(("mode"@, "sidebar"@)) {
        Mode::Sidebar
    } else if entry(lines.last()) == Some(("mode"@, "agents-panel"@)) {
        Mode::AgentsPanel
    } else {
        mode_after(lines.drop_last())
    }
}

/// The check-mark choice after a run of lines: what the last line that sets it to
/// a boolean says.
pub open spec fn checkmark_after(lines: Seq<Seq<char>>) -> bool
    decreases lines.len(),
{
    if lines.len() == 0 {
        true
    } else if entry(lines.last()) == Some(("clean_checkmark"@, "true"@)) {
        true
    } else if entry(lines.last()) == Some(("clean_checkmark"@, "false"@)) {
        false
    } else {
        checkmark_after(lines.drop_last())
    }
}

/// The values given to `interval_seconds`, in order.
pub open spec fn interval_values(lines: Seq<Seq<char>>) -> Seq<Seq<char>>
    decreases lines.len(),
{
    if lines.len() == 0 {
        Seq::empty()
    } else {
        let prev = interval_values(lines.drop_last());
        match entry(lines.last()) {
            Some((key, value)) => if key == "interval_seconds"@ {
                prev.push(value)
            } else {
                prev
            },
            None => prev,
        }
    }
}

/// The cadence that a run of readings sets: the last one that is at least one
/// second, else the default.
pub open spec fn interval_after(readings: Seq<Option<u64>>) -> u64
    decreases readings.len(),
{
    if readings.len() == 0 {
        5
    } else {
        match readings.last() {
            Some(n) => if n >= 1 {
                n
            } else {
                interval_after(readings.drop_last())
            },
            None => interval_after(readings.drop_last()),
        }
    }
}

/// The config that a file's text sets, where `readings[k]` is the `k`th value of
/// `interval_seconds` as a number truncated to whole seconds (`None`, or missing,
/// where it is not a number).
pub open spec fn configured(text: Seq<char>, readings: Seq<Option<u64>>) -> Config {
    let lines = text::split(text, '\n');
    let n = interval_values(lines).len();
    Config {
        mode: mode_after(lines),
        interval_seconds: interval_after(
            if readings.len() > n {
                readings.take(n as int)
            } else {
                readings
            },
        ),
        clean_checkmark: checkmark_after(lines),
    }
}

/// The key and the value that a line of the file sets, if it sets one.
fn parse_entry(line: &str) -> (r: Option<(&str, &str)>)
    ensures
        r is Some <==> entry(line@) is Some,
        r matches Some((k, v)) ==> entry(line@) == Some((k@, v@)),
{
    if text::starts_with(text::trim_start(line), "#") {
        None
    } else {
        parse_kv_line(line)
    }
}

/// The values that the file's text gives to `interval_seconds`, in order: what
/// has to be read as numbers before [`parse_config`].
pub fn interval_texts(text: &str) -> (r: Vec<String>)
    ensures
        text::views(r@) == interval_values(text::split(text@, '\n')),
{
    let lines = text::split_on(text, '\n');
    let ghost all = text::split(text@, '\n');
    let mut r: Vec<String> = Vec::new();
    let mut i: usize = 0;
    assert(all.take(0) =~= Seq::<Seq<char>>::empty());
    assert(text::views(r@) =~= Seq::<Seq<char>>::empty());
    while i < lines.len()
        invariant
            all == text::views(lines@),
            i <= lines@.len(),
            text::views(r@) == interval_values(all.take(i as int)),
        decreases lines@.len() - i,
    {
        assert(all.take(i + 1).drop_last() =~= all.take(i as int));
        assert(all.take(i + 1).last() == lines@[i as int]@);
        if let Some((key, value)) = parse_entry(lines[i].as_str()) {
            if text::same(key, "interval_seconds") {
                let ghost prev = r@;
                r.push(String::from_str(value));
                assert(text::views(r@) =~= text::views(prev).push(value@));
            }
        }
        i += 1;
    }
    assert(all.take(i as int) =~= all);
    r
}

/// Parse the plugin's flat `config.toml` text into a [`Config`], starting from
/// the documented defaults.
///
/// Recognised keys: `mode` (`agents-panel` | `sidebar`), `interval_seconds`
/// (numeric `>= 1`), and `clean_checkmark` (`true` | `false`). Unknown keys are
/// ignored. `readings` holds the values of [`interval_texts`] as numbers
/// truncated to whole seconds, `None` for one that is not a number.
pub fn parse_config(text: &str, readings: &[Option<u64>]) -> (c: Config)
    ensures
        c == configured(text@, readings@),
{
    let mut cfg = Config::default();
    let lines = text::split_on(text, '\n');
    let ghost all = text::split(text@, '\n');
    let mut i: usize = 0;
    let mut k: usize = 0;
    assert(all.take(0) =~= Seq::<Seq<char>>::empty());
    assert(readings@.take(0) =~= Seq::<Option<u64>>::empty());
    while i < lines.len()
        invariant
            all == text::views(lines@),
            i <= lines@.len(),
            k == interval_values(all.take(i as int)).len(),
            k <= i,
            cfg.mode == mode_after(all.take(i as int)),
            cfg.clean_checkmark == checkmark_after(all.take(i as int)),
            k <= readings@.len() ==> cfg.interval_seconds == interval_after(
                readings@.take(k as int),
            ),
            k > readings@.len() ==> cfg.interval_seconds == interval_after(readings@),
        decreases lines@.len() - i,
    {
        proof {
            assert(all.take(i + 1).drop_last() =~= all.take(i as int));
            assert(all.take(i + 1).last() == lines@[i as int]@);
            reveal_strlit("mode");
            reveal_strlit("clean_checkmark");
            reveal_strlit("interval_seconds");
            reveal_strlit("sidebar");
            reveal_strlit("agents-panel");
            reveal_strlit("true");
            reveal_strlit("false");
            assert("mode"@.len() == 4 && "clean_checkmark"@.len() == 15 && "interval_seconds"@.len()
                == 16);
            assert("sidebar"@.len() == 7 && "agents-panel"@.len() == 12);
            assert("true"@.len() == 4 && "false"@.len() == 5);
        }
        if let Some((key, value)) = parse_entry(lines[i].as_str()) {
            if text::same(key, "mode") {
                if text::same(value, "sidebar") {
                    cfg.mode = Mode::Sidebar;
                } else if text::same(value, "agents-panel") {
                    cfg.mode = Mode::AgentsPanel;
                }
            } else if text::same(key, "clean_checkmark") {
                if text::same(value, "true") {
                    cfg.clean_checkmark = true;
                } else if text::same(value, "false") {
                    cfg.clean_checkmark = false;
                }
            } else if text::same(key, "interval_seconds") {
                // Accept any numeric >= 1; the struct stores whole seconds, so a
                // fractional value is truncated (the daemon uses it as a coarse
                // cadence).
                if k < readings.len() {
                    assert(readings@.take(k + 1).drop_last() =~= readings@.take(k as int));
                    if let Some(n) = readings[k] {
                        if n >= 1 {
                            cfg.interval_seconds = n;
                        }
                    }
                } else {
                    assert(k == readings@.len() ==> readings@.take(k as int) =~= readings@);
                }
                k += 1;
            }
        }
        i += 1;
    }
    assert(all.take(i as int) =~= all);
    assert(k == readings@.len() ==> readings@.take(k as int) =~= readings@);
    cfg
}

/// The config of the plugin's own `config.toml`, whose text is `file`; the
/// defaults if it is absent.
pub fn load_config(file: Option<&str>, readings: &[Option<u64>]) -> (c: Config)
    ensures
        c == match file {
            Some(text) => configured(text@, readings@),
            None => default_config(),
        },
{
    match file {
        Some(text) => parse_config(text, readings),
        None => Config::default(),
    }
}

// ---- laws -------------------------------------------------------------------

/// A line that says something this config understands.
pub open spec fn known_setting(line: Seq<char>) -> bool {
    entry(line) matches Some((key, value)) && {
        ||| key == "mode"@ && (value == "sidebar"@ || value == "agents-panel"@)
        ||| key == "clean_checkmark"@ && (value == "true"@ || value == "false"@)
        ||| key == "interval_seconds"@
    }
}

/// A text with one more line.
pub open spec fn with_line(text: Seq<char>, line: Seq<char>) -> Seq<char> {
    text.push('\n') + line
}

/// The refresh cadence is never below one second.
pub proof fn law_interval_at_least_one(text: Seq<char>, readings: Seq<Option<u64>>)
    ensures
        configured(text, readings).interval_seconds >= 1,
{
    lemma_interval_at_least_one(readings);
    let n = interval_values(text::split(text, '\n')).len();
    if readings.len() > n {
        lemma_interval_at_least_one(readings.take(n as int));
    }
}

proof fn lemma_interval_at_least_one(readings: Seq<Option<u64>>)
    ensures
        interval_after(readings) >= 1,
    decreases readings.len(),
{
    if readings.len() > 0 {
        lemma_interval_at_least_one(readings.drop_last());
    }
}

/// An empty file leaves every documented default, whatever the readings.
pub proof fn law_empty_file_is_default(readings: Seq<Option<u64>>)
    ensures
        configured(Seq::empty(), readings) == default_config(),
{
    let lines = text::split(Seq::empty(), '\n');
    let none = Seq::<char>::empty();
    assert(lines =~= seq![none]);
    reveal_strlit("=");
    text::lemma_find_least(none, "="@, 0);
    assert(text::cut(none, "="@) is None);
    assert(entry(lines.last()) is None);
    assert(lines.drop_last() =~= Seq::<Seq<char>>::empty());
    assert(interval_values(lines.drop_last()) =~= Seq::<Seq<char>>::empty());
    assert(mode_after(lines.drop_last()) == Mode::AgentsPanel);
    assert(checkmark_after(lines.drop_last()));
    assert(readings.take(0) =~= Seq::<Option<u64>>::empty());
    if readings.len() == 0 {
        assert(readings =~= Seq::<Option<u64>>::empty());
    }
}

/// A text without its `i`th line.
pub open spec fn without_line(text: Seq<char>, i: int) -> Seq<char> {
    text::join(text::split(text, '\n').remove(i), seq!['\n'])
}

/// The settings of a run of lines, and the same run without one of them.
proof fn lemma_line_removed(lines: Seq<Seq<char>>, i: int)
    requires
        0 <= i < lines.len(),
    ensures
        !(entry(lines[i]) matches Some((key, value)) && key == "mode"@ && (value == "sidebar"@
            || value == "agents-panel"@)) ==> mode_after(lines.remove(i)) == mode_after(lines),
        !(entry(lines[i]) matches Some((key, value)) && key == "clean_checkmark"@ && (value
            == "true"@ || value == "false"@)) ==> checkmark_after(lines.remove(i))
            == checkmark_after(lines),
        interval_values(lines).len() == interval_values(lines.remove(i)).len() + if entry(
            lines[i],
        ) matches Some((key, _)) && key == "interval_seconds"@ {
            1nat
        } else {
            0
        },
        interval_values(lines.take(i)).len() <= interval_values(lines.remove(i)).len(),
    decreases lines.len(),
{
    let less = lines.remove(i);
    if i == lines.len() - 1 {
        assert(less =~= lines.drop_last());
        assert(lines.take(i) =~= less);
    } else {
        let init = lines.drop_last();
        assert(less.last() == lines.last());
        assert(less.drop_last() =~= init.remove(i));
        assert(init[i] == lines[i]);
        assert(init.take(i) =~= lines.take(i));
        lemma_line_removed(init, i);
    }
}

/// Where a text has one line, it has none without it, and that is the default.
proof fn lemma_without_line(text: Seq<char>, i: int, readings: Seq<Option<u64>>)
    requires
        0 <= i < text::split(text, '\n').len(),
    ensures
        ({
            let less = text::split(text, '\n').remove(i);
            &&& less.len() > 0 ==> text::split(without_line(text, i), '\n') == less
            &&& less.len() == 0 ==> configured(without_line(text, i), readings) == default_config()
        }),
{
    let lines = text::split(text, '\n');
    let less = lines.remove(i);
    text::lemma_split_join(text, '\n');
    if less.len() > 0 {
        assert forall|k: int| 0 <= k < less.len() implies !(#[trigger] less[k]).contains('\n') by {
            if k < i {
                assert(less[k] == lines[k]);
            } else {
                assert(less[k] == lines[k + 1]);
            }
        }
        text::lemma_join_split(less, '\n');
    } else {
        assert(without_line(text, i) =~= Seq::<char>::empty());
        law_empty_file_is_default(readings);
    }
}

/// A line that is a comment, malformed, or has an unknown key or value changes
/// nothing, wherever it stands.
pub proof fn law_other_lines_are_ignored(text: Seq<char>, i: int, readings: Seq<Option<u64>>)
    requires
        0 <= i < text::split(text, '\n').len(),
        !known_setting(text::split(text, '\n')[i]),
    ensures
        configured(without_line(text, i), readings) == configured(text, readings),
{
    let lines = text::split(text, '\n');
    lemma_line_removed(lines, i);
    lemma_without_line(text, i, readings);
    if lines.len() == 1 {
        lemma_no_line(lines.remove(i), readings);
    }
}

/// No line sets nothing.
proof fn lemma_no_line(lines: Seq<Seq<char>>, readings: Seq<Option<u64>>)
    requires
        lines.len() == 0,
    ensures
        mode_after(lines) == Mode::AgentsPanel,
        checkmark_after(lines),
        interval_values(lines).len() == 0,
        interval_after(readings.take(0)) == 5,
        readings.len() == 0 ==> interval_after(readings) == 5,
{
    assert(readings.take(0) =~= Seq::<Option<u64>>::empty());
}

/// A reading that sets no cadence: not a number, or below one second.
pub open spec fn bad_reading(reading: Option<u64>) -> bool {
    match reading {
        Some(n) => n < 1,
        None => true,
    }
}

proof fn lemma_bad_reading(readings: Seq<Option<u64>>, r: int)
    requires
        0 <= r < readings.len(),
        bad_reading(readings[r]),
    ensures
        interval_after(readings.remove(r)) == interval_after(readings),
    decreases readings.len(),
{
    let less = readings.remove(r);
    if r == readings.len() - 1 {
        assert(less =~= readings.drop_last());
    } else {
        let init = readings.drop_last();
        assert(less.last() == readings.last());
        assert(less.drop_last() =~= init.remove(r));
        assert(init[r] == readings[r]);
        lemma_bad_reading(init, r);
    }
}

/// An `interval_seconds` line whose value is not a number, or is below one second,
/// changes nothing, wherever it stands: the text without it, and the readings
/// without its own, set the same.
pub proof fn law_bad_interval_line_is_ignored(
    text: Seq<char>,
    i: int,
    readings: Seq<Option<u64>>,
)
    requires
        0 <= i < text::split(text, '\n').len(),
        entry(text::split(text, '\n')[i]) matches Some((key, _)) && key == "interval_seconds"@,
        ({
            let r = interval_values(text::split(text, '\n').take(i)).len() as int;
            r < readings.len() ==> bad_reading(readings[r])
        }),
    ensures
        ({
            let r = interval_values(text::split(text, '\n').take(i)).len() as int;
            configured(
                without_line(text, i),
                if r < readings.len() {
                    readings.remove(r)
                } else {
                    readings
                },
            ) == configured(text, readings)
        }),
{
    let lines = text::split(text, '\n');
    let less = lines.remove(i);
    let r = interval_values(lines.take(i)).len() as int;
    let others = if r < readings.len() {
        readings.remove(r)
    } else {
        readings
    };
    reveal_strlit("mode");
    reveal_strlit("clean_checkmark");
    reveal_strlit("interval_seconds");
    assert("mode"@.len() == 4 && "clean_checkmark"@.len() == 15 && "interval_seconds"@.len() == 16);
    lemma_line_removed(lines, i);
    lemma_without_line(text, i, others);
    if less.len() == 0 {
        lemma_no_line(less, others);
    }
    let n = interval_values(lines).len() as int;
    let m = interval_values(less).len() as int;
    assert(n == m + 1 && r <= m);
    let used = if readings.len() > n {
        readings.take(n)
    } else {
        readings
    };
    let kept = if others.len() > m {
        others.take(m)
    } else {
        others
    };
    if r < readings.len() {
        assert(used[r] == readings[r]);
        assert(kept =~= used.remove(r));
        lemma_bad_reading(used, r);
    } else {
        assert(kept =~= used);
    }
}

/// The last line that sets a mode or the check mark wins, and touches nothing
/// else.
pub proof fn law_last_setting_wins(
    text: Seq<char>,
    line: Seq<char>,
    readings: Seq<Option<u64>>,
)
    requires
        !line.contains('\n'),
    ensures
        entry(line) == Some(("mode"@, "sidebar"@)) ==> configured(with_line(text, line), readings)
            == (Config { mode: Mode::Sidebar, ..configured(text, readings) }),
        entry(line) == Some(("mode"@, "agents-panel"@)) ==> configured(
            with_line(text, line),
            readings,
        ) == (Config { mode: Mode::AgentsPanel, ..configured(text, readings) }),
        entry(line) == Some(("clean_checkmark"@, "true"@)) ==> configured(
            with_line(text, line),
            readings,
        ) == (Config { clean_checkmark: true, ..configured(text, readings) }),
        entry(line) == Some(("clean_checkmark"@, "false"@)) ==> configured(
            with_line(text, line),
            readings,
        ) == (Config { clean_checkmark: false, ..configured(text, readings) }),
{
    text::lemma_split_append(text, line, '\n');
    let lines = text::split(text, '\n');
    assert(lines.push(line).drop_last() =~= lines);
    reveal_strlit("mode");
    reveal_strlit("clean_checkmark");
    reveal_strlit("interval_seconds");
    reveal_strlit("sidebar");
    reveal_strlit("agents-panel");
    reveal_strlit("true");
    reveal_strlit("false");
    assert("mode"@.len() == 4 && "clean_checkmark"@.len() == 15 && "interval_seconds"@.len() == 16);
    assert("sidebar"@.len() == 7 && "agents-panel"@.len() == 12);
    assert("true"@.len() == 4 && "false"@.len() == 5);
}

/// A further `interval_seconds` line sets the cadence when its reading is at
/// least one second, and changes nothing otherwise.
pub proof fn law_interval_line(
    text: Seq<char>,
    line: Seq<char>,
    value: Seq<char>,
    readings: Seq<Option<u64>>,
    reading: Option<u64>,
)
    requires
        !line.contains('\n'),
        entry(line) == Some(("interval_seconds"@, value)),
        readings.len() == interval_values(text::split(text, '\n')).len(),
    ensures
        configured(with_line(text, line), readings.push(reading)) == match reading {
            Some(n) => if n >= 1 {
                Config { interval_seconds: n, ..configured(text, readings) }
            } else {
                configured(text, readings)
            },
            None => configured(text, readings),
        },
{
    text::lemma_split_append(text, line, '\n');
    let lines = text::split(text, '\n');
    assert(lines.push(line).drop_last() =~= lines);
    assert(readings.push(reading).drop_last() =~= readings);
    reveal_strlit("mode");
    reveal_strlit("clean_checkmark");
    reveal_strlit("interval_seconds");
    assert("mode"@.len() == 4 && "clean_checkmark"@.len() == 15 && "interval_seconds"@.len() == 16);
}

/// Reading a setting gives back what was written: `<key> = "<value>"` for any value,
/// and `<key> = <value>` for one with neither white space nor a quote at its ends.
pub proof fn law_setting_reads_back(key: Seq<char>, value: Seq<char>)
    requires
        key_word(key),
    ensures
        entry(key + " = \""@ + value + "\""@) == Some((key, value)),
        value.len() > 0 && !text::white(value[0]) && !text::white(value.last()) && !quote(value[0])
            && !quote(value.last()) ==> entry(key + " = "@ + value) == Some((key, value)),
{
    reveal_strlit(" = \"");
    reveal_strlit(" = ");
    reveal_strlit("\"");
    let quoted = seq!['"'] + value + seq!['"'];
    assert(key + " = \""@ + value + "\""@ =~= key + " = "@ + quoted);
    lemma_entry(key, quoted);
    assert(unquoted_start(quoted) =~= value.push('"'));
    assert(unquoted(quoted) =~= value);
    if value.len() > 0 && !text::white(value[0]) && !text::white(value.last()) && !quote(value[0])
        && !quote(value.last()) {
        lemma_entry(key, value);
    }
}

/// The entry of a line that is written `<key> = <raw>`.
proof fn lemma_entry(key: Seq<char>, raw: Seq<char>)
    requires
        key_word(key),
        raw.len() > 0,
        !text::white(raw[0]),
        !text::white(raw.last()),
    ensures
        entry(key + " = "@ + raw) == Some((key, unquoted(raw))),
{
    reveal_strlit(" = ");
    reveal_strlit("=");
    reveal_strlit("#");
    let line = key + " = "@ + raw;
    let n = key.len() as int;
    assert forall|i: int| 0 <= i < n implies line[i] == key[i] && key_char(key[i]) by {}
    assert(line[0] == key[0] && !text::white(line[0]) && line[0] != '#');
    assert(text::skip_white(line) == line);
    assert(!comment(line)) by {
        if comment(line) {
            assert(line.take(1)[0] == '#');
        }
    }
    text::lemma_find_least(line, "="@, 0);
    assert(line.subrange(n + 1, n + 2) =~= "="@);
    assert(text::occurs_at(line, "="@, n + 1));
    let i = text::find_from(line, "="@, 0)->0;
    assert(line.subrange(i, i + 1)[0] == '=');
    assert(i == n + 1) by {
        if i < n {
            assert(line[i] == key[i]);
        }
    }
    // What precedes the `=` is the key and a space, what follows a space and the rest.
    let (k, v) = (line.take(n + 1), line.skip(n + 2));
    assert(k =~= key.push(' '));
    assert(v =~= seq![' '] + raw);
    assert(key_char(key[n - 1]));
    assert(text::skip_white(k) == k);
    assert(k.drop_last() =~= key);
    assert(text::drop_white(k) == text::drop_white(key));
    text::lemma_trim_same(key);
    assert(v.skip(1) =~= raw);
    assert(text::skip_white(v) == text::skip_white(raw));
    text::lemma_trim_same(raw);
}

// ---- env / path resolution --------------------------------------------------

/// Default plugin id when the host does not inject `HERDR_PLUGIN_ID`.
pub const DEFAULT_PLUGIN_ID: &'static str = "ez-corp.git-status";

/// Where a directory lies.
#[derive(Debug, Clone, PartialEq, Eq)]
pub enum Location {
    /// At this path, as the environment gives it.
    Given(String),
    /// This path, joined to the system's directory for temporary files.
    Temp(String),
    /// This path, joined to the user's home directory.
    Home(String),
}

impl Location {
    /// The path as the environment gives it is `path`.
    pub open spec fn is_given(&self, path: Seq<char>) -> bool {
        self matches Location::Given(p) && p@ == path
    }

    /// The directory is `name`, under the one for temporary files.
    pub open spec fn is_temp(&self, name: Seq<char>) -> bool {
        self matches Location::Temp(p) && p@ == name
    }

    /// The directory is `name`, under the user's home.
    pub open spec fn is_home(&self, name: Seq<char>) -> bool {
        self matches Location::Home(p) && p@ == name
    }
}

/// A file in a directory.
#[derive(Debug, Clone, PartialEq, Eq)]
pub struct FileLocation {
    pub dir: Location,
    pub name: String,
}

/// What an environment variable sets: unset and empty both read as absent.
pub open spec fn set_value(value: Option<&str>) -> Option<Seq<char>> {
    match value {
        Some(v) => if v@.len() > 0 {
            Some(v@)
        } else {
            None
        },
        None => None,
    }
}

/// The plugin id that `HERDR_PLUGIN_ID` sets, or the default one.
pub open spec fn id_text(id: Option<&str>) -> Seq<char> {
    match set_value(id) {
        Some(v) => v,
        None => DEFAULT_PLUGIN_ID@,
    }
}

/// The value of an environment variable, treating unset AND empty as absent.
pub fn non_empty_env(value: Option<&str>) -> (r: Option<&str>)
    ensures
        r is Some <==> set_value(value) is Some,
        r matches Some(v) ==> set_value(value) == Some(v@),
{
    match value {
        Some(v) => {
            if v.is_empty() {
                None
            } else {
                Some(v)
            }
        },
        None => None,
    }
}

/// Plugin id (`HERDR_PLUGIN_ID`, whose value is `id`, else `ez-corp.git-status`).
pub fn plugin_id(id: Option<&str>) -> (r: String)
    ensures
        r@ == id_text(id),
{
    match non_empty_env(id) {
        Some(v) => String::from_str(v),
        None => String::from_str(DEFAULT_PLUGIN_ID),
    }
}

/// Durable state dir (`HERDR_PLUGIN_STATE_DIR`, whose value is `dir`, else
/// `<tmpdir>/<id>`).
pub fn state_dir(dir: Option<&str>, id: Option<&str>) -> (r: Location)
    ensures
        match set_value(dir) {
            Some(path) => r.is_given(path),
            None => r.is_temp(id_text(id)),
        },
{
    match non_empty_env(dir) {
        Some(path) => Location::Given(String::from_str(path)),
        None => Location::Temp(plugin_id(id)),
    }
}

/// User config dir (`HERDR_PLUGIN_CONFIG_DIR`, whose value is `dir`, else
/// `<tmpdir>/<id>-config`).
pub fn config_dir(dir: Option<&str>, id: Option<&str>) -> (r: Location)
    ensures
        match set_value(dir) {
            Some(path) => r.is_given(path),
            None => r.is_temp(id_text(id) + "-config"@),
        },
{
    match non_empty_env(dir) {
        Some(path) => Location::Given(String::from_str(path)),
        None => {
            let mut name = plugin_id(id);
            name.append("-config");
            Location::Temp(name)
        },
    }
}

/// Updater single-instance pid file (`<state_dir>/updater.pid`).
pub fn pid_file(dir: Option<&str>, id: Option<&str>) -> (r: FileLocation)
    ensures
        match set_value(dir) {
            Some(path) => r.dir.is_given(path),
            None => r.dir.is_temp(id_text(id)),
        },
        r.name@ == "updater.pid"@,
{
    FileLocation { dir: state_dir(dir, id), name: String::from_str("updater.pid") }
}

/// The plugin's own config file (`<config_dir>/config.toml`).
pub fn config_file(dir: Option<&str>, id: Option<&str>) -> (r: FileLocation)
    ensures
        match set_value(dir) {
            Some(path) => r.dir.is_given(path),
            None => r.dir.is_temp(id_text(id) + "-config"@),
        },
        r.name@ == "config.toml"@,
{
    FileLocation { dir: config_dir(dir, id), name: String::from_str("config.toml") }
}

/// XDG config base: `$XDG_CONFIG_HOME`, whose value is `xdg`, if set (and
/// non-empty), else `~/.config`.
pub fn config_home(xdg: Option<&str>) -> (r: Location)
    ensures
        match set_value(xdg) {
            Some(path) => r.is_given(path),
            None => r.is_home(".config"@),
        },
{
    match non_empty_env(xdg) {
        Some(path) => Location::Given(String::from_str(path)),
        None => Location::Home(String::from_str(".config")),
    }
}

// ---- lines, character by character ------------------------------------------

/// At most one quote goes from each end, of either kind, and independently.
pub proof fn law_quotes(value: Seq<char>, q: char, r: char)
    requires
        q == '"' || q == '\'',
        r == '"' || r == '\'',
    ensures
        unquoted(seq![q] + value + seq![r]) == value,
        unquoted(seq![q]).len() == 0,
        unquoted(Seq::empty()).len() == 0,
        value.len() > 0 && value.last() != '"' && value.last() != '\'' ==> unquoted(
            seq![q] + value,
        ) == value,
        value.len() > 0 && value[0] != '"' && value[0] != '\'' ==> unquoted(value + seq![r])
            == value,
        value.len() > 0 && value[0] != '"' && value[0] != '\'' && value.last() != '"'
            && value.last() != '\'' ==> unquoted(value) == value,
{
    let both = seq![q] + value + seq![r];
    assert(unquoted_start(both) =~= value + seq![r]);
    assert(unquoted(both) =~= value);
    assert(unquoted_start(seq![q]) =~= Seq::<char>::empty());
    assert((seq![q] + value).skip(1) =~= value);
    assert((value + seq![r]).drop_last() =~= value);
}

/// A line is a setting exactly when it has a `=`, a key of ASCII letters and
/// underscores before the first one, and something after it; white space around
/// both, and quotes around the value, aside.
pub proof fn law_settings(key: Seq<char>, value: Seq<char>)
    requires
        !key.contains('='),
    ensures
        key_value(key) is None,
        ({
            let (k, v) = (text::trimmed(key), text::trimmed(value));
            let good = k.len() > 0 && v.len() > 0 && forall|i: int|
                0 <= i < k.len() ==> ('a' <= #[trigger] k[i] <= 'z' || 'A' <= k[i] <= 'Z' || k[i]
                    == '_');
            key_value(key + seq!['='] + value) == if good {
                Some((k, unquoted(v)))
            } else {
                None
            }
        }),
{
    reveal_strlit("=");
    assert("="@ =~= seq!['=']);
    let line = key + seq!['='] + value;
    assert forall|i: int| 0 <= i < key.len() implies #[trigger] (key + "="@ + value).subrange(
        i,
        i + "="@.len(),
    ) != "="@ by {
        assert((key + "="@ + value).subrange(i, i + 1)[0] == key[i]);
        assert(key.contains(key[i]));
    }
    text::law_cut_at_first(key, "="@, value);
    assert(line =~= key + "="@ + value);
    assert forall|i: int| 0 <= i && i + "="@.len() <= key.len() implies #[trigger] key.subrange(
        i,
        i + "="@.len(),
    ) != "="@ by {
        assert(key.subrange(i, i + 1)[0] == key[i]);
        assert(key.contains(key[i]));
    }
    text::law_no_cut(key, "="@);
}

/// A line whose first character, white space aside, is `#` sets nothing; any other
/// line is read as a setting.
pub proof fn law_comments(space: Seq<char>, c: char, rest: Seq<char>)
    requires
        forall|i: int| 0 <= i < space.len() ==> text::white(#[trigger] space[i]),
        !text::white(c),
    ensures
        c == '#' ==> entry(space + seq![c] + rest) is None,
        c != '#' ==> entry(space + seq![c] + rest) == key_value(space + seq![c] + rest),
        entry(space) == key_value(space),
{
    reveal_strlit("#");
    let line = space + seq![c] + rest;
    assert(line =~= space + (seq![c] + rest));
    text::lemma_skip_leading(space, seq![c] + rest);
    text::lemma_skip_leading(space, Seq::empty());
    assert(space + Seq::<char>::empty() =~= space);
    let body = seq![c] + rest;
    assert(body.take(1) =~= seq![c]);
    assert("#"@ =~= seq!['#']);
    assert(seq![c][0] == c);
    if comment(line) {
        assert(body.take(1)[0] == '#');
    }
}

/// The settings that are known, spelled out.
pub proof fn law_known_settings(line: Seq<char>)
    ensures
        known_setting(line) <==> {
            ||| entry(line) == Some(("mode"@, "sidebar"@))
            ||| entry(line) == Some(("mode"@, "agents-panel"@))
            ||| entry(line) == Some(("clean_checkmark"@, "true"@))
            ||| entry(line) == Some(("clean_checkmark"@, "false"@))
            ||| (entry(line) matches Some((key, _)) && key == "interval_seconds"@)
        },
        default_config().mode == Mode::AgentsPanel,
        default_config().interval_seconds == 5,
        default_config().clean_checkmark,
{
}

/// The values of `interval_seconds` are collected in order, and no others.
pub proof fn law_interval_values(text: Seq<char>, line: Seq<char>)
    requires
        !line.contains('\n'),
    ensures
        ({
            let before = interval_values(text::split(text, '\n'));
            let after = interval_values(text::split(text + seq!['\n'] + line, '\n'));
            match entry(line) {
                Some((key, value)) => if key == "interval_seconds"@ {
                    after == before.push(value)
                } else {
                    after == before
                },
                None => after == before,
            }
        }),
        interval_values(text::split(Seq::empty(), '\n')).len() == 0,
{
    text::lemma_split_append(text, line, '\n');
    let lines = text::split(text, '\n');
    assert(text + seq!['\n'] + line =~= text.push('\n') + line);
    assert(lines.push(line).drop_last() =~= lines);
    let none = Seq::<char>::empty();
    let one = text::split(none, '\n');
    assert(one =~= seq![none]);
    law_settings(none, none);
    assert(one.drop_last() =~= Seq::<Seq<char>>::empty());
    assert(entry(one.last()) is None);
    assert(interval_values(one.drop_last()).len() == 0);
}

/// A reading counts exactly when it is a number of at least one second.
pub proof fn law_readings(readings: Seq<Option<u64>>, reading: Option<u64>)
    ensures
        interval_after(Seq::empty()) == 5,
        interval_after(readings.push(reading)) == if reading is Some && reading->0 >= 1 {
            reading->0
        } else {
            interval_after(readings)
        },
        bad_reading(reading) <==> reading is None || reading->0 == 0,
{
    assert(readings.push(reading).drop_last() =~= readings);
}

/// Unset and empty both read as absent; the id falls back to the plugin's own.
pub proof fn law_environment(value: &str)
    ensures
        set_value(None) is None,
        value@.len() == 0 ==> set_value(Some(value)) is None && id_text(Some(value))
            == "ez-corp.git-status"@,
        value@.len() > 0 ==> set_value(Some(value)) == Some(value@) && id_text(Some(value))
            == value@,
        id_text(None) == "ez-corp.git-status"@,
{
}

/// Only `interval_seconds` lines have readings: those beyond them count for nothing,
/// and none touches the mode or the check mark.
pub proof fn law_surplus_readings(
    text: Seq<char>,
    readings: Seq<Option<u64>>,
    others: Seq<Option<u64>>,
)
    ensures
        configured(text, readings).mode == configured(text, others).mode,
        configured(text, readings).clean_checkmark == configured(text, others).clean_checkmark,
        configured(text, readings).interval_seconds == interval_after(readings) || readings.len()
            > interval_values(text::split(text, '\n')).len(),
        ({
            let n = interval_values(text::split(text, '\n')).len();
            readings.len() >= n ==> configured(text, readings) == configured(
                text,
                readings.take(n as int),
            )
        }),
{
    let n = interval_values(text::split(text, '\n')).len();
    if readings.len() == n {
        assert(readings.take(n as int) =~= readings);
    }
}

/// Where a directory lies is said by its own path alone.
pub proof fn law_locations(path: String, name: Seq<char>)
    ensures
        Location::Given(path).is_given(name) <==> path@ == name,
        Location::Temp(path).is_temp(name) <==> path@ == name,
        Location::Home(path).is_home(name) <==> path@ == name,
        !Location::Given(path).is_temp(name) && !Location::Given(path).is_home(name),
        !Location::Temp(path).is_given(name) && !Location::Temp(path).is_home(name),
        !Location::Home(path).is_given(name) && !Location::Home(path).is_temp(name),
{
}

} // verus!
