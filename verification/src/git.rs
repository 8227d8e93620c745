//! Git working-tree status via `git status --porcelain=v1 --branch`.
//!
//! [`status_args`] says how `git` is run in a space's cwd, once per refresh, and
//! [`status`] parses what it printed (the stable porcelain-v1 format) into a
//! [`GitStatus`]. [`token`] reduces that to the compact sidebar string —
//! `+staged ~modified ?untracked !conflicts`, with zero-count parts omitted and a
//! clean tree yielding the empty string. [`status_token`] is what the updater
//! pushes: [`token`], plus [`CLEAN_MARK`] for a fully clean repo (nothing to
//! commit, push, or pull). Branch and ahead/behind are parsed for the
//! dashboard/JSON but deliberately kept OUT of [`token`]: the host already renders
//! the branch (and its ahead/behind arrows) on its own row, so the status row
//! shows only the work-tree.

use crate::model::GitStatus;
use crate::text;
use vstd::prelude::*;

verus! {

// ---- branch header ----------------------------------------------------------

/// A detached checkout.
pub open spec fn detached(header: Seq<char>) -> bool {
    text::has_prefix(header, "HEAD (no branch)"@)
}

/// A repository without any commit.
pub open spec fn unborn(header: Seq<char>) -> bool {
    text::has_prefix(header, "No commits yet on "@)
}

/// The branch that a header body names: `HEAD` when detached, the branch to come
/// in a fresh repository, else the name before the upstream and the tracking
/// suffix.
pub open spec fn header_branch(header: Seq<char>) -> Seq<char> {
    if detached(header) {
        "HEAD"@
    } else if unborn(header) {
        text::trimmed(header.skip("No commits yet on "@.len() as int))
    } else {
        text::trimmed(text::before(text::before(header, " ["@), "..."@))
    }
}

/// The comma-separated parts of the tracking suffix; none where there is none.
pub open spec fn tracking_parts(header: Seq<char>) -> Seq<Seq<char>> {
    if detached(header) || unborn(header) {
        Seq::empty()
    } else {
        match text::cut(header, " ["@) {
            Some((_, t)) => text::split(text::drop_all_last(t, ']'), ','),
            None => Seq::empty(),
        }
    }
}

/// The number that the last part starting with `word` gives (zero if it is not a
/// `u32`), or `prev` where no part starts with it.
pub open spec fn last_count(parts: Seq<Seq<char>>, word: Seq<char>, prev: u32) -> u32
    decreases parts.len(),
{
    if parts.len() == 0 {
        prev
    } else {
        let part = text::trimmed(parts.last());
        if text::has_prefix(part, word) {
            match text::read_u32(text::trimmed(part.skip(word.len() as int))) {
                Some(n) => n,
                None => 0,
            }
        } else {
            last_count(parts.drop_last(), word, prev)
        }
    }
}

/// The `ahead` count after a header, from the one before it.
pub open spec fn header_ahead(header: Seq<char>, prev: u32) -> u32 {
    last_count(tracking_parts(header), "ahead "@, prev)
}

/// The `behind` count after a header, from the one before it.
pub open spec fn header_behind(header: Seq<char>, prev: u32) -> u32 {
    last_count(tracking_parts(header), "behind "@, prev)
}

/// Parse the `## ` header body into branch + ahead/behind.
///
/// Forms: `main...origin/main [ahead 1, behind 2]`, `main...origin/main [gone]`,
/// bare `main` (no upstream), `HEAD (no branch)` (detached), and
/// `No commits yet on main` (fresh repo).
pub fn parse_branch_header(header: &str, g: &mut GitStatus)
    ensures
        final(g).branch@ == header_branch(header@),
        final(g).ahead == header_ahead(header@, old(g).ahead),
        final(g).behind == header_behind(header@, old(g).behind),
        final(g).is_repo == old(g).is_repo,
        final(g).staged == old(g).staged,
        final(g).modified == old(g).modified,
        final(g).untracked == old(g).untracked,
        final(g).conflicts == old(g).conflicts,
{
    if text::starts_with(header, "HEAD (no branch)") {
        g.branch = String::from_str("HEAD");
        return;
    }
    if let Some(rest) = text::strip_prefix(header, "No commits yet on ") {
        g.branch = String::from_str(text::trim(rest));
        return;
    }
    // Split off the optional " [ahead .., behind ..]" tracking suffix.
    let names = text::before_first(header, " [");
    // Local branch is the part before "...<upstream>".
    g.branch = String::from_str(text::trim(text::before_first(names, "...")));
    if let Some((_, t)) = text::split_once(header, " [") {
        let parts = text::split_on(text::trim_end_matches(t, ']'), ',');
        let ghost all = text::views(parts@);
        assert(all == tracking_parts(header@));
        let mut i: usize = 0;
        assert(all.take(0) =~= Seq::<Seq<char>>::empty());
        while i < parts.len()
            invariant
                all == text::views(parts@),
                i <= parts@.len(),
                g.ahead == last_count(all.take(i as int), "ahead "@, old(g).ahead),
                g.behind == last_count(all.take(i as int), "behind "@, old(g).behind),
                g.branch@ == header_branch(header@),
                g.is_repo == old(g).is_repo,
                g.staged == old(g).staged,
                g.modified == old(g).modified,
                g.untracked == old(g).untracked,
                g.conflicts == old(g).conflicts,
            decreases parts@.len() - i,
        {
            let part = text::trim(parts[i].as_str());
            proof {
                assert(all.take(i + 1).drop_last() =~= all.take(i as int));
                assert(all.take(i + 1).last() == parts@[i as int]@);
                reveal_strlit("ahead ");
                reveal_strlit("behind ");
                if text::has_prefix(part@, "ahead "@) && text::has_prefix(part@, "behind "@) {
                    assert(part@.take("ahead "@.len() as int)[0] == 'a');
                    assert(part@.take("behind "@.len() as int)[0] == 'b');
                }
            }
            if let Some(n) = text::strip_prefix(part, "ahead ") {
                g.ahead = text::parse_u32(text::trim(n)).unwrap_or(0);
            } else if let Some(n) = text::strip_prefix(part, "behind ") {
                g.behind = text::parse_u32(text::trim(n)).unwrap_or(0);
            }
            i += 1;
        }
        assert(all.take(i as int) =~= all);
    }
}

// ---- porcelain body ---------------------------------------------------------

/// A `## ` branch line.
pub open spec fn header_line(line: Seq<char>) -> bool {
    text::has_prefix(line, "## "@)
}

/// The body of a branch line.
pub open spec fn header_body(line: Seq<char>) -> Seq<char> {
    line.skip("## "@.len() as int)
}

/// An `XY <path>` line: not a branch line, and at least two bytes long.
pub open spec fn entry_line(line: Seq<char>) -> bool {
    !header_line(line) && vstd::utf8::encode_utf8(line).len() >= 2
}

/// The index (staged) column of an entry.
pub open spec fn column_x(line: Seq<char>) -> u8 {
    vstd::utf8::encode_utf8(line)[0]
}

/// The work-tree column of an entry.
pub open spec fn column_y(line: Seq<char>) -> u8 {
    vstd::utf8::encode_utf8(line)[1]
}

/// `??`: an untracked path.
pub open spec fn untracked_line(line: Seq<char>) -> bool {
    entry_line(line) && column_x(line) == '?' as u8 && column_y(line) == '?' as u8
}

/// An unmerged path: `U` in either column, or `AA`, or `DD`.
pub open spec fn conflict_line(line: Seq<char>) -> bool {
    let (x, y) = (column_x(line), column_y(line));
    entry_line(line) && (x == 'U' as u8 || y == 'U' as u8 || (x == 'A' as u8 && y == 'A' as u8) || (x == 'D' as u8 && y
        == 'D' as u8))
}

/// A path with index changes that is neither untracked nor unmerged.
pub open spec fn staged_line(line: Seq<char>) -> bool {
    entry_line(line) && !untracked_line(line) && !conflict_line(line) && column_x(line) != ' ' as u8
}

/// A path with work-tree changes that is neither untracked nor unmerged.
pub open spec fn modified_line(line: Seq<char>) -> bool {
    entry_line(line) && !untracked_line(line) && !conflict_line(line) && column_y(line) != ' ' as u8
}

/// How many of `lines` are of the given class.
pub open spec fn tally(lines: Seq<Seq<char>>, class: spec_fn(Seq<char>) -> bool) -> nat
    decreases lines.len(),
{
    if lines.len() == 0 {
        0
    } else {
        tally(lines.drop_last(), class) + if class(lines.last()) {
            1nat
        } else {
            0
        }
    }
}

/// The branch named by the last branch line; empty where there is none.
pub open spec fn branch_after(lines: Seq<Seq<char>>) -> Seq<char>
    decreases lines.len(),
{
    if lines.len() == 0 {
        Seq::empty()
    } else if header_line(lines.last()) {
        header_branch(header_body(lines.last()))
    } else {
        branch_after(lines.drop_last())
    }
}

/// The `ahead` count after all the branch lines, in order.
pub open spec fn ahead_after(lines: Seq<Seq<char>>) -> u32
    decreases lines.len(),
{
    if lines.len() == 0 {
        0
    } else if header_line(lines.last()) {
        header_ahead(header_body(lines.last()), ahead_after(lines.drop_last()))
    } else {
        ahead_after(lines.drop_last())
    }
}

/// The `behind` count after all the branch lines, in order.
pub open spec fn behind_after(lines: Seq<Seq<char>>) -> u32
    decreases lines.len(),
{
    if lines.len() == 0 {
        0
    } else if header_line(lines.last()) {
        header_behind(header_body(lines.last()), behind_after(lines.drop_last()))
    } else {
        behind_after(lines.drop_last())
    }
}

/// How many values a `u32` counter runs through before it wraps.
pub open spec fn counter_range() -> nat {
    0x1_0000_0000
}

/// `g` summarises the porcelain lines: a repository, its branch and divergence
/// from the branch lines, and each counter the number of lines of its class (in
/// `u32` arithmetic, which wraps).
pub open spec fn summarises(g: GitStatus, lines: Seq<Seq<char>>) -> bool {
    &&& g.is_repo
    &&& g.branch@ == branch_after(lines)
    &&& g.ahead == ahead_after(lines)
    &&& g.behind == behind_after(lines)
    &&& g.staged as nat == tally(lines, |l: Seq<char>| staged_line(l)) % counter_range()
    &&& g.modified as nat == tally(lines, |l: Seq<char>| modified_line(l)) % counter_range()
    &&& g.untracked as nat == tally(lines, |l: Seq<char>| untracked_line(l)) % counter_range()
    &&& g.conflicts as nat == tally(lines, |l: Seq<char>| conflict_line(l)) % counter_range()
}

/// Adds one porcelain line to the summary of the lines before it.
fn add_line(line: &str, g: &mut GitStatus, Ghost(seen): Ghost<Seq<Seq<char>>>)
    requires
        summarises(*old(g), seen),
    ensures
        summarises(*final(g), seen.push(line@)),
{
    let ghost now = seen.push(line@);
    assert(now.drop_last() =~= seen);
    if let Some(header) = text::strip_prefix(line, "## ") {
        parse_branch_header(header, g);
        return;
    }
    let bytes = line.as_bytes();
    if bytes.len() < 2 {
        return;
    }
    let x: u8 = bytes[0];
    let y: u8 = bytes[1];
    if x == '?' as u8 && y == '?' as u8 {
        g.untracked = g.untracked.wrapping_add(1);
        return;
    }
    if x == 'U' as u8 || y == 'U' as u8 || (x == 'A' as u8 && y == 'A' as u8) || (x == 'D' as u8 && y == 'D' as u8) {
        g.conflicts = g.conflicts.wrapping_add(1);
        return;
    }
    if x != ' ' as u8 {
        g.staged = g.staged.wrapping_add(1);
    }
    if y != ' ' as u8 {
        g.modified = g.modified.wrapping_add(1);
    }
}

/// Parse `git status --porcelain=v1 --branch` output into a [`GitStatus`].
///
/// Line 1 is the `## <branch-info>` header; every other line is an `XY <path>`
/// entry where `X` is the index (staged) state and `Y` the worktree state.
/// Classification, in order: `??` untracked, unmerged (`U` in either column, or
/// `AA`/`DD`), then any non-space `X` counts as staged and any non-space `Y` as
/// modified (a file can be both).
pub fn parse_porcelain(text: &str) -> (g: GitStatus)
    ensures
        summarises(g, text::lines(text@)),
{
    let lines = text::lines_of(text);
    let ghost all = text::lines(text@);
    let mut g = GitStatus::default();
    g.is_repo = true;
    let mut i: usize = 0;
    assert(all.take(0) =~= Seq::<Seq<char>>::empty());
    assert(g.branch@ =~= Seq::<char>::empty());
    while i < lines.len()
        invariant
            all == text::views(lines@),
            i <= lines@.len(),
            summarises(g, all.take(i as int)),
        decreases lines@.len() - i,
    {
        assert(all.take(i + 1) =~= all.take(i as int).push(lines@[i as int]@));
        add_line(lines[i].as_str(), &mut g, Ghost(all.take(i as int)));
        i += 1;
    }
    assert(all.take(i as int) =~= all);
    g
}

// ---- running git ------------------------------------------------------------

/// What `String::from_utf8_lossy` makes of a run of bytes.
pub uninterp spec fn utf8_lossy(bytes: Seq<u8>) -> Seq<char>;

/// `String::from_utf8_lossy`: the bytes decoded as UTF-8, each invalid sequence
/// replaced by U+FFFD. The result depends on the bytes alone; valid UTF-8 is
/// decoded as it stands. Where the replacement characters go in invalid input is
/// not stated.
#[verifier::external_body]
fn lossy_text(bytes: &[u8]) -> (s: String)
    ensures
        s@ == utf8_lossy(bytes@),
        vstd::utf8::valid_utf8(bytes@) ==> s@ == vstd::utf8::decode_utf8(bytes@),
{
    String::from_utf8_lossy(bytes).into_owned()
}

/// The command line with which `git` is asked about `cwd`, without the program.
pub open spec fn git_command(cwd: Seq<char>) -> Seq<Seq<char>> {
    seq![
        "-C"@,
        cwd,
        "--no-optional-locks"@,
        "status"@,
        "--porcelain=v1"@,
        "--branch"@,
        "--untracked-files=normal"@,
    ]
}

/// The arguments with which `git` is run for a space, or `None` where there is
/// nothing to run: a missing or empty cwd.
///
/// `--no-optional-locks` keeps this read-only probe from taking the index lock
/// (so it never contends with the user's own git commands).
pub fn status_args(cwd: Option<&str>) -> (r: Option<Vec<String>>)
    ensures
        r is Some <==> (cwd matches Some(c) && c@.len() > 0),
        r matches Some(args) ==> text::views(args@) == git_command(cwd->0@),
{
    match cwd {
        Some(c) => {
            if c.is_empty() {
                return None;
            }
            let mut args: Vec<String> = Vec::new();
            args.push(String::from_str("-C"));
            args.push(String::from_str(c));
            args.push(String::from_str("--no-optional-locks"));
            args.push(String::from_str("status"));
            args.push(String::from_str("--porcelain=v1"));
            args.push(String::from_str("--branch"));
            args.push(String::from_str("--untracked-files=normal"));
            assert(text::views(args@) =~= git_command(c@));
            Some(args)
        },
        None => None,
    }
}

/// `g` is what is known of the repository at `cwd` after `git status` printed
/// `output` there: the summary of what it printed (valid UTF-8 read as it stands),
/// or nothing where there was nowhere to run it or it failed.
pub open spec fn reported(
    g: GitStatus,
    cwd: Option<Seq<char>>,
    output: Option<Seq<u8>>,
) -> bool {
    match (cwd, output) {
        (Some(c), Some(out)) => if c.len() > 0 {
            &&& summarises(g, text::lines(utf8_lossy(out)))
            &&& vstd::utf8::valid_utf8(out) ==> summarises(
                g,
                text::lines(vstd::utf8::decode_utf8(out)),
            )
        } else {
            g.blank()
        },
        _ => g.blank(),
    }
}

/// The view of optional text.
pub open spec fn opt_str(s: Option<&str>) -> Option<Seq<char>> {
    match s {
        Some(v) => Some(v@),
        None => None,
    }
}

/// The view of optional bytes.
pub open spec fn opt_bytes(b: Option<&[u8]>) -> Option<Seq<u8>> {
    match b {
        Some(v) => Some(v@),
        None => None,
    }
}

/// Summarise what `git status` printed for a space. `output` is its standard
/// output, or `None` when it could not be run or failed. A missing/empty cwd, a
/// non-repo dir, or any git failure yields the default (`is_repo = false`) — the
/// caller then surfaces nothing for that space.
pub fn status(cwd: Option<&str>, output: Option<&[u8]>) -> (g: GitStatus)
    ensures
        reported(g, opt_str(cwd), opt_bytes(output)),
{
    match cwd {
        Some(c) => {
            if c.is_empty() {
                return GitStatus::default();
            }
        },
        None => {
            return GitStatus::default();
        },
    }
    match output {
        Some(out) => parse_porcelain(lossy_text(out).as_str()),
        None => GitStatus::default(),
    }
}

// ---- tokens -----------------------------------------------------------------

/// The mark for a fully clean repo — nothing to commit, push, or pull.
pub const CLEAN_MARK: &'static str = "✓";

/// One part of the token: the mark and the count, omitted when the count is zero.
pub open spec fn token_part(mark: char, n: u32) -> Seq<Seq<char>> {
    if n > 0 {
        seq![seq![mark] + text::decimal(n as nat)]
    } else {
        Seq::empty()
    }
}

/// The parts of the token, in their fixed order.
pub open spec fn token_parts(g: GitStatus) -> Seq<Seq<char>> {
    token_part('+', g.staged) + token_part('~', g.modified) + token_part('?', g.untracked)
        + token_part('!', g.conflicts)
}

/// The compact sidebar token.
pub open spec fn token_text(g: GitStatus) -> Seq<char> {
    if g.clean() {
        Seq::empty()
    } else {
        text::join(token_parts(g), " "@)
    }
}

/// The status that the updater surfaces.
pub open spec fn status_text(g: GitStatus) -> Seq<char> {
    if g.fully_clean() {
        CLEAN_MARK@
    } else {
        token_text(g)
    }
}

/// Appends the part for one counter to the parts so far.
fn push_part(parts: &mut Vec<String>, mark: char, n: u32)
    ensures
        text::views(final(parts)@) == text::views(old(parts)@) + token_part(mark, n),
{
    let ghost prev = parts@;
    if n > 0 {
        let mut part = String::new();
        part.push(mark);
        text::push_decimal(&mut part, n as u64);
        assert(part@ =~= seq![mark] + text::decimal(n as nat));
        parts.push(part);
    }
    assert(text::views(parts@) =~= text::views(prev) + token_part(mark, n));
}

/// The compact sidebar token: `"+<s> ~<m> ?<u> !<c>"` with zero parts omitted.
/// Returns `""` for a clean (or non-repo) tree so the sidebar shows no row.
pub fn token(g: &GitStatus) -> (r: String)
    ensures
        r@ == token_text(*g),
{
    if g.is_clean() {
        return String::new();
    }
    let mut parts: Vec<String> = Vec::new();
    push_part(&mut parts, '+', g.staged);
    push_part(&mut parts, '~', g.modified);
    push_part(&mut parts, '?', g.untracked);
    push_part(&mut parts, '!', g.conflicts);
    assert(text::views(parts@) =~= token_parts(*g));
    text::join_with(&parts, " ")
}

/// The status string the updater surfaces for a space: [`token`] for a dirty
/// tree, [`CLEAN_MARK`] for a fully clean repo, and `""` otherwise (non-repo, or
/// clean-but-diverged — the ahead/behind arrows are the host branch row's job).
pub fn status_token(g: &GitStatus) -> (r: String)
    ensures
        r@ == status_text(*g),
{
    if g.is_fully_clean() {
        return String::from_str(CLEAN_MARK);
    }
    token(g)
}

// ---- severity ---------------------------------------------------------------

/// How urgent a status is; each severity has its own colour.
#[derive(Debug, Clone, Copy, PartialEq, Eq, Structural)]
pub enum Severity {
    /// Nothing to commit (green).
    Clean,
    /// Changes, none of them in conflict (yellow).
    Dirty,
    /// Unmerged paths (red); outranks other changes.
    Conflict,
}

/// The severity of a status.
pub open spec fn severity_of(g: GitStatus) -> Severity {
    if g.conflicts > 0 {
        Severity::Conflict
    } else if !g.clean() {
        Severity::Dirty
    } else {
        Severity::Clean
    }
}

/// The severity of a status: conflicts first, then any other change.
pub fn severity(g: &GitStatus) -> (r: Severity)
    ensures
        r == severity_of(*g),
{
    if g.conflicts > 0 {
        Severity::Conflict
    } else if !g.is_clean() {
        Severity::Dirty
    } else {
        Severity::Clean
    }
}

// ---- laws -------------------------------------------------------------------

/// The part for a counter shows it and holds no space.
proof fn lemma_token_part(mark: char, n: u32)
    requires
        mark != ' ',
    ensures
        n > 0 ==> token_part(mark, n).len() == 1,
        n == 0 ==> token_part(mark, n).len() == 0,
        forall|i: int|
            0 <= i < token_part(mark, n).len() ==> {
                let p = #[trigger] token_part(mark, n)[i];
                p.len() > 1 && p[0] == mark && p.skip(1) == text::decimal(n as nat) && !p.contains(
                    ' ',
                )
            },
{
    if n > 0 {
        text::lemma_decimal_value(n as nat);
        let d = text::decimal(n as nat);
        let p = token_part(mark, n)[0];
        assert(p.skip(1) =~= d);
        assert forall|k: int| 0 <= k < p.len() implies p[k] != ' ' by {
            if k > 0 {
                assert(text::digit(d[k - 1]));
            }
        }
    }
}

/// What the parts show for a mark: the sum of the numbers behind it.
spec fn shown(parts: Seq<Seq<char>>, mark: char) -> nat
    decreases parts.len(),
{
    if parts.len() == 0 {
        0
    } else {
        shown(parts.drop_last(), mark) + if parts.last()[0] == mark {
            text::digits_value(parts.last().skip(1))
        } else {
            0
        }
    }
}

proof fn lemma_shown_concat(a: Seq<Seq<char>>, b: Seq<Seq<char>>, mark: char)
    ensures
        shown(a + b, mark) == shown(a, mark) + shown(b, mark),
    decreases b.len(),
{
    if b.len() == 0 {
        assert(a + b =~= a);
    } else {
        assert((a + b).drop_last() =~= a + b.drop_last());
        lemma_shown_concat(a, b.drop_last(), mark);
    }
}

proof fn lemma_shown_part(own: char, n: u32, mark: char)
    requires
        own != ' ',
    ensures
        shown(token_part(own, n), mark) == if own == mark {
            n as nat
        } else {
            0
        },
{
    lemma_token_part(own, n);
    text::lemma_decimal_value(n as nat);
    let p = token_part(own, n);
    if n > 0 {
        assert(p.drop_last() =~= Seq::<Seq<char>>::empty());
        assert(shown(p.drop_last(), mark) == 0);
        assert(p.last() == p[0]);
    }
}

/// The token shows every counter behind its own mark.
proof fn lemma_token_shows(g: GitStatus)
    ensures
        shown(token_parts(g), '+') == g.staged,
        shown(token_parts(g), '~') == g.modified,
        shown(token_parts(g), '?') == g.untracked,
        shown(token_parts(g), '!') == g.conflicts,
{
    let (a, b, c, d) = (
        token_part('+', g.staged),
        token_part('~', g.modified),
        token_part('?', g.untracked),
        token_part('!', g.conflicts),
    );
    assert forall|mark: char| #[trigger] shown(token_parts(g), mark) == shown(a, mark) + shown(
        b,
        mark,
    ) + shown(c, mark) + shown(d, mark) by {
        lemma_shown_concat(a, b, mark);
        lemma_shown_concat(a + b, c, mark);
        lemma_shown_concat(a + b + c, d, mark);
    }
    assert forall|mark: char|
        #![trigger shown(a, mark)]
        shown(a, mark) == (if mark == '+' { g.staged as nat } else { 0 }) && shown(b, mark) == (
        if mark == '~' { g.modified as nat } else { 0 }) && shown(c, mark) == (if mark == '?' {
            g.untracked as nat
        } else {
            0
        }) && shown(d, mark) == (if mark == '!' { g.conflicts as nat } else { 0 }) by {
        lemma_shown_part('+', g.staged, mark);
        lemma_shown_part('~', g.modified, mark);
        lemma_shown_part('?', g.untracked, mark);
        lemma_shown_part('!', g.conflicts, mark);
    }
}

/// Every part of the token holds a mark and digits, and no space.
proof fn lemma_token_parts(g: GitStatus)
    ensures
        forall|i: int|
            0 <= i < token_parts(g).len() ==> {
                let p = #[trigger] token_parts(g)[i];
                p.len() > 1 && (p[0] == '+' || p[0] == '~' || p[0] == '?' || p[0] == '!')
                    && !p.contains(' ')
            },
        g.staged > 0 || g.modified > 0 || g.untracked > 0 || g.conflicts > 0 ==> token_parts(
            g,
        ).len() > 0,
{
    lemma_token_part('+', g.staged);
    lemma_token_part('~', g.modified);
    lemma_token_part('?', g.untracked);
    lemma_token_part('!', g.conflicts);
}

/// A dirty tree's token starts with one of the four marks.
proof fn lemma_token_starts(g: GitStatus)
    requires
        !g.clean(),
    ensures
        token_text(g).len() > 1,
        token_text(g)[0] == '+' || token_text(g)[0] == '~' || token_text(g)[0] == '?' || token_text(
            g,
        )[0] == '!',
{
    lemma_token_parts(g);
    text::lemma_join_starts(token_parts(g), " "@);
    let p = token_parts(g)[0];
    assert(token_text(g).take(p.len() as int)[0] == p[0]);
}

/// The token is empty exactly for a clean (or non-repo) tree.
pub proof fn law_token_empty_iff_clean(g: GitStatus)
    ensures
        token_text(g).len() == 0 <==> g.clean(),
{
    if !g.clean() {
        lemma_token_starts(g);
    }
}

/// The surfaced status is the check mark exactly for a fully clean repository,
/// and empty exactly for a non-repo or a clean tree that has diverged.
pub proof fn law_check_mark_iff_fully_clean(g: GitStatus)
    ensures
        status_text(g) == CLEAN_MARK@ <==> g.fully_clean(),
        status_text(g).len() == 0 <==> !g.is_repo || (g.clean() && (g.ahead > 0 || g.behind > 0)),
        !g.clean() ==> status_text(g) == token_text(g),
{
    reveal_strlit("✓");
    assert(CLEAN_MARK@.len() == 1 && CLEAN_MARK@[0] == '✓');
    if !g.clean() {
        lemma_token_starts(g);
    }
}

/// The token tells the whole work-tree state: two repositories with the same
/// token have the same four counts.
pub proof fn law_token_determines_counts(g: GitStatus, h: GitStatus)
    requires
        g.is_repo,
        h.is_repo,
        token_text(g) == token_text(h),
    ensures
        g.staged == h.staged,
        g.modified == h.modified,
        g.untracked == h.untracked,
        g.conflicts == h.conflicts,
{
    law_token_empty_iff_clean(g);
    law_token_empty_iff_clean(h);
    if !g.clean() {
        reveal_strlit(" ");
        assert(" "@ =~= seq![' ']);
        lemma_token_parts(g);
        lemma_token_parts(h);
        text::lemma_join_split(token_parts(g), ' ');
        text::lemma_join_split(token_parts(h), ' ');
        lemma_token_shows(g);
        lemma_token_shows(h);
    }
}

/// Every line is of at most one kind: a branch line is no entry, an untracked
/// path is not in conflict, and neither is also counted as staged or modified;
/// any other entry with a non-space column is counted.
pub proof fn law_lines_counted_once(line: Seq<char>)
    ensures
        header_line(line) ==> !untracked_line(line) && !conflict_line(line) && !staged_line(line)
            && !modified_line(line),
        untracked_line(line) ==> !conflict_line(line) && !staged_line(line) && !modified_line(line),
        conflict_line(line) ==> !staged_line(line) && !modified_line(line),
        entry_line(line) && !untracked_line(line) && !conflict_line(line) ==> (staged_line(line)
            <==> column_x(line) != ' ' as u8) && (modified_line(line) <==> column_y(line)
            != ' ' as u8),
{
}

/// A class of lines is counted exactly where a line of it occurs.
proof fn lemma_tally_zero(lines: Seq<Seq<char>>, class: spec_fn(Seq<char>) -> bool)
    ensures
        tally(lines, class) == 0 <==> forall|i: int|
            0 <= i < lines.len() ==> !class(#[trigger] lines[i]),
        tally(lines, class) <= lines.len(),
    decreases lines.len(),
{
    if lines.len() > 0 {
        let init = lines.drop_last();
        lemma_tally_zero(init, class);
        assert forall|i: int| 0 <= i < init.len() implies init[i] == #[trigger] lines[i] by {}
        if tally(lines, class) == 0 {
            assert forall|i: int| 0 <= i < lines.len() implies !class(#[trigger] lines[i]) by {
                if i < init.len() {
                    assert(!class(init[i]));
                }
            }
        } else if class(lines.last()) {
            assert(class(lines[lines.len() - 1]));
        } else {
            let i = choose|i: int| 0 <= i < init.len() && class(#[trigger] init[i]);
            assert(class(lines[i]));
        }
    }
}

/// A summary is clean exactly when the output lists no changed path (as long as
/// the number of lines fits the counters).
pub proof fn law_clean_iff_no_change_listed(g: GitStatus, lines: Seq<Seq<char>>)
    requires
        summarises(g, lines),
        lines.len() < counter_range(),
    ensures
        g.clean() <==> forall|i: int|
            0 <= i < lines.len() ==> {
                let l = #[trigger] lines[i];
                !untracked_line(l) && !conflict_line(l) && !staged_line(l) && !modified_line(l)
            },
{
    let s = |l: Seq<char>| staged_line(l);
    let m = |l: Seq<char>| modified_line(l);
    let u = |l: Seq<char>| untracked_line(l);
    let c = |l: Seq<char>| conflict_line(l);
    lemma_tally_zero(lines, s);
    lemma_tally_zero(lines, m);
    lemma_tally_zero(lines, u);
    lemma_tally_zero(lines, c);
    if g.clean() {
        assert forall|i: int| 0 <= i < lines.len() implies {
            let l = #[trigger] lines[i];
            !untracked_line(l) && !conflict_line(l) && !staged_line(l) && !modified_line(l)
        } by {
            assert(!s(lines[i]) && !m(lines[i]) && !u(lines[i]) && !c(lines[i]));
        }
    } else {
        assert(tally(lines, s) > 0 || tally(lines, m) > 0 || tally(lines, u) > 0 || tally(lines, c)
            > 0);
    }
}

/// Where there is no repository there is nothing to show: no branch, no counts, and
/// an empty status.
pub proof fn law_non_repo_shows_nothing(
    g: GitStatus,
    cwd: Option<Seq<char>>,
    output: Option<Seq<u8>>,
)
    requires
        reported(g, cwd, output),
        !g.is_repo,
    ensures
        g.blank(),
        status_text(g).len() == 0,
        token_text(g).len() == 0,
{
}

// ---- the branch header that git prints --------------------------------------

/// A ref name as git allows it, as far as the header's syntax goes: not empty, no
/// white space, no two dots in a row, no dot at the end.
pub open spec fn ref_name(s: Seq<char>) -> bool {
    &&& s.len() > 0
    &&& forall|i: int| 0 <= i < s.len() ==> !text::white(#[trigger] s[i])
    &&& forall|i: int, j: int|
        0 <= i && j == i + 1 && j < s.len() ==> !(#[trigger] s[i] == '.' && #[trigger] s[j] == '.')
    &&& s.last() != '.'
}

/// The parts of the tracking suffix that git prints for these counts.
pub open spec fn tracking_body(ahead: u32, behind: u32) -> Seq<char> {
    let a = "ahead "@ + text::decimal(ahead as nat);
    let b = "behind "@ + text::decimal(behind as nat);
    if ahead > 0 && behind > 0 {
        a + ", "@ + b
    } else if ahead > 0 {
        a
    } else {
        b
    }
}

/// The header body that git prints for a branch with an upstream:
/// `<branch>...<upstream> [ahead <a>, behind <b>]`, zero counts omitted.
pub open spec fn header_text(
    branch: Seq<char>,
    upstream: Seq<char>,
    ahead: u32,
    behind: u32,
) -> Seq<char> {
    let names = branch + "..."@ + upstream;
    if ahead > 0 || behind > 0 {
        names + " ["@ + tracking_body(ahead, behind) + "]"@
    } else {
        names
    }
}

/// A number in decimal reads as that number, and needs no trimming.
proof fn lemma_decimal_reads(n: u32)
    ensures
        text::trimmed(text::decimal(n as nat)) == text::decimal(n as nat),
        text::read_u32(text::decimal(n as nat)) == Some(n),
        text::decimal(n as nat).len() > 0,
        text::digit(text::decimal(n as nat).last()),
        !text::decimal(n as nat).contains(','),
{
    let d = text::decimal(n as nat);
    text::lemma_decimal_value(n as nat);
    assert(text::digit(d[0]) && text::digit(d.last()));
    text::lemma_trim_same(d);
    assert forall|i: int| 0 <= i < d.len() implies d[i] != ',' by {
        assert(text::digit(d[i]));
    }
}

/// A part `<word><n>` of the tracking suffix gives `n` for that word.
proof fn lemma_part_counts(part: Seq<char>, word: Seq<char>, n: u32)
    requires
        word.len() > 0,
        !text::white(word[0]),
        part == word + text::decimal(n as nat),
    ensures
        text::trimmed(part) == part,
        text::has_prefix(part, word),
        text::read_u32(text::trimmed(part.skip(word.len() as int))) == Some(n),
{
    lemma_decimal_reads(n);
    assert(part[0] == word[0]);
    assert(part.last() == text::decimal(n as nat).last());
    text::lemma_trim_same(part);
    assert(part.take(word.len() as int) =~= word);
    assert(part.skip(word.len() as int) =~= text::decimal(n as nat));
}

/// The parts of the suffix give the counts that it was printed for.
#[verifier::spinoff_prover]
proof fn lemma_body_counts(ahead: u32, behind: u32, a0: u32, b0: u32)
    requires
        ahead > 0 || behind > 0,
    ensures
        ({
            let parts = text::split(tracking_body(ahead, behind), ',');
            &&& last_count(parts, "ahead "@, a0) == if ahead > 0 {
                ahead
            } else {
                a0
            }
            &&& last_count(parts, "behind "@, b0) == if behind > 0 {
                behind
            } else {
                b0
            }
        }),
        tracking_body(ahead, behind).len() > 0,
        text::digit(tracking_body(ahead, behind).last()),
{
    reveal_strlit("ahead ");
    reveal_strlit("behind ");
    reveal_strlit(", ");
    let none = Seq::<Seq<char>>::empty();
    let (wa, wb) = ("ahead "@, "behind "@);
    let body = tracking_body(ahead, behind);
    let a = wa + text::decimal(ahead as nat);
    let b = wb + text::decimal(behind as nat);
    lemma_decimal_reads(ahead);
    lemma_decimal_reads(behind);
    lemma_part_counts(a, wa, ahead);
    lemma_part_counts(b, wb, behind);
    assert(!text::has_prefix(a, wb)) by {
        if text::has_prefix(a, wb) {
            assert(a.take(wb.len() as int)[0] == 'a');
        }
    }
    assert(!text::has_prefix(b, wa)) by {
        if text::has_prefix(b, wa) {
            assert(b.take(wa.len() as int)[0] == 'b');
        }
    }
    assert(!a.contains(',')) by {
        assert forall|i: int| 0 <= i < a.len() implies a[i] != ',' by {
            if i >= wa.len() {
                assert(text::decimal(ahead as nat).contains(text::decimal(ahead as nat)[i
                    - wa.len()]));
            }
        }
    }
    assert(!b.contains(',')) by {
        assert forall|i: int| 0 <= i < b.len() implies b[i] != ',' by {
            if i >= wb.len() {
                assert(text::decimal(behind as nat).contains(text::decimal(behind as nat)[i
                    - wb.len()]));
            }
        }
    }
    assert(text::join(seq![a], seq![',']) == a);
    assert(text::join(seq![b], seq![',']) == b);
    text::lemma_join_split(seq![a], ',');
    text::lemma_join_split(seq![b], ',');
    assert(seq![a].drop_last() =~= none);
    assert(seq![b].drop_last() =~= none);
    assert(last_count(none, wa, a0) == a0 && last_count(none, wb, b0) == b0);
    if ahead > 0 && behind > 0 {
        let tail = seq![' '] + b;
        assert forall|i: int| 0 <= i < tail.len() implies tail[i] != ',' by {
            if i > 0 {
                assert(b.contains(b[i - 1]));
            }
        }
        assert(body =~= a.push(',') + tail);
        text::lemma_split_append(a, tail, ',');
        let parts = seq![a].push(tail);
        assert(parts.drop_last() =~= seq![a]);
        assert(tail.skip(1) =~= b);
        assert(text::skip_white(tail) == text::skip_white(b));
        assert(text::trimmed(tail) == b);
        assert(last_count(seq![a], wa, a0) == ahead);
        assert(last_count(parts, wa, a0) == ahead);
        assert(last_count(parts, wb, b0) == behind);
        assert(body.last() == b.last());
    } else if ahead > 0 {
        assert(last_count(seq![a], wa, a0) == ahead);
        assert(last_count(seq![a], wb, b0) == b0);
    } else {
        assert(last_count(seq![b], wb, b0) == behind);
        assert(last_count(seq![b], wa, a0) == a0);
    }
}

/// A name of a branch and its upstream holds no space.
proof fn lemma_names_hold_no_space(branch: Seq<char>, upstream: Seq<char>)
    requires
        ref_name(branch),
        ref_name(upstream),
    ensures
        ({
            let names = branch + "..."@ + upstream;
            forall|i: int| 0 <= i < names.len() ==> #[trigger] names[i] != ' '
        }),
{
    reveal_strlit("...");
    let names = branch + "..."@ + upstream;
    assert forall|i: int| 0 <= i < names.len() implies #[trigger] names[i] != ' ' by {
        if i < branch.len() {
            assert(!text::white(branch[i]));
        } else if i >= branch.len() + 3 {
            assert(!text::white(upstream[i - branch.len() - 3]));
        }
    }
}

/// Text that starts with a space-free run longer than four characters is neither of
/// the special headers.
proof fn lemma_ordinary_header(names: Seq<char>, rest: Seq<char>)
    requires
        names.len() >= 5,
        forall|i: int| 0 <= i < names.len() ==> #[trigger] names[i] != ' ',
    ensures
        !detached(names + rest),
        !unborn(names + rest),
{
    reveal_strlit("HEAD (no branch)");
    reveal_strlit("No commits yet on ");
    let header = names + rest;
    if detached(header) {
        assert(header.take("HEAD (no branch)"@.len() as int)[4] == ' ');
        assert(names[4] == header[4]);
    }
    if unborn(header) {
        assert(header.take("No commits yet on "@.len() as int)[2] == ' ');
        assert(names[2] == header[2]);
    }
}

/// The names end where a tracking suffix starts.
proof fn lemma_names_cut(names: Seq<char>, suffix: Seq<char>)
    requires
        forall|i: int| 0 <= i < names.len() ==> #[trigger] names[i] != ' ',
    ensures
        text::cut(names + " ["@ + suffix, " ["@) == Some((names, suffix)),
        text::cut(names, " ["@) is None,
{
    reveal_strlit(" [");
    let header = names + " ["@ + suffix;
    let n = names.len() as int;
    text::lemma_find_least(header, " ["@, 0);
    text::lemma_find_least(names, " ["@, 0);
    assert(header.subrange(n, n + 2) =~= " ["@);
    assert(text::occurs_at(header, " ["@, n));
    let i = text::find_from(header, " ["@, 0)->0;
    assert(i == n) by {
        if i < n {
            assert(header.subrange(i, i + 2)[0] == ' ');
            assert(names[i] == header[i]);
        }
    }
    assert(header.take(n) =~= names);
    assert(header.skip(n + 2) =~= suffix);
    if text::find_from(names, " ["@, 0) is Some {
        let k = text::find_from(names, " ["@, 0)->0;
        assert(names.subrange(k, k + 2)[0] == ' ');
    }
}

/// The branch ends where the dots before the upstream start.
proof fn lemma_branch_cut(branch: Seq<char>, upstream: Seq<char>)
    requires
        ref_name(branch),
    ensures
        text::trimmed(text::before(branch + "..."@ + upstream, "..."@)) == branch,
{
    reveal_strlit("...");
    let names = branch + "..."@ + upstream;
    let b = branch.len() as int;
    text::lemma_find_least(names, "..."@, 0);
    assert(names.subrange(b, b + 3) =~= "..."@);
    assert(text::occurs_at(names, "..."@, b));
    let j = text::find_from(names, "..."@, 0)->0;
    assert(j == b) by {
        if j < b {
            assert(names.subrange(j, j + 3)[0] == '.' && names.subrange(j, j + 3)[1] == '.');
            assert(names[j] == branch[j]);
            if j + 1 < b {
                assert(names[j + 1] == branch[j + 1]);
            }
        }
    }
    assert(names.take(b) =~= branch);
    assert(!text::white(branch[0]) && !text::white(branch[b - 1]));
    text::lemma_trim_same(branch);
}

/// The closing bracket goes from a suffix that does not end in one.
proof fn lemma_bracket_dropped(body: Seq<char>)
    requires
        body.len() > 0,
        body.last() != ']',
    ensures
        text::drop_all_last(body.push(']'), ']') == body,
{
    assert(body.push(']').drop_last() =~= body);
    assert(text::drop_all_last(body, ']') == body);
}

/// Reading the header that git prints for a branch gives back the branch and the
/// divergence that it was printed for; a count that is not printed (zero) leaves the
/// one from before.
#[verifier::spinoff_prover]
pub proof fn law_header_gives_back_what_git_printed(
    branch: Seq<char>,
    upstream: Seq<char>,
    ahead: u32,
    behind: u32,
    a0: u32,
    b0: u32,
)
    requires
        ref_name(branch),
        ref_name(upstream),
    ensures
        ({
            let header = header_text(branch, upstream, ahead, behind);
            &&& header_branch(header) == branch
            &&& header_ahead(header, 0) == ahead
            &&& header_behind(header, 0) == behind
            &&& header_ahead(header, a0) == if ahead > 0 {
                ahead
            } else {
                a0
            }
            &&& header_behind(header, b0) == if behind > 0 {
                behind
            } else {
                b0
            }
        }),
{
    reveal_strlit("...");
    reveal_strlit("]");
    let names = branch + "..."@ + upstream;
    let none = Seq::<char>::empty();
    lemma_names_hold_no_space(branch, upstream);
    lemma_branch_cut(branch, upstream);
    if ahead > 0 || behind > 0 {
        let body = tracking_body(ahead, behind);
        let suffix = body + "]"@;
        let header = header_text(branch, upstream, ahead, behind);
        assert(header =~= names + " ["@ + suffix);
        assert(header =~= names + (" ["@ + suffix));
        lemma_ordinary_header(names, " ["@ + suffix);
        lemma_names_cut(names, suffix);
        lemma_body_counts(ahead, behind, 0, 0);
        lemma_body_counts(ahead, behind, a0, b0);
        assert(suffix =~= body.push(']'));
        lemma_bracket_dropped(body);
    } else {
        assert(names + none =~= names);
        lemma_ordinary_header(names, none);
        lemma_names_cut(names, none);
    }
}

/// The other headers that git prints: a branch without an upstream, one whose
/// upstream is gone, a branch to come in a fresh repository, and a detached
/// checkout (whatever follows).
pub proof fn law_other_headers(
    branch: Seq<char>,
    upstream: Seq<char>,
    rest: Seq<char>,
    a0: u32,
    b0: u32,
)
    requires
        ref_name(branch),
        ref_name(upstream),
    ensures
        header_branch(branch) == branch,
        header_ahead(branch, a0) == a0,
        header_behind(branch, b0) == b0,
        ({
            let gone = branch + "..."@ + upstream + " [gone]"@;
            &&& header_branch(gone) == branch
            &&& header_ahead(gone, a0) == a0
            &&& header_behind(gone, b0) == b0
        }),
        header_branch("No commits yet on "@ + branch) == branch,
        header_ahead("No commits yet on "@ + branch, a0) == a0,
        header_behind("No commits yet on "@ + branch, b0) == b0,
        header_branch("HEAD (no branch)"@ + rest) == "HEAD"@,
        header_ahead("HEAD (no branch)"@ + rest, a0) == a0,
        header_behind("HEAD (no branch)"@ + rest, b0) == b0,
{
    lemma_bare_header(branch, a0, b0);
    lemma_gone_header(branch, upstream, a0, b0);
    reveal_strlit("HEAD (no branch)");
    reveal_strlit("No commits yet on ");
    // A fresh repository.
    let fresh = "No commits yet on "@ + branch;
    assert(fresh.take("No commits yet on "@.len() as int) =~= "No commits yet on "@);
    assert(fresh.skip("No commits yet on "@.len() as int) =~= branch);
    assert(!detached(fresh)) by {
        if detached(fresh) {
            assert(fresh.take("HEAD (no branch)"@.len() as int)[0] == 'N');
        }
    }
    assert(!text::white(branch[0]) && !text::white(branch[branch.len() - 1]));
    text::lemma_trim_same(branch);
    // A detached checkout.
    let head = "HEAD (no branch)"@ + rest;
    assert(head.take("HEAD (no branch)"@.len() as int) =~= "HEAD (no branch)"@);
}

/// A branch without an upstream.
proof fn lemma_bare_header(branch: Seq<char>, a0: u32, b0: u32)
    requires
        ref_name(branch),
    ensures
        header_branch(branch) == branch,
        header_ahead(branch, a0) == a0,
        header_behind(branch, b0) == b0,
{
    reveal_strlit("...");
    reveal_strlit("HEAD (no branch)");
    reveal_strlit("No commits yet on ");
    assert forall|i: int| 0 <= i < branch.len() implies #[trigger] branch[i] != ' ' by {
        assert(!text::white(branch[i]));
    }
    assert(!detached(branch)) by {
        if detached(branch) {
            assert(branch.take("HEAD (no branch)"@.len() as int)[4] == ' ');
        }
    }
    assert(!unborn(branch)) by {
        if unborn(branch) {
            assert(branch.take("No commits yet on "@.len() as int)[2] == ' ');
        }
    }
    lemma_names_cut(branch, Seq::empty());
    text::lemma_find_least(branch, "..."@, 0);
    if text::find_from(branch, "..."@, 0) is Some {
        let i = text::find_from(branch, "..."@, 0)->0;
        assert(branch.subrange(i, i + 3)[0] == '.' && branch.subrange(i, i + 3)[1] == '.');
        assert(branch[i] == '.' && branch[i + 1] == '.');
    }
    assert(!text::white(branch[0]) && !text::white(branch[branch.len() - 1]));
    text::lemma_trim_same(branch);
}

/// A branch whose upstream is gone.
proof fn lemma_gone_header(branch: Seq<char>, upstream: Seq<char>, a0: u32, b0: u32)
    requires
        ref_name(branch),
        ref_name(upstream),
    ensures
        ({
            let gone = branch + "..."@ + upstream + " [gone]"@;
            &&& header_branch(gone) == branch
            &&& header_ahead(gone, a0) == a0
            &&& header_behind(gone, b0) == b0
        }),
{
    reveal_strlit("...");
    reveal_strlit(" [");
    reveal_strlit(" [gone]");
    reveal_strlit("ahead ");
    reveal_strlit("behind ");
    let names = branch + "..."@ + upstream;
    let gone = names + " [gone]"@;
    let body = seq!['g', 'o', 'n', 'e'];
    lemma_names_hold_no_space(branch, upstream);
    lemma_branch_cut(branch, upstream);
    lemma_ordinary_header(names, " [gone]"@);
    assert(gone =~= names + " ["@ + body.push(']'));
    lemma_names_cut(names, body.push(']'));
    lemma_bracket_dropped(body);
    assert(text::join(seq![body], seq![',']) == body);
    text::lemma_join_split(seq![body], ',');
    text::lemma_trim_same(body);
    let parts = seq![body];
    assert(parts.drop_last() =~= Seq::<Seq<char>>::empty());
    assert(last_count(parts.drop_last(), "ahead "@, a0) == a0);
    assert(last_count(parts.drop_last(), "behind "@, b0) == b0);
    assert("ahead "@.len() == 6 && "behind "@.len() == 7 && body.len() == 4);
    assert(tracking_parts(gone) == parts);
}

// ---- counting, on the bytes -------------------------------------------------

/// No output: a repository of which nothing is known but that it is one.
pub proof fn law_no_lines(g: GitStatus)
    requires
        summarises(g, Seq::empty()),
    ensures
        g.is_repo,
        g.branch@.len() == 0,
        g.ahead == 0 && g.behind == 0,
        g.staged == 0 && g.modified == 0 && g.untracked == 0 && g.conflicts == 0,
{
}

/// What one more line of output adds, on its bytes. A line that starts with `## ` or
/// is shorter than two bytes adds to no count. `??` is one more untracked path. `DD`,
/// `AA` and any code with a `U` in it (`UU`, `AU`, `UA`, `DU`, `UD`) is one more
/// conflict. Any other code is one more staged path unless it starts with a space,
/// and one more modified path unless its second byte is a space. (In `u32`
/// arithmetic.) Only a `## ` line touches the branch and the divergence.
pub proof fn law_counts_follow_the_bytes(
    before: GitStatus,
    after: GitStatus,
    lines: Seq<Seq<char>>,
    line: Seq<char>,
)
    requires
        summarises(before, lines),
        summarises(after, lines.push(line)),
    ensures
        ({
            let header = line.len() >= 3 && line[0] == '#' && line[1] == '#' && line[2] == ' ';
            let b = vstd::utf8::encode_utf8(line);
            let entry = !header && b.len() >= 2;
            let new = entry && b[0] == 63 && b[1] == 63;
            let unmerged = entry && {
                ||| b[0] == 85 || b[1] == 85
                ||| b[0] == 65 && b[1] == 65
                ||| b[0] == 68 && b[1] == 68
            };
            let other = entry && !new && !unmerged;
            let one = |yes: bool|
                if yes {
                    1int
                } else {
                    0int
                };
            &&& after.untracked as int == (before.untracked + one(new)) % 0x1_0000_0000
            &&& after.conflicts as int == (before.conflicts + one(unmerged)) % 0x1_0000_0000
            &&& after.staged as int == (before.staged + one(other && b[0] != 32)) % 0x1_0000_0000
            &&& after.modified as int == (before.modified + one(other && b[1] != 32))
                % 0x1_0000_0000
            &&& !header ==> after.branch@ == before.branch@ && after.ahead == before.ahead
                && after.behind == before.behind
            &&& after.is_repo
        }),
{
    reveal_strlit("## ");
    let header = line.len() >= 3 && line[0] == '#' && line[1] == '#' && line[2] == ' ';
    assert(header == header_line(line)) by {
        if header {
            assert(line.take(3) =~= "## "@);
        }
        if header_line(line) {
            assert(line.take(3)[0] == '#' && line.take(3)[1] == '#' && line.take(3)[2] == ' ');
        }
    }
    assert(lines.push(line).drop_last() =~= lines);
    assert('?' as u8 == 63 && 'U' as u8 == 85 && 'A' as u8 == 65 && 'D' as u8 == 68 && ' ' as u8
        == 32);
}

/// The output decides the summary: two summaries of the same lines are the same.
pub proof fn law_summary_is_decided(g: GitStatus, h: GitStatus, lines: Seq<Seq<char>>)
    requires
        summarises(g, lines),
        summarises(h, lines),
    ensures
        g.branch@ == h.branch@,
        g.ahead == h.ahead && g.behind == h.behind,
        g.staged == h.staged && g.modified == h.modified,
        g.untracked == h.untracked && g.conflicts == h.conflicts,
{
}

/// What a branch line says, in each of the forms that git prints: the branch, and
/// the counts that are printed. Other counts stay.
#[verifier::spinoff_prover]
pub proof fn law_branch_line(
    before: GitStatus,
    after: GitStatus,
    lines: Seq<Seq<char>>,
    line: Seq<char>,
    branch: Seq<char>,
    upstream: Seq<char>,
    ahead: u32,
    behind: u32,
)
    requires
        summarises(before, lines),
        summarises(after, lines.push(line)),
        ref_name(branch),
        ref_name(upstream),
        ahead > 0,
        behind > 0,
    ensures
        line == "## "@ + branch + "..."@ + upstream + " [ahead "@ + text::decimal(ahead as nat)
            + ", behind "@ + text::decimal(behind as nat) + "]"@ ==> after.branch@ == branch
            && after.ahead == ahead && after.behind == behind,
        line == "## "@ + branch + "..."@ + upstream + " [ahead "@ + text::decimal(ahead as nat)
            + "]"@ ==> after.branch@ == branch && after.ahead == ahead && after.behind
            == before.behind,
        line == "## "@ + branch + "..."@ + upstream + " [behind "@ + text::decimal(behind as nat)
            + "]"@ ==> after.branch@ == branch && after.ahead == before.ahead && after.behind
            == behind,
        line == "## "@ + branch + "..."@ + upstream || line == "## "@ + branch + "..."@ + upstream
            + " [gone]"@ || line == "## "@ + branch || line == "## No commits yet on "@ + branch
            ==> after.branch@ == branch && after.ahead == before.ahead && after.behind
            == before.behind,
        line == "## HEAD (no branch)"@ ==> after.branch@ == "HEAD"@ && after.ahead == before.ahead
            && after.behind == before.behind,
{
    let (a0, b0) = (before.ahead, before.behind);
    let (a, b) = (text::decimal(ahead as nat), text::decimal(behind as nat));
    let names = branch + "..."@ + upstream;
    let none = Seq::<char>::empty();
    lemma_written_headers(branch, upstream, ahead, behind);
    if line == "## "@ + branch + "..."@ + upstream + " [ahead "@ + a + ", behind "@ + b + "]"@ {
        law_header_gives_back_what_git_printed(branch, upstream, ahead, behind, a0, b0);
        lemma_branch_line(before, after, lines, line, header_text(branch, upstream, ahead, behind));
    }
    if line == "## "@ + branch + "..."@ + upstream + " [ahead "@ + a + "]"@ {
        law_header_gives_back_what_git_printed(branch, upstream, ahead, 0, a0, b0);
        lemma_branch_line(before, after, lines, line, header_text(branch, upstream, ahead, 0));
    }
    if line == "## "@ + branch + "..."@ + upstream + " [behind "@ + b + "]"@ {
        law_header_gives_back_what_git_printed(branch, upstream, 0, behind, a0, b0);
        lemma_branch_line(before, after, lines, line, header_text(branch, upstream, 0, behind));
    }
    if line == "## "@ + branch + "..."@ + upstream {
        law_header_gives_back_what_git_printed(branch, upstream, 0, 0, a0, b0);
        lemma_branch_line(before, after, lines, line, header_text(branch, upstream, 0, 0));
    }
    law_other_headers(branch, upstream, none, a0, b0);
    if line == "## "@ + branch + "..."@ + upstream + " [gone]"@ {
        assert(line =~= "## "@ + (names + " [gone]"@));
        lemma_branch_line(before, after, lines, line, names + " [gone]"@);
    }
    if line == "## "@ + branch {
        lemma_branch_line(before, after, lines, line, branch);
    }
    if line == "## No commits yet on "@ + branch {
        lemma_branch_line(before, after, lines, line, "No commits yet on "@ + branch);
    }
    if line == "## HEAD (no branch)"@ {
        lemma_branch_line(before, after, lines, line, "HEAD (no branch)"@ + none);
    }
}

/// The lines as they are written out hold the headers that git prints.
proof fn lemma_written_headers(branch: Seq<char>, upstream: Seq<char>, ahead: u32, behind: u32)
    requires
        ahead > 0,
        behind > 0,
    ensures
        ({
            let names = "## "@ + branch + "..."@ + upstream;
            let (a, b) = (text::decimal(ahead as nat), text::decimal(behind as nat));
            &&& names + " [ahead "@ + a + ", behind "@ + b + "]"@ == "## "@ + header_text(
                branch,
                upstream,
                ahead,
                behind,
            )
            &&& names + " [ahead "@ + a + "]"@ == "## "@ + header_text(branch, upstream, ahead, 0)
            &&& names + " [behind "@ + b + "]"@ == "## "@ + header_text(
                branch,
                upstream,
                0,
                behind,
            )
            &&& names == "## "@ + header_text(branch, upstream, 0, 0)
            &&& "## No commits yet on "@ + branch == "## "@ + ("No commits yet on "@ + branch)
            &&& "## HEAD (no branch)"@ == "## "@ + ("HEAD (no branch)"@ + Seq::<char>::empty())
        }),
{
    let names = "## "@ + branch + "..."@ + upstream;
    let (a, b) = (text::decimal(ahead as nat), text::decimal(behind as nat));
    lemma_word_splits();
    assert(names + " [ahead "@ + a + ", behind "@ + b + "]"@ =~= "## "@ + header_text(
        branch,
        upstream,
        ahead,
        behind,
    ));
    assert(names + " [ahead "@ + a + "]"@ =~= "## "@ + header_text(branch, upstream, ahead, 0));
    assert(names + " [behind "@ + b + "]"@ =~= "## "@ + header_text(branch, upstream, 0, behind));
    assert(names =~= "## "@ + header_text(branch, upstream, 0, 0));
    assert("## No commits yet on "@ + branch =~= "## "@ + ("No commits yet on "@ + branch));
    assert("## HEAD (no branch)"@ =~= "## "@ + ("HEAD (no branch)"@ + Seq::<char>::empty()));
}

/// How the written words are made of the ones that are looked for.
proof fn lemma_word_splits()
    ensures
        " [ahead "@ == " ["@ + "ahead "@,
        " [behind "@ == " ["@ + "behind "@,
        ", behind "@ == ", "@ + "behind "@,
        "## No commits yet on "@ == "## "@ + "No commits yet on "@,
        "## HEAD (no branch)"@ == "## "@ + "HEAD (no branch)"@,
{
    reveal_strlit("## ");
    reveal_strlit(" [");
    reveal_strlit(", ");
    reveal_strlit("ahead ");
    reveal_strlit("behind ");
    reveal_strlit(" [ahead ");
    reveal_strlit(", behind ");
    reveal_strlit(" [behind ");
    reveal_strlit("No commits yet on ");
    reveal_strlit("## No commits yet on ");
    reveal_strlit("HEAD (no branch)");
    reveal_strlit("## HEAD (no branch)");
    assert(" [ahead "@ =~= " ["@ + "ahead "@);
    assert(" [behind "@ =~= " ["@ + "behind "@);
    assert(", behind "@ =~= ", "@ + "behind "@);
    assert("## No commits yet on "@ =~= "## "@ + "No commits yet on "@);
    assert("## HEAD (no branch)"@ =~= "## "@ + "HEAD (no branch)"@);
}

/// A branch line with this body.
proof fn lemma_branch_line(
    before: GitStatus,
    after: GitStatus,
    lines: Seq<Seq<char>>,
    line: Seq<char>,
    body: Seq<char>,
)
    requires
        summarises(before, lines),
        summarises(after, lines.push(line)),
        line == "## "@ + body,
    ensures
        after.branch@ == header_branch(body),
        after.ahead == header_ahead(body, before.ahead),
        after.behind == header_behind(body, before.behind),
{
    reveal_strlit("## ");
    assert(lines.push(line).drop_last() =~= lines);
    assert(line.take(3) =~= "## "@);
    assert(line.skip(3) =~= body);
}

// ---- tokens and statuses, on the fields -------------------------------------

/// The token of a dirty tree, taken apart at its spaces: each part is a mark and the
/// count behind it, for a count that is not zero; every such count has its part; and
/// they stand in the order staged, modified, untracked, conflicts.
pub proof fn law_token_shape(g: GitStatus)
    requires
        g.is_repo,
        g.staged > 0 || g.modified > 0 || g.untracked > 0 || g.conflicts > 0,
    ensures
        ({
            let parts = text::split(token_text(g), ' ');
            &&& forall|i: int|
                0 <= i < parts.len() ==> {
                    let p = #[trigger] parts[i];
                    ||| g.staged > 0 && p == seq!['+'] + text::decimal(g.staged as nat)
                    ||| g.modified > 0 && p == seq!['~'] + text::decimal(g.modified as nat)
                    ||| g.untracked > 0 && p == seq!['?'] + text::decimal(g.untracked as nat)
                    ||| g.conflicts > 0 && p == seq!['!'] + text::decimal(g.conflicts as nat)
                }
            &&& g.staged > 0 ==> parts.contains(seq!['+'] + text::decimal(g.staged as nat))
            &&& g.modified > 0 ==> parts.contains(seq!['~'] + text::decimal(g.modified as nat))
            &&& g.untracked > 0 ==> parts.contains(seq!['?'] + text::decimal(g.untracked as nat))
            &&& g.conflicts > 0 ==> parts.contains(seq!['!'] + text::decimal(g.conflicts as nat))
            &&& forall|i: int, j: int|
                0 <= i < j < parts.len() ==> {
                    let (p, q) = ((#[trigger] parts[i])[0], (#[trigger] parts[j])[0]);
                    ||| p == '+' && (q == '~' || q == '?' || q == '!')
                    ||| p == '~' && (q == '?' || q == '!')
                    ||| p == '?' && q == '!'
                }
        }),
{
    let parts = token_parts(g);
    reveal_strlit(" ");
    assert(" "@ =~= seq![' ']);
    lemma_token_parts(g);
    text::lemma_join_split(parts, ' ');
    let (a, b, c, d) = (
        token_part('+', g.staged),
        token_part('~', g.modified),
        token_part('?', g.untracked),
        token_part('!', g.conflicts),
    );
    let (x, y, z) = (a.len() as int, (a + b).len() as int, (a + b + c).len() as int);
    if g.staged > 0 {
        assert(parts[0] == seq!['+'] + text::decimal(g.staged as nat));
    }
    if g.modified > 0 {
        assert(parts[x] == seq!['~'] + text::decimal(g.modified as nat));
    }
    if g.untracked > 0 {
        assert(parts[y] == seq!['?'] + text::decimal(g.untracked as nat));
    }
    if g.conflicts > 0 {
        assert(parts[z] == seq!['!'] + text::decimal(g.conflicts as nat));
    }
}

/// The status that is surfaced, on the fields: nothing without a repository; with no
/// changed path the check mark, or nothing where commits are to be pushed or pulled;
/// else the token, which then shows something.
pub proof fn law_status_on_the_fields(g: GitStatus)
    ensures
        !g.is_repo ==> status_text(g).len() == 0 && token_text(g).len() == 0,
        g.is_repo && g.staged == 0 && g.modified == 0 && g.untracked == 0 && g.conflicts == 0 ==> {
            &&& token_text(g).len() == 0
            &&& g.ahead == 0 && g.behind == 0 ==> status_text(g) == "✓"@
            &&& g.ahead > 0 || g.behind > 0 ==> status_text(g).len() == 0
        },
        g.is_repo && (g.staged > 0 || g.modified > 0 || g.untracked > 0 || g.conflicts > 0)
            ==> status_text(g) == token_text(g) && token_text(g).len() > 0,
{
    law_token_empty_iff_clean(g);
}

/// The severity, on the fields: conflicts first, then any other change in a
/// repository.
pub proof fn law_severity_on_the_fields(g: GitStatus)
    ensures
        severity_of(g) == Severity::Conflict <==> g.conflicts > 0,
        severity_of(g) == Severity::Dirty <==> g.conflicts == 0 && g.is_repo && (g.staged > 0
            || g.modified > 0 || g.untracked > 0),
        severity_of(g) == Severity::Clean <==> g.conflicts == 0 && (!g.is_repo || (g.staged == 0
            && g.modified == 0 && g.untracked == 0)),
{
}

/// Something is known exactly where git ran, in a directory, and succeeded; then it
/// is what the output says, whatever the directory, and where not, nothing is.
pub proof fn law_known_exactly_where_git_succeeded(
    g: GitStatus,
    h: GitStatus,
    cwd: Option<Seq<char>>,
    dir: Seq<char>,
    output: Option<Seq<u8>>,
)
    requires
        reported(g, cwd, output),
        reported(h, Some(dir), output),
        dir.len() > 0,
    ensures
        g.is_repo <==> cwd is Some && cwd->0.len() > 0 && output is Some,
        !g.is_repo ==> g.branch@.len() == 0 && g.ahead == 0 && g.behind == 0 && g.staged == 0
            && g.modified == 0 && g.untracked == 0 && g.conflicts == 0,
        g.is_repo ==> h.is_repo && g.branch@ == h.branch@ && g.ahead == h.ahead && g.behind
            == h.behind && g.staged == h.staged && g.modified == h.modified && g.untracked
            == h.untracked && g.conflicts == h.conflicts,
        g.is_repo && vstd::utf8::valid_utf8(output->0) ==> summarises(
            g,
            text::lines(vstd::utf8::decode_utf8(output->0)),
        ),
{
}

/// Git is asked in the directory itself, for the porcelain format with the branch,
/// and without taking the index lock.
pub proof fn law_git_is_asked_read_only(cwd: Seq<char>)
    ensures
        git_command(cwd).len() == 7,
        git_command(cwd)[0] == "-C"@ && git_command(cwd)[1] == cwd,
        git_command(cwd)[2] == "--no-optional-locks"@,
        git_command(cwd)[3] == "status"@,
        git_command(cwd)[4] == "--porcelain=v1"@,
        git_command(cwd)[5] == "--branch"@,
        git_command(cwd)[6] == "--untracked-files=normal"@,
{
}

// ---- any tracking suffix ----------------------------------------------------

/// A header of any shape but the two special ones: the branch is what stands before
/// the dots, and the suffix is read at its commas, closing brackets aside.
pub proof fn law_header_is_read_at_its_bracket(names: Seq<char>, suffix: Seq<char>)
    requires
        forall|i: int|
            0 <= i < names.len() ==> #[trigger] (names + " ["@ + suffix).subrange(i, i + 2)
                != " ["@,
        !text::has_prefix(names + " ["@ + suffix, "HEAD (no branch)"@),
        !text::has_prefix(names + " ["@ + suffix, "No commits yet on "@),
    ensures
        header_branch(names + " ["@ + suffix) == text::trimmed(text::before(names, "..."@)),
        tracking_parts(names + " ["@ + suffix) == text::split(
            text::drop_all_last(suffix, ']'),
            ',',
        ),
{
    reveal_strlit(" [");
    text::law_cut_at_first(names, " ["@, suffix);
}

/// Each part of the suffix in turn: one that starts with the word sets the count to
/// the number behind it, or to zero where that is no `u32`; any other leaves it.
pub proof fn law_parts_set_the_count(
    parts: Seq<Seq<char>>,
    part: Seq<char>,
    word: Seq<char>,
    prev: u32,
)
    ensures
        last_count(Seq::empty(), word, prev) == prev,
        forall|rest: Seq<char>|
            text::trimmed(part) == #[trigger] (word + rest) ==> last_count(
                parts.push(part),
                word,
                prev,
            ) == match text::read_u32(text::trimmed(rest)) {
                Some(n) => n,
                None => 0,
            },
        (forall|rest: Seq<char>| text::trimmed(part) != #[trigger] (word + rest)) ==> last_count(
            parts.push(part),
            word,
            prev,
        ) == last_count(parts, word, prev),
        header_ahead(part, prev) == last_count(tracking_parts(part), "ahead "@, prev),
        header_behind(part, prev) == last_count(tracking_parts(part), "behind "@, prev),
{
    assert(parts.push(part).drop_last() =~= parts);
    let p = text::trimmed(part);
    text::law_prefix(p, word);
    assert forall|rest: Seq<char>| p == #[trigger] (word + rest) implies last_count(
        parts.push(part),
        word,
        prev,
    ) == match text::read_u32(text::trimmed(rest)) {
        Some(n) => n,
        None => 0,
    } by {
        assert(p.skip(word.len() as int) =~= rest);
    }
}

/// The views of optional text and bytes are what they hold.
pub proof fn law_optional_views(s: &str, b: &[u8])
    ensures
        opt_str(Some(s)) == Some(s@),
        opt_str(None) is None,
        opt_bytes(Some(b)) == Some(b@),
        opt_bytes(None) is None,
{
}

/// The names that the header laws speak of: any text without white space that holds no
/// two dots in a row and does not end in one.
pub proof fn law_ref_names(s: Seq<char>)
    requires
        s.len() > 0,
        forall|i: int| 0 <= i < s.len() ==> !text::white(#[trigger] s[i]),
        forall|i: int|
            0 <= i && i + 2 <= s.len() ==> #[trigger] s.subrange(i, i + 2) != seq!['.', '.'],
        s[s.len() - 1] != '.',
    ensures
        ref_name(s),
{
    assert forall|i: int, j: int| 0 <= i && j == i + 1 && j < s.len() implies !(#[trigger] s[i]
        == '.' && #[trigger] s[j] == '.') by {
        if s[i] == '.' && s[j] == '.' {
            assert(s.subrange(i, i + 2) =~= seq!['.', '.']);
        }
    }
}

} // verus!
