//! The zsh integration block: detecting it, appending it and removing it.
//!
//! The block is delimited by a start and an end marker line.  Reading and writing
//! the startup file is left to the caller; these functions work on its text.
use vstd::prelude::*;
use crate::sorting::string_views;
use crate::text::{
    contains, has_substring, is_white_space, str_eq, trim, trim_end_seq, trim_seq, white_space,
};

verus! {

/// The line that opens the managed block.
pub const ZSH_MARKER_START: &'static str = "# >>> goto integration (managed by goto) >>>";

/// The line that closes the managed block.
pub const ZSH_MARKER_END: &'static str = "# <<< goto integration (managed by goto) <<<";

/// The lines of shell code between the markers.
pub open spec fn zsh_body_lines() -> Seq<Seq<char>> {
    seq![
        "goto() {"@,
        "  if [[ $# -eq 1 && \"$1\" != -* ]]; then"@,
        "    local target"@,
        "    target=\"$(command goto \"$1\")\" || return $?"@,
        "    if [[ -d \"$target\" ]]; then"@,
        "      builtin cd -- \"$target\""@,
        "    else"@,
        "      print -r -- \"$target\""@,
        "    fi"@,
        "  else"@,
        "    command goto \"$@\""@,
        "  fi"@,
        "}"@,
        ""@,
        "_goto_complete() {"@,
        "  local -a targets"@,
        "  targets=(\"${(@f)$(command goto __complete \"${words[CURRENT]}\" 2>/dev/null)}\")"@,
        "  compadd -S '' -Q -- $targets"@,
        "}"@,
        ""@,
        "if (( $+functions[compdef] )); then"@,
        "  compdef _goto_complete goto"@,
        "fi"@,
    ]
}

/// The lines of the managed block: start marker, shell code, end marker.
pub open spec fn integration_lines() -> Seq<Seq<char>> {
    seq![ZSH_MARKER_START@] + zsh_body_lines() + seq![ZSH_MARKER_END@]
}

/// The managed block.
pub open spec fn integration_spec() -> Seq<char> {
    join_lines(integration_lines())
}

/// The managed block.
pub fn integration_text() -> (r: String)
    ensures
        r@ == integration_spec(),
{
    let mut lines: Vec<String> = Vec::new();
    lines.push(String::from_str(ZSH_MARKER_START));
    lines.push(String::from_str("goto() {"));
    lines.push(String::from_str("  if [[ $# -eq 1 && \"$1\" != -* ]]; then"));
    lines.push(String::from_str("    local target"));
    lines.push(String::from_str("    target=\"$(command goto \"$1\")\" || return $?"));
    lines.push(String::from_str("    if [[ -d \"$target\" ]]; then"));
    lines.push(String::from_str("      builtin cd -- \"$target\""));
    lines.push(String::from_str("    else"));
    lines.push(String::from_str("      print -r -- \"$target\""));
    lines.push(String::from_str("    fi"));
    lines.push(String::from_str("  else"));
    lines.push(String::from_str("    command goto \"$@\""));
    lines.push(String::from_str("  fi"));
    lines.push(String::from_str("}"));
    lines.push(String::from_str(""));
    lines.push(String::from_str("_goto_complete() {"));
    lines.push(String::from_str("  local -a targets"));
    lines.push(String::from_str("  targets=(\"${(@f)$(command goto __complete \"${words[CURRENT]}\" 2>/dev/null)}\")"));
    lines.push(String::from_str("  compadd -S '' -Q -- $targets"));
    lines.push(String::from_str("}"));
    lines.push(String::from_str(""));
    lines.push(String::from_str("if (( $+functions[compdef] )); then"));
    lines.push(String::from_str("  compdef _goto_complete goto"));
    lines.push(String::from_str("fi"));
    lines.push(String::from_str(ZSH_MARKER_END));
    assert(string_views(lines@) =~= integration_lines());
    join_with_newlines(&lines)
}

/// A startup file with this text already has the integration.
pub open spec fn has_integration(content: Seq<char>) -> bool {
    has_substring(content, ZSH_MARKER_START@)
}

/// `needs_setup_hint`: the startup file could not be read, or lacks the start marker.
pub fn needs_setup_hint(content: Option<String>) -> (r: bool)
    ensures
        r == match content {
            Some(c) => !has_integration(c@),
            None => true,
        },
{
    match content {
        Some(c) => !contains(c.as_str(), ZSH_MARKER_START),
        None => true,
    }
}

/// A line with a trailing carriage return removed.
pub open spec fn strip_cr(l: Seq<char>) -> Seq<char> {
    if l.len() > 0 && l.last() == '\r' {
        l.drop_last()
    } else {
        l
    }
}

/// The lines of `s` after the partial line `cur`: split at `\n`, a `\r` right before
/// the `\n` dropped, no line after a final `\n`.
pub open spec fn lines_after(s: Seq<char>, cur: Seq<char>) -> Seq<Seq<char>>
    decreases s.len(),
{
    if s.len() == 0 {
        if cur.len() == 0 {
            Seq::empty()
        } else {
            seq![cur]
        }
    } else if s[0] == '\n' {
        seq![strip_cr(cur)] + lines_after(s.drop_first(), Seq::empty())
    } else {
        lines_after(s.drop_first(), cur.push(s[0]))
    }
}

/// The lines of `s` (`str::lines`).
pub open spec fn lines_of(s: Seq<char>) -> Seq<Seq<char>> {
    lines_after(s, Seq::empty())
}

/// `str::trim_end`.
pub fn trim_end(s: &str) -> (r: &str)
    ensures
        r@ == trim_end_seq(s@),
{
    let n = s.unicode_len();
    let mut j: usize = n;
    assert(s@.subrange(0, n as int) =~= s@);
    while j > 0 && is_white_space(s.get_char(j - 1))
        invariant
            n == s@.len(),
            j <= n,
            trim_end_seq(s@) == trim_end_seq(s@.subrange(0, j as int)),
        decreases j,
    {
        proof {
            let w = s@.subrange(0, j as int);
            assert(w.drop_last() =~= s@.subrange(0, j - 1));
        }
        j = j - 1;
    }
    proof {
        let w = s@.subrange(0, j as int);
        if w.len() > 0 {
            assert(w.last() == s@[j - 1]);
        }
    }
    s.substring_char(0, j)
}

/// `str::lines`.
pub fn split_lines(s: &str) -> (r: Vec<String>)
    ensures
        string_views(r@) == lines_of(s@),
{
    let n = s.unicode_len();
    let mut out: Vec<String> = Vec::new();
    let mut start: usize = 0;
    let mut i: usize = 0;
    assert(s@.skip(0) =~= s@);
    assert(s@.subrange(0, 0) =~= Seq::<char>::empty());
    assert(string_views(out@) + lines_after(s@.skip(0), s@.subrange(0, 0)) =~= lines_of(s@));
    while i < n
        invariant
            n == s@.len(),
            start <= i <= n,
            string_views(out@) + lines_after(s@.skip(i as int), s@.subrange(start as int, i as int)) == lines_of(s@),
        decreases n - i,
    {
        let ghost rest = s@.skip(i as int);
        let ghost cur = s@.subrange(start as int, i as int);
        let c = s.get_char(i);
        proof {
            assert(rest[0] == c);
            assert(rest.drop_first() =~= s@.skip(i + 1));
        }
        if c == '\n' {
            let mut end = i;
            if end > start && s.get_char(end - 1) == '\r' {
                end = end - 1;
            }
            let line = String::from_str(s.substring_char(start, end));
            proof {
                assert(line@ =~= strip_cr(cur));
                assert(s@.subrange(i + 1, i + 1) =~= Seq::<char>::empty());
            }
            let ghost before = string_views(out@);
            out.push(line);
            proof {
                assert(string_views(out@) =~= before.push(line@));
                assert(before + (seq![line@] + lines_after(s@.skip(i + 1), Seq::empty())) =~= string_views(out@)
                    + lines_after(s@.skip(i + 1), Seq::empty()));
            }
            start = i + 1;
        } else {
            proof {
                assert(cur.push(c) =~= s@.subrange(start as int, i + 1));
            }
        }
        i = i + 1;
    }
    proof {
        assert(s@.skip(n as int) =~= Seq::<char>::empty());
    }
    if start < n {
        let line = String::from_str(s.substring_char(start, n));
        let ghost before = string_views(out@);
        out.push(line);
        proof {
            assert(string_views(out@) =~= before.push(line@));
            assert(before + seq![line@] =~= before.push(line@));
        }
    } else {
        proof {
            assert(s@.subrange(start as int, n as int) =~= Seq::<char>::empty());
            assert(string_views(out@) + Seq::<Seq<char>>::empty() =~= string_views(out@));
        }
    }
    out
}

/// `lines` joined with `\n` between them (`slice::join`).
pub open spec fn join_lines(lines: Seq<Seq<char>>) -> Seq<char>
    decreases lines.len(),
{
    if lines.len() == 0 {
        Seq::empty()
    } else if lines.len() == 1 {
        lines[0]
    } else {
        join_lines(lines.drop_last()) + "\n"@ + lines.last()
    }
}

/// The text written back for the kept lines: joined, with a final `\n` unless empty.
pub open spec fn render_lines(lines: Seq<Seq<char>>) -> Seq<char> {
    if join_lines(lines).len() == 0 {
        join_lines(lines)
    } else {
        join_lines(lines) + "\n"@
    }
}

/// The lines outside managed blocks: a start marker line opens a block, and inside a
/// block everything up to and including an end marker line is dropped.
pub open spec fn kept_lines(lines: Seq<Seq<char>>, in_block: bool) -> Seq<Seq<char>>
    decreases lines.len(),
{
    if lines.len() == 0 {
        Seq::empty()
    } else {
        let l = lines[0];
        if trim_end_seq(l) == ZSH_MARKER_START@ {
            kept_lines(lines.drop_first(), true)
        } else if in_block {
            kept_lines(lines.drop_first(), trim_end_seq(l) != ZSH_MARKER_END@)
        } else {
            seq![l] + kept_lines(lines.drop_first(), false)
        }
    }
}

/// The newlines setup puts between existing text and the block: one to end an
/// unterminated last line, and one more to leave a blank line after a non-blank one.
pub open spec fn setup_separator(existing: Seq<char>) -> Seq<char> {
    let lines = lines_of(existing);
    let last_line_blank = lines.len() == 0 || trim_seq(lines.last()).len() == 0;
    let first = if existing.len() > 0 && existing.last() != '\n' { "\n"@ } else { Seq::<char>::empty() };
    let second = if existing.len() > 0 && !last_line_blank { "\n"@ } else { Seq::<char>::empty() };
    first + second
}

/// The text that setup appends to a startup file with text `existing`: the separator,
/// then the managed block and a newline.  Nothing when the block is there.
pub open spec fn setup_append(existing: Seq<char>) -> Option<Seq<char>> {
    if has_integration(existing) {
        None
    } else {
        Some(setup_separator(existing) + integration_spec() + "\n"@)
    }
}

/// `setup_zsh`: what to append to a startup file with text `existing`, if anything.
pub fn setup_zsh(existing: &str) -> (r: Option<String>)
    ensures
        match r {
            Some(t) => setup_append(existing@) == Some(t@),
            None => setup_append(existing@) is None,
        },
{
    if contains(existing, ZSH_MARKER_START) {
        return None;
    }
    let n = existing.unicode_len();
    let mut out = String::new();
    if n > 0 && existing.get_char(n - 1) != '\n' {
        out = out.concat("\n");
    }
    let lines = split_lines(existing);
    let k = lines.len();
    let last_line_blank = k == 0 || trim(lines[k - 1].as_str()).unicode_len() == 0;
    proof {
        if k > 0 {
            assert(string_views(lines@).last() == lines@[k - 1]@);
        }
    }
    if n > 0 && !last_line_blank {
        out = out.concat("\n");
    }
    let block = integration_text();
    let out = out.concat(block.as_str()).concat("\n");
    proof {
        let first: Seq<char> = if existing@.len() > 0 && existing@.last() != '\n' { "\n"@ } else { Seq::empty() };
        let second: Seq<char> = if existing@.len() > 0 && !last_line_blank { "\n"@ } else { Seq::empty() };
        assert(out@ =~= setup_separator(existing@) + integration_spec() + "\n"@);
    }
    Some(out)
}

/// `lines` joined with `\n` between them.
fn join_with_newlines(lines: &Vec<String>) -> (r: String)
    ensures
        r@ == join_lines(string_views(lines@)),
{
    let ghost lv = string_views(lines@);
    let n = lines.len();
    if n == 0 {
        return String::new();
    }
    let mut out = lines[0].clone();
    let mut i: usize = 1;
    proof {
        assert(lv.take(1).drop_last() =~= Seq::<Seq<char>>::empty());
        assert(join_lines(lv.take(1)) == lv[0]);
    }
    while i < n
        invariant
            lv == string_views(lines@),
            n == lv.len(),
            1 <= i <= n,
            out@ == join_lines(lv.take(i as int)),
        decreases n - i,
    {
        proof {
            assert(lv.take(i + 1).drop_last() =~= lv.take(i as int));
            assert(lv.take(i + 1).last() == lines@[i as int]@);
        }
        out = out.concat("\n").concat(lines[i].as_str());
        i = i + 1;
    }
    assert(lv.take(n as int) =~= lv);
    out
}

/// `uninstall_zsh`: the new text of a startup file with text `existing`, with managed
/// blocks removed; nothing when it has no start marker.
pub fn uninstall_zsh(existing: &str) -> (r: Option<String>)
    ensures
        match r {
            Some(t) => has_integration(existing@) && t@ == render_lines(kept_lines(lines_of(existing@), false)),
            None => !has_integration(existing@),
        },
{
    if !contains(existing, ZSH_MARKER_START) {
        return None;
    }
    let lines = split_lines(existing);
    let ghost lv = string_views(lines@);
    let mut output: Vec<String> = Vec::new();
    let mut in_block = false;
    let n = lines.len();
    let mut i: usize = 0;
    assert(lv.skip(0) =~= lv);
    assert(string_views(output@) + kept_lines(lv.skip(0), false) =~= kept_lines(lv, false));
    while i < n
        invariant
            lv == string_views(lines@),
            n == lv.len(),
            i <= n,
            string_views(output@) + kept_lines(lv.skip(i as int), in_block) == kept_lines(lv, false),
        decreases n - i,
    {
        let ghost rest = lv.skip(i as int);
        proof {
            assert(rest[0] == lines@[i as int]@);
            assert(rest.drop_first() =~= lv.skip(i + 1));
        }
        let line = trim_end(lines[i].as_str());
        if str_eq(line, ZSH_MARKER_START) {
            in_block = true;
        } else if in_block {
            if str_eq(line, ZSH_MARKER_END) {
                in_block = false;
            }
        } else {
            let ghost before = string_views(output@);
            output.push(lines[i].clone());
            proof {
                assert(string_views(output@) =~= before.push(lines@[i as int]@));
                assert(before + (seq![lines@[i as int]@] + kept_lines(lv.skip(i + 1), false)) =~= string_views(output@)
                    + kept_lines(lv.skip(i + 1), false));
            }
        }
        i = i + 1;
    }
    proof {
        assert(lv.skip(n as int) =~= Seq::<Seq<char>>::empty());
        assert(string_views(output@) + Seq::<Seq<char>>::empty() =~= string_views(output@));
    }
    let rendered = join_with_newlines(&output);
    if rendered.as_str().unicode_len() == 0 {
        Some(rendered)
    } else {
        Some(rendered.concat("\n"))
    }
}

/// A line without `\n`.
pub open spec fn newline_free(l: Seq<char>) -> bool {
    forall|i: int| 0 <= i < l.len() ==> l[i] != '\n'
}

/// A line that `str::lines` gives back unchanged: no `\n`, no trailing `\r`.
pub open spec fn plain_line(l: Seq<char>) -> bool {
    newline_free(l) && !(l.len() > 0 && l.last() == '\r')
}

/// A line of shell code that cannot be taken for a marker: plain, and not a comment.
pub open spec fn body_line(l: Seq<char>) -> bool {
    plain_line(l) && (l.len() == 0 || l[0] != '#')
}

/// The joined lines start with the first line.
pub proof fn lemma_join_starts_with_first(ls: Seq<Seq<char>>)
    requires
        ls.len() > 0,
    ensures
        join_lines(ls).len() >= ls[0].len(),
        join_lines(ls).subrange(0, ls[0].len() as int) == ls[0],
    decreases ls.len(),
{
    if ls.len() == 1 {
        assert(join_lines(ls).subrange(0, ls[0].len() as int) =~= ls[0]);
    } else {
        let init = ls.drop_last();
        lemma_join_starts_with_first(init);
        assert(init[0] == ls[0]);
        let j = join_lines(init);
        assert(join_lines(ls) == j + "\n"@ + ls.last());
        assert((j + "\n"@ + ls.last()).subrange(0, ls[0].len() as int) =~= j.subrange(0, ls[0].len() as int));
    }
}

/// Splitting text that ends a line at a `\n` splits its lines there.
pub proof fn lemma_lines_after_concat(a: Seq<char>, b: Seq<char>, cur: Seq<char>)
    requires
        a.len() > 0,
        a.last() == '\n',
    ensures
        lines_after(a + b, cur) == lines_after(a, cur) + lines_after(b, Seq::empty()),
    decreases a.len(),
{
    let ab = a + b;
    assert(ab[0] == a[0]);
    assert(ab.drop_first() =~= a.drop_first() + b);
    if a[0] == '\n' {
        if a.len() == 1 {
            assert(a.drop_first() =~= Seq::<char>::empty());
            assert(a.drop_first() + b =~= b);
            assert(lines_after(a.drop_first(), Seq::empty()) =~= Seq::<Seq<char>>::empty());
            assert(seq![strip_cr(cur)] + lines_after(b, Seq::empty()) =~= (seq![strip_cr(cur)] + Seq::<Seq<char>>::empty())
                + lines_after(b, Seq::empty()));
        } else {
            assert(a.drop_first().last() == a.last());
            lemma_lines_after_concat(a.drop_first(), b, Seq::empty());
            assert(seq![strip_cr(cur)] + (lines_after(a.drop_first(), Seq::empty()) + lines_after(b, Seq::empty()))
                =~= (seq![strip_cr(cur)] + lines_after(a.drop_first(), Seq::empty())) + lines_after(b, Seq::empty()));
        }
    } else {
        assert(a.drop_first().last() == a.last());
        lemma_lines_after_concat(a.drop_first(), b, cur.push(a[0]));
    }
}

/// A line followed by `\n` is one line.
pub proof fn lemma_lines_after_line(l: Seq<char>, cur: Seq<char>)
    requires
        newline_free(l),
    ensures
        lines_after(l + "\n"@, cur) == seq![strip_cr(cur + l)],
    decreases l.len(),
{
    reveal_strlit("\n");
    let t = l + "\n"@;
    if l.len() == 0 {
        assert(t =~= seq!['\n']);
        assert(t[0] == '\n');
        assert(t.drop_first() =~= Seq::<char>::empty());
        assert(lines_after(Seq::<char>::empty(), Seq::<char>::empty()) =~= Seq::<Seq<char>>::empty());
        assert(lines_after(t, cur) == seq![strip_cr(cur)] + lines_after(t.drop_first(), Seq::empty()));
        assert(cur + l =~= cur);
        assert(seq![strip_cr(cur)] + Seq::<Seq<char>>::empty() =~= seq![strip_cr(cur)]);
    } else {
        assert(t[0] == l[0]);
        assert(t.drop_first() =~= l.drop_first() + "\n"@);
        lemma_lines_after_line(l.drop_first(), cur.push(l[0]));
        assert(cur.push(l[0]) + l.drop_first() =~= cur + l);
    }
}

/// Joined plain lines, with a final `\n`, split back into the same lines.
pub proof fn lemma_lines_of_joined(ls: Seq<Seq<char>>)
    requires
        ls.len() > 0,
        forall|k: int| 0 <= k < ls.len() ==> plain_line(#[trigger] ls[k]),
    ensures
        lines_of(join_lines(ls) + "\n"@) == ls,
    decreases ls.len(),
{
    reveal_strlit("\n");
    if ls.len() == 1 {
        assert(plain_line(ls[0]));
        lemma_lines_after_line(ls[0], Seq::empty());
        assert(Seq::<char>::empty() + ls[0] =~= ls[0]);
        assert(seq![ls[0]] =~= ls);
    } else {
        let init = ls.drop_last();
        assert forall|k: int| 0 <= k < init.len() implies plain_line(#[trigger] init[k]) by {
            assert(init[k] == ls[k]);
        }
        lemma_lines_of_joined(init);
        let a = join_lines(init) + "\n"@;
        let b = ls.last() + "\n"@;
        assert(join_lines(ls) + "\n"@ =~= a + b);
        assert(a.last() == '\n');
        lemma_lines_after_concat(a, b, Seq::empty());
        assert(plain_line(ls[ls.len() - 1]));
        lemma_lines_after_line(ls.last(), Seq::empty());
        assert(Seq::<char>::empty() + ls.last() =~= ls.last());
        assert(init + seq![ls.last()] =~= ls);
    }
}

/// White space trimmed from the end leaves a prefix.
pub proof fn lemma_trim_end_prefix(l: Seq<char>)
    ensures
        trim_end_seq(l).len() <= l.len(),
        l.subrange(0, trim_end_seq(l).len() as int) == trim_end_seq(l),
    decreases l.len(),
{
    if l.len() > 0 && white_space(l.last()) {
        lemma_trim_end_prefix(l.drop_last());
        let t = trim_end_seq(l.drop_last());
        assert(l.subrange(0, t.len() as int) =~= l.drop_last().subrange(0, t.len() as int));
    } else {
        assert(l.subrange(0, l.len() as int) =~= l);
    }
}

/// Lines that are not start markers pass through untouched when outside a block.
pub proof fn lemma_kept_prefix(l1: Seq<Seq<char>>, l2: Seq<Seq<char>>)
    requires
        forall|k: int| 0 <= k < l1.len() ==> trim_end_seq(#[trigger] l1[k]) != ZSH_MARKER_START@,
    ensures
        kept_lines(l1 + l2, false) == l1 + kept_lines(l2, false),
    decreases l1.len(),
{
    if l1.len() == 0 {
        assert(l1 + l2 =~= l2);
        assert(l1 + kept_lines(l2, false) =~= kept_lines(l2, false));
    } else {
        let t = l1.drop_first();
        assert forall|k: int| 0 <= k < t.len() implies trim_end_seq(#[trigger] t[k]) != ZSH_MARKER_START@ by {
            assert(t[k] == l1[k + 1]);
        }
        lemma_kept_prefix(t, l2);
        assert((l1 + l2)[0] == l1[0]);
        assert((l1 + l2).drop_first() =~= t + l2);
        assert(trim_end_seq(l1[0]) != ZSH_MARKER_START@);
        assert(seq![l1[0]] + (t + kept_lines(l2, false)) =~= l1 + kept_lines(l2, false));
    }
}

/// The facts about the marker lines that the block's removal rests on.
pub proof fn lemma_markers()
    ensures
        plain_line(ZSH_MARKER_START@),
        plain_line(ZSH_MARKER_END@),
        trim_end_seq(ZSH_MARKER_START@) == ZSH_MARKER_START@,
        trim_end_seq(ZSH_MARKER_END@) == ZSH_MARKER_END@,
        ZSH_MARKER_END@ != ZSH_MARKER_START@,
        ZSH_MARKER_START@.len() > 0,
        ZSH_MARKER_START@[0] == '#',
        ZSH_MARKER_END@.len() > 0,
        ZSH_MARKER_END@[0] == '#',
{
    reveal_strlit("# >>> goto integration (managed by goto) >>>");
    reveal_strlit("# <<< goto integration (managed by goto) <<<");
    assert(ZSH_MARKER_END@[2] != ZSH_MARKER_START@[2]);
}

/// A body line is neither marker, even with white space trimmed from its end.
pub proof fn lemma_body_line_not_marker(l: Seq<char>)
    requires
        body_line(l),
    ensures
        trim_end_seq(l) != ZSH_MARKER_START@,
        trim_end_seq(l) != ZSH_MARKER_END@,
{
    lemma_markers();
    lemma_trim_end_prefix(l);
    let t = trim_end_seq(l);
    if t.len() > 0 {
        assert(t[0] == l[0]);
    }
}

/// Inside a block, body lines are dropped up to and including the end marker.
pub proof fn lemma_kept_inside_block(body: Seq<Seq<char>>)
    requires
        forall|k: int| 0 <= k < body.len() ==> body_line(#[trigger] body[k]),
    ensures
        kept_lines(body + seq![ZSH_MARKER_END@], true) == Seq::<Seq<char>>::empty(),
    decreases body.len(),
{
    lemma_markers();
    let all = body + seq![ZSH_MARKER_END@];
    if body.len() == 0 {
        assert(all =~= seq![ZSH_MARKER_END@]);
        assert(all[0] == ZSH_MARKER_END@);
        assert(all.drop_first() =~= Seq::<Seq<char>>::empty());
        assert(kept_lines(all.drop_first(), false) =~= Seq::<Seq<char>>::empty());
        assert(kept_lines(all, true) == kept_lines(all.drop_first(), false));
    } else {
        let t = body.drop_first();
        assert forall|k: int| 0 <= k < t.len() implies body_line(#[trigger] t[k]) by {
            assert(t[k] == body[k + 1]);
        }
        lemma_kept_inside_block(t);
        assert(all[0] == body[0]);
        assert(body_line(body[0]));
        lemma_body_line_not_marker(body[0]);
        assert(all.drop_first() =~= t + seq![ZSH_MARKER_END@]);
    }
}

/// Every line of the shell code is a body line.
pub proof fn lemma_body_lines()
    ensures
        forall|k: int| 0 <= k < zsh_body_lines().len() ==> body_line(#[trigger] zsh_body_lines()[k]),
{
    reveal_strlit("goto() {");
    reveal_strlit("  if [[ $# -eq 1 && \"$1\" != -* ]]; then");
    reveal_strlit("    local target");
    reveal_strlit("    target=\"$(command goto \"$1\")\" || return $?");
    reveal_strlit("    if [[ -d \"$target\" ]]; then");
    reveal_strlit("      builtin cd -- \"$target\"");
    reveal_strlit("    else");
    reveal_strlit("      print -r -- \"$target\"");
    reveal_strlit("    fi");
    reveal_strlit("  else");
    reveal_strlit("    command goto \"$@\"");
    reveal_strlit("  fi");
    reveal_strlit("}");
    reveal_strlit("");
    reveal_strlit("_goto_complete() {");
    reveal_strlit("  local -a targets");
    reveal_strlit("  targets=(\"${(@f)$(command goto __complete \"${words[CURRENT]}\" 2>/dev/null)}\")");
    reveal_strlit("  compadd -S '' -Q -- $targets");
    reveal_strlit("}");
    reveal_strlit("");
    reveal_strlit("if (( $+functions[compdef] )); then");
    reveal_strlit("  compdef _goto_complete goto");
    reveal_strlit("fi");
}

} // verus!
