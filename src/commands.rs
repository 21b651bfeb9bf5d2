//! The decisions of the command-line operations: what to check, what to
//! run and in which order. Running it is left to the caller.

use vstd::prelude::*;
use vstd::string::*;
use crate::merge::MergeConflict;
use crate::text::{merge_manifest_texts, merge_texts, text_result};

verus! {

/// The message for a repository root that holds no manifest.
pub open spec fn missing_manifest_message(repo: Seq<char>) -> Seq<char> {
    repo + " does not contain Cargo.toml; pass --repo with a Rust project root"@
}

/// The arguments of one package-manager invocation, with the offline switch
/// appended when asked for.
pub open spec fn cargo_invocation(args: Seq<Seq<char>>, offline: bool) -> Seq<Seq<char>> {
    if offline {
        args.push("--offline"@)
    } else {
        args
    }
}

/// The invocations that regenerate the lockfile: generation, then the build
/// check when `verify` is set.
pub open spec fn lock_plan(verify: bool, offline: bool) -> Seq<Seq<Seq<char>>> {
    let generate = cargo_invocation(seq!["generate-lockfile"@], offline);
    if verify {
        seq![generate, cargo_invocation(seq!["check"@, "-q"@], offline)]
    } else {
        seq![generate]
    }
}

/// Succeeds exactly when the repository root holds a manifest; else fails
/// with a message naming the manifest and the root.
pub fn ensure_manifest_exists(repo: &str, manifest_exists: bool) -> (r: Result<(), String>)
    ensures
        r is Ok <==> manifest_exists,
        r matches Err(m) ==> m@ == missing_manifest_message(repo@),
{
    if manifest_exists {
        Ok(())
    } else {
        let mut m = String::from_str(repo);
        m.append(" does not contain Cargo.toml; pass --repo with a Rust project root");
        Err(m)
    }
}

fn cargo_args(offline: bool, first: &str, second: Option<&str>) -> (r: Vec<String>)
    ensures
        r.deep_view() == cargo_invocation(
            match second {
                Some(s) => seq![first@, s@],
                None => seq![first@],
            },
            offline,
        ),
{
    let mut args: Vec<String> = Vec::new();
    args.push(String::from_str(first));
    match second {
        Some(s) => args.push(String::from_str(s)),
        None => {},
    }
    if offline {
        args.push(String::from_str("--offline"));
    }
    proof {
        let expected = cargo_invocation(
            match second {
                Some(s) => seq![first@, s@],
                None => seq![first@],
            },
            offline,
        );
        assert(args.deep_view() =~= expected);
    }
    args
}

/// The package-manager invocations that regenerate the lockfile in a
/// repository root, or the missing-manifest error.
pub fn resolve_lock_cmd(repo: &str, manifest_exists: bool, verify: bool, offline: bool) -> (r: Result<
    Vec<Vec<String>>,
    String,
>)
    ensures
        r is Ok <==> manifest_exists,
        r matches Err(m) ==> m@ == missing_manifest_message(repo@),
        r matches Ok(plan) ==> plan.deep_view() == lock_plan(verify, offline),
{
    match ensure_manifest_exists(repo, manifest_exists) {
        Err(m) => Err(m),
        Ok(()) => {
            let mut plan: Vec<Vec<String>> = Vec::new();
            plan.push(cargo_args(offline, "generate-lockfile", None));
            if verify {
                plan.push(cargo_args(offline, "check", Some("-q")));
            }
            assert(plan.deep_view() =~= lock_plan(verify, offline));
            Ok(plan)
        },
    }
}

/// The first half of merge-and-regenerate: the merged manifest text, and
/// whether the build check is to follow the lockfile's regeneration.
pub fn merge_all_cmd(base_text: &str, ours_text: &str, theirs_text: &str, skip_verify: bool) -> (r: Result<
    (String, bool),
    MergeConflict,
>)
    ensures
        text_result(
            match r {
                Ok((s, _)) => Ok(s),
                Err(c) => Err(c),
            },
        ) == merge_texts(base_text@, ours_text@, theirs_text@),
        r matches Ok((_, verify)) ==> verify == !skip_verify,
{
    match merge_manifest_texts(base_text, ours_text, theirs_text) {
        Ok(s) => Ok((s, !skip_verify)),
        Err(c) => Err(c),
    }
}

/// A line without the carriage return that ends it, if one does.
pub open spec fn strip_cr(line: Seq<char>) -> Seq<char> {
    if line.len() > 0 && line.last() == '\r' {
        line.drop_last()
    } else {
        line
    }
}

/// The lines of `s`, the first of them continuing `cur`: each ends at a
/// newline, which is dropped together with a carriage return before it; an
/// empty piece after the last newline is no line.
pub open spec fn lines_from(s: Seq<char>, cur: Seq<char>) -> Seq<Seq<char>>
    decreases s.len(),
{
    if s.len() == 0 {
        if cur.len() == 0 {
            seq![]
        } else {
            seq![cur]
        }
    } else if s[0] == '\n' {
        seq![strip_cr(cur)] + lines_from(s.drop_first(), seq![])
    } else {
        lines_from(s.drop_first(), cur.push(s[0]))
    }
}

/// The lines of a text, as std's `str::lines` yields them.
pub open spec fn text_lines(s: Seq<char>) -> Seq<Seq<char>> {
    lines_from(s, seq![])
}

/// A text without its leading and trailing whitespace, as std's `str::trim`
/// gives it.
pub uninterp spec fn trimmed(s: Seq<char>) -> Seq<char>;

/// Relies on str::lines: the text split after each newline, each piece
/// without its `\n` or `\r\n`; no empty line after a final newline.
#[verifier::external_body]
fn lines_of(s: &str) -> (r: Vec<String>)
    ensures
        r.deep_view() == text_lines(s@),
{
    s.lines().map(|l| l.to_string()).collect()
}

/// Relies on str::trim: the text without surrounding whitespace.
#[verifier::external_body]
fn trim_of(s: &str) -> (r: &str)
    ensures
        r@ == trimmed(s@),
{
    s.trim()
}

/// Some line of the text, trimmed, is `line`.
pub open spec fn has_line(text: Seq<char>, line: Seq<char>) -> bool {
    exists|i: int| 0 <= i < text_lines(text).len() && trimmed(#[trigger] text_lines(text)[i]) == line
}

/// The text with `line` appended on a line of its own.
pub open spec fn with_line(text: Seq<char>, line: Seq<char>) -> Seq<char> {
    (if text.len() > 0 && text.last() != '\n' {
        text.push('\n')
    } else {
        text
    }) + line.push('\n')
}

/// The new content of a file that is to hold `line`: `None` where some line
/// of it already is `line` once trimmed, else the content with `line`
/// appended on a line of its own.
pub fn append_unique_line(existing: &str, line: &str) -> (r: Option<String>)
    ensures
        r is None <==> has_line(existing@, line@),
        r matches Some(s) ==> s@ == with_line(existing@, line@),
{
    let lines = lines_of(existing);
    let mut i: usize = 0;
    while i < lines.len()
        invariant
            i <= lines.len(),
            lines.deep_view() == text_lines(existing@),
            forall|j: int| 0 <= j < i ==> trimmed(#[trigger] text_lines(existing@)[j]) != line@,
        decreases lines.len() - i,
    {
        let t = trim_of(lines[i].as_str());
        assert(lines.deep_view()[i as int] == lines@[i as int]@);
        if String::from_str(t) == String::from_str(line) {
            return None;
        }
        i += 1;
    }
    let mut out = String::from_str(existing);
    let n = existing.unicode_len();
    if n > 0 && existing.get_char(n - 1) != '\n' {
        proof {
            reveal_strlit("\n");
        }
        out.append("\n");
    }
    let ghost before = out@;
    out.append(line);
    proof {
        reveal_strlit("\n");
    }
    out.append("\n");
    assert(out@ =~= before + line@.push('\n'));
    assert(before =~= (if existing@.len() > 0 && existing@.last() != '\n' {
        existing@.push('\n')
    } else {
        existing@
    }));
    Some(out)
}

proof fn lemma_lines_split(p: Seq<char>, q: Seq<char>, cur: Seq<char>)
    requires
        p.len() > 0,
        p.last() == '\n',
    ensures
        lines_from(p + q, cur) == lines_from(p, cur) + lines_from(q, seq![]),
    decreases p.len(),
{
    assert((p + q).drop_first() =~= p.drop_first() + q);
    if p.len() == 1 {
        assert(p.drop_first() + q =~= q);
        assert(lines_from(p.drop_first(), seq![]) =~= seq![]);
        assert(seq![strip_cr(cur)] + Seq::<Seq<char>>::empty() =~= seq![strip_cr(cur)]);
    } else if p[0] == '\n' {
        lemma_lines_split(p.drop_first(), q, seq![]);
        let a = seq![strip_cr(cur)];
        assert(a + (lines_from(p.drop_first(), seq![]) + lines_from(q, seq![])) =~= (a
            + lines_from(p.drop_first(), seq![])) + lines_from(q, seq![]));
    } else {
        lemma_lines_split(p.drop_first(), q, cur.push(p[0]));
    }
}

proof fn lemma_last_line(l: Seq<char>, cur: Seq<char>)
    requires
        forall|i: int| 0 <= i < l.len() ==> l[i] != '\n',
    ensures
        lines_from(l.push('\n'), cur) == seq![strip_cr(cur + l)],
    decreases l.len(),
{
    if l.len() == 0 {
        assert(cur + l =~= cur);
        assert(l.push('\n').drop_first() =~= Seq::<char>::empty());
        assert(l.push('\n')[0] == '\n');
        assert(lines_from(Seq::<char>::empty(), seq![]) =~= seq![]);
        assert(seq![strip_cr(cur)] + Seq::<Seq<char>>::empty() =~= seq![strip_cr(cur)]);
    } else {
        assert(l.push('\n').drop_first() =~= l.drop_first().push('\n'));
        assert(l.push('\n')[0] == l[0]);
        assert(l[0] != '\n');
        lemma_last_line(l.drop_first(), cur.push(l[0]));
        assert(cur.push(l[0]) + l.drop_first() =~= cur + l);
    }
}

/// Installing a line twice changes nothing the second time: once appended,
/// a line without line breaks and without surrounding whitespace is found
/// there.
pub proof fn lemma_append_line_idempotent(text: Seq<char>, line: Seq<char>)
    requires
        forall|i: int| 0 <= i < line.len() ==> line[i] != '\n',
        !(line.len() > 0 && line.last() == '\r'),
        trimmed(line) == line,
    ensures
        has_line(with_line(text, line), line),
{
    let p = if text.len() > 0 && text.last() != '\n' {
        text.push('\n')
    } else {
        text
    };
    lemma_last_line(line, seq![]);
    assert(Seq::<char>::empty() + line =~= line);
    let all = text_lines(with_line(text, line));
    if p.len() == 0 {
        assert(with_line(text, line) =~= line.push('\n'));
        assert(trimmed(all[0]) == line);
    } else {
        lemma_lines_split(p, line.push('\n'), seq![]);
        let n = all.len() - 1;
        assert(trimmed(all[n]) == line);
    }
}

} // verus!
