//! Diffs of local checkpoints: a snapshot directory against the working
//! tree. The file lists are compared in sorted order, files only on one side
//! are listed, and files on both sides with different text get a line diff.
//! Walking the directories and reading the files is the caller's part, as
//! are the git commands; this module also names checkpoints and decides
//! which entries a snapshot leaves alone.
use vstd::prelude::*;
use crate::sort::{keyed, sort_keyed, stable_sort, strip_keys, unkeyed, KeyView, SortKey};
use crate::text::{
    chars_of, lex_le, lines, push_char, push_str, split_lines, str_eq, strs_view, to_string, trim, trimmed,
};

verus! {

broadcast use vstd::seq_lib::group_seq_properties;

/// One step of comparing two sorted file lists.
#[derive(Debug, Clone)]
pub enum DiffStep {
    /// On both sides: compare the texts.
    Both(String),
    /// Only in the checkpoint.
    Removed(String),
    /// Only in the working tree.
    Added(String),
}

/// Model of a step.
pub enum StepView {
    Both(Seq<char>),
    Removed(Seq<char>),
    Added(Seq<char>),
}

impl View for DiffStep {
    type V = StepView;

    open spec fn view(&self) -> StepView {
        match self {
            DiffStep::Both(s) => StepView::Both(s@),
            DiffStep::Removed(s) => StepView::Removed(s@),
            DiffStep::Added(s) => StepView::Added(s@),
        }
    }
}

/// Model of a list of steps.
pub open spec fn steps_view(v: Seq<DiffStep>) -> Seq<StepView> {
    v.map_values(|s: DiffStep| s@)
}

/// Strictly before in string order.
pub open spec fn lex_lt(a: Seq<char>, b: Seq<char>) -> bool {
    lex_le(a, b) && a != b
}

/// The steps of walking two sorted lists side by side.
pub open spec fn merge_steps(a: Seq<Seq<char>>, b: Seq<Seq<char>>) -> Seq<StepView>
    decreases a.len() + b.len(),
{
    if a.len() == 0 && b.len() == 0 {
        Seq::empty()
    } else if a.len() == 0 {
        seq![StepView::Added(b[0])] + merge_steps(a, b.drop_first())
    } else if b.len() == 0 {
        seq![StepView::Removed(a[0])] + merge_steps(a.drop_first(), b)
    } else if a[0] == b[0] {
        seq![StepView::Both(a[0])] + merge_steps(a.drop_first(), b.drop_first())
    } else if lex_lt(a[0], b[0]) {
        seq![StepView::Removed(a[0])] + merge_steps(a.drop_first(), b)
    } else {
        seq![StepView::Added(b[0])] + merge_steps(a, b.drop_first())
    }
}

/// A list of file names sorted in string order.
pub open spec fn sorted_names(v: Seq<String>) -> Seq<Seq<char>> {
    strs_view(unkeyed(sort_keyed(v.map_values(|s: String| (s, KeyView::Text(s@))))))
}

/// Sort file names in string order.
fn sort_names(v: Vec<String>) -> (r: Vec<String>)
    ensures
        strs_view(r@) == sorted_names(v@),
{
    let ghost all = v@;
    let n = v.len();
    let mut rest = v;
    let mut pairs: Vec<(String, SortKey)> = Vec::new();
    let mut i: usize = 0;
    while rest.len() > 0
        invariant
            i + rest.len() == all.len() == n,
            rest@ == all.skip(i as int),
            keyed(pairs@) == all.map_values(|s: String| (s, KeyView::Text(s@))).take(i as int),
        decreases rest.len(),
    {
        let s = rest.remove(0);
        proof {
            assert(all.skip(i as int)[0] == s);
            assert(rest@ =~= all.skip(i + 1));
        }
        let k = SortKey::Text(s.clone());
        let ghost kv = k@;
        let ghost before = keyed(pairs@);
        pairs.push((s, k));
        assert(keyed(pairs@) =~= before.push((s, kv)));
        assert(all.map_values(|s: String| (s, KeyView::Text(s@))).take(i + 1) =~= all.map_values(
            |s: String| (s, KeyView::Text(s@)),
        ).take(i as int).push((s, KeyView::Text(s@))));
        i = i + 1;
    }
    assert(all.map_values(|s: String| (s, KeyView::Text(s@))).take(i as int) =~= all.map_values(
        |s: String| (s, KeyView::Text(s@)),
    ));
    let sorted = stable_sort(pairs);
    strip_keys(sorted)
}

/// `a < b` for strings.
fn str_lt(a: &str, b: &str) -> (r: bool)
    ensures
        r == lex_lt(a@, b@),
{
    crate::text::str_le(a, b) && !str_eq(a, b)
}

/// The steps of comparing two file lists, each sorted first.
pub fn plan_file_diff(old_files: Vec<String>, new_files: Vec<String>) -> (r: Vec<DiffStep>)
    ensures
        steps_view(r@) == merge_steps(sorted_names(old_files@), sorted_names(new_files@)),
{
    let a = sort_names(old_files);
    let b = sort_names(new_files);
    let ghost av = strs_view(a@);
    let ghost bv = strs_view(b@);
    let mut out: Vec<DiffStep> = Vec::new();
    let mut i: usize = 0;
    let mut j: usize = 0;
    assert(av.skip(0) =~= av);
    assert(bv.skip(0) =~= bv);
    while i < a.len() || j < b.len()
        invariant
            i <= a.len(),
            j <= b.len(),
            av == strs_view(a@),
            bv == strs_view(b@),
            steps_view(out@) + merge_steps(av.skip(i as int), bv.skip(j as int)) == merge_steps(av, bv),
        decreases a.len() + b.len() - i - j,
    {
        let ghost before = steps_view(out@);
        let ghost x = av.skip(i as int);
        let ghost y = bv.skip(j as int);
        if i < a.len() && j < b.len() {
            assert(x[0] == a@[i as int]@ && y[0] == b@[j as int]@);
            assert(x.drop_first() =~= av.skip(i + 1));
            assert(y.drop_first() =~= bv.skip(j + 1));
            if str_eq(a[i].as_str(), b[j].as_str()) {
                out.push(DiffStep::Both(a[i].clone()));
                assert(steps_view(out@) =~= before + seq![StepView::Both(x[0])]);
                i = i + 1;
                j = j + 1;
            } else if str_lt(a[i].as_str(), b[j].as_str()) {
                out.push(DiffStep::Removed(a[i].clone()));
                assert(steps_view(out@) =~= before + seq![StepView::Removed(x[0])]);
                i = i + 1;
            } else {
                out.push(DiffStep::Added(b[j].clone()));
                assert(steps_view(out@) =~= before + seq![StepView::Added(y[0])]);
                j = j + 1;
            }
        } else if i < a.len() {
            assert(x[0] == a@[i as int]@);
            assert(x.drop_first() =~= av.skip(i + 1));
            assert(y.len() == 0);
            out.push(DiffStep::Removed(a[i].clone()));
            assert(steps_view(out@) =~= before + seq![StepView::Removed(x[0])]);
            i = i + 1;
        } else {
            assert(y[0] == b@[j as int]@);
            assert(y.drop_first() =~= bv.skip(j + 1));
            assert(x.len() == 0);
            out.push(DiffStep::Added(b[j].clone()));
            assert(steps_view(out@) =~= before + seq![StepView::Added(y[0])]);
            j = j + 1;
        }
    }
    proof {
        assert(av.skip(i as int).len() == 0 && bv.skip(j as int).len() == 0);
        assert(steps_view(out@) + Seq::<StepView>::empty() =~= steps_view(out@));
    }
    out
}

/// What `similar::TextDiff::from_lines` yields, through `iter_all_changes`,
/// for two texts: each change's tag (0 delete, 1 insert, 2 equal) and its text.
pub uninterp spec fn line_changes(old: Seq<char>, new: Seq<char>) -> Seq<(u8, Seq<char>)>;

/// Model of a list of changes.
pub open spec fn changes_view(v: Seq<(u8, String)>) -> Seq<(u8, Seq<char>)> {
    v.map_values(|c: (u8, String)| (c.0, c.1@))
}

/// The line changes between two texts, from `similar`'s line diff
/// (`TextDiff::from_lines(..).iter_all_changes()`); the tag of each change
/// becomes 0 for a deletion, 1 for an insertion, 2 for an unchanged line.
#[verifier::external_body]
fn diff_lines(old: &str, new: &str) -> (r: Vec<(u8, String)>)
    ensures
        changes_view(r@) == line_changes(old@, new@),
{
    let diff = similar::TextDiff::from_lines(old, new);
    let mut out = Vec::new();
    for change in diff.iter_all_changes() {
        let tag = match change.tag() {
            similar::ChangeTag::Delete => 0u8,
            similar::ChangeTag::Insert => 1u8,
            similar::ChangeTag::Equal => 2u8,
        };
        out.push((tag, change.value().to_string()));
    }
    out
}

/// The sign a change's lines are shown with.
pub open spec fn sign_of(tag: u8) -> Seq<char> {
    if tag == 0 {
        "-"@
    } else if tag == 1 {
        "+"@
    } else {
        " "@
    }
}

/// Each line of each change, prefixed with the change's sign.
pub open spec fn change_lines(cs: Seq<(u8, Seq<char>)>) -> Seq<Seq<char>>
    decreases cs.len(),
{
    if cs.len() == 0 {
        Seq::empty()
    } else {
        change_lines(cs.drop_last()) + lines(cs.last().1).map_values(|l: Seq<char>| sign_of(cs.last().0) + l)
    }
}

/// The diff lines of one file present on both sides: nothing when the texts
/// are equal, else a `diff --git` header and the signed lines of the changes.
pub open spec fn file_diff(name: Seq<char>, old: Seq<char>, new: Seq<char>) -> Seq<Seq<char>> {
    if old == new {
        Seq::empty()
    } else {
        seq![
            "diff --git a/"@ + name + " b/"@ + name,
            "--- a/"@ + name,
            "+++ b/"@ + name,
        ] + change_lines(line_changes(old, new))
    }
}

/// Render the diff of one file present on both sides.
pub fn render_file_diff(name: &str, old_text: &str, new_text: &str) -> (r: Vec<String>)
    ensures
        strs_view(r@) == file_diff(name@, old_text@, new_text@),
{
    let mut out: Vec<String> = Vec::new();
    if str_eq(old_text, new_text) {
        assert(strs_view(out@) =~= Seq::<Seq<char>>::empty());
        return out;
    }
    let mut h1 = to_string("diff --git a/");
    push_str(&mut h1, name);
    push_str(&mut h1, " b/");
    push_str(&mut h1, name);
    let mut h2 = to_string("--- a/");
    push_str(&mut h2, name);
    let mut h3 = to_string("+++ b/");
    push_str(&mut h3, name);
    out.push(h1);
    out.push(h2);
    out.push(h3);
    let changes = diff_lines(old_text, new_text);
    push_change_lines(&mut out, &changes);
    out
}

/// Append the lines of each change, each prefixed with the change's sign
/// (`-` deleted, `+` inserted, a space unchanged).
pub fn push_change_lines(out: &mut Vec<String>, changes: &Vec<(u8, String)>)
    ensures
        strs_view(final(out)@) == strs_view(old(out)@) + change_lines(changes_view(changes@)),
{
    let ghost head = strs_view(out@);
    let ghost cv = changes_view(changes@);
    let mut k: usize = 0;
    assert(cv.take(0) =~= Seq::<(u8, Seq<char>)>::empty());
    while k < changes.len()
        invariant
            k <= changes.len(),
            cv == changes_view(changes@),
            strs_view(out@) == head + change_lines(cv.take(k as int)),
        decreases changes.len() - k,
    {
        let tag = changes[k].0;
        let sign = if tag == 0 {
            "-"
        } else if tag == 1 {
            "+"
        } else {
            " "
        };
        let ls = split_lines(changes[k].1.as_str());
        let ghost lv = strs_view(ls@);
        let ghost f = |l: Seq<char>| sign_of(tag) + l;
        let ghost start = strs_view(out@);
        let mut m: usize = 0;
        while m < ls.len()
            invariant
                m <= ls.len(),
                lv == strs_view(ls@),
                sign@ == sign_of(tag),
                f == (|l: Seq<char>| sign_of(tag) + l),
                strs_view(out@) == start + lv.take(m as int).map_values(f),
            decreases ls.len() - m,
        {
            let mut l = to_string(sign);
            push_str(&mut l, ls[m].as_str());
            let ghost before = strs_view(out@);
            out.push(l);
            assert(strs_view(out@) =~= before.push(sign_of(tag) + lv[m as int]));
            assert(lv.take(m + 1).map_values(f) =~= lv.take(m as int).map_values(f).push(f(lv[m as int])));
            m = m + 1;
        }
        proof {
            assert(lv.take(m as int) =~= lv);
            assert(cv.take(k + 1).drop_last() =~= cv.take(k as int));
            assert(cv.take(k + 1).last() == cv[k as int]);
            assert(cv[k as int] == (tag, changes@[k as int].1@));
        }
        assert(strs_view(out@) =~= head + change_lines(cv.take(k + 1)));
        k = k + 1;
    }
    assert(cv.take(k as int) =~= cv);
}

/// The line listing a step that is not a text comparison.
pub open spec fn listed(s: StepView) -> Seq<char> {
    match s {
        StepView::Removed(n) => "- "@ + n,
        StepView::Added(n) => "+ "@ + n,
        StepView::Both(n) => n,
    }
}

/// The line for a file only on one side: `- name` or `+ name`.
pub fn step_line(step: &DiffStep) -> (r: Option<String>)
    ensures
        match step@ {
            StepView::Both(_) => r is None,
            _ => r matches Some(l) && l@ == listed(step@),
        },
{
    match step {
        DiffStep::Both(_) => None,
        DiffStep::Removed(n) => {
            let mut l = to_string("- ");
            push_str(&mut l, n.as_str());
            Some(l)
        },
        DiffStep::Added(n) => {
            let mut l = to_string("+ ");
            push_str(&mut l, n.as_str());
            Some(l)
        },
    }
}

// ── Naming checkpoints ──

/// The commit message of a checkpoint: its trimmed summary after a fixed
/// tag; none for a blank summary (no checkpoint is made then).
pub open spec fn checkpoint_message_of(summary: Seq<char>) -> Option<Seq<char>> {
    if trim(summary).len() == 0 {
        None
    } else {
        Some("[radiumical] checkpoint: "@ + trim(summary))
    }
}

/// The commit message of a checkpoint (see [`checkpoint_message_of`]).
pub fn checkpoint_message(summary: &str) -> (r: Option<String>)
    ensures
        match checkpoint_message_of(summary@) {
            Some(m) => r matches Some(x) && x@ == m,
            None => r is None,
        },
{
    let t = trimmed(summary);
    if t.unicode_len() == 0 {
        return None;
    }
    let mut m = to_string("[radiumical] checkpoint: ");
    push_str(&mut m, t.as_str());
    Some(m)
}

/// The branch that holds a session's checkpoint commits.
pub fn checkpoint_branch(session_id: &str) -> (r: String)
    ensures
        r@ == "radi/"@ + session_id@,
{
    let mut r = to_string("radi/");
    push_str(&mut r, session_id);
    r
}

// ── What snapshots leave alone ──

/// Entries snapshots neither copy nor remove: hidden ones (`.git` among
/// them), build output and dependencies.
pub open spec fn left_alone(name: Seq<char>) -> bool {
    (name.len() > 0 && name[0] == '.') || name == "target"@ || name == "node_modules"@
}

/// Whether a snapshot leaves the entry with this name alone.
pub fn is_left_alone(name: &str) -> (b: bool)
    ensures
        b == left_alone(name@),
{
    let cs = chars_of(name);
    (cs.len() > 0 && cs[0] == '.') || str_eq(name, "target") || str_eq(name, "node_modules")
}

/// A relative path with its `\` separators written as `/`.
pub open spec fn slashed(p: Seq<char>) -> Seq<char> {
    p.map_values(|c: char| if c == '\\' { '/' } else { c })
}

/// A relative path with `/` separators, as diffs list files.
pub fn slash_path(p: &str) -> (r: String)
    ensures
        r@ == slashed(p@),
{
    let cs = chars_of(p);
    let mut out = String::new();
    let mut i: usize = 0;
    while i < cs.len()
        invariant
            i <= cs.len(),
            cs@ == p@,
            out@ == slashed(cs@.take(i as int)),
        decreases cs.len() - i,
    {
        let c = cs[i];
        push_char(&mut out, if c == '\\' { '/' } else { c });
        assert(out@ =~= slashed(cs@.take(i + 1)));
        i = i + 1;
    }
    assert(cs@.take(i as int) =~= cs@);
    out
}

} // verus!
