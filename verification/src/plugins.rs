//! Plugins: named extensions, and source plugins that analyze files and
//! report findings. Their registries merge what the plugins report; a simple
//! built-in linter finds TODO/FIXME/XXX markers and trailing whitespace.
//!
//! Reading the analyzed file is the caller's part: source plugins get its text.
use vstd::prelude::*;
use crate::sort::{keyed, sort_keyed, stable_sort, KeyView, SortKey};
use crate::text::{
    byte_len, chars_of, dec, dec_string, find, find_str, lemma_find_correct, lines, push_str,
    split_lines, str_eq, strs_view, to_string, trim, trimmed, utf8_len,
};
use crate::conversation::clamp_usize;

verus! {

broadcast use vstd::seq_lib::group_seq_properties;

// ── Source plugins ──

/// Severity of a finding, from least to most severe.
#[derive(Debug, Clone, Copy, PartialEq, Eq, PartialOrd, Ord, Structural)]
pub enum Severity {
    Info,
    Warning,
    Error,
}

/// Rank of a severity in the order findings are listed.
pub open spec fn severity_rank(s: Severity) -> nat {
    match s {
        Severity::Info => 0,
        Severity::Warning => 1,
        Severity::Error => 2,
    }
}

/// One finding of a source plugin; `line` counts from one, `column` is a byte offset.
#[derive(Debug, Clone)]
pub struct Finding {
    pub line: usize,
    pub column: usize,
    pub severity: Severity,
    pub message: String,
    pub code: Option<String>,
}

/// Model of a finding.
pub struct FindingView {
    pub line: nat,
    pub column: nat,
    pub severity: Severity,
    pub message: Seq<char>,
    pub code: Option<Seq<char>>,
}

impl View for Finding {
    type V = FindingView;

    open spec fn view(&self) -> FindingView {
        FindingView {
            line: self.line as nat,
            column: self.column as nat,
            severity: self.severity,
            message: self.message@,
            code: crate::types::opt_view(self.code),
        }
    }
}

/// Model of a list of findings.
pub open spec fn findings_view(v: Seq<Finding>) -> Seq<FindingView> {
    v.map_values(|f: Finding| f@)
}

/// What a source plugin reports for a file.
#[derive(Debug, Clone)]
pub struct SourceSummary {
    pub language: Option<String>,
    pub symbol_count: usize,
    pub findings: Vec<Finding>,
    pub notes: Vec<String>,
}

impl Default for SourceSummary {
    fn default() -> (s: Self)
        ensures
            s.language is None,
            s.symbol_count == 0,
            s.findings@.len() == 0,
            s.notes@.len() == 0,
    {
        SourceSummary { language: None, symbol_count: 0, findings: Vec::new(), notes: Vec::new() }
    }
}

/// The extension of a path's file name: what follows its last `.`, unless
/// that `.` starts the name or there is none.
pub open spec fn extension(path: Seq<char>) -> Option<Seq<char>> {
    let name = crate::outline::after_last(path, '/');
    let stem = crate::outline::after_last(name, '.');
    if stem.len() == name.len() || stem.len() + 1 == name.len() {
        None
    } else {
        Some(stem)
    }
}

/// The language a source plugin reports for a path, by its extension.
pub open spec fn source_language(path: Seq<char>) -> Option<Seq<char>> {
    match extension(path) {
        Some(e) => if e == "rs"@ {
            Some("rust"@)
        } else if e == "py"@ {
            Some("python"@)
        } else if e == "js"@ || e == "ts"@ || e == "tsx"@ {
            Some("javascript"@)
        } else if e == "go"@ {
            Some("go"@)
        } else if e == "c"@ || e == "cpp"@ || e == "h"@ || e == "hpp"@ {
            Some("c/c++"@)
        } else if e == "java"@ {
            Some("java"@)
        } else {
            None
        },
        None => None,
    }
}

proof fn lemma_after_last_len(s: Seq<char>, c: char)
    ensures
        crate::outline::after_last(s, c).len() <= s.len(),
        crate::outline::after_last(s, c) == s.skip(s.len() - crate::outline::after_last(s, c).len()),
        crate::outline::after_last(s, c).len() < s.len() ==> s[s.len() - 1 - crate::outline::after_last(s, c).len()] == c,
    decreases s.len(),
{
    if s.len() > 0 && s.last() != c {
        lemma_after_last_len(s.drop_last(), c);
        let t = crate::outline::after_last(s.drop_last(), c);
        assert(s.skip(s.len() - (t.len() + 1)) =~= s.drop_last().skip(s.len() - 1 - t.len()).push(s.last()));
    } else if s.len() > 0 {
        assert(s.skip(s.len() as int) =~= Seq::<char>::empty());
    }
}

/// Index just past the last `c` in `cs`, or 0.
fn after_last_index(cs: &Vec<char>, c: char) -> (k: usize)
    ensures
        k <= cs.len(),
        cs@.skip(k as int) == crate::outline::after_last(cs@, c),
{
    let mut k = cs.len();
    assert(cs@.take(k as int) =~= cs@);
    while k > 0 && cs[k - 1] != c
        invariant
            k <= cs.len(),
            crate::outline::after_last(cs@, c) == crate::outline::after_last(cs@.take(k as int), c) + cs@.skip(k as int),
        decreases k,
    {
        proof {
            let t = cs@.take(k as int);
            assert(t.drop_last() =~= cs@.take(k - 1));
            assert(cs@.skip(k - 1) =~= seq![t.last()] + cs@.skip(k as int));
            assert(crate::outline::after_last(cs@.take(k - 1), c) + cs@.skip(k - 1) =~= crate::outline::after_last(t.drop_last(), c).push(t.last()) + cs@.skip(k as int));
        }
        k = k - 1;
    }
    proof {
        if k > 0 {
            assert(crate::outline::after_last(cs@.take(k as int), c) =~= Seq::<char>::empty());
        } else {
            assert(cs@.take(0) =~= Seq::<char>::empty());
        }
        assert(crate::outline::after_last(cs@, c) =~= cs@.skip(k as int));
    }
    k
}

/// The language a source plugin reports for a path.
pub fn language_for(path: &str) -> (r: Option<String>)
    ensures
        match source_language(path@) {
            Some(l) => r matches Some(x) && x@ == l,
            None => r is None,
        },
{
    let cs = chars_of(path);
    let a = after_last_index(&cs, '/');
    let name = crate::text::string_of_range(&cs, a, cs.len());
    assert(name@ =~= crate::outline::after_last(path@, '/'));
    let ns = chars_of(name.as_str());
    let b = after_last_index(&ns, '.');
    if b == 0 || b == 1 {
        proof {
            assert(ns@.skip(b as int).len() == ns@.len() - b);
        }
        return None;
    }
    let e = crate::text::string_of_range(&ns, b, ns.len());
    assert(e@ =~= crate::outline::after_last(name@, '.'));
    let es = e.as_str();
    let lang = if str_eq(es, "rs") {
        "rust"
    } else if str_eq(es, "py") {
        "python"
    } else if str_eq(es, "js") || str_eq(es, "ts") || str_eq(es, "tsx") {
        "javascript"
    } else if str_eq(es, "go") {
        "go"
    } else if str_eq(es, "c") || str_eq(es, "cpp") || str_eq(es, "h") || str_eq(es, "hpp") {
        "c/c++"
    } else if str_eq(es, "java") {
        "java"
    } else {
        return None;
    };
    Some(to_string(lang))
}

/// What one plugin answered: its name and its summary or error.
pub struct PluginOutcome {
    pub plugin: String,
    pub result: Result<SourceSummary, String>,
}

/// The findings of the successful outcomes, in order.
pub open spec fn all_findings(os: Seq<PluginOutcome>) -> Seq<Finding>
    decreases os.len(),
{
    if os.len() == 0 {
        Seq::empty()
    } else {
        all_findings(os.drop_last()) + match os.last().result {
            Ok(s) => s.findings@,
            Err(_) => Seq::empty(),
        }
    }
}

/// The notes of the outcomes, in order; a failure contributes a note naming the plugin.
pub open spec fn all_notes(os: Seq<PluginOutcome>) -> Seq<Seq<char>>
    decreases os.len(),
{
    if os.len() == 0 {
        Seq::empty()
    } else {
        all_notes(os.drop_last()) + match os.last().result {
            Ok(s) => strs_view(s.notes@),
            Err(e) => seq![os.last().plugin@ + " failed: "@ + e@],
        }
    }
}

/// The symbols counted by the successful outcomes.
pub open spec fn all_symbols(os: Seq<PluginOutcome>) -> nat
    decreases os.len(),
{
    if os.len() == 0 {
        0
    } else {
        all_symbols(os.drop_last()) + match os.last().result {
            Ok(s) => s.symbol_count as nat,
            Err(_) => 0,
        }
    }
}

/// The order findings are listed in: by severity, then line, then column.
pub open spec fn finding_key(f: Finding) -> KeyView {
    KeyView::Triple(severity_rank(f.severity), f.line as nat, f.column as nat)
}

/// Findings paired with their keys.
pub open spec fn findings_keyed(fs: Seq<Finding>) -> Seq<(Finding, KeyView)> {
    fs.map_values(|f: Finding| (f, finding_key(f)))
}

/// Which registered source plugins to ask about a file: given, in
/// registration order, whether each can handle the file's path, the
/// positions of those that can, in order. No other plugin is asked.
pub fn plugins_to_ask(handles: &[bool]) -> (r: Vec<usize>)
    ensures
        r@ == crate::dynamic::set_positions(handles@, handles@.len() as int),
{
    let mut r: Vec<usize> = Vec::new();
    let mut i: usize = 0;
    while i < handles.len()
        invariant
            i <= handles.len(),
            r@ == crate::dynamic::set_positions(handles@, i as int),
        decreases handles.len() - i,
    {
        if handles[i] {
            r.push(i);
        }
        i = i + 1;
    }
    r
}

/// Merge what the plugins reported: symbol counts add up (`usize::MAX` where
/// the sum does not fit), findings are listed by severity, line and column
/// (keeping their order otherwise), and notes follow the outcomes' order.
pub fn merge_outcomes(language: Option<String>, outcomes: Vec<PluginOutcome>) -> (r: SourceSummary)
    ensures
        r.language == language,
        r.symbol_count == clamp_usize(all_symbols(outcomes@)),
        r.findings@ == crate::sort::unkeyed(sort_keyed(findings_keyed(all_findings(outcomes@)))),
        strs_view(r.notes@) == all_notes(outcomes@),
{
    let ghost all = outcomes@;
    let n = outcomes.len();
    let mut rest = outcomes;
    let mut symbols: u128 = 0;
    let mut pairs: Vec<(Finding, SortKey)> = Vec::new();
    let mut notes: Vec<String> = Vec::new();
    let mut i: usize = 0;
    while rest.len() > 0
        invariant
            i + rest.len() == all.len() == n,
            rest@ == all.skip(i as int),
            symbols <= usize::MAX + 1,
            symbols <= usize::MAX ==> symbols == all_symbols(all.take(i as int)),
            symbols > usize::MAX ==> all_symbols(all.take(i as int)) > usize::MAX,
            keyed(pairs@) == findings_keyed(all_findings(all.take(i as int))),
            strs_view(notes@) == all_notes(all.take(i as int)),
        decreases rest.len(),
    {
        let o = rest.remove(0);
        proof {
            assert(all.skip(i as int)[0] == o);
            assert(rest@ =~= all.skip(i + 1));
            assert(all.take(i + 1).drop_last() =~= all.take(i as int));
            assert(all.take(i + 1).last() == o);
        }
        let PluginOutcome { plugin, result } = o;
        match result {
            Ok(summary) => {
                let SourceSummary { language: _, symbol_count, findings, notes: more } = summary;
                if symbols <= usize::MAX as u128 {
                    let s = symbols + symbol_count as u128;
                    symbols = if s > usize::MAX as u128 {
                        usize::MAX as u128 + 1
                    } else {
                        s
                    };
                }
                let ghost fv = findings@;
                let ghost before_pairs = keyed(pairs@);
                let mut fs = findings;
                let mut j: usize = 0;
                let m = fs.len();
                while fs.len() > 0
                    invariant
                        j + fs.len() == fv.len() == m,
                        fs@ == fv.skip(j as int),
                        keyed(pairs@) == before_pairs + findings_keyed(fv.take(j as int)),
                    decreases fs.len(),
                {
                    let f = fs.remove(0);
                    proof {
                        assert(fv.skip(j as int)[0] == f);
                        assert(fs@ =~= fv.skip(j + 1));
                    }
                    let key = SortKey::Triple(
                        match f.severity {
                            Severity::Info => 0,
                            Severity::Warning => 1,
                            Severity::Error => 2,
                        },
                        f.line as u64,
                        f.column as u64,
                    );
                    let ghost kv = key@;
                    let ghost pv = keyed(pairs@);
                    pairs.push((f, key));
                    assert(keyed(pairs@) =~= pv.push((f, kv)));
                    assert(findings_keyed(fv.take(j + 1)) =~= findings_keyed(fv.take(j as int)).push((f, finding_key(f))));
                    j = j + 1;
                }
                assert(fv.take(j as int) =~= fv);
                assert(findings_keyed(all_findings(all.take(i as int)) + fv) =~= findings_keyed(all_findings(all.take(i as int))) + findings_keyed(fv));
                let ghost nv = strs_view(notes@);
                let mut k: usize = 0;
                while k < more.len()
                    invariant
                        k <= more.len(),
                        strs_view(notes@) == nv + strs_view(more@).take(k as int),
                    decreases more.len() - k,
                {
                    let ghost before = strs_view(notes@);
                    notes.push(more[k].clone());
                    assert(strs_view(notes@) =~= before.push(more@[k as int]@));
                    assert(strs_view(more@).take(k + 1) =~= strs_view(more@).take(k as int).push(more@[k as int]@));
                    k = k + 1;
                }
                assert(strs_view(more@).take(k as int) =~= strs_view(more@));
            },
            Err(e) => {
                let mut note = plugin;
                push_str(&mut note, " failed: ");
                push_str(&mut note, e.as_str());
                let ghost before = strs_view(notes@);
                notes.push(note);
                assert(strs_view(notes@) =~= before + seq![note@]);
            },
        }
        i = i + 1;
    }
    assert(all.take(i as int) =~= all);
    let sorted = stable_sort(pairs);
    let findings = crate::sort::strip_keys(sorted);
    SourceSummary {
        language,
        symbol_count: if symbols > usize::MAX as u128 {
            usize::MAX
        } else {
            symbols as usize
        },
        findings,
        notes,
    }
}

// ── Built-in linter ──

/// The markers the linter looks for.
pub open spec fn marker(k: int) -> Seq<char> {
    if k == 0 {
        "TODO"@
    } else if k == 1 {
        "FIXME"@
    } else {
        "XXX"@
    }
}

/// The finding for marker `k` on a line, if the line holds it.
pub open spec fn marker_finding(n: nat, line: Seq<char>, k: int) -> Seq<FindingView> {
    match find(line, marker(k)) {
        Some(pos) => seq![FindingView {
            line: n,
            column: clamp_usize(utf8_len(line.take(pos))),
            severity: Severity::Info,
            message: "Found "@ + marker(k) + " marker"@,
            code: Some(trim(line)),
        }],
        None => Seq::empty(),
    }
}

/// The findings for line number `n`: its markers, then trailing whitespace.
pub open spec fn line_findings(n: nat, line: Seq<char>) -> Seq<FindingView> {
    marker_finding(n, line, 0) + marker_finding(n, line, 1) + marker_finding(n, line, 2) + if line.len() > 0 && (line.last() == ' ' || line.last() == '\t') {
        seq![FindingView {
            line: n,
            column: clamp_usize(utf8_len(line)),
            severity: Severity::Warning,
            message: "Trailing whitespace"@,
            code: None,
        }]
    } else {
        Seq::empty()
    }
}

/// The findings for the lines, numbered from one.
pub open spec fn lint_lines(ls: Seq<Seq<char>>) -> Seq<FindingView>
    decreases ls.len(),
{
    if ls.len() == 0 {
        Seq::empty()
    } else {
        lint_lines(ls.drop_last()) + line_findings(ls.len(), ls.last())
    }
}

/// The built-in linter: TODO/FIXME/XXX markers and trailing whitespace.
pub struct RegexLinter;

fn clamp_bytes(n: u128) -> (r: usize)
    ensures
        r == clamp_usize(n as nat),
{
    if n > usize::MAX as u128 {
        usize::MAX
    } else {
        n as usize
    }
}

#[verifier::spinoff_prover]
#[verifier::rlimit(30)]
fn lint_line(n: usize, line: &str) -> (r: Vec<Finding>)
    ensures
        findings_view(r@) == line_findings(n as nat, line@),
{
    let mut findings: Vec<Finding> = Vec::new();
    let ghost start = findings_view(findings@);
    let mut k: usize = 0;
    while k < 3
        invariant
            k <= 3,
            findings_view(findings@) == start + (if k >= 1 { marker_finding(n as nat, line@, 0) } else { Seq::empty() })
                + (if k >= 2 { marker_finding(n as nat, line@, 1) } else { Seq::empty() })
                + (if k >= 3 { marker_finding(n as nat, line@, 2) } else { Seq::empty() }),
        decreases 3 - k,
    {
        let m = if k == 0 {
            "TODO"
        } else if k == 1 {
            "FIXME"
        } else {
            "XXX"
        };
        assert(m@ == marker(k as int));
        let ghost before = findings_view(findings@);
        match find_str(line, m) {
            Some(pos) => {
                proof {
                    lemma_find_correct(line@, m@);
                }
                let cs = chars_of(line);
                let prefix = crate::text::string_of_range(&cs, 0, pos);
                assert(prefix@ =~= line@.take(pos as int));
                let col = clamp_bytes(byte_len(prefix.as_str()));
                let mut msg = to_string("Found ");
                push_str(&mut msg, m);
                push_str(&mut msg, " marker");
                let code = trimmed(line);
                let f = Finding { line: n, column: col, severity: Severity::Info, message: msg, code: Some(code) };
                let ghost fv = f@;
                findings.push(f);
                assert(findings_view(findings@) =~= before.push(fv));
                assert(marker_finding(n as nat, line@, k as int) =~= seq![fv]);
            },
            None => {},
        }
        k = k + 1;
    }
    let cs = chars_of(line);
    let ghost mid = findings_view(findings@);
    if cs.len() > 0 && (cs[cs.len() - 1] == ' ' || cs[cs.len() - 1] == '\t') {
        let col = clamp_bytes(byte_len(line));
        let f = Finding {
            line: n,
            column: col,
            severity: Severity::Warning,
            message: to_string("Trailing whitespace"),
            code: None,
        };
        let ghost fv = f@;
        findings.push(f);
        assert(findings_view(findings@) =~= mid.push(fv));
    }
    assert(findings_view(findings@) =~= line_findings(n as nat, line@));
    findings
}

impl RegexLinter {
    /// Lint a file's text: for each line, a finding per marker it holds (at
    /// the marker's byte offset) and one for trailing whitespace (at the
    /// line's byte length), and a note with the number of lines.
    pub fn scan(relative_path: &str, text: &str) -> (r: SourceSummary)
        ensures
            findings_view(r.findings@) == lint_lines(lines(text@)),
            strs_view(r.notes@) == seq!["RegexLinter scanned "@ + dec(lines(text@).len()) + " lines"@],
            r.symbol_count == 0,
            match source_language(relative_path@) {
                Some(l) => r.language matches Some(x) && x@ == l,
                None => r.language is None,
            },
    {
        let ls = split_lines(text);
        let ghost lv = strs_view(ls@);
        let mut findings: Vec<Finding> = Vec::new();
        let mut i: usize = 0;
        assert(lv.take(0) =~= Seq::<Seq<char>>::empty());
        assert(findings_view(findings@) =~= Seq::<FindingView>::empty());
        while i < ls.len()
            invariant
                i <= ls.len(),
                lv == strs_view(ls@),
                findings_view(findings@) == lint_lines(lv.take(i as int)),
            decreases ls.len() - i,
        {
            let line = ls[i].as_str();
            let n = i + 1;
            let ghost start = findings_view(findings@);
            let mut more = lint_line(n, line);
            let ghost mv = findings_view(more@);
            let mut k: usize = 0;
            let cnt = more.len();
            while more.len() > 0
                invariant
                    k + more.len() == cnt == mv.len(),
                    findings_view(more@) == mv.skip(k as int),
                    findings_view(findings@) == start + mv.take(k as int),
                decreases more.len(),
            {
                let f = more.remove(0);
                proof {
                    assert(findings_view(more@) =~= mv.skip(k + 1));
                    assert(mv.skip(k as int)[0] == f@);
                }
                let ghost before = findings_view(findings@);
                findings.push(f);
                assert(findings_view(findings@) =~= before.push(mv[k as int]));
                assert(mv.take(k + 1) =~= mv.take(k as int).push(mv[k as int]));
                k = k + 1;
            }
            assert(mv.take(k as int) =~= mv);
            proof {
                assert(lv.take(i + 1).drop_last() =~= lv.take(i as int));
                assert(lv.take(i + 1).last() == lv[i as int]);
                assert(lv.take(i + 1).len() == n);
                assert(line@ == lv[i as int]);
            }
            assert(findings_view(findings@) =~= lint_lines(lv.take(i + 1)));
            i = i + 1;
        }
        assert(lv.take(i as int) =~= lv);
        let mut note = to_string("RegexLinter scanned ");
        let count = dec_string(ls.len() as u64);
        push_str(&mut note, count.as_str());
        push_str(&mut note, " lines");
        let mut notes: Vec<String> = Vec::new();
        notes.push(note);
        assert(strs_view(notes@) =~= seq!["RegexLinter scanned "@ + dec(lv.len()) + " lines"@]);
        SourceSummary { language: language_for(relative_path), symbol_count: 0, findings, notes }
    }

    /// The linter's plugin identifier.
    pub fn id(&self) -> (r: &str)
        ensures
            r@ == "regex_linter"@,
    {
        "regex_linter"
    }

    /// The linter's display name.
    pub fn name(&self) -> (r: &str)
        ensures
            r@ == "Regex Linter"@,
    {
        "Regex Linter"
    }

    /// What the linter analyzes.
    pub fn description(&self) -> (r: &str)
        ensures
            r@ == "Finds TODO/FIXME/XXX markers and trailing whitespace in source files."@,
    {
        "Finds TODO/FIXME/XXX markers and trailing whitespace in source files."
    }

    /// The linter handles files whose extension names a known language.
    pub fn handles(relative_path: &str) -> (b: bool)
        ensures
            b == (source_language(relative_path@) is Some),
    {
        language_for(relative_path).is_some()
    }
}

} // verus!
