//! Workspace outline: for each source file, its language and the symbols a
//! simple line-based parser finds, rendered as compact text for the model.
//! Walking the workspace and caching the outline is the caller's part.
use vstd::prelude::*;
use crate::text::{
    after_prefix, before_char, before_char_string, byte_len, find, find_str, first_word,
    first_word_string, lemma_find_correct, lines, push_str, split_lines, starts_with, str_eq,
    strip_prefix_string, to_string, trim, trim_end_char, trim_end_matches_char, trim_start,
    trim_start_string, trimmed, utf8_len, words, split_words, join, join_strings, contains,
    contains_str, strs_view, chars_of, string_of_range,
};
use crate::types::opt_view;

verus! {

broadcast use vstd::seq_lib::group_seq_properties;

/// Most characters of the outline given to the model.
pub const MAX_OUTLINE_CHARS: usize = 12000;

/// A symbol found in a file.
#[derive(Debug, Clone)]
pub struct OutlineItem {
    pub kind: String,
    pub name: String,
    pub signature: Option<String>,
}

/// A file of the outline.
#[derive(Debug, Clone)]
pub struct OutlineEntry {
    pub path: String,
    pub language: String,
    pub items: Vec<OutlineItem>,
    pub modified: Option<u64>,
}

/// The outline of a workspace.
#[derive(Debug, Clone)]
pub struct WorkspaceOutline {
    pub entries: Vec<OutlineEntry>,
    pub generated_at: u64,
}

/// Model of a symbol.
pub struct ItemModel {
    pub kind: Seq<char>,
    pub name: Seq<char>,
    pub signature: Option<Seq<char>>,
}

impl View for OutlineItem {
    type V = ItemModel;

    open spec fn view(&self) -> ItemModel {
        ItemModel { kind: self.kind@, name: self.name@, signature: opt_view(self.signature) }
    }
}

/// Model of a list of symbols.
pub open spec fn items_view(v: Seq<OutlineItem>) -> Seq<ItemModel> {
    v.map_values(|i: OutlineItem| i@)
}

/// Model of a file entry.
pub struct FileModel {
    pub path: Seq<char>,
    pub language: Seq<char>,
    pub items: Seq<ItemModel>,
}

/// Model of a list of file entries.
pub open spec fn files_view(v: Seq<OutlineEntry>) -> Seq<FileModel> {
    v.map_values(|e: OutlineEntry| FileModel { path: e.path@, language: e.language@, items: items_view(e.items@) })
}

// ── Rendering ──

/// A symbol's line: kind, name and signature if any.
pub open spec fn item_line(i: ItemModel) -> Seq<char> {
    "  "@ + i.kind + " "@ + i.name + match i.signature {
        Some(s) => " "@ + s,
        None => Seq::empty(),
    } + "\n"@
}

/// The symbols' lines appended to `out`, stopping once `out` is over `max` bytes.
pub open spec fn fmt_items(out: Seq<char>, items: Seq<ItemModel>, max: nat) -> Seq<char>
    decreases items.len(),
{
    if items.len() == 0 || utf8_len(out) > max {
        out
    } else {
        fmt_items(out + item_line(items[0]), items.drop_first(), max)
    }
}

/// A file's heading line.
pub open spec fn file_header(f: FileModel) -> Seq<char> {
    f.path + " ("@ + f.language + "):\n"@
}

/// The files appended to `out`; once `out` is over `max` bytes before a file,
/// a truncation note ends the text.
pub open spec fn fmt_files(out: Seq<char>, fs: Seq<FileModel>, max: nat) -> Seq<char>
    decreases fs.len(),
{
    if fs.len() == 0 {
        out
    } else if utf8_len(out) > max {
        out + "\n... (outline truncated)\n"@
    } else {
        fmt_files(fmt_items(out + file_header(fs[0]), fs[0].items, max) + "\n"@, fs.drop_first(), max)
    }
}

/// The outline as text, bounded (roughly) by `max` bytes.
pub open spec fn rendered(fs: Seq<FileModel>, max: nat) -> Seq<char> {
    fmt_files("## Workspace Outline\n\n"@, fs, max)
}

/// `utf8_len` adds up over concatenation.
pub proof fn lemma_utf8_len_concat(a: Seq<char>, b: Seq<char>)
    ensures
        utf8_len(a + b) == utf8_len(a) + utf8_len(b),
    decreases b.len(),
{
    if b.len() > 0 {
        lemma_utf8_len_concat(a, b.drop_last());
        assert((a + b).drop_last() =~= a + b.drop_last());
    } else {
        assert(a + b =~= a);
    }
}

/// The byte length of text written so far, capped just above `usize::MAX`.
pub open spec fn capped(n: nat) -> nat {
    if n > usize::MAX + 1 {
        (usize::MAX + 1) as nat
    } else {
        n
    }
}

/// Appends `t` to `out`, keeping the capped byte count.
fn append(out: &mut String, bytes: &mut u128, t: &str)
    requires
        *old(bytes) == capped(utf8_len(old(out)@)),
    ensures
        final(out)@ == old(out)@ + t@,
        *final(bytes) == capped(utf8_len(final(out)@)),
{
    let n = byte_len(t);
    proof {
        lemma_utf8_len_concat(out@, t@);
    }
    push_str(out, t);
    let sum = *bytes + n;
    *bytes = if sum > usize::MAX as u128 + 1 {
        usize::MAX as u128 + 1
    } else {
        sum
    };
}

impl WorkspaceOutline {
    /// Whether the outline lists no file.
    pub fn is_empty(&self) -> (b: bool)
        ensures
            b == (self.entries@.len() == 0),
    {
        self.entries.len() == 0
    }

    /// The outline as text for the model: each file with its symbols; once the
    /// text exceeds `max_chars` bytes no further symbol is added, and before a
    /// further file a truncation note ends it.
    #[verifier::spinoff_prover]
    #[verifier::rlimit(40)]
    pub fn format(&self, max_chars: usize) -> (r: String)
        ensures
            r@ == rendered(files_view(self.entries@), max_chars as nat),
    {
        let ghost fs = files_view(self.entries@);
        let mut out = String::new();
        let mut bytes: u128 = 0;
        assert(utf8_len(out@) == 0);
        append(&mut out, &mut bytes, "## Workspace Outline\n\n");
        let mut i: usize = 0;
        assert(fs.skip(0) =~= fs);
        while i < self.entries.len()
            invariant_except_break
                i <= self.entries.len(),
                fs == files_view(self.entries@),
                bytes == capped(utf8_len(out@)),
                rendered(fs, max_chars as nat) == fmt_files(out@, fs.skip(i as int), max_chars as nat),
            ensures
                rendered(fs, max_chars as nat) == out@,
            decreases self.entries.len() - i,
        {
            let ghost rest = fs.skip(i as int);
            if bytes > max_chars as u128 {
                append(&mut out, &mut bytes, "\n... (outline truncated)\n");
                break;
            }
            let entry = &self.entries[i];
            let ghost fm = rest[0];
            assert(fm.path == entry.path@ && fm.language == entry.language@ && fm.items == items_view(entry.items@));
            let ghost before_header = out@;
            append(&mut out, &mut bytes, entry.path.as_str());
            append(&mut out, &mut bytes, " (");
            append(&mut out, &mut bytes, entry.language.as_str());
            append(&mut out, &mut bytes, "):\n");
            let ghost items = fm.items;
            let ghost start = out@;
            assert(start =~= before_header + file_header(fm));
            let mut j: usize = 0;
            assert(items.skip(0) =~= items);
            while j < entry.items.len()
                invariant_except_break
                    j <= entry.items.len(),
                    items == items_view(entry.items@),
                    bytes == capped(utf8_len(out@)),
                    fmt_items(start, items, max_chars as nat) == fmt_items(out@, items.skip(j as int), max_chars as nat),
                ensures
                    bytes == capped(utf8_len(out@)),
                    fmt_items(start, items, max_chars as nat) == out@,
                decreases entry.items.len() - j,
            {
                if bytes > max_chars as u128 {
                    break;
                }
                let item = &entry.items[j];
                let ghost before_item = out@;
                append(&mut out, &mut bytes, "  ");
                append(&mut out, &mut bytes, item.kind.as_str());
                append(&mut out, &mut bytes, " ");
                append(&mut out, &mut bytes, item.name.as_str());
                match &item.signature {
                    Some(s) => {
                        append(&mut out, &mut bytes, " ");
                        append(&mut out, &mut bytes, s.as_str());
                    },
                    None => {},
                }
                append(&mut out, &mut bytes, "\n");
                proof {
                    let isk = items.skip(j as int);
                    assert(isk[0] == item@);
                    assert(isk.drop_first() =~= items.skip(j + 1));
                    assert(out@ =~= before_item + item_line(item@));
                }
                j = j + 1;
            }
            proof {
                if j == entry.items.len() {
                    assert(items.skip(j as int).len() == 0);
                }
            }
            append(&mut out, &mut bytes, "\n");
            proof {
                assert(rest.drop_first() =~= fs.skip(i + 1));
            }
            i = i + 1;
        }
        proof {
            if i == self.entries.len() {
                assert(fs.skip(i as int).len() == 0);
            }
        }
        out
    }
}

// ── Languages ──

/// What follows the last `c` in `s`, or all of `s` (`s.rsplit(c).next()`).
pub open spec fn after_last(s: Seq<char>, c: char) -> Seq<char>
    decreases s.len(),
{
    if s.len() == 0 {
        s
    } else if s.last() == c {
        Seq::empty()
    } else {
        after_last(s.drop_last(), c).push(s.last())
    }
}

/// The language named by a file path's extension.
pub open spec fn language_of(path: Seq<char>) -> Seq<char> {
    let e = after_last(path, '.');
    if e == "rs"@ {
        "rust"@
    } else if e == "py"@ {
        "python"@
    } else if e == "js"@ {
        "javascript"@
    } else if e == "ts"@ {
        "typescript"@
    } else if e == "tsx"@ {
        "typescript-tsx"@
    } else if e == "go"@ {
        "go"@
    } else if e == "java"@ {
        "java"@
    } else if e == "c"@ {
        "c"@
    } else if e == "cpp"@ || e == "hpp"@ {
        "cpp"@
    } else if e == "h"@ {
        "c-header"@
    } else {
        "text"@
    }
}

/// The language of a file, from its extension.
pub fn language_for(path: &str) -> (r: String)
    ensures
        r@ == language_of(path@),
{
    let cs = crate::text::chars_of(path);
    let mut k = cs.len();
    while k > 0 && cs[k - 1] != '.'
        invariant
            k <= cs.len(),
            after_last(cs@, '.') == after_last(cs@.take(k as int), '.') + cs@.skip(k as int),
        decreases k,
    {
        proof {
            let t = cs@.take(k as int);
            assert(t.drop_last() =~= cs@.take(k - 1));
            assert(cs@.skip(k - 1) =~= seq![t.last()] + cs@.skip(k as int));
            assert(after_last(t, '.') == after_last(t.drop_last(), '.').push(t.last()));
            assert(after_last(cs@.take(k - 1), '.') + cs@.skip(k - 1) =~= after_last(t.drop_last(), '.').push(t.last()) + cs@.skip(k as int));
        }
        k = k - 1;
    }
    proof {
        assert(cs@.take(cs.len() as int) =~= cs@);
        assert(cs@.skip(cs.len() as int) =~= Seq::<char>::empty());
    }
    let ext = crate::text::string_of_range(&cs, k, cs.len());
    proof {
        if k > 0 {
            assert(after_last(cs@.take(k as int), '.') =~= Seq::<char>::empty());
        } else {
            assert(cs@.take(0) =~= Seq::<char>::empty());
        }
        assert(ext@ =~= after_last(cs@, '.'));
    }
    let e = ext.as_str();
    let lang = if str_eq(e, "rs") {
        "rust"
    } else if str_eq(e, "py") {
        "python"
    } else if str_eq(e, "js") {
        "javascript"
    } else if str_eq(e, "ts") {
        "typescript"
    } else if str_eq(e, "tsx") {
        "typescript-tsx"
    } else if str_eq(e, "go") {
        "go"
    } else if str_eq(e, "java") {
        "java"
    } else if str_eq(e, "c") {
        "c"
    } else if str_eq(e, "cpp") || str_eq(e, "hpp") {
        "cpp"
    } else if str_eq(e, "h") {
        "c-header"
    } else {
        "text"
    };
    to_string(lang)
}

// ── Line parsers ──

/// A line without its comment: what precedes the first `marker`.
pub open spec fn strip_comment(line: Seq<char>, marker: Seq<char>) -> Seq<char> {
    match find(line, marker) {
        Some(k) => line.take(k),
        None => line,
    }
}

fn strip_line_comment(line: &str, marker: &str) -> (r: String)
    ensures
        r@ == strip_comment(line@, marker@),
{
    match find_str(line, marker) {
        Some(k) => {
            proof {
                lemma_find_correct(line@, marker@);
            }
            let cs = crate::text::chars_of(line);
            assert(cs@.subrange(0, k as int) =~= line@.take(k as int));
            crate::text::string_of_range(&cs, 0, k)
        },
        None => to_string(line),
    }
}

/// The signature shown for a declaration line: trimmed, without a trailing
/// `;` or `{`.
pub open spec fn signature_of(line: Seq<char>) -> Seq<char> {
    trim(trim_end_char(trim_end_char(trim(line), ';'), '{'))
}

fn extract_signature(line: &str) -> (r: String)
    ensures
        r@ == signature_of(line@),
{
    let a = trimmed(line);
    let b = trim_end_matches_char(a.as_str(), ';');
    let c = trim_end_matches_char(b.as_str(), '{');
    trimmed(c.as_str())
}

/// A symbol without a signature.
pub open spec fn named(kind: Seq<char>, name: Seq<char>) -> ItemModel {
    ItemModel { kind, name, signature: None }
}

/// The name a Rust declaration gives after its keyword: up to `(` for
/// functions; the first word without a trailing `{` then `;` for types; the
/// first word without a trailing `:` for constants.
pub open spec fn decl_name(kw: Seq<char>, after: Seq<char>) -> Option<Seq<char>> {
    if kw == "fn"@ {
        Some(trim(before_char(after, '(')))
    } else if kw == "const"@ || kw == "static"@ {
        match first_word(after) {
            Some(w) => Some(trim_end_char(w, ':')),
            None => None,
        }
    } else {
        match first_word(after) {
            Some(w) => Some(trim_end_char(trim_end_char(w, '{'), ';')),
            None => None,
        }
    }
}

/// The symbol a Rust declaration introduces, when `rest` starts with the keyword and a space.
pub open spec fn rust_decl(rest: Seq<char>, kw: Seq<char>) -> Option<ItemModel> {
    match after_prefix(rest, kw + " "@) {
        Some(after) => match decl_name(kw, after) {
            Some(n) => Some(named(kw, n)),
            None => None,
        },
        None => None,
    }
}

/// The first declaration kind that matches.
pub open spec fn first_decl(rest: Seq<char>) -> Option<ItemModel> {
    if rust_decl(rest, "fn"@) is Some {
        rust_decl(rest, "fn"@)
    } else if rust_decl(rest, "struct"@) is Some {
        rust_decl(rest, "struct"@)
    } else if rust_decl(rest, "enum"@) is Some {
        rust_decl(rest, "enum"@)
    } else if rust_decl(rest, "trait"@) is Some {
        rust_decl(rest, "trait"@)
    } else if rust_decl(rest, "type"@) is Some {
        rust_decl(rest, "type"@)
    } else if rust_decl(rest, "const"@) is Some {
        rust_decl(rest, "const"@)
    } else {
        rust_decl(rest, "static"@)
    }
}

/// The `mod` declared by a trimmed line, if any.
pub open spec fn rust_mod(t: Seq<char>) -> Option<ItemModel> {
    match after_prefix(t, "mod "@) {
        Some(m) => {
            let name = match first_word(trim_end_char(m, ';')) {
                Some(w) => w,
                None => Seq::empty(),
            };
            if name.len() > 0 && name[0] != '{' {
                Some(named("mod"@, name))
            } else {
                None
            }
        },
        None => None,
    }
}

/// The symbol a Rust source line declares: a `mod`, a `use`, an `impl`, or a
/// (possibly `pub`) `fn`, `struct`, `enum`, `trait`, `type`, `const` or `static`.
pub open spec fn rust_item(raw: Seq<char>) -> Option<ItemModel> {
    let line = strip_comment(raw, "//"@);
    let t = trim(line);
    if t.len() == 0 {
        None
    } else if rust_mod(t) is Some {
        rust_mod(t)
    } else if "use "@.is_prefix_of(t) {
        let sig = trim_end_char(t, ';');
        Some(ItemModel { kind: "use"@, name: sig, signature: Some(sig) })
    } else if "impl"@.is_prefix_of(t) {
        let sig = signature_of(line);
        Some(ItemModel { kind: "impl"@, name: sig, signature: Some(sig) })
    } else {
        let ts = trim_start(line);
        let rest = match after_prefix(ts, "pub "@) {
            Some(r) => trim_start(r),
            None => ts,
        };
        first_decl(rest)
    }
}

/// The symbol a Python source line declares: a `def` or a `class`.
pub open spec fn python_item(raw: Seq<char>) -> Option<ItemModel> {
    let line = strip_comment(raw, "#"@);
    let t = trim_start(line);
    match after_prefix(t, "def "@) {
        Some(rest) => Some(
            ItemModel {
                kind: "def"@,
                name: trim(before_char(rest, '(')),
                signature: Some(signature_of(line)),
            },
        ),
        None => match after_prefix(t, "class "@) {
            Some(rest) => Some(named("class"@, trim(before_char(before_char(rest, ':'), '(')))),
            None => None,
        },
    }
}

/// The symbols of the lines, in order, for the given per-line parser.
pub open spec fn collect_items(ls: Seq<Seq<char>>, f: spec_fn(Seq<char>) -> Option<ItemModel>) -> Seq<ItemModel>
    decreases ls.len(),
{
    if ls.len() == 0 {
        Seq::empty()
    } else {
        collect_items(ls.drop_last(), f) + match f(ls.last()) {
            Some(i) => seq![i],
            None => Seq::empty(),
        }
    }
}

fn item(kind: &str, name: String, signature: Option<String>) -> (r: OutlineItem)
    ensures
        r@ == (ItemModel { kind: kind@, name: name@, signature: opt_view(signature) }),
{
    OutlineItem { kind: to_string(kind), name, signature }
}

fn rust_decl_exec(rest: &str, kw: &str) -> (r: Option<OutlineItem>)
    ensures
        match rust_decl(rest@, kw@) {
            Some(m) => r matches Some(x) && x@ == m,
            None => r is None,
        },
{
    proof {
        reveal_strlit(" ");
        reveal_strlit("fn");
        reveal_strlit("const");
        reveal_strlit("static");
    }
    let mut prefix = to_string(kw);
    push_str(&mut prefix, " ");
    let after = match strip_prefix_string(rest, prefix.as_str()) {
        Some(a) => a,
        None => {
            return None;
        },
    };
    let name = if str_eq(kw, "fn") {
        let b = before_char_string(after.as_str(), '(');
        trimmed(b.as_str())
    } else if str_eq(kw, "const") || str_eq(kw, "static") {
        match first_word_string(after.as_str()) {
            Some(w) => trim_end_matches_char(w.as_str(), ':'),
            None => {
                return None;
            },
        }
    } else {
        match first_word_string(after.as_str()) {
            Some(w) => {
                let x = trim_end_matches_char(w.as_str(), '{');
                trim_end_matches_char(x.as_str(), ';')
            },
            None => {
                return None;
            },
        }
    };
    Some(item(kw, name, None))
}

fn rust_line(raw: &str) -> (r: Option<OutlineItem>)
    ensures
        match rust_item(raw@) {
            Some(m) => r matches Some(x) && x@ == m,
            None => r is None,
        },
{
    proof {
        reveal_strlit("");
        reveal_strlit("mod ");
        reveal_strlit("use ");
        reveal_strlit("impl");
        reveal_strlit("pub ");
    }
    let line = strip_line_comment(raw, "//");
    let t = trimmed(line.as_str());
    if t.as_str().is_empty() {
        return None;
    }
    match strip_prefix_string(t.as_str(), "mod ") {
        Some(m) => {
            let m2 = trim_end_matches_char(m.as_str(), ';');
            let name = match first_word_string(m2.as_str()) {
                Some(w) => w,
                None => String::new(),
            };
            let nc = crate::text::chars_of(name.as_str());
            if nc.len() > 0 && nc[0] != '{' {
                return Some(item("mod", name, None));
            }
        },
        None => {},
    }
    if starts_with(t.as_str(), "use ") {
        let sig = trim_end_matches_char(t.as_str(), ';');
        return Some(item("use", sig.clone(), Some(sig)));
    }
    if starts_with(t.as_str(), "impl") {
        let sig = extract_signature(line.as_str());
        return Some(item("impl", sig.clone(), Some(sig)));
    }
    let ts = trim_start_string(line.as_str());
    let rest = match strip_prefix_string(ts.as_str(), "pub ") {
        Some(r) => trim_start_string(r.as_str()),
        None => ts,
    };
    if let Some(i) = rust_decl_exec(rest.as_str(), "fn") {
        return Some(i);
    }
    if let Some(i) = rust_decl_exec(rest.as_str(), "struct") {
        return Some(i);
    }
    if let Some(i) = rust_decl_exec(rest.as_str(), "enum") {
        return Some(i);
    }
    if let Some(i) = rust_decl_exec(rest.as_str(), "trait") {
        return Some(i);
    }
    if let Some(i) = rust_decl_exec(rest.as_str(), "type") {
        return Some(i);
    }
    if let Some(i) = rust_decl_exec(rest.as_str(), "const") {
        return Some(i);
    }
    rust_decl_exec(rest.as_str(), "static")
}

fn python_line(raw: &str) -> (r: Option<OutlineItem>)
    ensures
        match python_item(raw@) {
            Some(m) => r matches Some(x) && x@ == m,
            None => r is None,
        },
{
    let line = strip_line_comment(raw, "#");
    let t = trim_start_string(line.as_str());
    match strip_prefix_string(t.as_str(), "def ") {
        Some(rest) => {
            let b = before_char_string(rest.as_str(), '(');
            let name = trimmed(b.as_str());
            let sig = extract_signature(line.as_str());
            Some(item("def", name, Some(sig)))
        },
        None => match strip_prefix_string(t.as_str(), "class ") {
            Some(rest) => {
                let a = before_char_string(rest.as_str(), ':');
                let b = before_char_string(a.as_str(), '(');
                Some(item("class", trimmed(b.as_str()), None))
            },
            None => None,
        },
    }
}

/// The symbols of a Rust source text, one per declaring line, in order.
pub fn parse_rust(text: &str) -> (r: Vec<OutlineItem>)
    ensures
        items_view(r@) == collect_items(lines(text@), |l: Seq<char>| rust_item(l)),
{
    let ls = split_lines(text);
    let ghost lv = crate::text::strs_view(ls@);
    let ghost f = |l: Seq<char>| rust_item(l);
    let mut out: Vec<OutlineItem> = Vec::new();
    let mut i: usize = 0;
    assert(lv.take(0) =~= Seq::<Seq<char>>::empty());
    assert(items_view(out@) =~= Seq::<ItemModel>::empty());
    while i < ls.len()
        invariant
            i <= ls.len(),
            lv == crate::text::strs_view(ls@),
            f == (|l: Seq<char>| rust_item(l)),
            items_view(out@) == collect_items(lv.take(i as int), f),
        decreases ls.len() - i,
    {
        proof {
            assert(lv.take(i + 1).drop_last() =~= lv.take(i as int));
            assert(lv.take(i + 1).last() == ls@[i as int]@);
        }
        let ghost before = items_view(out@);
        match rust_line(ls[i].as_str()) {
            Some(it) => {
                out.push(it);
                assert(items_view(out@) =~= before + seq![out@.last()@]);
            },
            None => {
                assert(items_view(out@) =~= before + Seq::<ItemModel>::empty());
            },
        }
        i = i + 1;
    }
    assert(lv.take(i as int) =~= lv);
    out
}

/// The symbols of a Python source text, one per declaring line, in order.
pub fn parse_python(text: &str) -> (r: Vec<OutlineItem>)
    ensures
        items_view(r@) == collect_items(lines(text@), |l: Seq<char>| python_item(l)),
{
    let ls = split_lines(text);
    let ghost lv = crate::text::strs_view(ls@);
    let ghost f = |l: Seq<char>| python_item(l);
    let mut out: Vec<OutlineItem> = Vec::new();
    let mut i: usize = 0;
    assert(lv.take(0) =~= Seq::<Seq<char>>::empty());
    assert(items_view(out@) =~= Seq::<ItemModel>::empty());
    while i < ls.len()
        invariant
            i <= ls.len(),
            lv == crate::text::strs_view(ls@),
            f == (|l: Seq<char>| python_item(l)),
            items_view(out@) == collect_items(lv.take(i as int), f),
        decreases ls.len() - i,
    {
        proof {
            assert(lv.take(i + 1).drop_last() =~= lv.take(i as int));
            assert(lv.take(i + 1).last() == ls@[i as int]@);
        }
        let ghost before = items_view(out@);
        match python_line(ls[i].as_str()) {
            Some(it) => {
                out.push(it);
                assert(items_view(out@) =~= before + seq![out@.last()@]);
            },
            None => {
                assert(items_view(out@) =~= before + Seq::<ItemModel>::empty());
            },
        }
        i = i + 1;
    }
    assert(lv.take(i as int) =~= lv);
    out
}

// ── Other languages ──

/// The last whitespace-separated word of `s`.
pub open spec fn last_word(s: Seq<char>) -> Option<Seq<char>> {
    if words(s).len() > 0 {
        Some(words(s).last())
    } else {
        None
    }
}

/// `s.split_whitespace().last()`.
fn last_word_string(s: &str) -> (r: Option<String>)
    ensures
        match last_word(s@) {
            Some(w) => r matches Some(x) && x@ == w,
            None => r is None,
        },
{
    let mut ws = split_words(s);
    if ws.len() > 0 {
        let w = ws.pop().unwrap();
        Some(w)
    } else {
        None
    }
}

/// The symbol a JavaScript or TypeScript line declares: a function, a
/// class, or an exported function, class or `const`/`let`/`var`.
pub open spec fn js_item(raw: Seq<char>) -> Option<ItemModel> {
    let line = strip_comment(raw, "//"@);
    let t = trim_start(line);
    match after_prefix(t, "function "@) {
        Some(rest) => Some(ItemModel { kind: "function"@, name: trim(before_char(rest, '(')), signature: Some(signature_of(line)) }),
        None => match after_prefix(t, "class "@) {
            Some(rest) => Some(named("class"@, trim(trim_end_char(before_char(rest, ' '), '{')))),
            None => if "export "@.is_prefix_of(t) {
                let inner = trim_start(t.skip(7));
                match after_prefix(inner, "function "@) {
                    Some(rest) => Some(ItemModel { kind: "function"@, name: trim(before_char(rest, '(')), signature: Some(signature_of(line)) }),
                    None => match after_prefix(inner, "class "@) {
                        Some(rest) => Some(named("class"@, trim(trim_end_char(before_char(rest, ' '), '{')))),
                        None => match js_binding(inner) {
                            Some(rest) => Some(named("const"@, trim(before_char(rest, '=')))),
                            None => None,
                        },
                    },
                }
            } else {
                None
            },
        },
    }
}

/// What follows `const `, `let ` or `var ` at the start of `s`.
pub open spec fn js_binding(s: Seq<char>) -> Option<Seq<char>> {
    match after_prefix(s, "const "@) {
        Some(r) => Some(r),
        None => match after_prefix(s, "let "@) {
            Some(r) => Some(r),
            None => after_prefix(s, "var "@),
        },
    }
}

/// The symbol a Go line declares: a `func` (named by the last word before
/// its `(`) or a `type`.
pub open spec fn go_item(raw: Seq<char>) -> Option<ItemModel> {
    let line = strip_comment(raw, "//"@);
    let t = trim_start(line);
    if "func "@.is_prefix_of(t) {
        let sig = signature_of(line);
        let name = match last_word(before_char(sig, '(')) {
            Some(w) => w,
            None => Seq::empty(),
        };
        if name.len() > 0 {
            Some(ItemModel { kind: "func"@, name, signature: Some(sig) })
        } else {
            None
        }
    } else {
        match after_prefix(t, "type "@) {
            Some(rest) => match first_word(rest) {
                Some(w) => Some(named("type"@, w)),
                None => None,
            },
            None => None,
        }
    }
}

/// The symbol a Java line declares: after a `public`, `private` or
/// `protected` modifier, a method (a line with `(`) or a class or interface.
pub open spec fn java_item(raw: Seq<char>) -> Option<ItemModel> {
    let line = strip_comment(raw, "//"@);
    let t = trim_start(line);
    if "public "@.is_prefix_of(t) || "private "@.is_prefix_of(t) || "protected "@.is_prefix_of(t) {
        let rest = join(all_but_first(words(t)), " "@);
        if contains(rest, "("@) {
            match last_word(before_char(rest, '(')) {
                Some(n) => Some(ItemModel { kind: "method"@, name: n, signature: Some(signature_of(line)) }),
                None => None,
            }
        } else if "class "@.is_prefix_of(rest) {
            match first_word(rest.skip(6)) {
                Some(n) => Some(named("class"@, n)),
                None => None,
            }
        } else if "interface "@.is_prefix_of(rest) {
            match first_word(rest.skip(10)) {
                Some(n) => Some(named("interface"@, n)),
                None => None,
            }
        } else {
            None
        }
    } else {
        None
    }
}

/// The symbol a C or C++ line declares: a `typedef struct`/`typedef enum`,
/// a `struct`, an `enum`, or a function (a line with `(` that is not a
/// preprocessor line, named by the last word before the `(`).
pub open spec fn c_item(raw: Seq<char>) -> Option<ItemModel> {
    let line = strip_comment(raw, "//"@);
    let t = trim_start(line);
    if "typedef "@.is_prefix_of(t) {
        let rest = trim_start(t.skip(8));
        if "struct "@.is_prefix_of(rest) || "enum "@.is_prefix_of(rest) {
            if words(rest).len() > 1 {
                Some(named("typedef"@, trim_end_char(words(rest)[1], ';')))
            } else {
                None
            }
        } else {
            None
        }
    } else if "struct "@.is_prefix_of(t) {
        match first_word(t.skip(7)) {
            Some(w) => Some(named("struct"@, trim_end_char(w, '{'))),
            None => None,
        }
    } else if "enum "@.is_prefix_of(t) {
        match first_word(t.skip(5)) {
            Some(w) => Some(named("enum"@, trim_end_char(w, '{'))),
            None => None,
        }
    } else if contains(t, "("@) && !"#"@.is_prefix_of(t) {
        match last_word(before_char(t, '(')) {
            Some(n) => Some(ItemModel { kind: "function"@, name: n, signature: Some(signature_of(line)) }),
            None => None,
        }
    } else {
        None
    }
}

/// `s` without its first `n` characters.
fn skip_chars(s: &str, n: usize) -> (r: String)
    requires
        n <= s@.len(),
    ensures
        r@ == s@.skip(n as int),
{
    let cs = chars_of(s);
    assert(cs@.subrange(n as int, cs.len() as int) =~= s@.skip(n as int));
    string_of_range(&cs, n, cs.len())
}

fn js_line(raw: &str) -> (r: Option<OutlineItem>)
    ensures
        match js_item(raw@) {
            Some(m) => r matches Some(x) && x@ == m,
            None => r is None,
        },
{
    let line = strip_line_comment(raw, "//");
    let t = trim_start_string(line.as_str());
    if let Some(rest) = strip_prefix_string(t.as_str(), "function ") {
        let b = before_char_string(rest.as_str(), '(');
        return Some(item("function", trimmed(b.as_str()), Some(extract_signature(line.as_str()))));
    }
    if let Some(rest) = strip_prefix_string(t.as_str(), "class ") {
        let b = before_char_string(rest.as_str(), ' ');
        let c = trim_end_matches_char(b.as_str(), '{');
        return Some(item("class", trimmed(c.as_str()), None));
    }
    if !starts_with(t.as_str(), "export ") {
        return None;
    }
    proof {
        reveal_strlit("export ");
    }
    let after = skip_chars(t.as_str(), 7);
    let inner = trim_start_string(after.as_str());
    if let Some(rest) = strip_prefix_string(inner.as_str(), "function ") {
        let b = before_char_string(rest.as_str(), '(');
        return Some(item("function", trimmed(b.as_str()), Some(extract_signature(line.as_str()))));
    }
    if let Some(rest) = strip_prefix_string(inner.as_str(), "class ") {
        let b = before_char_string(rest.as_str(), ' ');
        let c = trim_end_matches_char(b.as_str(), '{');
        return Some(item("class", trimmed(c.as_str()), None));
    }
    let binding = match strip_prefix_string(inner.as_str(), "const ") {
        Some(r) => Some(r),
        None => match strip_prefix_string(inner.as_str(), "let ") {
            Some(r) => Some(r),
            None => strip_prefix_string(inner.as_str(), "var "),
        },
    };
    match binding {
        Some(rest) => {
            let b = before_char_string(rest.as_str(), '=');
            Some(item("const", trimmed(b.as_str()), None))
        },
        None => None,
    }
}

fn go_line(raw: &str) -> (r: Option<OutlineItem>)
    ensures
        match go_item(raw@) {
            Some(m) => r matches Some(x) && x@ == m,
            None => r is None,
        },
{
    let line = strip_line_comment(raw, "//");
    let t = trim_start_string(line.as_str());
    if starts_with(t.as_str(), "func ") {
        let sig = extract_signature(line.as_str());
        let b = before_char_string(sig.as_str(), '(');
        let name = match last_word_string(b.as_str()) {
            Some(w) => w,
            None => String::new(),
        };
        if name.unicode_len() > 0 {
            return Some(item("func", name, Some(sig)));
        }
        return None;
    }
    match strip_prefix_string(t.as_str(), "type ") {
        Some(rest) => match first_word_string(rest.as_str()) {
            Some(w) => Some(item("type", w, None)),
            None => None,
        },
        None => None,
    }
}

/// The words after the first one.
pub open spec fn all_but_first(ws: Seq<Seq<char>>) -> Seq<Seq<char>> {
    if ws.len() == 0 {
        ws
    } else {
        ws.skip(1)
    }
}

/// `words.join(" ")` of all but the first word of `s`.
fn words_after_first(s: &str) -> (r: String)
    ensures
        r@ == join(all_but_first(words(s@)), " "@),
{
    let mut ws = split_words(s);
    if ws.len() > 0 {
        let ghost all = strs_view(ws@);
        ws.remove(0);
        assert(strs_view(ws@) =~= all.skip(1));
    } else {
        assert(strs_view(ws@) =~= all_but_first(words(s@)));
    }
    join_strings(&ws, " ")
}

fn java_line(raw: &str) -> (r: Option<OutlineItem>)
    ensures
        match java_item(raw@) {
            Some(m) => r matches Some(x) && x@ == m,
            None => r is None,
        },
{
    let line = strip_line_comment(raw, "//");
    let t = trim_start_string(line.as_str());
    if !(starts_with(t.as_str(), "public ") || starts_with(t.as_str(), "private ") || starts_with(t.as_str(), "protected ")) {
        return None;
    }
    let rest = words_after_first(t.as_str());
    if contains_str(rest.as_str(), "(") {
        let b = before_char_string(rest.as_str(), '(');
        return match last_word_string(b.as_str()) {
            Some(n) => Some(item("method", n, Some(extract_signature(line.as_str())))),
            None => None,
        };
    }
    proof {
        reveal_strlit("class ");
        reveal_strlit("interface ");
    }
    if starts_with(rest.as_str(), "class ") {
        let a = skip_chars(rest.as_str(), 6);
        return match first_word_string(a.as_str()) {
            Some(n) => Some(item("class", n, None)),
            None => None,
        };
    }
    if starts_with(rest.as_str(), "interface ") {
        let a = skip_chars(rest.as_str(), 10);
        return match first_word_string(a.as_str()) {
            Some(n) => Some(item("interface", n, None)),
            None => None,
        };
    }
    None
}

fn c_line(raw: &str) -> (r: Option<OutlineItem>)
    ensures
        match c_item(raw@) {
            Some(m) => r matches Some(x) && x@ == m,
            None => r is None,
        },
{
    proof {
        reveal_strlit("typedef ");
        reveal_strlit("struct ");
        reveal_strlit("enum ");
    }
    let line = strip_line_comment(raw, "//");
    let t = trim_start_string(line.as_str());
    if starts_with(t.as_str(), "typedef ") {
        let after = skip_chars(t.as_str(), 8);
        let rest = trim_start_string(after.as_str());
        if starts_with(rest.as_str(), "struct ") || starts_with(rest.as_str(), "enum ") {
            let ws = split_words(rest.as_str());
            if ws.len() > 1 {
                let n = trim_end_matches_char(ws[1].as_str(), ';');
                return Some(item("typedef", n, None));
            }
        }
        return None;
    }
    if starts_with(t.as_str(), "struct ") {
        let a = skip_chars(t.as_str(), 7);
        return match first_word_string(a.as_str()) {
            Some(w) => Some(item("struct", trim_end_matches_char(w.as_str(), '{'), None)),
            None => None,
        };
    }
    if starts_with(t.as_str(), "enum ") {
        let a = skip_chars(t.as_str(), 5);
        return match first_word_string(a.as_str()) {
            Some(w) => Some(item("enum", trim_end_matches_char(w.as_str(), '{'), None)),
            None => None,
        };
    }
    if contains_str(t.as_str(), "(") && !starts_with(t.as_str(), "#") {
        let b = before_char_string(t.as_str(), '(');
        return match last_word_string(b.as_str()) {
            Some(n) => Some(item("function", n, Some(extract_signature(line.as_str())))),
            None => None,
        };
    }
    None
}

/// The languages with a line parser.
#[derive(Debug, Clone, Copy, PartialEq, Eq, Structural)]
pub enum LineLang {
    Rust,
    Python,
    JsTs,
    Go,
    Java,
    CFamily,
}

/// The per-line parser of a language.
pub open spec fn lang_item(lang: LineLang, raw: Seq<char>) -> Option<ItemModel> {
    match lang {
        LineLang::Rust => rust_item(raw),
        LineLang::Python => python_item(raw),
        LineLang::JsTs => js_item(raw),
        LineLang::Go => go_item(raw),
        LineLang::Java => java_item(raw),
        LineLang::CFamily => c_item(raw),
    }
}

fn lang_line(lang: LineLang, raw: &str) -> (r: Option<OutlineItem>)
    ensures
        match lang_item(lang, raw@) {
            Some(m) => r matches Some(x) && x@ == m,
            None => r is None,
        },
{
    match lang {
        LineLang::Rust => rust_line(raw),
        LineLang::Python => python_line(raw),
        LineLang::JsTs => js_line(raw),
        LineLang::Go => go_line(raw),
        LineLang::Java => java_line(raw),
        LineLang::CFamily => c_line(raw),
    }
}

/// The symbols of a source text for a language, one per declaring line, in order.
pub fn parse_lines(text: &str, lang: LineLang) -> (r: Vec<OutlineItem>)
    ensures
        items_view(r@) == collect_items(lines(text@), |l: Seq<char>| lang_item(lang, l)),
{
    let ls = split_lines(text);
    let ghost lv = crate::text::strs_view(ls@);
    let ghost f = |l: Seq<char>| lang_item(lang, l);
    let mut out: Vec<OutlineItem> = Vec::new();
    let mut i: usize = 0;
    assert(lv.take(0) =~= Seq::<Seq<char>>::empty());
    assert(items_view(out@) =~= Seq::<ItemModel>::empty());
    while i < ls.len()
        invariant
            i <= ls.len(),
            lv == crate::text::strs_view(ls@),
            f == (|l: Seq<char>| lang_item(lang, l)),
            items_view(out@) == collect_items(lv.take(i as int), f),
        decreases ls.len() - i,
    {
        proof {
            assert(lv.take(i + 1).drop_last() =~= lv.take(i as int));
            assert(lv.take(i + 1).last() == ls@[i as int]@);
        }
        let ghost before = items_view(out@);
        match lang_line(lang, ls[i].as_str()) {
            Some(it) => {
                out.push(it);
                assert(items_view(out@) =~= before + seq![out@.last()@]);
            },
            None => {
                assert(items_view(out@) =~= before + Seq::<ItemModel>::empty());
            },
        }
        i = i + 1;
    }
    assert(lv.take(i as int) =~= lv);
    out
}

/// The symbols of a JavaScript or TypeScript text.
pub fn parse_js_ts(text: &str) -> (r: Vec<OutlineItem>)
    ensures
        items_view(r@) == collect_items(lines(text@), |l: Seq<char>| lang_item(LineLang::JsTs, l)),
{
    parse_lines(text, LineLang::JsTs)
}

/// The symbols of a Go text.
pub fn parse_go(text: &str) -> (r: Vec<OutlineItem>)
    ensures
        items_view(r@) == collect_items(lines(text@), |l: Seq<char>| lang_item(LineLang::Go, l)),
{
    parse_lines(text, LineLang::Go)
}

/// The symbols of a Java text.
pub fn parse_java(text: &str) -> (r: Vec<OutlineItem>)
    ensures
        items_view(r@) == collect_items(lines(text@), |l: Seq<char>| lang_item(LineLang::Java, l)),
{
    parse_lines(text, LineLang::Java)
}

/// The symbols of a C or C++ text.
pub fn parse_c_family(text: &str) -> (r: Vec<OutlineItem>)
    ensures
        items_view(r@) == collect_items(lines(text@), |l: Seq<char>| lang_item(LineLang::CFamily, l)),
{
    parse_lines(text, LineLang::CFamily)
}

/// The line parser used for a language name, if it has one.
pub open spec fn parser_for(language: Seq<char>) -> Option<LineLang> {
    if language == "rust"@ {
        Some(LineLang::Rust)
    } else if language == "python"@ {
        Some(LineLang::Python)
    } else if language == "javascript"@ || language == "typescript"@ || language == "typescript-tsx"@ {
        Some(LineLang::JsTs)
    } else if language == "go"@ {
        Some(LineLang::Go)
    } else if language == "java"@ {
        Some(LineLang::Java)
    } else if language == "c"@ || language == "cpp"@ || language == "c-header"@ {
        Some(LineLang::CFamily)
    } else {
        None
    }
}

/// The symbols of a file's text in the named language; none for a language
/// without a parser.
pub fn extract_items(text: &str, language: &str) -> (r: Vec<OutlineItem>)
    ensures
        match parser_for(language@) {
            Some(l) => items_view(r@) == collect_items(lines(text@), |x: Seq<char>| lang_item(l, x)),
            None => r@.len() == 0,
        },
{
    let lang = if str_eq(language, "rust") {
        LineLang::Rust
    } else if str_eq(language, "python") {
        LineLang::Python
    } else if str_eq(language, "javascript") || str_eq(language, "typescript") || str_eq(language, "typescript-tsx") {
        LineLang::JsTs
    } else if str_eq(language, "go") {
        LineLang::Go
    } else if str_eq(language, "java") {
        LineLang::Java
    } else if str_eq(language, "c") || str_eq(language, "cpp") || str_eq(language, "c-header") {
        LineLang::CFamily
    } else {
        return Vec::new();
    };
    parse_lines(text, lang)
}

// ── Which files an outline covers ──

/// What follows the last `c` in `s`, as a string.
pub(crate) fn after_last_string(s: &str, c: char) -> (r: String)
    ensures
        r@ == after_last(s@, c),
{
    let cs = chars_of(s);
    let mut k = cs.len();
    assert(cs@.take(k as int) =~= cs@);
    while k > 0 && cs[k - 1] != c
        invariant
            k <= cs.len(),
            after_last(cs@, c) == after_last(cs@.take(k as int), c) + cs@.skip(k as int),
        decreases k,
    {
        proof {
            let t = cs@.take(k as int);
            assert(t.drop_last() =~= cs@.take(k - 1));
            assert(cs@.skip(k - 1) =~= seq![t.last()] + cs@.skip(k as int));
            assert(after_last(cs@.take(k - 1), c) + cs@.skip(k - 1) =~= after_last(t.drop_last(), c).push(t.last()) + cs@.skip(k as int));
        }
        k = k - 1;
    }
    proof {
        if k > 0 {
            assert(after_last(cs@.take(k as int), c) =~= Seq::<char>::empty());
        } else {
            assert(cs@.take(0) =~= Seq::<char>::empty());
        }
        assert(cs@.subrange(k as int, cs.len() as int) =~= cs@.skip(k as int));
    }
    string_of_range(&cs, k, cs.len())
}

proof fn lemma_after_last_shorter(s: Seq<char>, c: char)
    ensures
        after_last(s, c).len() <= s.len(),
    decreases s.len(),
{
    if s.len() > 0 && s.last() != c {
        lemma_after_last_shorter(s.drop_last(), c);
    }
}

/// The extensions of the files an outline covers.
pub open spec fn source_ext(e: Seq<char>) -> bool {
    e == "rs"@ || e == "py"@ || e == "js"@ || e == "ts"@ || e == "tsx"@ || e == "go"@ || e == "java"@
        || e == "c"@ || e == "cpp"@ || e == "h"@ || e == "hpp"@
}

/// Whether a path names a source file an outline covers: its name does not
/// start with `.` and its extension is a source one.
pub open spec fn source_file(path: Seq<char>) -> bool {
    let name = after_last(path, '/');
    !(name.len() > 0 && name[0] == '.') && match crate::plugins::extension(path) {
        Some(e) => source_ext(e),
        None => false,
    }
}

/// Whether a path names a source file an outline covers.
pub fn is_source_file(path: &str) -> (b: bool)
    ensures
        b == source_file(path@),
{
    let name = after_last_string(path, '/');
    let nc = chars_of(name.as_str());
    if nc.len() > 0 && nc[0] == '.' {
        return false;
    }
    let stem = after_last_string(name.as_str(), '.');
    let sl = stem.unicode_len();
    let nl = nc.len();
    proof {
        lemma_after_last_shorter(name@, '.');
    }
    if sl == nl || sl + 1 == nl {
        return false;
    }
    let e = stem.as_str();
    str_eq(e, "rs") || str_eq(e, "py") || str_eq(e, "js") || str_eq(e, "ts") || str_eq(e, "tsx")
        || str_eq(e, "go") || str_eq(e, "java") || str_eq(e, "c") || str_eq(e, "cpp") || str_eq(e, "h")
        || str_eq(e, "hpp")
}

/// Whether a directory is left out of an outline: hidden, or a build or
/// dependency directory.
pub open spec fn skipped_dir(name: Seq<char>) -> bool {
    (name.len() > 0 && name[0] == '.') || name == "target"@ || name == "node_modules"@ || name == "dist"@
        || name == "build"@
}

/// Whether a directory is left out of an outline.
pub fn is_skipped_dir(name: &str) -> (b: bool)
    ensures
        b == skipped_dir(name@),
{
    let nc = chars_of(name);
    (nc.len() > 0 && nc[0] == '.') || str_eq(name, "target") || str_eq(name, "node_modules") || str_eq(
        name,
        "dist",
    ) || str_eq(name, "build")
}

// ── Cached outlines ──

/// The modification time listed for a relative path (the first entry for
/// it), or 0 when it is not listed or could not be read.
pub open spec fn listed_mtime(files: Seq<(Seq<char>, Option<u64>)>, path: Seq<char>) -> u64
    decreases files.len(),
{
    if files.len() == 0 {
        0
    } else if files[0].0 == path {
        match files[0].1 {
            Some(t) => t,
            None => 0,
        }
    } else {
        listed_mtime(files.drop_first(), path)
    }
}

/// Model of a file listing.
pub open spec fn listing_view(v: Seq<(String, Option<u64>)>) -> Seq<(Seq<char>, Option<u64>)> {
    v.map_values(|p: (String, Option<u64>)| (p.0@, p.1))
}

/// Whether a cached outline still describes the source files: each entry's
/// recorded time (0 when none) equals the file's current one, and there are
/// as many entries as files.
pub open spec fn outline_fresh(entries: Seq<OutlineEntry>, files: Seq<(Seq<char>, Option<u64>)>) -> bool {
    &&& forall|i: int| 0 <= i < entries.len() ==> listed_mtime(files, #[trigger] entries[i].path@) == match entries[i].modified {
        Some(t) => t,
        None => 0u64,
    }
    &&& entries.len() == files.len()
}

fn mtime_lookup(files: &[(String, Option<u64>)], path: &str) -> (t: u64)
    ensures
        t == listed_mtime(listing_view(files@), path@),
{
    let ghost fv = listing_view(files@);
    let mut i: usize = 0;
    assert(fv.skip(0) =~= fv);
    while i < files.len()
        invariant
            i <= files@.len(),
            fv == listing_view(files@),
            listed_mtime(fv, path@) == listed_mtime(fv.skip(i as int), path@),
        decreases files.len() - i,
    {
        assert(fv.skip(i as int)[0] == (files@[i as int].0@, files@[i as int].1));
        assert(fv.skip(i as int).drop_first() =~= fv.skip(i + 1));
        if str_eq(files[i].0.as_str(), path) {
            return match files[i].1 {
                Some(t) => t,
                None => 0,
            };
        }
        i = i + 1;
    }
    0
}

/// Whether a cached outline may be used as it is, given the source files
/// (relative path and current modification time, if readable).
pub fn outline_is_fresh(cached: &WorkspaceOutline, files: &[(String, Option<u64>)]) -> (b: bool)
    ensures
        b == outline_fresh(cached.entries@, listing_view(files@)),
{
    let mut i: usize = 0;
    while i < cached.entries.len()
        invariant
            i <= cached.entries@.len(),
            forall|j: int| 0 <= j < i ==> listed_mtime(listing_view(files@), #[trigger] cached.entries@[j].path@) == match cached.entries@[j].modified {
                Some(t) => t,
                None => 0u64,
            },
        decreases cached.entries.len() - i,
    {
        let e = &cached.entries[i];
        let want = match e.modified {
            Some(t) => t,
            None => 0,
        };
        if mtime_lookup(files, e.path.as_str()) != want {
            return false;
        }
        i = i + 1;
    }
    cached.entries.len() == files.len()
}

/// The outline entry of a source file, given its path relative to the
/// workspace, its text and its modification time; `None` when it declares
/// nothing.
pub fn outline_entry(relative: &str, text: &str, modified: Option<u64>) -> (r: Option<OutlineEntry>)
    ensures
        match parser_for(language_of(relative@)) {
            Some(l) => {
                let items = collect_items(lines(text@), |x: Seq<char>| lang_item(l, x));
                if items.len() == 0 {
                    r is None
                } else {
                    r matches Some(e) && e.path@ == relative@ && e.language@ == language_of(relative@)
                        && items_view(e.items@) == items && e.modified == modified
                }
            },
            None => r is None,
        },
{
    let language = language_for(relative);
    let items = extract_items(text, language.as_str());
    if items.len() == 0 {
        return None;
    }
    Some(OutlineEntry { path: to_string(relative), language, items, modified })
}

// ── Directory trees ──

/// The branch drawn before an entry of a directory tree.
pub open spec fn tree_branch(is_last: bool) -> Seq<char> {
    if is_last {
        "└── "@
    } else {
        "├── "@
    }
}

/// The line of a directory tree for an entry: the indentation of its
/// level, its branch, its name and a line break.
pub fn tree_line(prefix: &str, is_last: bool, name: &str) -> (r: String)
    ensures
        r@ == prefix@ + tree_branch(is_last) + name@ + "\n"@,
{
    let mut r = to_string(prefix);
    push_str(&mut r, if is_last { "└── " } else { "├── " });
    push_str(&mut r, name);
    push_str(&mut r, "\n");
    r
}

/// The indentation of the entries below an entry: a continuing rule unless
/// the entry is the last of its directory.
pub fn tree_child_prefix(prefix: &str, is_last: bool) -> (r: String)
    ensures
        r@ == prefix@ + if is_last {
            "    "@
        } else {
            "│   "@
        },
{
    let mut r = to_string(prefix);
    push_str(&mut r, if is_last { "    " } else { "│   " });
    r
}

/// Whether a directory tree leaves an entry out: hidden entries (their name
/// starts with `.`) are shown only at the top depth of three.
pub fn tree_skips(name: &str, depth: usize) -> (b: bool)
    ensures
        b == (name@.len() > 0 && name@[0] == '.' && depth < 3),
{
    let cs = crate::text::chars_of(name);
    cs.len() > 0 && cs[0] == '.' && depth < 3
}

/// The depth a tree is drawn to: at most three levels.
pub fn tree_depth(depth: usize) -> (d: usize)
    ensures
        d == if depth < 3 { depth } else { 3 },
{
    if depth < 3 { depth } else { 3 }
}

} // verus!
